use vstd::prelude::*;

verus! {

/// The kinds of instruction of the language.
///
/// `Clear` has no glyph: only the optimizer produces it.
#[derive(Debug, Clone, Copy, PartialEq, Eq, Structural)]
pub enum Opcode {
    IncPtr,
    DecPtr,
    Inc,
    Dec,
    Double,
    Halve,
    Print,
    Read,
    Push,
    Pop,
    Dup,
    Swap,
    Count,
    Compare,
    JzCell,
    JnzCell,
    JzStack,
    JnzStack,
    JmpStack,
    Str,
    Break,
    BinMod,
    ChrMod,
    IntMod,
    HexMod,
    Terminate,
    Clear,
}

/// The opcode that a single-character operator stands for.
pub open spec fn glyph_opcode(c: char) -> Option<Opcode> {
    if c == '<' {
        Some(Opcode::DecPtr)
    } else if c == '>' {
        Some(Opcode::IncPtr)
    } else if c == '[' {
        Some(Opcode::JzCell)
    } else if c == ']' {
        Some(Opcode::JnzCell)
    } else if c == '(' {
        Some(Opcode::JzStack)
    } else if c == ')' {
        Some(Opcode::JnzStack)
    } else if c == '+' {
        Some(Opcode::Inc)
    } else if c == '-' {
        Some(Opcode::Dec)
    } else if c == '*' {
        Some(Opcode::Double)
    } else if c == '/' {
        Some(Opcode::Halve)
    } else if c == '\\' {
        Some(Opcode::Swap)
    } else if c == '.' {
        Some(Opcode::Print)
    } else if c == ',' {
        Some(Opcode::Read)
    } else if c == ':' {
        Some(Opcode::Push)
    } else if c == ';' {
        Some(Opcode::Pop)
    } else if c == '&' {
        Some(Opcode::Dup)
    } else if c == '^' {
        Some(Opcode::JmpStack)
    } else if c == '#' {
        Some(Opcode::Count)
    } else if c == '=' {
        Some(Opcode::Compare)
    } else if c == 'b' {
        Some(Opcode::BinMod)
    } else if c == 'c' {
        Some(Opcode::ChrMod)
    } else if c == 'i' {
        Some(Opcode::IntMod)
    } else if c == 'q' {
        Some(Opcode::Terminate)
    } else if c == 'x' {
        Some(Opcode::HexMod)
    } else if c == '!' {
        Some(Opcode::Break)
    } else {
        None
    }
}

/// The single-character operator of an opcode, for those that have one.
/// (`Str` is written with quotes around a body, `Clear` has no glyph.)
pub open spec fn opcode_glyph(op: Opcode) -> Option<char> {
    match op {
        Opcode::DecPtr => Some('<'),
        Opcode::IncPtr => Some('>'),
        Opcode::JzCell => Some('['),
        Opcode::JnzCell => Some(']'),
        Opcode::JzStack => Some('('),
        Opcode::JnzStack => Some(')'),
        Opcode::Inc => Some('+'),
        Opcode::Dec => Some('-'),
        Opcode::Double => Some('*'),
        Opcode::Halve => Some('/'),
        Opcode::Swap => Some('\\'),
        Opcode::Print => Some('.'),
        Opcode::Read => Some(','),
        Opcode::Push => Some(':'),
        Opcode::Pop => Some(';'),
        Opcode::Dup => Some('&'),
        Opcode::JmpStack => Some('^'),
        Opcode::Count => Some('#'),
        Opcode::Compare => Some('='),
        Opcode::BinMod => Some('b'),
        Opcode::ChrMod => Some('c'),
        Opcode::IntMod => Some('i'),
        Opcode::Terminate => Some('q'),
        Opcode::HexMod => Some('x'),
        Opcode::Break => Some('!'),
        Opcode::Str => None,
        Opcode::Clear => None,
    }
}

/// An opener of a loop, of either flavour.
pub open spec fn is_opener(op: Opcode) -> bool {
    op == Opcode::JzCell || op == Opcode::JzStack
}

/// A closer of a loop, of either flavour.
pub open spec fn is_closer(op: Opcode) -> bool {
    op == Opcode::JnzCell || op == Opcode::JnzStack
}

/// Every glyph names an opcode whose glyph it is, and back.
pub proof fn lemma_glyph_round_trip(c: char, op: Opcode)
    ensures
        glyph_opcode(c) == Some(op) <==> opcode_glyph(op) == Some(c),
{
}

/// The one-byte tag of an opcode on the debugger connection: its place in
/// the enumeration.
pub open spec fn opcode_tag(op: Opcode) -> u8 {
    match op {
        Opcode::IncPtr => 0,
        Opcode::DecPtr => 1,
        Opcode::Inc => 2,
        Opcode::Dec => 3,
        Opcode::Double => 4,
        Opcode::Halve => 5,
        Opcode::Print => 6,
        Opcode::Read => 7,
        Opcode::Push => 8,
        Opcode::Pop => 9,
        Opcode::Dup => 10,
        Opcode::Swap => 11,
        Opcode::Count => 12,
        Opcode::Compare => 13,
        Opcode::JzCell => 14,
        Opcode::JnzCell => 15,
        Opcode::JzStack => 16,
        Opcode::JnzStack => 17,
        Opcode::JmpStack => 18,
        Opcode::Str => 19,
        Opcode::Break => 20,
        Opcode::BinMod => 21,
        Opcode::ChrMod => 22,
        Opcode::IntMod => 23,
        Opcode::HexMod => 24,
        Opcode::Terminate => 25,
        Opcode::Clear => 26,
    }
}

/// The opcode with a given tag, if any.
pub open spec fn tag_opcode(t: u8) -> Option<Opcode> {
    match t {
        0 => Some(Opcode::IncPtr),
        1 => Some(Opcode::DecPtr),
        2 => Some(Opcode::Inc),
        3 => Some(Opcode::Dec),
        4 => Some(Opcode::Double),
        5 => Some(Opcode::Halve),
        6 => Some(Opcode::Print),
        7 => Some(Opcode::Read),
        8 => Some(Opcode::Push),
        9 => Some(Opcode::Pop),
        10 => Some(Opcode::Dup),
        11 => Some(Opcode::Swap),
        12 => Some(Opcode::Count),
        13 => Some(Opcode::Compare),
        14 => Some(Opcode::JzCell),
        15 => Some(Opcode::JnzCell),
        16 => Some(Opcode::JzStack),
        17 => Some(Opcode::JnzStack),
        18 => Some(Opcode::JmpStack),
        19 => Some(Opcode::Str),
        20 => Some(Opcode::Break),
        21 => Some(Opcode::BinMod),
        22 => Some(Opcode::ChrMod),
        23 => Some(Opcode::IntMod),
        24 => Some(Opcode::HexMod),
        25 => Some(Opcode::Terminate),
        26 => Some(Opcode::Clear),
        _ => None,
    }
}

/// Each opcode is found again from its tag.
pub proof fn lemma_tag_round_trip(op: Opcode)
    ensures
        tag_opcode(opcode_tag(op)) == Some(op),
{
}

impl Opcode {
    /// The one-byte tag of the opcode.
    pub fn tag(self) -> (r: u8)
        ensures
            r == opcode_tag(self),
    {
        match self {
            Opcode::IncPtr => 0,
            Opcode::DecPtr => 1,
            Opcode::Inc => 2,
            Opcode::Dec => 3,
            Opcode::Double => 4,
            Opcode::Halve => 5,
            Opcode::Print => 6,
            Opcode::Read => 7,
            Opcode::Push => 8,
            Opcode::Pop => 9,
            Opcode::Dup => 10,
            Opcode::Swap => 11,
            Opcode::Count => 12,
            Opcode::Compare => 13,
            Opcode::JzCell => 14,
            Opcode::JnzCell => 15,
            Opcode::JzStack => 16,
            Opcode::JnzStack => 17,
            Opcode::JmpStack => 18,
            Opcode::Str => 19,
            Opcode::Break => 20,
            Opcode::BinMod => 21,
            Opcode::ChrMod => 22,
            Opcode::IntMod => 23,
            Opcode::HexMod => 24,
            Opcode::Terminate => 25,
            Opcode::Clear => 26,
        }
    }

    /// The opcode with tag `t`, if any.
    pub fn from_tag(t: u8) -> (r: Option<Opcode>)
        ensures
            r == tag_opcode(t),
    {
        match t {
            0 => Some(Opcode::IncPtr),
            1 => Some(Opcode::DecPtr),
            2 => Some(Opcode::Inc),
            3 => Some(Opcode::Dec),
            4 => Some(Opcode::Double),
            5 => Some(Opcode::Halve),
            6 => Some(Opcode::Print),
            7 => Some(Opcode::Read),
            8 => Some(Opcode::Push),
            9 => Some(Opcode::Pop),
            10 => Some(Opcode::Dup),
            11 => Some(Opcode::Swap),
            12 => Some(Opcode::Count),
            13 => Some(Opcode::Compare),
            14 => Some(Opcode::JzCell),
            15 => Some(Opcode::JnzCell),
            16 => Some(Opcode::JzStack),
            17 => Some(Opcode::JnzStack),
            18 => Some(Opcode::JmpStack),
            19 => Some(Opcode::Str),
            20 => Some(Opcode::Break),
            21 => Some(Opcode::BinMod),
            22 => Some(Opcode::ChrMod),
            23 => Some(Opcode::IntMod),
            24 => Some(Opcode::HexMod),
            25 => Some(Opcode::Terminate),
            26 => Some(Opcode::Clear),
            _ => None,
        }
    }

    /// The opcode of a single-character operator, if `c` is one.
    pub fn from_glyph(c: char) -> (r: Option<Opcode>)
        ensures
            r == glyph_opcode(c),
    {
        if c == '<' {
            Some(Opcode::DecPtr)
        } else if c == '>' {
            Some(Opcode::IncPtr)
        } else if c == '[' {
            Some(Opcode::JzCell)
        } else if c == ']' {
            Some(Opcode::JnzCell)
        } else if c == '(' {
            Some(Opcode::JzStack)
        } else if c == ')' {
            Some(Opcode::JnzStack)
        } else if c == '+' {
            Some(Opcode::Inc)
        } else if c == '-' {
            Some(Opcode::Dec)
        } else if c == '*' {
            Some(Opcode::Double)
        } else if c == '/' {
            Some(Opcode::Halve)
        } else if c == '\\' {
            Some(Opcode::Swap)
        } else if c == '.' {
            Some(Opcode::Print)
        } else if c == ',' {
            Some(Opcode::Read)
        } else if c == ':' {
            Some(Opcode::Push)
        } else if c == ';' {
            Some(Opcode::Pop)
        } else if c == '&' {
            Some(Opcode::Dup)
        } else if c == '^' {
            Some(Opcode::JmpStack)
        } else if c == '#' {
            Some(Opcode::Count)
        } else if c == '=' {
            Some(Opcode::Compare)
        } else if c == 'b' {
            Some(Opcode::BinMod)
        } else if c == 'c' {
            Some(Opcode::ChrMod)
        } else if c == 'i' {
            Some(Opcode::IntMod)
        } else if c == 'q' {
            Some(Opcode::Terminate)
        } else if c == 'x' {
            Some(Opcode::HexMod)
        } else if c == '!' {
            Some(Opcode::Break)
        } else {
            None
        }
    }
}

} // verus!
