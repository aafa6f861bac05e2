use vstd::prelude::*;
use crate::opcode::Opcode;

verus! {

/// The `value` of every instruction that an optimizer pass produces.
pub open spec fn optimized_text() -> Seq<char> {
    "__optimizer_generated"@
}

/// The `value` of every instruction that an optimizer pass produces.
pub fn optimized_value() -> (r: String)
    ensures
        r@ == optimized_text(),
{
    String::from_str("__optimizer_generated")
}

/// An instruction of the program, with where it stood in the source.
#[derive(Debug, Clone, PartialEq, Eq)]
pub struct Instruction {
    /// The column within the line.
    pub pos: u32,
    /// The line, counted from 0.
    pub line: u32,
    /// The glyph, the body of a string literal, or `optimized_text()`.
    pub value: String,
    /// The kind of instruction.
    pub opcode: Opcode,
    /// The run length of an optimized increment or decrement; absent means 1.
    pub argument: Option<u32>,
    /// Whether an optimizer pass produced or changed the instruction.
    pub optimized: bool,
}

/// An instruction as a mathematical value.
pub struct InstrView {
    pub pos: u32,
    pub line: u32,
    pub value: Seq<char>,
    pub opcode: Opcode,
    pub argument: Option<u32>,
    pub optimized: bool,
}

impl View for Instruction {
    type V = InstrView;

    open spec fn view(&self) -> InstrView {
        InstrView {
            pos: self.pos,
            line: self.line,
            value: self.value@,
            opcode: self.opcode,
            argument: self.argument,
            optimized: self.optimized,
        }
    }
}

/// The views of a sequence of instructions.
pub open spec fn views(s: Seq<Instruction>) -> Seq<InstrView> {
    s.map_values(|i: Instruction| i@)
}

/// How many times an instruction applies its effect: its argument, or 1.
pub open spec fn count_of(i: InstrView) -> u32 {
    match i.argument {
        Some(n) => n,
        None => 1,
    }
}

impl Instruction {
    /// An instruction as the tokenizer makes it: not optimized.
    pub fn new(pos: u32, line: u32, value: String, opcode: Opcode, arg: Option<u32>) -> (r:
        Instruction)
        ensures
            r@ == (InstrView {
                pos,
                line,
                value: value@,
                opcode,
                argument: arg,
                optimized: false,
            }),
    {
        Instruction { pos, line, value, opcode, argument: arg, optimized: false }
    }

    /// Whether the instruction is of the given kind.
    pub fn is(&self, opcode: Opcode) -> (r: bool)
        ensures
            r == (self.opcode == opcode),
    {
        self.opcode == opcode
    }

    /// A copy of the instruction.
    pub fn duplicate(&self) -> (r: Instruction)
        ensures
            r@ == self@,
    {
        Instruction {
            pos: self.pos,
            line: self.line,
            value: self.value.clone(),
            opcode: self.opcode,
            argument: self.argument,
            optimized: self.optimized,
        }
    }

    /// How many times the instruction applies its effect.
    pub fn count(&self) -> (r: u32)
        ensures
            r == count_of(self@),
    {
        match self.argument {
            Some(n) => n,
            None => 1,
        }
    }
}

} // verus!
