use vstd::prelude::*;
use crate::instruction::{InstrView, Instruction, views};
use crate::opcode::{Opcode, glyph_opcode};
use crate::text::{chars_of, is_space, is_white_space, push_char};

verus! {

/// The character at index `k`, or NUL past either end.
pub open spec fn char_at(s: Seq<char>, k: int) -> char {
    if 0 <= k < s.len() {
        s[k]
    } else {
        '\0'
    }
}

/// The (column, line) cursor after reading character `c`.
pub open spec fn advance(c: char, at: (int, int)) -> (int, int) {
    if c == '\n' {
        (0, at.1 + 1)
    } else {
        (at.0 + 1, at.1)
    }
}

/// The cursor after reading the characters at indices `from .. to` of `s`.
pub open spec fn cursor_after(s: Seq<char>, from: int, to: int, at: (int, int)) -> (int, int)
    decreases to - from,
{
    if to <= from {
        at
    } else {
        advance(char_at(s, to - 1), cursor_after(s, from, to - 1, at))
    }
}

/// The index of the first `x` in `s` at or after `k`, or the length of `s`.
pub open spec fn find_from(s: Seq<char>, k: int, x: char) -> int
    decreases s.len() - k,
{
    if k >= s.len() {
        s.len() as int
    } else if s[k] == x {
        k
    } else {
        find_from(s, k + 1, x)
    }
}

/// `find_from` stops at the first `x` from `k` on, or at the end.
pub proof fn lemma_find_from(s: Seq<char>, k: int, x: char)
    requires
        0 <= k <= s.len(),
    ensures
        k <= find_from(s, k, x) <= s.len(),
        find_from(s, k, x) < s.len() ==> s[find_from(s, k, x)] == x,
        forall|m: int| k <= m < find_from(s, k, x) ==> s[m] != x,
    decreases s.len() - k,
{
    if k < s.len() && s[k] != x {
        lemma_find_from(s, k + 1, x);
    }
}

proof fn lemma_subrange_push(s: Seq<char>, a: int, b: int)
    requires
        0 <= a <= b < s.len(),
    ensures
        s.subrange(a, b + 1) == s.subrange(a, b).push(s[b]),
{
    assert(s.subrange(a, b + 1) =~= s.subrange(a, b).push(s[b]));
}

/// A token as the tokenizer emits it.
pub open spec fn token(at: (int, int), value: Seq<char>, opcode: Opcode) -> InstrView {
    InstrView {
        pos: at.0 as u32,
        line: at.1 as u32,
        value,
        opcode,
        argument: None,
        optimized: false,
    }
}

/// The tokens of `s` from index `i` on, the cursor standing at `at`.
///
/// Whitespace is skipped; an operator glyph gives one token; `"` opens a
/// string literal that runs to the next `"` or the end; `'` opens a comment
/// that runs to the end of the line; any other character is skipped.
pub open spec fn lex_from(s: Seq<char>, i: int, at: (int, int)) -> Seq<InstrView>
    decreases s.len() + 1 - i,
{
    if i < 0 || i >= s.len() {
        seq![]
    } else {
        let c = s[i];
        if is_space(c) {
            lex_from(s, i + 1, advance(c, at))
        } else if glyph_opcode(c) is Some {
            seq![token(at, seq![c], glyph_opcode(c)->0)] + lex_from(s, i + 1, advance(c, at))
        } else if c == '"' {
            let j = find_from(s, i + 1, '"');
            proof {
                lemma_find_from(s, i + 1, '"');
            }
            seq![token(at, s.subrange(i + 1, j), Opcode::Str)] + lex_from(
                s,
                j + 1,
                cursor_after(s, i, j + 1, at),
            )
        } else if c == '\'' {
            let j = find_from(s, i, '\n');
            proof {
                lemma_find_from(s, i, '\n');
            }
            lex_from(s, j + 1, cursor_after(s, i, j + 1, at))
        } else {
            lex_from(s, i + 1, advance(c, at))
        }
    }
}

/// The tokens of a whole source text.
pub open spec fn lex(s: Seq<char>) -> Seq<InstrView> {
    lex_from(s, 0, (0, 0))
}

/// The tokenizer: turns source text into instructions.
pub struct Lexer {
    /// The characters of the source.
    stream: Vec<char>,
    /// The index of the next character to read.
    next: usize,
    /// The column of the next character.
    column: u32,
    /// The line of the next character.
    line: u32,
    /// The instructions produced so far.
    pub tokens: Vec<Instruction>,
}

impl Lexer {
    /// The source text.
    pub closed spec fn source(&self) -> Seq<char> {
        self.stream@
    }

    /// The tokens produced so far.
    pub closed spec fn produced(&self) -> Seq<InstrView> {
        views(self.tokens@)
    }

    /// The tokens that are still to come.
    pub closed spec fn pending(&self) -> Seq<InstrView> {
        lex_from(self.stream@, self.next as int, (self.column as int, self.line as int))
    }

    pub closed spec fn wf(&self) -> bool {
        &&& self.stream@.len() < u32::MAX
        &&& self.next <= self.stream@.len() + 1
        &&& self.column <= self.next
        &&& self.line <= self.next
    }

    /// A tokenizer over `stream`, with no token produced yet.
    pub fn new(stream: String) -> (r: Lexer)
        requires
            stream@.len() < u32::MAX,
        ensures
            r.wf(),
            r.source() == stream@,
            r.produced() == Seq::<InstrView>::empty(),
            r.pending() == lex(stream@),
    {
        Lexer { stream: chars_of(stream.as_str()), next: 0, column: 0, line: 0, tokens: Vec::new() }
    }

    /// Tokenizes what is left of the source, appending to `tokens`.
    pub fn tokenize(&mut self)
        requires
            old(self).wf(),
        ensures
            final(self).wf(),
            final(self).source() == old(self).source(),
            final(self).produced() == old(self).produced() + old(self).pending(),
            final(self).pending() == Seq::<InstrView>::empty(),
    {
        let ghost s = self.stream@;
        let ghost goal = views(old(self).tokens@) + old(self).pending();
        while self.can_advance()
            invariant
                self.wf(),
                self.stream@ == s,
                views(self.tokens@) + self.pending() == goal,
            ensures
                self.wf(),
                self.stream@ == s,
                views(self.tokens@) + self.pending() == goal,
                self.next >= s.len(),
            decreases s.len() + 1 - self.next,
        {
            self.skip_whitespace();
            if !self.can_advance() {
                break;
            }
            let chr = self.peek();
            let ghost i = self.next as int;
            let ghost at = (self.column as int, self.line as int);
            let ghost before = views(self.tokens@);
            let state = (self.column, self.line);
            assert(self.pending() == lex_from(s, i, at));
            match Opcode::from_glyph(chr) {
                Some(op) => {
                    self.skip();
                    let mut val = String::new();
                    push_char(&mut val, chr);
                    assert(val@ =~= seq![chr]);
                    self.create_instruction(state, val, op);
                    assert(before.push(token(at, seq![chr], op)) + self.pending() =~= before + (
                    seq![token(at, seq![chr], op)] + self.pending()));
                    continue;
                },
                None => {},
            }
            if chr == '"' {
                self.skip();
                let ghost j = find_from(s, i + 1, '"');
                proof {
                    lemma_find_from(s, i + 1, '"');
                    assert(cursor_after(s, i, i, at) == at);
                    assert(cursor_after(s, i, i + 1, at) == advance(s[i], at));
                }
                let mut buf = String::new();
                while self.can_advance() && self.peek() != '"'
                    invariant
                        self.wf(),
                        self.stream@ == s,
                        0 <= i < s.len(),
                        i + 1 <= self.next <= j,
                        j <= s.len(),
                        forall|m: int| i + 1 <= m < j ==> s[m] != '"',
                        j < s.len() ==> s[j] == '"',
                        buf@ == s.subrange(i + 1, self.next as int),
                        (self.column as int, self.line as int) == cursor_after(
                            s,
                            i,
                            self.next as int,
                            at,
                        ),
                        views(self.tokens@) == before,
                    decreases s.len() - self.next,
                {
                    let c = self.peek();
                    proof {
                        lemma_subrange_push(s, i + 1, self.next as int);
                    }
                    push_char(&mut buf, c);
                    self.skip();
                }
                assert(self.next == j);
                self.skip();
                let ghost tok = token(at, s.subrange(i + 1, j), Opcode::Str);
                self.create_instruction(state, buf, Opcode::Str);
                assert(before.push(tok) + self.pending() =~= before + (seq![tok] + self.pending()));
            } else if chr == '\'' {
                let ghost j = find_from(s, i, '\n');
                proof {
                    lemma_find_from(s, i, '\n');
                }
                while self.can_advance() && self.peek() != '\n'
                    invariant
                        self.wf(),
                        self.stream@ == s,
                        0 <= i < s.len(),
                        i <= self.next <= j,
                        j <= s.len(),
                        forall|m: int| i <= m < j ==> s[m] != '\n',
                        j < s.len() ==> s[j] == '\n',
                        (self.column as int, self.line as int) == cursor_after(
                            s,
                            i,
                            self.next as int,
                            at,
                        ),
                        views(self.tokens@) == before,
                    decreases s.len() - self.next,
                {
                    self.skip();
                }
                assert(self.next == j);
                self.skip();
            } else {
                self.skip();
            }
        }
        assert(self.pending() == Seq::<InstrView>::empty());
        assert(views(self.tokens@) =~= views(self.tokens@) + self.pending());
    }

    /// The tokens produced, handing the tokenizer over.
    pub fn into_tokens(self) -> (r: Vec<Instruction>)
        ensures
            views(r@) == self.produced(),
    {
        self.tokens
    }

    /// Whether a character is left to read.
    fn can_advance(&self) -> (r: bool)
        ensures
            r == (self.next < self.stream@.len()),
    {
        self.next < self.stream.len()
    }

    /// The next character, or NUL at the end.
    fn peek(&self) -> (r: char)
        ensures
            r == char_at(self.stream@, self.next as int),
    {
        if self.next < self.stream.len() {
            self.stream[self.next]
        } else {
            '\0'
        }
    }

    /// Reads one character, keeping track of the column and the line.
    fn skip(&mut self)
        requires
            old(self).wf(),
            old(self).next <= old(self).stream@.len(),
        ensures
            final(self).wf(),
            final(self).stream == old(self).stream,
            final(self).tokens == old(self).tokens,
            final(self).next == old(self).next + 1,
            (final(self).column as int, final(self).line as int) == advance(
                char_at(old(self).stream@, old(self).next as int),
                (old(self).column as int, old(self).line as int),
            ),
    {
        let c = self.peek();
        if c == '\n' {
            self.column = 0;
            self.line = self.line + 1;
        } else {
            self.column = self.column + 1;
        }
        self.next = self.next + 1;
    }

    /// Reads the whitespace that comes next.
    fn skip_whitespace(&mut self)
        requires
            old(self).wf(),
        ensures
            final(self).wf(),
            final(self).stream == old(self).stream,
            final(self).tokens == old(self).tokens,
            final(self).pending() == old(self).pending(),
            final(self).next >= old(self).next,
            final(self).next < final(self).stream@.len() ==> !is_space(
                final(self).stream@[final(self).next as int],
            ),
    {
        while is_white_space(self.peek())
            invariant
                self.wf(),
                self.stream == old(self).stream,
                self.tokens == old(self).tokens,
                self.pending() == old(self).pending(),
                self.next >= old(self).next,
            decreases self.stream@.len() + 1 - self.next,
        {
            self.skip();
        }
    }

    /// Appends a token that stood at `state` (column, line).
    fn create_instruction(&mut self, state: (u32, u32), value: String, opcode: Opcode)
        ensures
            final(self).stream == old(self).stream,
            final(self).next == old(self).next,
            final(self).column == old(self).column,
            final(self).line == old(self).line,
            views(final(self).tokens@) == views(old(self).tokens@).push(
                token((state.0 as int, state.1 as int), value@, opcode),
            ),
    {
        let lex = Instruction::new(state.0, state.1, value, opcode, None);
        self.tokens.push(lex);
        assert(views(self.tokens@) =~= views(old(self).tokens@).push(
            token((state.0 as int, state.1 as int), lex@.value, opcode),
        ));
    }
}

/// The opcodes of a token sequence.
pub open spec fn opcodes_of(t: Seq<InstrView>) -> Seq<Opcode> {
    t.map_values(|i: InstrView| i.opcode)
}

/// The opcodes of the tokens that are not string literals.
pub open spec fn non_str_opcodes(t: Seq<InstrView>) -> Seq<Opcode>
    decreases t.len(),
{
    if t.len() == 0 {
        seq![]
    } else if t[0].opcode == Opcode::Str {
        non_str_opcodes(t.skip(1))
    } else {
        seq![t[0].opcode] + non_str_opcodes(t.skip(1))
    }
}

/// The texts of the tokens that are not string literals, one after the other.
pub open spec fn glyph_text(t: Seq<InstrView>) -> Seq<char>
    decreases t.len(),
{
    if t.len() == 0 {
        seq![]
    } else if t[0].opcode == Opcode::Str {
        glyph_text(t.skip(1))
    } else {
        t[0].value + glyph_text(t.skip(1))
    }
}

/// A token that is no string literal is one glyph, of its own opcode.
pub open spec fn glyph_token(i: InstrView) -> bool {
    i.opcode != Opcode::Str ==> i.value.len() == 1 && glyph_opcode(i.value[0]) == Some(i.opcode)
}

proof fn lemma_glyph_not_space(c: char)
    requires
        glyph_opcode(c) is Some,
    ensures
        !is_space(c),
        c != '"',
        c != '\'',
{
}

proof fn lemma_lex_glyph_tokens(s: Seq<char>, i: int, at: (int, int))
    ensures
        forall|k: int| 0 <= k < lex_from(s, i, at).len() ==> glyph_token(#[trigger] lex_from(s, i, at)[k]),
    decreases s.len() + 1 - i,
{
    let all = lex_from(s, i, at);
    if 0 <= i < s.len() {
        let c = s[i];
        if is_space(c) {
            lemma_lex_glyph_tokens(s, i + 1, advance(c, at));
            assert(all == lex_from(s, i + 1, advance(c, at)));
        } else if glyph_opcode(c) is Some {
            lemma_lex_glyph_tokens(s, i + 1, advance(c, at));
            let rest = lex_from(s, i + 1, advance(c, at));
            let tok = token(at, seq![c], glyph_opcode(c)->0);
            assert(all == seq![tok] + rest);
            assert(glyph_token(tok));
            assert forall|k: int| 0 <= k < all.len() implies glyph_token(#[trigger] all[k]) by {
                if k > 0 {
                    assert(all[k] == rest[k - 1]);
                } else {
                    assert(all[k] == tok);
                }
            }
        } else if c == '"' {
            let j = find_from(s, i + 1, '"');
            lemma_find_from(s, i + 1, '"');
            let rest = lex_from(s, j + 1, cursor_after(s, i, j + 1, at));
            lemma_lex_glyph_tokens(s, j + 1, cursor_after(s, i, j + 1, at));
            let tok = token(at, s.subrange(i + 1, j), Opcode::Str);
            assert(all == seq![tok] + rest);
            assert forall|k: int| 0 <= k < all.len() implies glyph_token(#[trigger] all[k]) by {
                if k > 0 {
                    assert(all[k] == rest[k - 1]);
                } else {
                    assert(all[k] == tok);
                }
            }
        } else if c == '\'' {
            let j = find_from(s, i, '\n');
            lemma_find_from(s, i, '\n');
            lemma_lex_glyph_tokens(s, j + 1, cursor_after(s, i, j + 1, at));
            assert(all == lex_from(s, j + 1, cursor_after(s, i, j + 1, at)));
        } else {
            lemma_lex_glyph_tokens(s, i + 1, advance(c, at));
            assert(all == lex_from(s, i + 1, advance(c, at)));
        }
    } else {
        assert(all.len() == 0);
    }
}

proof fn lemma_glyph_text(t: Seq<InstrView>)
    requires
        forall|k: int| 0 <= k < t.len() ==> glyph_token(#[trigger] t[k]),
    ensures
        forall|k: int| 0 <= k < glyph_text(t).len() ==> glyph_opcode(#[trigger] glyph_text(t)[k]) is Some,
        glyph_text(t).map_values(|c: char| glyph_opcode(c)->0) == non_str_opcodes(t),
    decreases t.len(),
{
    if t.len() > 0 {
        let rest = t.skip(1);
        assert forall|k: int| 0 <= k < rest.len() implies glyph_token(#[trigger] rest[k]) by {
            assert(rest[k] == t[k + 1]);
        }
        lemma_glyph_text(rest);
        assert(glyph_token(t[0]));
        if t[0].opcode != Opcode::Str {
            let g = glyph_text(t);
            let gr = glyph_text(rest);
            assert(g == t[0].value + gr);
            assert forall|k: int| 0 <= k < g.len() implies glyph_opcode(#[trigger] g[k]) is Some by {
                if k > 0 {
                    assert(g[k] == gr[k - 1]);
                }
            }
            assert(g.map_values(|c: char| glyph_opcode(c)->0) =~= seq![t[0].opcode] + gr.map_values(
                |c: char| glyph_opcode(c)->0,
            ));
        }
    } else {
        assert(glyph_text(t).map_values(|c: char| glyph_opcode(c)->0) =~= Seq::<Opcode>::empty());
    }
}

proof fn lemma_lex_glyphs(g: Seq<char>, i: int, at: (int, int))
    requires
        0 <= i <= g.len(),
        at == (i, 0int),
        forall|k: int| 0 <= k < g.len() ==> glyph_opcode(#[trigger] g[k]) is Some,
    ensures
        opcodes_of(lex_from(g, i, at)) == g.skip(i).map_values(|c: char| glyph_opcode(c)->0),
        lex_from(g, i, at).len() == g.len() - i,
        forall|k: int|
            0 <= k < lex_from(g, i, at).len() ==> (#[trigger] lex_from(g, i, at)[k]).line == 0
                && lex_from(g, i, at)[k].pos == (i + k) as u32,
    decreases g.len() - i,
{
    if i < g.len() {
        let c = g[i];
        lemma_glyph_not_space(c);
        assert(advance(c, at) == (i + 1, 0int));
        lemma_lex_glyphs(g, i + 1, advance(c, at));
        let rest = lex_from(g, i + 1, advance(c, at));
        let tok = token(at, seq![c], glyph_opcode(c)->0);
        let all = lex_from(g, i, at);
        assert(all == seq![tok] + rest);
        assert(opcodes_of(seq![tok] + rest) =~= seq![glyph_opcode(c)->0] + opcodes_of(rest));
        assert(g.skip(i).map_values(|c: char| glyph_opcode(c)->0) =~= seq![glyph_opcode(c)->0]
            + g.skip(i + 1).map_values(|c: char| glyph_opcode(c)->0));
        assert forall|k: int| 0 <= k < all.len() implies (#[trigger] all[k]).line == 0 && all[k].pos
            == (i + k) as u32 by {
            if k > 0 {
                assert(all[k] == rest[k - 1]);
                assert(rest[k - 1].pos == ((i + 1) + (k - 1)) as u32);
                assert((i + 1) + (k - 1) == i + k);
            } else {
                assert(all[k] == tok);
            }
        }
    } else {
        assert(opcodes_of(lex_from(g, i, at)) =~= Seq::<Opcode>::empty());
        assert(g.skip(i).map_values(|c: char| glyph_opcode(c)->0) =~= Seq::<Opcode>::empty());
    }
}

/// Tokenizing the glyphs of the tokens of `s` (string literals left out)
/// gives those tokens' opcodes again, in order, one token per glyph, all on
/// line 0 with the `k`-th at column `k`.
pub proof fn lemma_retokenize_glyphs(s: Seq<char>)
    ensures
        opcodes_of(lex(glyph_text(lex(s)))) == non_str_opcodes(lex(s)),
        forall|k: int|
            0 <= k < lex(glyph_text(lex(s))).len() ==> (#[trigger] lex(glyph_text(lex(s)))[k]).line
                == 0 && lex(glyph_text(lex(s)))[k].pos == k as u32,
{
    let t = lex(s);
    lemma_lex_glyph_tokens(s, 0, (0, 0));
    lemma_glyph_text(t);
    let g = glyph_text(t);
    lemma_lex_glyphs(g, 0, (0, 0));
    assert(g.skip(0) =~= g);
    assert forall|k: int| 0 <= k < lex(g).len() implies (#[trigger] lex(g)[k]).line == 0 && lex(
        g,
    )[k].pos == k as u32 by {
        assert(lex_from(g, 0, (0, 0))[k].pos == (0 + k) as u32);
        assert(0 + k == k);
    }
}

} // verus!
