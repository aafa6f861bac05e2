use vstd::prelude::*;
use std::collections::BTreeMap;
use crate::debugger::DebugInformation;
use crate::instruction::{InstrView, Instruction, count_of, views};
use crate::opcode::{Opcode, is_closer, is_opener};
use crate::text::{char_from_u32, chars_of, is_scalar};

verus! {

broadcast use vstd::std_specs::btree::group_btree_axioms, vstd::laws_cmp::group_laws_cmp;

/// How `Print` writes the current cell.
#[derive(Debug, Clone, Copy, PartialEq, Eq, Structural)]
pub enum PrintMode {
    /// As the Unicode scalar value it holds.
    Char,
    /// As a decimal number.
    Integer,
}

/// What the caller of `run_cycle` has to do outside the machine.
#[derive(Debug, Clone, Copy, PartialEq, Eq, Structural)]
pub enum Effect {
    /// Nothing.
    Continue,
    /// Write the character to standard output.
    PrintChar(char),
    /// Write the number, in decimal, to standard output.
    PrintInteger(u32),
    /// Flush standard output, read this many bytes from standard input and
    /// hand them to `supply_input`.
    Input(u32),
}

/// Why the machine stopped; `at` is the index of the instruction.
#[derive(Debug, Clone, Copy, PartialEq, Eq, Structural)]
pub enum VmError {
    /// A loop opener or closer without its partner.
    UnmatchedBracket { at: usize },
    /// An instruction that the machine does not implement.
    Unimplemented { at: usize },
    /// `Dup`, `Swap` or `Compare` with too few values on the stack.
    StackUnderflow { at: usize },
    /// `Print` in character mode on a cell that holds no Unicode scalar value.
    InvalidChar { at: usize, value: u32 },
    /// A string literal with a backslash before a character other than
    /// `0 n r t \`, or with a backslash at its very end.
    InvalidEscape { at: usize, escape: char },
    /// A move of the cell pointer past the end of the tape, or a cell
    /// access on an empty tape.
    TapeOutOfBounds { at: usize },
}

/// The state of the machine as a mathematical value.
pub struct MachineView {
    pub code: Seq<InstrView>,
    pub ip: usize,
    pub cp: usize,
    pub ticks: u64,
    pub memory: Seq<u32>,
    pub stack: Seq<u32>,
    pub jumps: Map<usize, usize>,
    pub mode: PrintMode,
    /// The byte count of a `Read` whose input has not been supplied yet.
    pub awaiting: Option<u32>,
}

/// Matches the loop brackets of `code` from index `k` on, with `open` the
/// openers not closed yet (innermost last) and `pairs` the pairs found.
/// Both flavours share one stack. An error gives the index of the bracket
/// that has no partner.
pub open spec fn bracket_scan(
    code: Seq<InstrView>,
    k: int,
    open: Seq<usize>,
    pairs: Map<usize, usize>,
) -> Result<Map<usize, usize>, usize>
    decreases code.len() - k,
{
    if k < 0 || k >= code.len() {
        if open.len() == 0 {
            Ok(pairs)
        } else {
            Err(open.last())
        }
    } else if is_opener(code[k].opcode) {
        bracket_scan(code, k + 1, open.push(k as usize), pairs)
    } else if is_closer(code[k].opcode) {
        if open.len() == 0 {
            Err(k as usize)
        } else {
            bracket_scan(
                code,
                k + 1,
                open.drop_last(),
                pairs.insert(open.last(), k as usize).insert(k as usize, open.last()),
            )
        }
    } else {
        bracket_scan(code, k + 1, open, pairs)
    }
}

/// The jump table of `code`: each bracket mapped to its partner.
pub open spec fn jump_pairs(code: Seq<InstrView>) -> Result<Map<usize, usize>, usize> {
    bracket_scan(code, 0, seq![], map![])
}

/// What holds of the scan state at index `k`.
spec fn scan_state_ok(
    code: Seq<InstrView>,
    k: int,
    open: Seq<usize>,
    pairs: Map<usize, usize>,
) -> bool {
    &&& 0 <= k <= code.len()
    &&& forall|a: int, b: int| 0 <= a < b < open.len() ==> open[a] < open[b]
    &&& forall|a: int| 0 <= a < open.len() ==> open[a] < k && !pairs.contains_key(#[trigger] open[a])
    &&& forall|x: usize| #[trigger]
        pairs.contains_key(x) ==> x < k && pairs[x] < k && pairs.contains_key(pairs[x])
            && pairs[pairs[x]] == x
}

proof fn lemma_bracket_scan(
    code: Seq<InstrView>,
    k: int,
    open: Seq<usize>,
    pairs: Map<usize, usize>,
)
    requires
        code.len() <= usize::MAX,
        scan_state_ok(code, k, open, pairs),
    ensures
        bracket_scan(code, k, open, pairs) matches Ok(p) ==> forall|x: usize| #[trigger]
            p.contains_key(x) ==> x < code.len() && p[x] < code.len() && p.contains_key(p[x])
                && p[p[x]] == x,
    decreases code.len() - k,
{
    if k < code.len() {
        if is_opener(code[k].opcode) {
            let o2 = open.push(k as usize);
            assert forall|a: int| 0 <= a < o2.len() implies o2[a] < k + 1 && !pairs.contains_key(
                #[trigger] o2[a],
            ) by {
                if a < open.len() {
                    assert(o2[a] == open[a]);
                }
            }
            lemma_bracket_scan(code, k + 1, o2, pairs);
        } else if is_closer(code[k].opcode) {
            if open.len() > 0 {
                let a = open.last();
                let b = k as usize;
                let o2 = open.drop_last();
                let p2 = pairs.insert(a, b).insert(b, a);
                assert forall|i: int| 0 <= i < o2.len() implies o2[i] < k + 1 && !p2.contains_key(
                    #[trigger] o2[i],
                ) by {
                    assert(o2[i] == open[i]);
                    assert(open[i] < open[open.len() - 1]);
                }
                assert forall|x: usize| #[trigger] p2.contains_key(x) implies x < k + 1 && p2[x] < k
                    + 1 && p2.contains_key(p2[x]) && p2[p2[x]] == x by {
                    if x != a && x != b {
                        assert(pairs.contains_key(x));
                        assert(pairs[x] != a);
                    }
                }
                lemma_bracket_scan(code, k + 1, o2, p2);
            }
        } else {
            lemma_bracket_scan(code, k + 1, open, pairs);
        }
    }
}

/// Whether the brackets of `s` pair up when `depth` openers are already
/// waiting for their closers.
pub open spec fn brackets_close(s: Seq<InstrView>, depth: nat) -> bool
    decreases s.len(),
{
    if s.len() == 0 {
        depth == 0
    } else if is_opener(s[0].opcode) {
        brackets_close(s.skip(1), depth + 1)
    } else if is_closer(s[0].opcode) {
        depth > 0 && brackets_close(s.skip(1), (depth - 1) as nat)
    } else {
        brackets_close(s.skip(1), depth)
    }
}

proof fn lemma_bracket_scan_ok(
    code: Seq<InstrView>,
    k: int,
    open: Seq<usize>,
    pairs: Map<usize, usize>,
)
    requires
        0 <= k <= code.len(),
    ensures
        bracket_scan(code, k, open, pairs) is Ok <==> brackets_close(code.skip(k), open.len()),
    decreases code.len() - k,
{
    let rest = code.skip(k);
    if k < code.len() {
        assert(rest[0] == code[k]);
        assert(rest.skip(1) =~= code.skip(k + 1));
        if is_opener(code[k].opcode) {
            lemma_bracket_scan_ok(code, k + 1, open.push(k as usize), pairs);
        } else if is_closer(code[k].opcode) {
            if open.len() > 0 {
                lemma_bracket_scan_ok(
                    code,
                    k + 1,
                    open.drop_last(),
                    pairs.insert(open.last(), k as usize).insert(k as usize, open.last()),
                );
            }
        } else {
            lemma_bracket_scan_ok(code, k + 1, open, pairs);
        }
    }
}

/// The jump table can be built exactly when the brackets pair up.
pub proof fn lemma_jump_pairs_ok(code: Seq<InstrView>)
    ensures
        jump_pairs(code) is Ok <==> brackets_close(code, 0),
{
    lemma_bracket_scan_ok(code, 0, seq![], map![]);
    assert(code.skip(0) =~= code);
}

/// Every pair that the jump table holds points both ways: the partner of a
/// bracket's partner is the bracket itself, and both are instructions of the
/// program.
pub proof fn lemma_jump_table_symmetric(code: Seq<InstrView>)
    requires
        code.len() <= usize::MAX,
    ensures
        jump_pairs(code) matches Ok(p) ==> forall|a: usize| #[trigger]
            p.contains_key(a) ==> a < code.len() && p[a] < code.len() && p.contains_key(p[a])
                && p[p[a]] == a,
{
    lemma_bracket_scan(code, 0, seq![], map![]);
}

/// The character that a backslash escape stands for.
pub open spec fn escape_of(c: char) -> Option<char> {
    if c == '0' {
        Some('\0')
    } else if c == 'n' {
        Some('\n')
    } else if c == 'r' {
        Some('\r')
    } else if c == 't' {
        Some('\t')
    } else if c == '\\' {
        Some('\\')
    } else {
        None
    }
}

/// The text of a string literal with its escapes resolved, read from left
/// to right: a backslash and the character after it stand for one
/// character. An error gives the character after a backslash that names no
/// escape, or the backslash itself where it ends the literal.
pub open spec fn unescape(v: Seq<char>) -> Result<Seq<char>, char>
    decreases v.len(),
{
    if v.len() == 0 {
        Ok(seq![])
    } else if v[0] == '\\' {
        if v.len() < 2 {
            Err('\\')
        } else {
            match escape_of(v[1]) {
                Some(c) => match unescape(v.skip(2)) {
                    Ok(r) => Ok(seq![c] + r),
                    Err(e) => Err(e),
                },
                None => Err(v[1]),
            }
        }
    } else {
        match unescape(v.skip(1)) {
            Ok(r) => Ok(seq![v[0]] + r),
            Err(e) => Err(e),
        }
    }
}

/// The values that a literal with text `t` pushes after its terminating 0:
/// its characters from the last to the first.
pub open spec fn literal_cells(t: Seq<char>) -> Seq<u32> {
    Seq::new(t.len(), |k: int| t[t.len() - 1 - k] as u32)
}

/// The `n` bytes that a `Read` takes from `input`: its first `n` bytes,
/// with zeros where it is shorter.
pub open spec fn input_block(input: Seq<u8>, n: u32) -> Seq<u8> {
    Seq::new(n as nat, |k: int| if k < input.len() { input[k] } else { 0u8 })
}

/// The values that a `Read` of more or less than one byte pushes after its
/// terminating 0: the bytes from the last to the first.
pub open spec fn input_cells(b: Seq<u8>) -> Seq<u32> {
    Seq::new(b.len(), |k: int| b[b.len() - 1 - k] as u32)
}

/// Whether the instruction reads or writes the current cell.
pub open spec fn uses_cell(op: Opcode) -> bool {
    match op {
        Opcode::Inc | Opcode::Dec | Opcode::Clear | Opcode::Double | Opcode::Halve | Opcode::Push
        | Opcode::Pop | Opcode::Count | Opcode::Compare | Opcode::Print | Opcode::Read
        | Opcode::JzCell | Opcode::JnzCell => true,
        _ => false,
    }
}

/// `m` after an instruction that falls through to the next one.
pub open spec fn advanced(m: MachineView) -> MachineView {
    MachineView { ip: (m.ip + 1) as usize, ticks: (m.ticks + 1) as u64, ..m }
}

/// `m` with the current cell set to `v`.
pub open spec fn with_cell(m: MachineView, v: u32) -> MachineView {
    MachineView { memory: m.memory.update(m.cp as int, v), ..m }
}

/// A bracket that jumps to one past its partner.
pub open spec fn jumped(m: MachineView) -> Result<(MachineView, Effect), VmError> {
    if m.jumps.contains_key(m.ip) {
        Ok((MachineView { ip: (m.jumps[m.ip] + 1) as usize, ticks: (m.ticks + 1) as u64, ..m }, Effect::Continue))
    } else {
        Err(VmError::UnmatchedBracket { at: m.ip })
    }
}

/// A step that falls through with no effect.
pub open spec fn plain(m: MachineView) -> Result<(MachineView, Effect), VmError> {
    Ok((advanced(m), Effect::Continue))
}

/// One dispatched instruction: the state after it and what the caller has
/// to do, or the error that stops the machine (which leaves it unchanged).
pub open spec fn step(m: MachineView) -> Result<(MachineView, Effect), VmError> {
    let ins = m.code[m.ip as int];
    let n = count_of(ins);
    let at = m.ip;
    let cell = m.memory[m.cp as int];
    let len = m.stack.len();
    let top = m.stack.last();
    if uses_cell(ins.opcode) && m.cp >= m.memory.len() {
        Err(VmError::TapeOutOfBounds { at })
    } else {
        match ins.opcode {
            Opcode::IncPtr => if (n as int) < m.memory.len() - m.cp {
                plain(MachineView { cp: (m.cp + n) as usize, ..m })
            } else {
                Err(VmError::TapeOutOfBounds { at })
            },
            Opcode::DecPtr => plain(
                MachineView {
                    cp: if m.cp >= n {
                        (m.cp - n) as usize
                    } else {
                        0
                    },
                    ..m
                },
            ),
            Opcode::Inc => plain(with_cell(m, vstd::wrapping::u32_specs::wrapping_add(cell, n))),
            Opcode::Dec => plain(
                with_cell(
                    m,
                    if cell >= n {
                        (cell - n) as u32
                    } else {
                        0
                    },
                ),
            ),
            Opcode::Clear => plain(with_cell(m, 0)),
            Opcode::Double => plain(with_cell(m, vstd::wrapping::u32_specs::wrapping_mul(cell, 2))),
            Opcode::Halve => plain(with_cell(m, cell / 2)),
            Opcode::Push => plain(MachineView { stack: m.stack.push(cell), ..m }),
            Opcode::Pop => if len == 0 {
                plain(with_cell(m, 0))
            } else {
                plain(MachineView { stack: m.stack.drop_last(), ..with_cell(m, top) })
            },
            Opcode::Dup => if len == 0 {
                Err(VmError::StackUnderflow { at })
            } else {
                plain(MachineView { stack: m.stack.push(top), ..m })
            },
            Opcode::Swap => if len < 2 {
                Err(VmError::StackUnderflow { at })
            } else {
                plain(MachineView { stack: m.stack.push(top).push(m.stack[len - 2]), ..m })
            },
            Opcode::Count => plain(with_cell(m, len as u32)),
            Opcode::Compare => if len < 2 {
                Err(VmError::StackUnderflow { at })
            } else {
                plain(
                    with_cell(
                        m,
                        if top == m.stack[len - 2] {
                            1
                        } else {
                            0
                        },
                    ),
                )
            },
            Opcode::ChrMod => plain(MachineView { mode: PrintMode::Char, ..m }),
            Opcode::IntMod => plain(MachineView { mode: PrintMode::Integer, ..m }),
            Opcode::Print => match m.mode {
                PrintMode::Char => if is_scalar(cell) {
                    Ok((advanced(m), Effect::PrintChar(cell as char)))
                } else {
                    Err(VmError::InvalidChar { at, value: cell })
                },
                PrintMode::Integer => Ok((advanced(m), Effect::PrintInteger(cell))),
            },
            Opcode::Read => {
                let k: u32 = if len == 0 || top == 0 {
                    512
                } else {
                    top
                };
                let rest = if len == 0 {
                    m.stack
                } else {
                    m.stack.drop_last()
                };
                Ok((advanced(MachineView { stack: rest, awaiting: Some(k), ..m }), Effect::Input(k)))
            },
            Opcode::Str => match unescape(ins.value) {
                Ok(t) => plain(MachineView { stack: m.stack.push(0) + literal_cells(t), ..m }),
                Err(e) => Err(VmError::InvalidEscape { at, escape: e }),
            },
            Opcode::JzCell => if cell == 0 {
                jumped(m)
            } else {
                plain(m)
            },
            Opcode::JnzCell => if cell != 0 {
                jumped(m)
            } else {
                plain(m)
            },
            Opcode::JzStack => if len == 0 || top == 0 {
                jumped(m)
            } else {
                plain(m)
            },
            Opcode::JnzStack => if len > 0 && top != 0 {
                jumped(m)
            } else {
                plain(m)
            },
            Opcode::Terminate => Ok(
                (
                    MachineView { ip: m.code.len() as usize, ticks: (m.ticks + 1) as u64, ..m },
                    Effect::Continue,
                ),
            ),
            _ => Err(VmError::Unimplemented { at }),
        }
    }
}

/// `m` after the bytes `input` were handed over for the pending `Read`: one
/// byte goes to the current cell; any other count pushes a terminating 0
/// and then the bytes from the last to the first.
pub open spec fn supplied(m: MachineView, input: Seq<u8>) -> MachineView {
    let n = m.awaiting->0;
    let block = input_block(input, n);
    if n == 1 {
        MachineView { awaiting: None, ..with_cell(m, block[0] as u32) }
    } else {
        MachineView { awaiting: None, stack: m.stack.push(0) + input_cells(block), ..m }
    }
}

/// The tick counter counts dispatched instructions: a step that dispatches
/// one adds one to it, a step that fails leaves the machine as it was, and
/// handing over input does not touch it.
///
/// A dispatched instruction moves the instruction pointer to the next
/// instruction, or past the partner of a bracket that jumps, or, for
/// `Terminate`, to the end of the program.
pub proof fn lemma_ticks_count_dispatches(m: MachineView, input: Seq<u8>)
    requires
        machine_ok(m),
        m.ip < m.code.len(),
        m.ticks < u64::MAX,
    ensures
        step(m) matches Ok((next, _)) ==> next.ticks == m.ticks + 1,
        step(m) matches Ok((next, _)) ==> next.ip == m.ip + 1 || ((is_opener(
            m.code[m.ip as int].opcode,
        ) || is_closer(m.code[m.ip as int].opcode)) && m.jumps.contains_key(m.ip) && next.ip
            == m.jumps[m.ip] + 1) || (m.code[m.ip as int].opcode == Opcode::Terminate && next.ip
            == m.code.len()),
        supplied(m, input).ticks == m.ticks,
{
}

/// The machine after `n` dispatches from `m`, each `Read` being given
/// `input`; `None` where one of them fails or the program has ended first.
pub open spec fn run_steps(m: MachineView, input: Seq<u8>, n: nat) -> Option<MachineView>
    decreases n,
{
    if n == 0 {
        Some(m)
    } else {
        match run_steps(m, input, (n - 1) as nat) {
            Some(prev) => if prev.ip < prev.code.len() && prev.ticks < u64::MAX
                && prev.awaiting is None {
                match step(prev) {
                    Ok((next, Effect::Input(_))) => Some(supplied(next, input)),
                    Ok((next, _)) => Some(next),
                    Err(_) => None,
                }
            } else {
                None
            },
            None => None,
        }
    }
}

/// Over a whole run, the tick counter grows by exactly the number of
/// instructions dispatched.
pub proof fn lemma_run_ticks(m: MachineView, input: Seq<u8>, n: nat)
    ensures
        run_steps(m, input, n) matches Some(end) ==> end.ticks == m.ticks + n,
    decreases n,
{
    if n > 0 {
        lemma_run_ticks(m, input, (n - 1) as nat);
    }
}

/// What holds of every state the machine can be in.
pub open spec fn machine_ok(m: MachineView) -> bool {
    &&& m.code.len() <= usize::MAX
    &&& m.memory.len() <= usize::MAX
    &&& m.ip <= m.code.len()
    &&& m.cp < m.memory.len() || m.cp == 0
    &&& forall|k: usize| #[trigger] m.jumps.contains_key(k) ==> m.jumps[k] < m.code.len()
    &&& m.awaiting is Some ==> m.cp < m.memory.len()
}

/// The tape length when none is given.
pub const DEFAULT_MEMORY_SIZE: usize = 128;

/// The stack capacity reserved when none is given.
pub const DEFAULT_STACK_SIZE: usize = 64;

/// The virtual machine: a tape of cells, a stack, and the program.
pub struct VirtualMachine {
    instructions: Vec<Instruction>,
    ip: usize,
    cp: usize,
    ticks: u64,
    memory: Vec<u32>,
    stack: Vec<u32>,
    jump_table: BTreeMap<usize, usize>,
    print_mode: PrintMode,
    awaiting: Option<u32>,
}

impl View for VirtualMachine {
    type V = MachineView;

    closed spec fn view(&self) -> MachineView {
        MachineView {
            code: views(self.instructions@),
            ip: self.ip,
            cp: self.cp,
            ticks: self.ticks,
            memory: self.memory@,
            stack: self.stack@,
            jumps: self.jump_table@,
            mode: self.print_mode,
            awaiting: self.awaiting,
        }
    }
}

/// Whether an opcode reads or writes the current cell.
fn uses_cell_exec(op: Opcode) -> (r: bool)
    ensures
        r == uses_cell(op),
{
    match op {
        Opcode::Inc | Opcode::Dec | Opcode::Clear | Opcode::Double | Opcode::Halve | Opcode::Push
        | Opcode::Pop | Opcode::Count | Opcode::Compare | Opcode::Print | Opcode::Read
        | Opcode::JzCell | Opcode::JnzCell => true,
        _ => false,
    }
}

/// The character that a backslash escape stands for.
fn escape_exec(c: char) -> (r: Option<char>)
    ensures
        r == escape_of(c),
{
    if c == '0' {
        Some('\0')
    } else if c == 'n' {
        Some('\n')
    } else if c == 'r' {
        Some('\r')
    } else if c == 't' {
        Some('\t')
    } else if c == '\\' {
        Some('\\')
    } else {
        None
    }
}

/// `r` with `d` put before its text, where it is one.
spec fn after_prefix(d: Seq<char>, r: Result<Seq<char>, char>) -> Result<Seq<char>, char> {
    match r {
        Ok(x) => Ok(d + x),
        Err(e) => Err(e),
    }
}

/// The values that a string literal pushes after its terminating 0, or the
/// character that `unescape` reports.
pub fn resolve_literal(value: &String) -> (r: Result<Vec<u32>, char>)
    ensures
        match unescape(value@) {
            Ok(t) => r matches Ok(cells) && cells@ == literal_cells(t),
            Err(e) => r == Err::<Vec<u32>, char>(e),
        },
{
    let v = chars_of(value.as_str());
    let n = v.len();
    let mut text: Vec<char> = Vec::new();
    let mut i: usize = 0;
    proof {
        assert(v@.skip(0) =~= v@);
        match unescape(v@) {
            Ok(x) => {
                assert(seq![] + x =~= x);
            },
            Err(_) => {},
        }
    }
    while i < n
        invariant
            i <= n == v@.len(),
            v@ == value@,
            unescape(v@) == after_prefix(text@, unescape(v@.skip(i as int))),
        decreases n - i,
    {
        let ghost w = v@.skip(i as int);
        assert(w[0] == v@[i as int]);
        if v[i] == '\\' {
            if i + 1 == n {
                return Err('\\');
            }
            assert(w[1] == v@[i + 1]);
            match escape_exec(v[i + 1]) {
                Some(c) => {
                    proof {
                        assert(w.skip(2) =~= v@.skip(i + 2));
                        match unescape(v@.skip(i + 2)) {
                            Ok(x) => {
                                assert(text@ + (seq![c] + x) =~= text@.push(c) + x);
                            },
                            Err(_) => {},
                        }
                    }
                    text.push(c);
                    i = i + 2;
                },
                None => {
                    return Err(v[i + 1]);
                },
            }
        } else {
            let c = v[i];
            proof {
                assert(w.skip(1) =~= v@.skip(i + 1));
                match unescape(v@.skip(i + 1)) {
                    Ok(x) => {
                        assert(text@ + (seq![c] + x) =~= text@.push(c) + x);
                    },
                    Err(_) => {},
                }
            }
            text.push(c);
            i = i + 1;
        }
    }
    proof {
        assert(v@.skip(i as int) =~= Seq::<char>::empty());
        assert(text@ + Seq::<char>::empty() =~= text@);
    }
    let mut out: Vec<u32> = Vec::new();
    let mut k: usize = text.len();
    while k > 0
        invariant
            k <= text@.len(),
            out@ =~= literal_cells(text@).take(text@.len() - k),
        decreases k,
    {
        assert(literal_cells(text@).take(text@.len() - k + 1) =~= literal_cells(text@).take(
            text@.len() - k,
        ).push(text@[k - 1] as u32));
        out.push(text[k - 1] as u32);
        k = k - 1;
    }
    assert(literal_cells(text@).take(text@.len() as int) =~= literal_cells(text@));
    Ok(out)
}

impl VirtualMachine {
    /// A machine over `instructions`, with a tape of `memory_size` cells
    /// (128 by default) and room reserved for `stack_size` stack values (64
    /// by default). The jump table is empty until `build_jump_table`.
    pub fn new(instructions: Vec<Instruction>, memory_size: Option<usize>, stack_size: Option<usize>) -> (r: VirtualMachine)
        ensures
            machine_ok(r@),
            r@ == (MachineView {
                code: views(instructions@),
                ip: 0,
                cp: 0,
                ticks: 0,
                memory: Seq::new(
                    match memory_size {
                        Some(n) => n,
                        None => DEFAULT_MEMORY_SIZE,
                    } as nat,
                    |k: int| 0u32,
                ),
                stack: seq![],
                jumps: map![],
                mode: PrintMode::Char,
                awaiting: None,
            }),
    {
        let code_len = instructions.len();
        let size = match memory_size {
            Some(n) => n,
            None => DEFAULT_MEMORY_SIZE,
        };
        let capacity = match stack_size {
            Some(n) => n,
            None => DEFAULT_STACK_SIZE,
        };
        let mut memory: Vec<u32> = Vec::new();
        while memory.len() < size
            invariant
                memory.len() <= size,
                forall|k: int| 0 <= k < memory.len() ==> memory@[k] == 0u32,
            decreases size - memory.len(),
        {
            memory.push(0);
        }
        let r = VirtualMachine {
            instructions,
            ip: 0,
            cp: 0,
            ticks: 0,
            memory,
            stack: Vec::with_capacity(capacity),
            jump_table: BTreeMap::new(),
            print_mode: PrintMode::Char,
            awaiting: None,
        };
        assert(r@.code.len() == code_len);
        assert(r@.memory =~= Seq::new(size as nat, |k: int| 0u32));
        assert(r@.stack =~= seq![]);
        assert(r@.jumps =~= map![]);
        r
    }

    /// Pairs the loop brackets of the program. On success the jump table is
    /// `jump_pairs` of the program; otherwise the machine is unchanged and
    /// the error names the bracket without a partner.
    pub fn build_jump_table(&mut self) -> (r: Result<(), VmError>)
        requires
            machine_ok(old(self)@),
        ensures
            machine_ok(final(self)@),
            match jump_pairs(old(self)@.code) {
                Ok(p) => r is Ok && final(self)@ == MachineView { jumps: p, ..old(self)@ },
                Err(k) => r == Err::<(), VmError>(VmError::UnmatchedBracket { at: k })
                    && final(self)@ == old(self)@,
            },
    {
        let ghost code = self@.code;
        let mut loop_stack: Vec<usize> = Vec::with_capacity(8);
        let mut table: BTreeMap<usize, usize> = BTreeMap::new();
        let n = self.instructions.len();
        let mut i: usize = 0;
        proof {
            assert(table@ =~= map![]);
            assert(loop_stack@ =~= seq![]);
        }
        while i < n
            invariant
                i <= n,
                n == code.len(),
                code == self@.code,
                self@ == old(self)@,
                machine_ok(self@),
                jump_pairs(code) == bracket_scan(code, i as int, loop_stack@, table@),
                forall|a: int| 0 <= a < loop_stack@.len() ==> loop_stack@[a] < i,
            decreases n - i,
        {
            let op = self.instructions[i].opcode;
            assert(op == code[i as int].opcode);
            if op == Opcode::JzCell || op == Opcode::JzStack {
                loop_stack.push(i);
            } else if op == Opcode::JnzCell || op == Opcode::JnzStack {
                match loop_stack.pop() {
                    Some(start) => {
                        table.insert(start, i);
                        table.insert(i, start);
                    },
                    None => {
                        return Err(VmError::UnmatchedBracket { at: i });
                    },
                }
            }
            i = i + 1;
        }
        if loop_stack.len() > 0 {
            let last = loop_stack[loop_stack.len() - 1];
            return Err(VmError::UnmatchedBracket { at: last });
        }
        proof {
            lemma_jump_table_symmetric(code);
        }
        self.jump_table = table;
        Ok(())
    }

    /// Dispatches the instruction at `ip`: the machine takes the step that
    /// `step` gives and returns its effect, or returns the error and stays
    /// as it was.
    #[verifier::rlimit(50)]
    pub fn run_cycle(&mut self) -> (r: Result<Effect, VmError>)
        requires
            machine_ok(old(self)@),
            old(self)@.ip < old(self)@.code.len(),
            old(self)@.awaiting is None,
            old(self)@.ticks < u64::MAX,
        ensures
            machine_ok(final(self)@),
            match step(old(self)@) {
                Ok((m, e)) => r == Ok::<Effect, VmError>(e) && final(self)@ == m,
                Err(err) => r == Err::<Effect, VmError>(err) && final(self)@ == old(self)@,
            },
    {
        let at = self.ip;
        let op = self.instructions[at].opcode;
        let n = self.instructions[at].count();
        assert(op == self@.code[at as int].opcode);
        assert(n == count_of(self@.code[at as int]));
        if uses_cell_exec(op) && self.cp >= self.memory.len() {
            return Err(VmError::TapeOutOfBounds { at });
        }
        let len = self.stack.len();
        assert(at < self.instructions.len());
        let mut next = at + 1;
        let mut effect = Effect::Continue;
        match op {
            Opcode::IncPtr => {
                if (n as usize) < self.memory.len() - self.cp {
                    self.cp = self.cp + n as usize;
                } else {
                    return Err(VmError::TapeOutOfBounds { at });
                }
            },
            Opcode::DecPtr => {
                if self.cp >= n as usize {
                    self.cp = self.cp - n as usize;
                } else {
                    self.cp = 0;
                }
            },
            Opcode::Inc => {
                let cp = self.cp;
                let v = self.memory[cp].wrapping_add(n);
                self.memory.set(cp, v);
            },
            Opcode::Dec => {
                let cp = self.cp;
                let c = self.memory[cp];
                let v = if c >= n {
                    c - n
                } else {
                    0
                };
                self.memory.set(cp, v);
            },
            Opcode::Clear => {
                let cp = self.cp;
                self.memory.set(cp, 0);
            },
            Opcode::Double => {
                let cp = self.cp;
                let v = self.memory[cp].wrapping_mul(2);
                self.memory.set(cp, v);
            },
            Opcode::Halve => {
                let cp = self.cp;
                let v = self.memory[cp] / 2;
                self.memory.set(cp, v);
            },
            Opcode::Push => {
                let v = self.memory[self.cp];
                self.stack.push(v);
            },
            Opcode::Pop => {
                let cp = self.cp;
                let v = match self.stack.pop() {
                    Some(v) => v,
                    None => 0,
                };
                self.memory.set(cp, v);
            },
            Opcode::Dup => {
                if len == 0 {
                    return Err(VmError::StackUnderflow { at });
                }
                let v = self.stack[len - 1];
                self.stack.push(v);
            },
            Opcode::Swap => {
                if len < 2 {
                    return Err(VmError::StackUnderflow { at });
                }
                let fst = self.stack[len - 1];
                let snd = self.stack[len - 2];
                self.stack.push(fst);
                self.stack.push(snd);
            },
            Opcode::Count => {
                let cp = self.cp;
                self.memory.set(cp, #[verifier::truncate] (len as u32));
            },
            Opcode::Compare => {
                if len < 2 {
                    return Err(VmError::StackUnderflow { at });
                }
                let cp = self.cp;
                let v: u32 = if self.stack[len - 1] == self.stack[len - 2] {
                    1
                } else {
                    0
                };
                self.memory.set(cp, v);
            },
            Opcode::ChrMod => {
                self.print_mode = PrintMode::Char;
            },
            Opcode::IntMod => {
                self.print_mode = PrintMode::Integer;
            },
            Opcode::Print => {
                let v = self.memory[self.cp];
                match self.print_mode {
                    PrintMode::Char => match char_from_u32(v) {
                        Some(c) => {
                            effect = Effect::PrintChar(c);
                        },
                        None => {
                            return Err(VmError::InvalidChar { at, value: v });
                        },
                    },
                    PrintMode::Integer => {
                        effect = Effect::PrintInteger(v);
                    },
                }
            },
            Opcode::Read => {
                let k: u32 = match self.stack.pop() {
                    Some(0) | None => 512,
                    Some(v) => v,
                };
                self.awaiting = Some(k);
                effect = Effect::Input(k);
            },
            Opcode::Str => {
                match resolve_literal(&self.instructions[at].value) {
                    Ok(cells) => {
                        let ghost base = self.stack@.push(0);
                        self.stack.push(0);
                        let mut i: usize = 0;
                        while i < cells.len()
                            invariant
                                i <= cells@.len(),
                                self.stack@ == base + cells@.take(i as int),
                                self@ == (MachineView { stack: self@.stack, ..old(self)@ }),
                            decreases cells@.len() - i,
                        {
                            assert(cells@.take(i + 1) =~= cells@.take(i as int).push(cells@[i as int]));
                            self.stack.push(cells[i]);
                            i = i + 1;
                        }
                        assert(cells@.take(i as int) =~= cells@);
                    },
                    Err(e) => {
                        return Err(VmError::InvalidEscape { at, escape: e });
                    },
                }
            },
            Opcode::JzCell | Opcode::JnzCell | Opcode::JzStack | Opcode::JnzStack => {
                let taken = match op {
                    Opcode::JzCell => self.memory[self.cp] == 0,
                    Opcode::JnzCell => self.memory[self.cp] != 0,
                    Opcode::JzStack => len == 0 || self.stack[len - 1] == 0,
                    _ => len > 0 && self.stack[len - 1] != 0,
                };
                if taken {
                    match self.jump_table.get(&at) {
                        Some(target) => {
                            assert(self@.jumps.contains_key(at) && self@.jumps[at] == *target);
                            next = *target + 1;
                        },
                        None => {
                            return Err(VmError::UnmatchedBracket { at });
                        },
                    }
                }
            },
            Opcode::Terminate => {
                next = self.instructions.len();
            },
            _ => {
                return Err(VmError::Unimplemented { at });
            },
        }
        self.ip = next;
        self.ticks = self.ticks + 1;
        Ok(effect)
    }

    /// The record for the debugger of the instruction about to be dispatched.
    pub fn debug_record(&self) -> (r: DebugInformation)
        requires
            self@.ip < self@.code.len(),
        ensures
            !r.terminate,
            r.instr matches Some(i) && i@ == self@.code[self@.ip as int],
    {
        DebugInformation { instr: Some(self.instructions[self.ip].duplicate()), terminate: false }
    }

    /// Whether an instruction is left to dispatch.
    pub fn is_running(&self) -> (r: bool)
        ensures
            r == (self@.ip < self@.code.len()),
    {
        self.ip < self.instructions.len()
    }

    /// The number of instructions dispatched so far.
    pub fn ticks(&self) -> (r: u64)
        ensures
            r == self@.ticks,
    {
        self.ticks
    }

    /// The byte count of a `Read` whose input has not been supplied yet.
    pub fn awaiting_input(&self) -> (r: Option<u32>)
        ensures
            r == self@.awaiting,
    {
        self.awaiting
    }

    /// The instruction at `index`, if there is one.
    pub fn instruction_at(&self, index: usize) -> (r: Option<&Instruction>)
        ensures
            index < self@.code.len() <==> r is Some,
            r matches Some(i) ==> i@ == self@.code[index as int],
    {
        if index < self.instructions.len() {
            Some(&self.instructions[index])
        } else {
            None
        }
    }

    /// Hands over the bytes read for the pending `Read`. Only the first `n`
    /// of them count, `n` being the count asked for; missing ones are 0.
    pub fn supply_input(&mut self, input: &[u8])
        requires
            machine_ok(old(self)@),
            old(self)@.awaiting is Some,
        ensures
            machine_ok(final(self)@),
            final(self)@ == supplied(old(self)@, input@),
    {
        let n = match self.awaiting {
            Some(n) => n,
            None => 0,
        };
        let ghost block = input_block(input@, n);
        if n == 1 {
            let b: u8 = if input.len() > 0 {
                input[0]
            } else {
                0
            };
            let cp = self.cp;
            self.memory.set(cp, b as u32);
        } else {
            let ghost base = self.stack@.push(0);
            self.stack.push(0);
            let mut i: u32 = n;
            while i > 0
                invariant
                    i <= n,
                    block == input_block(input@, n),
                    self.stack@ == base + input_cells(block).take(n - i),
                    self@ == (MachineView { stack: self@.stack, ..old(self)@ }),
                decreases i,
            {
                let k = (i - 1) as usize;
                let b: u8 = if k < input.len() {
                    input[k]
                } else {
                    0
                };
                assert(b == block[k as int]);
                assert(input_cells(block).take(n - i + 1) =~= input_cells(block).take(n - i).push(
                    b as u32,
                ));
                self.stack.push(b as u32);
                i = i - 1;
            }
            assert(input_cells(block).take(n as int) =~= input_cells(block));
        }
        self.awaiting = None;
    }
}

} // verus!
