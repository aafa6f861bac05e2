use vstd::prelude::*;
use crate::instruction::{InstrView, Instruction, count_of, optimized_text, optimized_value, views};
use crate::machine::{brackets_close, jump_pairs, lemma_jump_pairs_ok};
use crate::opcode::{Opcode, is_closer, is_opener};

verus! {

/// The peephole passes that the optimizer can run.
#[derive(Debug, Clone, Copy, PartialEq, Eq, Structural)]
pub enum OptimizerPass {
    /// Replaces a `[-]`-shaped loop by one `Clear`.
    OptimizeClearLoops,
    /// Replaces a run of cell increments and decrements by one instruction.
    OptimizeIncDecValChains,
    /// Replaces a run of pointer increments and decrements by one instruction.
    OptimizeIncDecPtrChains,
}

/// The instruction that stands for a clear loop opened by `b`.
pub open spec fn clear_of(b: InstrView) -> InstrView {
    InstrView {
        pos: b.pos,
        line: b.line,
        value: optimized_text(),
        opcode: Opcode::Clear,
        argument: None,
        optimized: true,
    }
}

/// Whether `s` starts with an opener, a `Dec` and a closer.
pub open spec fn starts_clear_loop(s: Seq<InstrView>) -> bool {
    &&& s.len() >= 3
    &&& is_opener(s[0].opcode)
    &&& s[1].opcode == Opcode::Dec
    &&& is_closer(s[2].opcode)
}

/// The clear-loop pass over `s`.
pub open spec fn clear_loops(s: Seq<InstrView>) -> Seq<InstrView>
    decreases s.len(),
{
    if s.len() == 0 {
        seq![]
    } else if starts_clear_loop(s) {
        seq![clear_of(s[0])] + clear_loops(s.skip(3))
    } else {
        seq![s[0]] + clear_loops(s.skip(1))
    }
}

/// Whether an opcode belongs to the run that `up` and `down` form.
pub open spec fn in_run(op: Opcode, up: Opcode, down: Opcode) -> bool {
    op == up || op == down
}

/// The length of the run of `up`/`down` instructions that starts `s`.
pub open spec fn run_len(s: Seq<InstrView>, up: Opcode, down: Opcode) -> nat
    decreases s.len(),
{
    if s.len() > 0 && in_run(s[0].opcode, up, down) {
        1 + run_len(s.skip(1), up, down)
    } else {
        0
    }
}

/// A run lies within `s`, is made of `up`/`down` instructions, and ends
/// before one that is neither.
pub proof fn lemma_run_len_bound(s: Seq<InstrView>, up: Opcode, down: Opcode)
    ensures
        run_len(s, up, down) <= s.len(),
        forall|m: int| 0 <= m < run_len(s, up, down) ==> in_run(#[trigger] s[m].opcode, up, down),
        run_len(s, up, down) < s.len() ==> !in_run(s[run_len(s, up, down) as int].opcode, up, down),
    decreases s.len(),
{
    if s.len() > 0 && in_run(s[0].opcode, up, down) {
        lemma_run_len_bound(s.skip(1), up, down);
        assert forall|m: int| 0 <= m < run_len(s, up, down) implies in_run(
            #[trigger] s[m].opcode,
            up,
            down,
        ) by {
            if m > 0 {
                assert(s[m] == s.skip(1)[m - 1]);
            }
        }
    }
}

/// The sum of the counts of the instructions of `s` whose opcode is `op`.
pub open spec fn total(s: Seq<InstrView>, op: Opcode) -> int
    decreases s.len(),
{
    if s.len() == 0 {
        0
    } else {
        total(s.drop_last(), op) + if s.last().opcode == op {
            count_of(s.last()) as int
        } else {
            0
        }
    }
}

/// `n`, or the largest `u32` where `n` is larger.
pub open spec fn capped(n: int) -> u32 {
    if n > u32::MAX {
        u32::MAX
    } else {
        n as u32
    }
}

/// The instruction that replaces a run starting with `first` whose
/// (capped) totals are `i` up and `d` down.
pub open spec fn merged(first: InstrView, i: u32, d: u32, up: Opcode, down: Opcode) -> InstrView {
    InstrView {
        pos: first.pos,
        line: first.line,
        value: optimized_text(),
        opcode: if i > d {
            up
        } else {
            down
        },
        argument: Some(
            if i > d {
                (i - d) as u32
            } else {
                (d - i) as u32
            },
        ),
        optimized: true,
    }
}

/// What the run-collapsing scan does at the start of `t`: where the run
/// there has totals that are not both zero, the number of instructions it
/// replaces and the one instruction that replaces them; otherwise `None`.
pub open spec fn run_replacement(t: Seq<InstrView>, up: Opcode, down: Opcode) -> Option<(nat, InstrView)> {
    let k = run_len(t, up, down);
    let i = capped(total(t.take(k as int), up));
    let d = capped(total(t.take(k as int), down));
    if k > 0 && (i > 0 || d > 0) {
        Some((k, merged(t[0], i, d, up, down)))
    } else {
        None
    }
}

/// The run-collapsing pass over `s` for the pair `up`/`down`.
///
/// A run whose totals are not both zero becomes one instruction; the totals
/// saturate at the largest `u32`. Otherwise the first instruction is kept
/// and the scan goes on from the next one.
pub open spec fn collapse_runs(s: Seq<InstrView>, up: Opcode, down: Opcode) -> Seq<InstrView>
    decreases s.len(),
{
    if s.len() == 0 {
        seq![]
    } else {
        let r = run_len(s, up, down) as int;
        let i = capped(total(s.take(r), up));
        let d = capped(total(s.take(r), down));
        if r > 0 && (i > 0 || d > 0) {
            proof {
                lemma_run_len_bound(s, up, down);
            }
            seq![merged(s[0], i, d, up, down)] + collapse_runs(s.skip(r), up, down)
        } else {
            seq![s[0]] + collapse_runs(s.skip(1), up, down)
        }
    }
}

/// One pass over `s`.
pub open spec fn apply_pass(pass: OptimizerPass, s: Seq<InstrView>) -> Seq<InstrView> {
    match pass {
        OptimizerPass::OptimizeClearLoops => clear_loops(s),
        OptimizerPass::OptimizeIncDecValChains => collapse_runs(s, Opcode::Inc, Opcode::Dec),
        OptimizerPass::OptimizeIncDecPtrChains => collapse_runs(s, Opcode::IncPtr, Opcode::DecPtr),
    }
}

/// The passes of `passes`, in order, over `s`.
pub open spec fn apply_passes(s: Seq<InstrView>, passes: Seq<OptimizerPass>) -> Seq<InstrView>
    decreases passes.len(),
{
    if passes.len() == 0 {
        s
    } else {
        apply_pass(passes.last(), apply_passes(s, passes.drop_last()))
    }
}

/// `iterations` rounds of `passes` over `s`.
pub open spec fn optimized(s: Seq<InstrView>, passes: Seq<OptimizerPass>, iterations: nat) -> Seq<
    InstrView,
>
    decreases iterations,
{
    if iterations == 0 {
        s
    } else {
        apply_passes(optimized(s, passes, (iterations - 1) as nat), passes)
    }
}

/// A total of counts is never negative.
pub proof fn lemma_total_nonneg(s: Seq<InstrView>, op: Opcode)
    ensures
        total(s, op) >= 0,
    decreases s.len(),
{
    if s.len() > 0 {
        lemma_total_nonneg(s.drop_last(), op);
    }
}

proof fn lemma_run_len_exact(t: Seq<InstrView>, k: int, up: Opcode, down: Opcode)
    requires
        0 <= k <= t.len(),
        forall|m: int| 0 <= m < k ==> in_run(#[trigger] t[m].opcode, up, down),
        k == t.len() || !in_run(t[k].opcode, up, down),
    ensures
        run_len(t, up, down) == k,
    decreases k,
{
    if k > 0 {
        assert forall|m: int| 0 <= m < k - 1 implies in_run(#[trigger] t.skip(1)[m].opcode, up, down) by {
            assert(t.skip(1)[m] == t[m + 1]);
        }
        lemma_run_len_exact(t.skip(1), k - 1, up, down);
    }
}

/// The optimizer: runs its passes over an instruction list.
pub struct Optimizer {
    /// The passes, in the order in which they run.
    passes: Vec<OptimizerPass>,
    /// The instruction list; after `optimize`, the optimized one.
    pub instructions: Vec<Instruction>,
    /// The output of the pass that is running.
    out_instructions: Vec<Instruction>,
}

/// The scan position of a pass.
struct OptimizerPassState {
    pos: usize,
    size: usize,
}

impl OptimizerPassState {
    /// Whether `n` more instructions after the current one exist.
    fn can_advance(&self, n: usize) -> (r: bool)
        requires
            self.pos <= self.size,
        ensures
            r == (self.pos + n < self.size),
    {
        n < self.size - self.pos
    }

    /// Moves past `n` instructions.
    fn skip(&mut self, n: usize)
        requires
            old(self).pos + n <= old(self).size,
        ensures
            final(self).pos == old(self).pos + n,
            final(self).size == old(self).size,
    {
        self.pos = self.pos + n;
    }
}

impl Optimizer {
    /// The instruction list.
    pub closed spec fn program(&self) -> Seq<InstrView> {
        views(self.instructions@)
    }

    /// The passes, in the order in which they run.
    pub closed spec fn pass_list(&self) -> Seq<OptimizerPass> {
        self.passes@
    }

    /// An optimizer over `instructions` with the given passes, or none.
    pub fn new(instructions: Vec<Instruction>, passes: Option<Vec<OptimizerPass>>) -> (r: Optimizer)
        ensures
            r.program() == views(instructions@),
            r.pass_list() == match passes {
                Some(p) => p@,
                None => Seq::<OptimizerPass>::empty(),
            },
    {
        let passes = match passes {
            Some(p) => p,
            None => Vec::new(),
        };
        let n = instructions.len();
        Optimizer { passes, instructions, out_instructions: Vec::with_capacity(n) }
    }

    /// The instruction list, handing the optimizer over.
    pub fn into_instructions(self) -> (r: Vec<Instruction>)
        ensures
            views(r@) == self.program(),
    {
        self.instructions
    }

    /// Adds a pass after those already there.
    pub fn add_pass(&mut self, pass: OptimizerPass)
        ensures
            final(self).pass_list() == old(self).pass_list().push(pass),
            final(self).program() == old(self).program(),
    {
        self.passes.push(pass);
    }

    /// Runs `iterations` rounds of the passes, each over the output of the one before.
    pub fn optimize(&mut self, iterations: usize)
        ensures
            final(self).pass_list() == old(self).pass_list(),
            final(self).program() == optimized(
                old(self).program(),
                old(self).pass_list(),
                iterations as nat,
            ),
    {
        let ghost orig = self.program();
        let ghost ps = self.passes@;
        let mut round: usize = 0;
        while round < iterations
            invariant
                round <= iterations,
                self.passes@ == ps,
                self.program() == optimized(orig, ps, round as nat),
            decreases iterations - round,
        {
            let ghost start = self.program();
            let mut p: usize = 0;
            while p < self.passes.len()
                invariant
                    p <= self.passes@.len(),
                    self.passes@ == ps,
                    self.program() == apply_passes(start, ps.take(p as int)),
                decreases self.passes@.len() - p,
            {
                let pass = self.passes[p];
                self.run_pass(pass);
                assert(ps.take(p + 1).drop_last() =~= ps.take(p as int));
                p = p + 1;
            }
            assert(ps.take(p as int) =~= ps);
            round = round + 1;
        }
    }

    /// Runs one pass over the instruction list.
    fn run_pass(&mut self, pass: OptimizerPass)
        ensures
            final(self).passes == old(self).passes,
            final(self).program() == apply_pass(pass, old(self).program()),
    {
        let ghost s = self.program();
        self.out_instructions = Vec::new();
        let mut state = OptimizerPassState { pos: 0, size: self.instructions.len() };
        assert(s.skip(0) =~= s);
        while state.can_advance(0)
            invariant
                state.pos <= state.size,
                state.size == self.instructions@.len(),
                self.passes == old(self).passes,
                self.program() == s,
                views(self.out_instructions@) + apply_pass(pass, s.skip(state.pos as int))
                    == apply_pass(pass, s),
            decreases state.size - state.pos,
        {
            let changed = match pass {
                OptimizerPass::OptimizeClearLoops => self.optimize_clear_loops(&mut state),
                OptimizerPass::OptimizeIncDecValChains => self.optimize_inc_dec_val_chains(
                    &mut state,
                ),
                OptimizerPass::OptimizeIncDecPtrChains => self.optimize_inc_dec_ptr_chains(
                    &mut state,
                ),
            };
            if !changed {
                let ghost before = views(self.out_instructions@);
                let ghost k = state.pos as int;
                let copy = self.instructions[state.pos].duplicate();
                self.out_instructions.push(copy);
                state.skip(1);
                assert(views(self.out_instructions@) =~= before.push(s[k]));
                assert(s.skip(k).skip(1) =~= s.skip(k + 1));
                assert(before.push(s[k]) + apply_pass(pass, s.skip(k + 1)) =~= before + (seq![s[k]]
                    + apply_pass(pass, s.skip(k + 1))));
            }
        }
        assert(s.skip(state.pos as int) =~= Seq::<InstrView>::empty());
        assert(views(self.out_instructions@) =~= apply_pass(pass, s));
        std::mem::swap(&mut self.instructions, &mut self.out_instructions);
        self.out_instructions = Vec::new();
    }

    /// Replaces a clear loop at the scan position, if one stands there.
    fn optimize_clear_loops(&mut self, state: &mut OptimizerPassState) -> (r: bool)
        requires
            old(state).pos < old(state).size == old(self).instructions@.len(),
        ensures
            final(self).instructions == old(self).instructions,
            final(self).passes == old(self).passes,
            final(state).size == old(state).size,
            final(state).pos <= final(state).size,
            r == starts_clear_loop(old(self).program().skip(old(state).pos as int)),
            r ==> final(state).pos == old(state).pos + 3 && views(final(self).out_instructions@)
                == views(old(self).out_instructions@).push(
                clear_of(old(self).program()[old(state).pos as int]),
            ),
            r ==> final(state).pos > old(state).pos,
            r ==> views(final(self).out_instructions@) + clear_loops(
                old(self).program().skip(final(state).pos as int),
            ) == views(old(self).out_instructions@) + clear_loops(
                old(self).program().skip(old(state).pos as int),
            ),
            !r ==> final(self).out_instructions == old(self).out_instructions && final(state).pos
                == old(state).pos && clear_loops(old(self).program().skip(old(state).pos as int))
                == seq![old(self).program()[old(state).pos as int]] + clear_loops(
                old(self).program().skip(old(state).pos + 1),
            ),
    {
        let ghost s = self.program();
        let ghost t = s.skip(state.pos as int);
        let pos = state.pos;
        if state.can_advance(2) && (self.instructions[pos].is(Opcode::JzStack)
            || self.instructions[pos].is(Opcode::JzCell)) && self.instructions[pos + 1].is(
            Opcode::Dec,
        ) && (self.instructions[pos + 2].is(Opcode::JnzStack) || self.instructions[pos + 2].is(
            Opcode::JnzCell,
        )) {
            assert(starts_clear_loop(t));
            let first = &self.instructions[pos];
            let clear = Instruction {
                pos: first.pos,
                line: first.line,
                value: optimized_value(),
                opcode: Opcode::Clear,
                argument: None,
                optimized: true,
            };
            let ghost before = views(self.out_instructions@);
            self.out_instructions.push(clear);
            state.skip(3);
            assert(views(self.out_instructions@) =~= before.push(clear_of(s[pos as int])));
            assert(t.skip(3) =~= s.skip(pos + 3));
            assert(before.push(clear_of(s[pos as int])) + clear_loops(t.skip(3)) =~= before + (seq![
                clear_of(t[0]),
            ] + clear_loops(t.skip(3))));
            true
        } else {
            assert(!starts_clear_loop(t));
            assert(t.skip(1) =~= s.skip(pos + 1));
            false
        }
    }

    /// Collapses a run of cell increments and decrements at the scan position.
    fn optimize_inc_dec_val_chains(&mut self, state: &mut OptimizerPassState) -> (r: bool)
        requires
            old(state).pos < old(state).size == old(self).instructions@.len(),
        ensures
            final(self).instructions == old(self).instructions,
            final(self).passes == old(self).passes,
            final(state).size == old(state).size,
            final(state).pos <= final(state).size,
            r == run_replacement(
                old(self).program().skip(old(state).pos as int),
                Opcode::Inc,
                Opcode::Dec,
            ) is Some,
            run_replacement(old(self).program().skip(old(state).pos as int), Opcode::Inc, Opcode::Dec) matches Some(
                (k, x),
            ) ==> final(state).pos == old(state).pos + k && views(final(self).out_instructions@)
                == views(old(self).out_instructions@).push(x),
            r ==> final(state).pos > old(state).pos,
            r ==> views(final(self).out_instructions@) + collapse_runs(
                old(self).program().skip(final(state).pos as int),
                Opcode::Inc,
                Opcode::Dec,
            ) == views(old(self).out_instructions@) + collapse_runs(
                old(self).program().skip(old(state).pos as int),
                Opcode::Inc,
                Opcode::Dec,
            ),
            !r ==> final(self).out_instructions == old(self).out_instructions && final(state).pos
                == old(state).pos && collapse_runs(
                old(self).program().skip(old(state).pos as int),
                Opcode::Inc,
                Opcode::Dec,
            ) == seq![old(self).program()[old(state).pos as int]] + collapse_runs(
                old(self).program().skip(old(state).pos + 1),
                Opcode::Inc,
                Opcode::Dec,
            ),
    {
        self.optimize_chain(state, Opcode::Inc, Opcode::Dec)
    }

    /// Collapses a run of pointer increments and decrements at the scan position.
    fn optimize_inc_dec_ptr_chains(&mut self, state: &mut OptimizerPassState) -> (r: bool)
        requires
            old(state).pos < old(state).size == old(self).instructions@.len(),
        ensures
            final(self).instructions == old(self).instructions,
            final(self).passes == old(self).passes,
            final(state).size == old(state).size,
            final(state).pos <= final(state).size,
            r == run_replacement(
                old(self).program().skip(old(state).pos as int),
                Opcode::IncPtr,
                Opcode::DecPtr,
            ) is Some,
            run_replacement(old(self).program().skip(old(state).pos as int), Opcode::IncPtr, Opcode::DecPtr) matches Some(
                (k, x),
            ) ==> final(state).pos == old(state).pos + k && views(final(self).out_instructions@)
                == views(old(self).out_instructions@).push(x),
            r ==> final(state).pos > old(state).pos,
            r ==> views(final(self).out_instructions@) + collapse_runs(
                old(self).program().skip(final(state).pos as int),
                Opcode::IncPtr,
                Opcode::DecPtr,
            ) == views(old(self).out_instructions@) + collapse_runs(
                old(self).program().skip(old(state).pos as int),
                Opcode::IncPtr,
                Opcode::DecPtr,
            ),
            !r ==> final(self).out_instructions == old(self).out_instructions && final(state).pos
                == old(state).pos && collapse_runs(
                old(self).program().skip(old(state).pos as int),
                Opcode::IncPtr,
                Opcode::DecPtr,
            ) == seq![old(self).program()[old(state).pos as int]] + collapse_runs(
                old(self).program().skip(old(state).pos + 1),
                Opcode::IncPtr,
                Opcode::DecPtr,
            ),
    {
        self.optimize_chain(state, Opcode::IncPtr, Opcode::DecPtr)
    }

    /// Collapses a run of `up`/`down` instructions at the scan position.
    fn optimize_chain(&mut self, state: &mut OptimizerPassState, up: Opcode, down: Opcode) -> (r:
        bool)
        requires
            old(state).pos < old(state).size == old(self).instructions@.len(),
            up != down,
        ensures
            final(self).instructions == old(self).instructions,
            final(self).passes == old(self).passes,
            final(state).size == old(state).size,
            final(state).pos <= final(state).size,
            r == run_replacement(
                old(self).program().skip(old(state).pos as int),
                up,
                down,
            ) is Some,
            run_replacement(old(self).program().skip(old(state).pos as int), up, down) matches Some(
                (k, x),
            ) ==> final(state).pos == old(state).pos + k && views(final(self).out_instructions@)
                == views(old(self).out_instructions@).push(x),
            r ==> final(state).pos > old(state).pos,
            r ==> views(final(self).out_instructions@) + collapse_runs(
                old(self).program().skip(final(state).pos as int),
                up,
                down,
            ) == views(old(self).out_instructions@) + collapse_runs(
                old(self).program().skip(old(state).pos as int),
                up,
                down,
            ),
            !r ==> final(self).out_instructions == old(self).out_instructions && final(state).pos
                == old(state).pos && collapse_runs(
                old(self).program().skip(old(state).pos as int),
                up,
                down,
            ) == seq![old(self).program()[old(state).pos as int]] + collapse_runs(
                old(self).program().skip(old(state).pos + 1),
                up,
                down,
            ),
    {
        let ghost s = self.program();
        let start = state.pos;
        let ghost t = s.skip(start as int);
        let mut j = start;
        let mut incs: u32 = 0;
        let mut decs: u32 = 0;
        while j < state.size && (self.instructions[j].is(up) || self.instructions[j].is(down))
            invariant
                start <= j <= state.size,
                up != down,
                state.size == self.instructions@.len(),
                self.program() == s,
                t == s.skip(start as int),
                forall|m: int| start <= m < j ==> in_run(#[trigger] s[m].opcode, up, down),
                incs == capped(total(t.take(j - start), up)),
                decs == capped(total(t.take(j - start), down)),
            decreases state.size - j,
        {
            let c = self.instructions[j].count();
            let ghost k = j - start;
            proof {
                assert(t.take(k + 1).drop_last() =~= t.take(k));
                assert(t[k] == s[j as int]);
                assert(s[j as int] == self.instructions@[j as int]@);
                lemma_total_nonneg(t.take(k), up);
                lemma_total_nonneg(t.take(k), down);
            }
            proof {
                let w = t.take(k + 1);
                assert(w.last() == t[k]);
                assert(total(w, up) == total(t.take(k), up) + if t[k].opcode == up {
                    c as int
                } else {
                    0
                });
                assert(total(w, down) == total(t.take(k), down) + if t[k].opcode == down {
                    c as int
                } else {
                    0
                });
            }
            if self.instructions[j].is(up) {
                assert(t[k].opcode != down);
                incs = incs.saturating_add(c);
            } else {
                assert(t[k].opcode != up);
                decs = decs.saturating_add(c);
            }
            j = j + 1;
        }
        let ghost r = j - start;
        proof {
            assert forall|m: int| 0 <= m < r implies in_run(#[trigger] t[m].opcode, up, down) by {
                assert(t[m] == s[start + m]);
            }
            lemma_run_len_exact(t, r, up, down);
        }
        if incs > 0 || decs > 0 {
            let first = &self.instructions[start];
            let merged_instr = Instruction {
                pos: first.pos,
                line: first.line,
                value: optimized_value(),
                opcode: if incs > decs {
                    up
                } else {
                    down
                },
                argument: Some(
                    if incs > decs {
                        incs - decs
                    } else {
                        decs - incs
                    },
                ),
                optimized: true,
            };
            let ghost before = views(self.out_instructions@);
            let ghost x = merged(t[0], incs, decs, up, down);
            self.out_instructions.push(merged_instr);
            state.pos = j;
            proof {
                assert(r > 0);
                assert(views(self.out_instructions@) =~= before.push(x));
                assert(t.skip(r) =~= s.skip(j as int));
                assert(before.push(x) + collapse_runs(t.skip(r), up, down) =~= before + (seq![x]
                    + collapse_runs(t.skip(r), up, down)));
            }
            true
        } else {
            assert(t.skip(1) =~= s.skip(start + 1));
            false
        }
    }
}

/// +1 for a loop opener, -1 for a closer, 0 for anything else.
pub open spec fn bracket_weight(i: InstrView) -> int {
    if is_opener(i.opcode) {
        1
    } else if is_closer(i.opcode) {
        -1
    } else {
        0
    }
}

/// The number of loop openers in `s` minus the number of closers.
pub open spec fn bracket_balance(s: Seq<InstrView>) -> int
    decreases s.len(),
{
    if s.len() == 0 {
        0
    } else {
        bracket_weight(s[0]) + bracket_balance(s.skip(1))
    }
}

proof fn lemma_balance_concat(a: Seq<InstrView>, b: Seq<InstrView>)
    ensures
        bracket_balance(a + b) == bracket_balance(a) + bracket_balance(b),
    decreases a.len(),
{
    if a.len() > 0 {
        assert((a + b).skip(1) =~= a.skip(1) + b);
        lemma_balance_concat(a.skip(1), b);
    } else {
        assert(a + b =~= b);
    }
}

proof fn lemma_balance_neutral(s: Seq<InstrView>)
    requires
        forall|m: int| 0 <= m < s.len() ==> bracket_weight(#[trigger] s[m]) == 0,
    ensures
        bracket_balance(s) == 0,
    decreases s.len(),
{
    if s.len() > 0 {
        assert forall|m: int| 0 <= m < s.skip(1).len() implies bracket_weight(#[trigger] s.skip(1)[m]) == 0 by {
            assert(s.skip(1)[m] == s[m + 1]);
        }
        lemma_balance_neutral(s.skip(1));
    }
}

proof fn lemma_clear_loops_balance(s: Seq<InstrView>)
    ensures
        bracket_balance(clear_loops(s)) == bracket_balance(s),
    decreases s.len(),
{
    if s.len() > 0 {
        if starts_clear_loop(s) {
            lemma_clear_loops_balance(s.skip(3));
            lemma_balance_concat(seq![clear_of(s[0])], clear_loops(s.skip(3)));
            assert(s.skip(1).skip(1) =~= s.skip(2));
            assert(s.skip(2).skip(1) =~= s.skip(3));
            assert(bracket_balance(s.skip(2)) == -1 + bracket_balance(s.skip(3)));
            assert(bracket_balance(seq![clear_of(s[0])]) == 0) by {
                assert(seq![clear_of(s[0])].skip(1) =~= Seq::<InstrView>::empty());
                assert(bracket_balance(Seq::<InstrView>::empty()) == 0);
            }
            assert(bracket_balance(s.skip(1)) == bracket_balance(s.skip(2)));
        } else {
            lemma_clear_loops_balance(s.skip(1));
            assert((seq![s[0]] + clear_loops(s.skip(1))).skip(1) =~= clear_loops(s.skip(1)));
        }
    }
}

proof fn lemma_collapse_runs_balance(s: Seq<InstrView>, up: Opcode, down: Opcode)
    requires
        !is_opener(up) && !is_closer(up) && !is_opener(down) && !is_closer(down),
    ensures
        bracket_balance(collapse_runs(s, up, down)) == bracket_balance(s),
    decreases s.len(),
{
    if s.len() > 0 {
        let r = run_len(s, up, down) as int;
        let i = capped(total(s.take(r), up));
        let d = capped(total(s.take(r), down));
        lemma_run_len_bound(s, up, down);
        if r > 0 && (i > 0 || d > 0) {
            let x = merged(s[0], i, d, up, down);
            lemma_collapse_runs_balance(s.skip(r), up, down);
            lemma_balance_concat(seq![x], collapse_runs(s.skip(r), up, down));
            assert(bracket_balance(seq![x]) == 0) by {
                assert(seq![x].skip(1) =~= Seq::<InstrView>::empty());
                assert(bracket_balance(Seq::<InstrView>::empty()) == 0);
            }
            assert(s =~= s.take(r) + s.skip(r));
            lemma_balance_concat(s.take(r), s.skip(r));
            assert forall|m: int| 0 <= m < s.take(r).len() implies bracket_weight(
                #[trigger] s.take(r)[m],
            ) == 0 by {
                assert(s.take(r)[m] == s[m]);
                assert(in_run(s[m].opcode, up, down));
            }
            lemma_balance_neutral(s.take(r));
        } else {
            lemma_collapse_runs_balance(s.skip(1), up, down);
            assert((seq![s[0]] + collapse_runs(s.skip(1), up, down)).skip(1) =~= collapse_runs(
                s.skip(1),
                up,
                down,
            ));
        }
    }
}

/// Each pass keeps the number of loop openers minus the number of closers:
/// a clear loop loses one of each, and run collapsing touches no bracket.
pub proof fn lemma_pass_keeps_bracket_balance(pass: OptimizerPass, s: Seq<InstrView>)
    ensures
        bracket_balance(apply_pass(pass, s)) == bracket_balance(s),
{
    match pass {
        OptimizerPass::OptimizeClearLoops => lemma_clear_loops_balance(s),
        OptimizerPass::OptimizeIncDecValChains => lemma_collapse_runs_balance(
            s,
            Opcode::Inc,
            Opcode::Dec,
        ),
        OptimizerPass::OptimizeIncDecPtrChains => lemma_collapse_runs_balance(
            s,
            Opcode::IncPtr,
            Opcode::DecPtr,
        ),
    }
}

/// The whole optimizer keeps the number of loop openers minus the number of
/// closers, whatever its passes and rounds.
pub proof fn lemma_optimize_keeps_bracket_balance(
    s: Seq<InstrView>,
    passes: Seq<OptimizerPass>,
    iterations: nat,
)
    ensures
        bracket_balance(optimized(s, passes, iterations)) == bracket_balance(s),
    decreases iterations, passes.len(),
{
    if iterations > 0 {
        lemma_optimize_keeps_bracket_balance(s, passes, (iterations - 1) as nat);
        lemma_passes_keep_bracket_balance(optimized(s, passes, (iterations - 1) as nat), passes);
    }
}

proof fn lemma_passes_keep_bracket_balance(s: Seq<InstrView>, passes: Seq<OptimizerPass>)
    ensures
        bracket_balance(apply_passes(s, passes)) == bracket_balance(s),
    decreases passes.len(),
{
    if passes.len() > 0 {
        lemma_passes_keep_bracket_balance(s, passes.drop_last());
        lemma_pass_keeps_bracket_balance(passes.last(), apply_passes(s, passes.drop_last()));
    }
}

proof fn lemma_total_first(a: Seq<InstrView>, op: Opcode)
    requires
        a.len() > 0,
    ensures
        total(a, op) == (if a[0].opcode == op {
            count_of(a[0]) as int
        } else {
            0
        }) + total(a.skip(1), op),
    decreases a.len(),
{
    if a.len() == 1 {
        assert(a.drop_last() =~= Seq::<InstrView>::empty());
        assert(a.skip(1) =~= Seq::<InstrView>::empty());
    } else {
        lemma_total_first(a.drop_last(), op);
        assert(a.drop_last().skip(1) =~= a.skip(1).drop_last());
    }
}

proof fn lemma_collapse_head(t: Seq<InstrView>, up: Opcode, down: Opcode)
    ensures
        t.len() == 0 ==> collapse_runs(t, up, down).len() == 0,
        t.len() > 0 && !in_run(t[0].opcode, up, down) ==> collapse_runs(t, up, down).len() > 0
            && collapse_runs(t, up, down)[0] == t[0],
{
    if t.len() > 0 && !in_run(t[0].opcode, up, down) {
        assert(run_len(t, up, down) == 0);
    }
}

proof fn lemma_zero_run(s: Seq<InstrView>, up: Opcode, down: Opcode)
    requires
        up != down,
        run_len(s, up, down) > 0,
        total(s.take(run_len(s, up, down) as int), up) == 0,
        total(s.take(run_len(s, up, down) as int), down) == 0,
    ensures
        collapse_runs(s, up, down) == s.take(run_len(s, up, down) as int) + collapse_runs(
            s.skip(run_len(s, up, down) as int),
            up,
            down,
        ),
    decreases s.len(),
{
    let r = run_len(s, up, down) as int;
    lemma_run_len_bound(s, up, down);
    let t = s.skip(1);
    if r == 1 {
        assert(s.take(1) =~= seq![s[0]]);
    } else {
        assert(run_len(t, up, down) == r - 1);
        assert(s.take(r).skip(1) =~= t.take(r - 1));
        assert(s.take(r)[0] == s[0]);
        lemma_total_first(s.take(r), up);
        lemma_total_first(s.take(r), down);
        lemma_total_nonneg(t.take(r - 1), up);
        lemma_total_nonneg(t.take(r - 1), down);
        lemma_zero_run(t, up, down);
        assert(t.skip(r - 1) =~= s.skip(r));
        assert(seq![s[0]] + t.take(r - 1) =~= s.take(r));
        assert(seq![s[0]] + (t.take(r - 1) + collapse_runs(s.skip(r), up, down)) =~= s.take(r)
            + collapse_runs(s.skip(r), up, down));
    }
}

/// Collapsing the runs of `up`/`down` instructions a second time changes
/// nothing: each run has become one instruction that collapses to itself,
/// and the runs left alone (all counts zero) are left alone again.
pub proof fn lemma_collapse_runs_idempotent(s: Seq<InstrView>, up: Opcode, down: Opcode)
    requires
        up != down,
    ensures
        collapse_runs(collapse_runs(s, up, down), up, down) == collapse_runs(s, up, down),
    decreases s.len(),
{
    if s.len() == 0 {
        lemma_collapse_head(s, up, down);
        lemma_collapse_head(collapse_runs(s, up, down), up, down);
        assert(collapse_runs(s, up, down) =~= Seq::<InstrView>::empty());
        assert(collapse_runs(collapse_runs(s, up, down), up, down) =~= Seq::<InstrView>::empty());
        return;
    }
    let r = run_len(s, up, down) as int;
    let i = capped(total(s.take(r), up));
    let d = capped(total(s.take(r), down));
    lemma_run_len_bound(s, up, down);
    lemma_total_nonneg(s.take(r), up);
    lemma_total_nonneg(s.take(r), down);
    let rest = s.skip(r);
    if r > 0 && (i > 0 || d > 0) {
        let x = merged(s[0], i, d, up, down);
        let w = collapse_runs(rest, up, down);
        lemma_collapse_runs_idempotent(rest, up, down);
        lemma_collapse_head(rest, up, down);
        if rest.len() > 0 {
            assert(rest[0] == s[r]);
        }
        let u = seq![x] + w;
        assert(u.skip(1) =~= w);
        assert forall|m: int| 0 <= m < 1 implies in_run(#[trigger] u[m].opcode, up, down) by {}
        lemma_run_len_exact(u, 1, up, down);
        let one = u.take(1);
        assert(one.drop_last() =~= Seq::<InstrView>::empty());
        assert(one.last() == x);
        assert(total(one, up) == total(one.drop_last(), up) + if x.opcode == up {
            count_of(x) as int
        } else {
            0
        });
        assert(total(one, down) == total(one.drop_last(), down) + if x.opcode == down {
            count_of(x) as int
        } else {
            0
        });
        assert(collapse_runs(s, up, down) == u);
    } else {
        let w = collapse_runs(s.skip(1), up, down);
        assert(collapse_runs(s, up, down) == seq![s[0]] + w);
        if !in_run(s[0].opcode, up, down) {
            lemma_collapse_runs_idempotent(s.skip(1), up, down);
            let c = seq![s[0]] + w;
            assert(run_len(c, up, down) == 0);
            assert(c.skip(1) =~= w);
        } else {
            assert(r > 0);
            assert(total(s.take(r), up) == 0);
            assert(total(s.take(r), down) == 0);
            lemma_zero_run(s, up, down);
            let z = s.take(r);
            let w2 = collapse_runs(rest, up, down);
            lemma_collapse_runs_idempotent(rest, up, down);
            lemma_collapse_head(rest, up, down);
            if rest.len() > 0 {
                assert(rest[0] == s[r]);
            }
            let v = z + w2;
            assert forall|m: int| 0 <= m < r implies in_run(#[trigger] v[m].opcode, up, down) by {
                assert(v[m] == s[m]);
            }
            if r < v.len() {
                assert(v[r] == w2[0]);
            }
            lemma_run_len_exact(v, r, up, down);
            assert(v.take(r) =~= z);
            assert(v.skip(r) =~= w2);
            lemma_zero_run(v, up, down);
        }
    }
}

/// The cell increment/decrement pass, run over its own output, changes
/// nothing.
pub proof fn lemma_val_chains_idempotent(s: Seq<InstrView>)
    ensures
        apply_pass(
            OptimizerPass::OptimizeIncDecValChains,
            apply_pass(OptimizerPass::OptimizeIncDecValChains, s),
        ) == apply_pass(OptimizerPass::OptimizeIncDecValChains, s),
{
    lemma_collapse_runs_idempotent(s, Opcode::Inc, Opcode::Dec);
}

proof fn lemma_close_neutral_prefix(a: Seq<InstrView>, b: Seq<InstrView>, depth: nat)
    requires
        forall|m: int| 0 <= m < a.len() ==> bracket_weight(#[trigger] a[m]) == 0,
    ensures
        brackets_close(a + b, depth) == brackets_close(b, depth),
    decreases a.len(),
{
    if a.len() > 0 {
        assert((a + b)[0] == a[0]);
        assert((a + b).skip(1) =~= a.skip(1) + b);
        assert forall|m: int| 0 <= m < a.skip(1).len() implies bracket_weight(#[trigger] a.skip(1)[m]) == 0 by {
            assert(a.skip(1)[m] == a[m + 1]);
        }
        lemma_close_neutral_prefix(a.skip(1), b, depth);
    } else {
        assert(a + b =~= b);
    }
}

proof fn lemma_clear_loops_pairing(s: Seq<InstrView>, depth: nat)
    ensures
        brackets_close(clear_loops(s), depth) == brackets_close(s, depth),
    decreases s.len(),
{
    if s.len() > 0 {
        if starts_clear_loop(s) {
            let rest = clear_loops(s.skip(3));
            lemma_clear_loops_pairing(s.skip(3), depth);
            assert((seq![clear_of(s[0])] + rest)[0] == clear_of(s[0]));
            assert((seq![clear_of(s[0])] + rest).skip(1) =~= rest);
            assert(s.skip(1)[0] == s[1]);
            assert(s.skip(2)[0] == s[2]);
            assert(s.skip(1).skip(1) =~= s.skip(2));
            assert(s.skip(2).skip(1) =~= s.skip(3));
            assert(brackets_close(s.skip(2), depth + 1) == brackets_close(s.skip(3), depth));
            assert(brackets_close(s.skip(1), depth + 1) == brackets_close(s.skip(2), depth + 1));
            assert(brackets_close(s, depth) == brackets_close(s.skip(1), depth + 1));
            assert(brackets_close(clear_loops(s), depth) == brackets_close(rest, depth));
        } else {
            let rest = clear_loops(s.skip(1));
            assert((seq![s[0]] + rest)[0] == s[0]);
            assert((seq![s[0]] + rest).skip(1) =~= rest);
            if is_opener(s[0].opcode) {
                lemma_clear_loops_pairing(s.skip(1), depth + 1);
            } else if is_closer(s[0].opcode) {
                if depth > 0 {
                    lemma_clear_loops_pairing(s.skip(1), (depth - 1) as nat);
                }
            } else {
                lemma_clear_loops_pairing(s.skip(1), depth);
            }
        }
    }
}

proof fn lemma_collapse_runs_pairing(s: Seq<InstrView>, up: Opcode, down: Opcode, depth: nat)
    requires
        !is_opener(up) && !is_closer(up) && !is_opener(down) && !is_closer(down),
    ensures
        brackets_close(collapse_runs(s, up, down), depth) == brackets_close(s, depth),
    decreases s.len(),
{
    if s.len() > 0 {
        let r = run_len(s, up, down) as int;
        let i = capped(total(s.take(r), up));
        let d = capped(total(s.take(r), down));
        lemma_run_len_bound(s, up, down);
        if r > 0 && (i > 0 || d > 0) {
            let x = merged(s[0], i, d, up, down);
            let rest = collapse_runs(s.skip(r), up, down);
            lemma_collapse_runs_pairing(s.skip(r), up, down, depth);
            assert((seq![x] + rest)[0] == x);
            assert((seq![x] + rest).skip(1) =~= rest);
            assert(s =~= s.take(r) + s.skip(r));
            assert forall|m: int| 0 <= m < s.take(r).len() implies bracket_weight(
                #[trigger] s.take(r)[m],
            ) == 0 by {
                assert(s.take(r)[m] == s[m]);
                assert(in_run(s[m].opcode, up, down));
            }
            lemma_close_neutral_prefix(s.take(r), s.skip(r), depth);
        } else {
            let rest = collapse_runs(s.skip(1), up, down);
            assert((seq![s[0]] + rest)[0] == s[0]);
            assert((seq![s[0]] + rest).skip(1) =~= rest);
            if is_opener(s[0].opcode) {
                lemma_collapse_runs_pairing(s.skip(1), up, down, depth + 1);
            } else if is_closer(s[0].opcode) {
                if depth > 0 {
                    lemma_collapse_runs_pairing(s.skip(1), up, down, (depth - 1) as nat);
                }
            } else {
                lemma_collapse_runs_pairing(s.skip(1), up, down, depth);
            }
        }
    }
}

/// No pass breaks a bracket pair or mends a broken one: the jump table of
/// the output can be built exactly when that of the input can.
pub proof fn lemma_pass_keeps_pairing(pass: OptimizerPass, s: Seq<InstrView>)
    ensures
        jump_pairs(apply_pass(pass, s)) is Ok <==> jump_pairs(s) is Ok,
{
    lemma_jump_pairs_ok(s);
    lemma_jump_pairs_ok(apply_pass(pass, s));
    match pass {
        OptimizerPass::OptimizeClearLoops => lemma_clear_loops_pairing(s, 0),
        OptimizerPass::OptimizeIncDecValChains => lemma_collapse_runs_pairing(
            s,
            Opcode::Inc,
            Opcode::Dec,
            0,
        ),
        OptimizerPass::OptimizeIncDecPtrChains => lemma_collapse_runs_pairing(
            s,
            Opcode::IncPtr,
            Opcode::DecPtr,
            0,
        ),
    }
}

proof fn lemma_passes_keep_pairing(s: Seq<InstrView>, passes: Seq<OptimizerPass>)
    ensures
        jump_pairs(apply_passes(s, passes)) is Ok <==> jump_pairs(s) is Ok,
    decreases passes.len(),
{
    if passes.len() > 0 {
        lemma_passes_keep_pairing(s, passes.drop_last());
        lemma_pass_keeps_pairing(passes.last(), apply_passes(s, passes.drop_last()));
    }
}

/// The optimizer's output has a jump table exactly when its input has one,
/// whatever the passes and rounds.
pub proof fn lemma_optimize_keeps_pairing(
    s: Seq<InstrView>,
    passes: Seq<OptimizerPass>,
    iterations: nat,
)
    ensures
        jump_pairs(optimized(s, passes, iterations)) is Ok <==> jump_pairs(s) is Ok,
    decreases iterations,
{
    if iterations > 0 {
        lemma_optimize_keeps_pairing(s, passes, (iterations - 1) as nat);
        lemma_passes_keep_pairing(optimized(s, passes, (iterations - 1) as nat), passes);
    }
}

} // verus!
