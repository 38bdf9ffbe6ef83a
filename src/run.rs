use vstd::prelude::*;

use crate::lower::{
    ControlFlowGraph, Op, Terminator, CONTINUATION, FIRST_CASE, LOOP_BODY, LOOP_EXIT, UNMATCHED_CASE,
};

verus! {

/// What the generated program prints while it runs.
#[derive(Clone, Copy, Debug, PartialEq, Eq)]
pub enum Event {
    /// No transition covers the live `(state, symbol)` pair.
    Unmatched { state: usize, symbol: usize },
    /// The step budget is used up.
    Done,
}

/// The live registers of a running machine and its tape.
///
/// The cursor is clamped to the tape: a move past either end leaves it
/// where it is. On an empty tape writes and reads do nothing.
#[derive(Clone, Debug)]
pub struct Registers {
    pub cursor: usize,
    pub step: usize,
    pub symbol: usize,
    pub state: usize,
    pub tape: Vec<usize>,
}

pub ghost struct RegisterView {
    pub cursor: usize,
    pub step: usize,
    pub symbol: usize,
    pub state: usize,
    pub tape: Seq<usize>,
}

impl View for Registers {
    type V = RegisterView;

    open spec fn view(&self) -> RegisterView {
        RegisterView {
            cursor: self.cursor,
            step: self.step,
            symbol: self.symbol,
            state: self.state,
            tape: self.tape@,
        }
    }
}

/// The registers at the start: a tape of `capacity` cells holding symbol 0,
/// and every register 0.
pub open spec fn initial(capacity: nat) -> RegisterView {
    RegisterView { cursor: 0, step: 0, symbol: 0, state: 0, tape: Seq::new(capacity, |i: int| 0usize) }
}

/// The effect of one operation on the registers, and what it prints.
pub open spec fn apply_op(r: RegisterView, op: Op) -> (RegisterView, Seq<Event>) {
    match op {
        Op::MoveLeft => (RegisterView { cursor: if r.cursor > 0 { (r.cursor - 1) as usize } else { r.cursor }, ..r }, seq![]),
        Op::MoveRight => (RegisterView {
            cursor: if r.cursor + 1 < r.tape.len() { (r.cursor + 1) as usize } else { r.cursor },
            ..r
        }, seq![]),
        Op::Write(s) => (RegisterView {
            tape: if r.cursor < r.tape.len() { r.tape.update(r.cursor as int, s) } else { r.tape },
            ..r
        }, seq![]),
        Op::SetState(q) => (RegisterView { state: q, ..r }, seq![]),
        Op::IncrementStep => (RegisterView {
            step: if r.step < usize::MAX { (r.step + 1) as usize } else { r.step },
            ..r
        }, seq![]),
        Op::RereadSymbol => (RegisterView {
            symbol: if r.cursor < r.tape.len() { r.tape[r.cursor as int] } else { r.symbol },
            ..r
        }, seq![]),
        Op::ReportUnmatched => (r, seq![Event::Unmatched { state: r.state, symbol: r.symbol }]),
        Op::ReportDone => (r, seq![Event::Done]),
        _ => (r, seq![]),
    }
}

/// The effect of a sequence of operations, applied left to right.
pub open spec fn apply_ops(r: RegisterView, ops: Seq<Op>) -> (RegisterView, Seq<Event>)
    decreases ops.len(),
{
    if ops.len() == 0 {
        (r, seq![])
    } else {
        let (r1, e1) = apply_ops(r, ops.drop_last());
        let (r2, e2) = apply_op(r1, ops.last());
        (r2, e1 + e2)
    }
}

/// The block that a multiway branch on `address` goes to: the first case
/// labelled `address`, else the default.
pub open spec fn switch_target(cases: Seq<(usize, usize)>, default: usize, address: usize) -> usize
    decreases cases.len(),
{
    if cases.len() == 0 {
        default
    } else if cases[0].0 == address {
        cases[0].1
    } else {
        switch_target(cases.drop_first(), default, address)
    }
}

impl ControlFlowGraph {
    /// The block that the loop body dispatches to from registers `r`.
    pub open spec fn dispatch(&self, r: RegisterView) -> usize {
        switch_target(self.switch_cases(), UNMATCHED_CASE, (r.symbol * self.n_states + r.state) as usize)
    }

    /// One turn of the loop: the dispatched block, then the continuation.
    pub open spec fn iteration(&self, r: RegisterView) -> (RegisterView, Seq<Event>) {
        let (r1, e1) = apply_ops(r, self.blocks@[self.dispatch(r) as int].ops@);
        let (r2, e2) = apply_ops(r1, self.blocks@[CONTINUATION as int].ops@);
        (r2, e1 + e2)
    }

    /// Turns of the loop while the step counter is below `budget`, at most `fuel` of them.
    pub open spec fn iterate(&self, r: RegisterView, budget: usize, fuel: nat) -> (RegisterView, Seq<Event>)
        decreases fuel,
    {
        if fuel == 0 || r.step >= budget {
            (r, seq![])
        } else {
            let (r1, e1) = self.iteration(r);
            let (r2, e2) = self.iterate(r1, budget, (fuel - 1) as nat);
            (r2, e1 + e2)
        }
    }

    /// A whole run: `budget` turns of the loop from the initial registers,
    /// then the exit block.
    pub open spec fn execution(&self, budget: usize, capacity: nat) -> (RegisterView, Seq<Event>) {
        let (r1, e1) = self.iterate(initial(capacity), budget, budget as nat);
        let (r2, e2) = apply_ops(r1, self.blocks@[LOOP_EXIT as int].ops@);
        (r2, e1 + e2)
    }
}

pub open spec fn is_case_op(op: Op) -> bool {
    ||| op is MoveLeft
    ||| op is MoveRight
    ||| op is NoOp
    ||| op is Write
    ||| op is SetState
    ||| op is ReportUnmatched
}

pub open spec fn op_in_range(op: Op, n_symbols: int, n_states: int) -> bool {
    &&& (op matches Op::Write(s) ==> s < n_symbols)
    &&& (op matches Op::SetState(q) ==> q < n_states)
}

impl ControlFlowGraph {
    /// The graph can be run: its symbols and states are not empty, its
    /// addresses fit in `usize`, every case lands on a block, every written
    /// symbol and target state is in range, and only the continuation
    /// touches the step counter.
    pub open spec fn runnable(&self) -> bool {
        &&& self.skeleton_ok()
        &&& self.n_symbols > 0
        &&& self.n_states > 0
        &&& self.n_symbols * self.n_states <= usize::MAX
        &&& forall|k: int| 0 <= k < self.switch_cases().len()
            ==> FIRST_CASE <= #[trigger] self.switch_cases()[k].1 < self.blocks@.len()
        &&& forall|b: int, j: int| 0 <= b < self.blocks@.len() && 0 <= j < self.blocks@[b].ops@.len() ==>
            op_in_range(#[trigger] self.blocks@[b].ops@[j], self.n_symbols as int, self.n_states as int)
        &&& forall|b: int, j: int| (b == UNMATCHED_CASE || FIRST_CASE <= b < self.blocks@.len())
            && 0 <= j < self.blocks@[b].ops@.len() ==> is_case_op(#[trigger] self.blocks@[b].ops@[j])
    }
}

pub open spec fn bounded(r: RegisterView, n_symbols: int, n_states: int) -> bool {
    &&& r.symbol < n_symbols
    &&& r.state < n_states
    &&& forall|i: int| 0 <= i < r.tape.len() ==> #[trigger] r.tape[i] < n_symbols
}

proof fn lemma_apply_ops(r: RegisterView, ops: Seq<Op>, n_symbols: int, n_states: int)
    requires
        bounded(r, n_symbols, n_states),
        forall|j: int| 0 <= j < ops.len() ==> op_in_range(#[trigger] ops[j], n_symbols, n_states),
    ensures
        bounded(apply_ops(r, ops).0, n_symbols, n_states),
        apply_ops(r, ops).0.tape.len() == r.tape.len(),
        (forall|j: int| 0 <= j < ops.len() ==> is_case_op(#[trigger] ops[j])) ==> apply_ops(r, ops).0.step == r.step,
    decreases ops.len(),
{
    if ops.len() > 0 {
        let prefix = ops.drop_last();
        assert forall|j: int| 0 <= j < prefix.len() implies op_in_range(#[trigger] prefix[j], n_symbols, n_states) by {
            assert(prefix[j] == ops[j]);
        }
        lemma_apply_ops(r, prefix, n_symbols, n_states);
        if forall|j: int| 0 <= j < ops.len() ==> is_case_op(#[trigger] ops[j]) {
            assert forall|j: int| 0 <= j < prefix.len() implies is_case_op(#[trigger] prefix[j]) by {
                assert(prefix[j] == ops[j]);
            }
        }
        let r1 = apply_ops(r, prefix).0;
        assert(op_in_range(ops[ops.len() - 1], n_symbols, n_states));
        let r2 = apply_op(r1, ops.last()).0;
        assert forall|i: int| 0 <= i < r2.tape.len() implies #[trigger] r2.tape[i] < n_symbols by {
            assert(r1.tape.len() == r2.tape.len());
        }
    }
}

proof fn lemma_apply_two(r: RegisterView, a: Op, b: Op)
    ensures
        apply_ops(r, seq![a, b]) == ({
            let (r1, e1) = apply_op(r, a);
            let (r2, e2) = apply_op(r1, b);
            (r2, e1 + e2)
        }),
{
    let ops = seq![a, b];
    assert(ops.drop_last() == seq![a]);
    assert(seq![a].drop_last() == Seq::<Op>::empty());
    let (r0, e0) = apply_ops(r, Seq::<Op>::empty());
    assert(e0 == Seq::<Event>::empty());
    assert(apply_ops(r, seq![a]).1 == e0 + apply_op(r, a).1);
    assert(e0 + apply_op(r, a).1 == apply_op(r, a).1);
}

impl ControlFlowGraph {
    /// One turn of the loop of a runnable graph advances the step counter by
    /// one and keeps the registers in range.
    pub proof fn lemma_iteration(&self, r: RegisterView)
        requires
            self.runnable(),
            bounded(r, self.n_symbols as int, self.n_states as int),
            r.step < usize::MAX,
        ensures
            bounded(self.iteration(r).0, self.n_symbols as int, self.n_states as int),
            self.iteration(r).0.tape.len() == r.tape.len(),
            self.iteration(r).0.step == r.step + 1,
    {
        let b = self.dispatch(r) as int;
        lemma_switch_target_in(self.switch_cases(), UNMATCHED_CASE, (r.symbol * self.n_states + r.state) as usize, FIRST_CASE as int, self.blocks@.len() as int);
        assert(0 <= b < self.blocks@.len());
        let ops = self.blocks@[b].ops@;
        assert forall|j: int| 0 <= j < ops.len() implies op_in_range(#[trigger] ops[j], self.n_symbols as int, self.n_states as int) by {
            assert(op_in_range(self.blocks@[b].ops@[j], self.n_symbols as int, self.n_states as int));
        }
        {
            assert forall|j: int| 0 <= j < ops.len() implies is_case_op(#[trigger] ops[j]) by {
                assert(is_case_op(self.blocks@[b].ops@[j]));
            }
        }
        lemma_apply_ops(r, ops, self.n_symbols as int, self.n_states as int);
        let r1 = apply_ops(r, ops).0;
        lemma_apply_two(r1, Op::IncrementStep, Op::RereadSymbol);
        assert(self.blocks@[CONTINUATION as int].ops@ == seq![Op::IncrementStep, Op::RereadSymbol]);
    }
}

proof fn lemma_switch_target_in(cases: Seq<(usize, usize)>, default: usize, address: usize, lo: int, hi: int)
    ensures
        switch_target(cases, default, address) == default
            || exists|k: int| 0 <= k < cases.len() && #[trigger] cases[k].1 == switch_target(cases, default, address),
        (forall|k: int| 0 <= k < cases.len() ==> lo <= #[trigger] cases[k].1 < hi)
            ==> switch_target(cases, default, address) == default
            || lo <= switch_target(cases, default, address) < hi,
    decreases cases.len(),
{
    if cases.len() > 0 && cases[0].0 != address {
        let rest = cases.drop_first();
        lemma_switch_target_in(rest, default, address, lo, hi);
        if switch_target(rest, default, address) != default {
            let k = choose|k: int| 0 <= k < rest.len() && #[trigger] rest[k].1 == switch_target(rest, default, address);
            assert(cases[k + 1] == rest[k]);
        }
    } else if cases.len() > 0 {
        assert(cases[0].1 == switch_target(cases, default, address));
    }
}

pub proof fn lemma_switch_target_found(cases: Seq<(usize, usize)>, default: usize, address: usize, k: int)
    requires
        0 <= k < cases.len(),
        cases[k].0 == address,
        forall|j: int| 0 <= j < k ==> #[trigger] cases[j].0 != address,
    ensures
        switch_target(cases, default, address) == cases[k].1,
    decreases k,
{
    if k > 0 {
        let rest = cases.drop_first();
        assert(cases[0].0 != address);
        assert forall|j: int| 0 <= j < k - 1 implies #[trigger] rest[j].0 != address by {
            assert(rest[j] == cases[j + 1]);
        }
        lemma_switch_target_found(rest, default, address, k - 1);
    }
}

pub proof fn lemma_switch_target_missing(cases: Seq<(usize, usize)>, default: usize, address: usize)
    requires
        forall|j: int| 0 <= j < cases.len() ==> #[trigger] cases[j].0 != address,
    ensures
        switch_target(cases, default, address) == default,
    decreases cases.len(),
{
    if cases.len() > 0 {
        let rest = cases.drop_first();
        assert(cases[0].0 != address);
        assert forall|j: int| 0 <= j < rest.len() implies #[trigger] rest[j].0 != address by {
            assert(rest[j] == cases[j + 1]);
        }
        lemma_switch_target_missing(rest, default, address);
    }
}

pub proof fn lemma_apply_push(r: RegisterView, ops: Seq<Op>, op: Op)
    ensures
        apply_ops(r, ops.push(op)) == ({
            let (r1, e1) = apply_ops(r, ops);
            let (r2, e2) = apply_op(r1, op);
            (r2, e1 + e2)
        }),
{
    assert(ops.push(op).drop_last() == ops);
}

/// Operations that report nothing print nothing.
pub proof fn lemma_quiet_ops(r: RegisterView, ops: Seq<Op>)
    requires
        forall|j: int| 0 <= j < ops.len() ==> !(#[trigger] ops[j] is ReportUnmatched) && !(ops[j] is ReportDone),
    ensures
        apply_ops(r, ops).1 == Seq::<Event>::empty(),
    decreases ops.len(),
{
    if ops.len() > 0 {
        let prefix = ops.drop_last();
        assert forall|j: int| 0 <= j < prefix.len() implies !(#[trigger] prefix[j] is ReportUnmatched) && !(prefix[j] is ReportDone) by {
            assert(prefix[j] == ops[j]);
        }
        lemma_quiet_ops(r, prefix);
        assert(!(ops[ops.len() - 1] is ReportUnmatched));
        assert(apply_ops(r, ops).1 =~= Seq::<Event>::empty());
    }
}

fn find_target(cases: &Vec<(usize, usize)>, default: usize, address: usize) -> (b: usize)
    ensures
        b == switch_target(cases@, default, address),
{
    let mut k: usize = 0;
    assert(cases@.subrange(0, cases@.len() as int) == cases@);
    while k < cases.len()
        invariant
            k <= cases@.len(),
            switch_target(cases@, default, address) == switch_target(cases@.subrange(k as int, cases@.len() as int), default, address),
        decreases cases@.len() - k,
    {
        let ghost rest = cases@.subrange(k as int, cases@.len() as int);
        if cases[k].0 == address {
            assert(rest[0] == cases@[k as int]);
            return cases[k].1;
        }
        assert(rest.drop_first() == cases@.subrange(k as int + 1, cases@.len() as int));
        k += 1;
    }
    default
}

fn exec_op(regs: &mut Registers, op: Op, events: &mut Vec<Event>)
    ensures
        final(regs)@ == apply_op(old(regs)@, op).0,
        final(events)@ == old(events)@ + apply_op(old(regs)@, op).1,
{
    match op {
        Op::MoveLeft => {
            if regs.cursor > 0 {
                regs.cursor = regs.cursor - 1;
            }
        },
        Op::MoveRight => {
            if regs.cursor < regs.tape.len() && regs.cursor + 1 < regs.tape.len() {
                regs.cursor = regs.cursor + 1;
            }
        },
        Op::Write(s) => {
            if regs.cursor < regs.tape.len() {
                regs.tape.set(regs.cursor, s);
            }
        },
        Op::SetState(q) => {
            regs.state = q;
        },
        Op::IncrementStep => {
            if regs.step < usize::MAX {
                regs.step = regs.step + 1;
            }
        },
        Op::RereadSymbol => {
            if regs.cursor < regs.tape.len() {
                regs.symbol = regs.tape[regs.cursor];
            }
        },
        Op::ReportUnmatched => {
            events.push(Event::Unmatched { state: regs.state, symbol: regs.symbol });
        },
        Op::ReportDone => {
            events.push(Event::Done);
        },
        _ => {},
    }
    assert(final(regs)@ == apply_op(old(regs)@, op).0);
    assert(final(events)@ =~= old(events)@ + apply_op(old(regs)@, op).1);
}

fn exec_ops(regs: &mut Registers, ops: &Vec<Op>, events: &mut Vec<Event>)
    ensures
        final(regs)@ == apply_ops(old(regs)@, ops@).0,
        final(events)@ == old(events)@ + apply_ops(old(regs)@, ops@).1,
{
    let ghost r0 = regs@;
    let ghost e0 = events@;
    let mut k: usize = 0;
    while k < ops.len()
        invariant
            k <= ops@.len(),
            regs@ == apply_ops(r0, ops@.take(k as int)).0,
            events@ == e0 + apply_ops(r0, ops@.take(k as int)).1,
        decreases ops@.len() - k,
    {
        proof {
            assert(ops@.take(k as int + 1).drop_last() == ops@.take(k as int));
            assert(ops@.take(k as int + 1).last() == ops@[k as int]);
        }
        exec_op(regs, ops[k], events);
        k += 1;
        assert(events@ =~= e0 + apply_ops(r0, ops@.take(k as int)).1);
    }
    assert(ops@.take(k as int) == ops@);
}

/// Runs a graph: `budget` turns of the read-execute loop on a tape of
/// `capacity` cells, then the exit block. Returns the final registers and
/// what the program printed.
pub fn run(g: &ControlFlowGraph, budget: usize, capacity: usize) -> (r: (Registers, Vec<Event>))
    requires
        g.runnable(),
    ensures
        (r.0@, r.1@) == g.execution(budget, capacity as nat),
{
    let mut regs = Registers { cursor: 0, step: 0, symbol: 0, state: 0, tape: vec![0usize; capacity] };
    let mut events: Vec<Event> = Vec::new();
    let ghost total = g.iterate(initial(capacity as nat), budget, budget as nat);
    assert(regs@ == initial(capacity as nat)) by {
        assert(regs.tape@ =~= Seq::new(capacity as nat, |i: int| 0usize));
    }
    let cases = match &g.blocks[LOOP_BODY].terminator {
        Terminator::Switch { cases, .. } => cases,
        _ => {
            assert(false);
            return (regs, events);
        },
    };
    while regs.step < budget
        invariant
            g.runnable(),
            *cases == g.blocks@[LOOP_BODY as int].terminator->cases,
            regs.step <= budget,
            regs@.tape.len() == capacity,
            bounded(regs@, g.n_symbols as int, g.n_states as int),
            g.iterate(regs@, budget, (budget - regs.step) as nat).0 == total.0,
            events@ + g.iterate(regs@, budget, (budget - regs.step) as nat).1 == total.1,
        decreases budget - regs.step,
    {
        let ghost before = regs@;
        let ghost e_before = events@;
        proof {
            g.lemma_iteration(regs@);
            assert(regs.symbol * g.n_states + regs.state < g.n_symbols * g.n_states) by (nonlinear_arith)
                requires
                    regs.symbol < g.n_symbols,
                    regs.state < g.n_states,
            ;
        }
        let address = regs.symbol * g.n_states + regs.state;
        let b = find_target(cases, UNMATCHED_CASE, address);
        proof {
            lemma_switch_target_in(g.switch_cases(), UNMATCHED_CASE, address, FIRST_CASE as int, g.blocks@.len() as int);
        }
        exec_ops(&mut regs, &g.blocks[b].ops, &mut events);
        exec_ops(&mut regs, &g.blocks[CONTINUATION].ops, &mut events);
        proof {
            let fuel = (budget - before.step) as nat;
            assert((fuel - 1) as nat == (budget - regs.step) as nat);
            assert(g.iteration(before) == (regs@, events@.subrange(e_before.len() as int, events@.len() as int)));
            assert(events@ =~= e_before + g.iteration(before).1);
        }
    }
    proof {
        assert(g.iterate(regs@, budget, (budget - regs.step) as nat) == (regs@, Seq::<Event>::empty()));
    }
    exec_ops(&mut regs, &g.blocks[LOOP_EXIT].ops, &mut events);
    (regs, events)
}

} // verus!
