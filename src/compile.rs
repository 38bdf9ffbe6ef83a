use vstd::prelude::*;

use crate::lower::{case_ops, lower, op_of, ControlFlowGraph, FIRST_CASE};
use crate::machine::{
    machine_declared, indexed_of, reports_undeclared, rule_wf, action_wf, Action, CompileError,
    IndexedMachine, Machine,
};
use crate::resolve::{
    ambiguous, ambiguous_at, double_remainder, double_remainder_at, outcome_ok, resolve, DispatchTable,
};
use crate::index::lemma_index_bijection;
use crate::lower::{matched_addresses, lemma_matched_addresses_exact, lemma_case_address, Op, CONTINUATION, UNMATCHED_CASE};
use crate::machine::Rule;
use crate::run::{
    apply_op, apply_ops, bounded, is_case_op, lemma_apply_push, lemma_quiet_ops, lemma_switch_target_found,
    lemma_switch_target_missing, op_in_range, Event, RegisterView,
};

verus! {

/// The artifacts of one compilation.
#[derive(Clone, Debug)]
pub struct Compiled {
    pub machine: IndexedMachine,
    pub table: DispatchTable,
    pub graph: ControlFlowGraph,
}

/// The lowering of a well-formed machine with at least one symbol and one
/// state can be run.
pub proof fn lemma_lowered_runnable(m: IndexedMachine, t: DispatchTable, g: ControlFlowGraph)
    requires
        m.wf(),
        t.of(m),
        g.lowers(m, t),
        m.n_symbols > 0,
        m.n_states > 0,
        m.n_symbols * m.n_states <= usize::MAX,
    ensures
        g.runnable(),
{
    let cases = g.switch_cases();
    assert forall|k: int| 0 <= k < cases.len() implies FIRST_CASE <= #[trigger] cases[k].1 < g.blocks@.len() by {
        assert(g.case_ok(m, t, k));
        assert(g.blocks@.len() == g.blocks.len());
    }
    assert forall|b: int, j: int| 0 <= b < g.blocks@.len() && 0 <= j < g.blocks@[b].ops@.len() implies
        op_in_range(#[trigger] g.blocks@[b].ops@[j], g.n_symbols as int, g.n_states as int)
        && ((b == crate::lower::UNMATCHED_CASE || FIRST_CASE <= b) ==> is_case_op(g.blocks@[b].ops@[j])) by {
        if b >= FIRST_CASE {
            let k = b - FIRST_CASE;
            assert(g.case_ok(m, t, k));
            let a = crate::lower::matched_addresses(t.entries@)[k];
            let i = t.entries@[a as int]->0 as int;
            crate::lower::lemma_case_address(t.entries@, k);
            assert(outcome_ok(m, a as int % t.n_states as int, a as int / t.n_states as int, t.entries@[a as int]));
            assert(0 <= i < m.rules@.len());
            let r = m.rules@[i];
            assert(rule_wf(r, m.n_symbols as int, m.n_states as int));
            let ops = case_ops(r);
            let acts = r.actions@.map_values(|x: Action| op_of(x));
            if j < r.actions@.len() {
                assert(ops[j] == op_of(r.actions@[j]));
                assert(action_wf(r.actions@[j], m.n_symbols as int));
            } else {
                assert(ops[j] == crate::lower::Op::SetState(r.target));
            }
        }
    }
}

/// The registers after a rule fires: its actions in order, then its target
/// state.
pub open spec fn fire(r: RegisterView, rule: Rule) -> RegisterView {
    RegisterView { state: rule.target, ..apply_ops(r, rule.actions@.map_values(|a: Action| op_of(a))).0 }
}

/// The end of a turn: the step counter goes up by one and the live symbol is
/// read again from the tape under the cursor.
pub open spec fn advance(r: RegisterView) -> RegisterView {
    RegisterView {
        step: if r.step < usize::MAX { (r.step + 1) as usize } else { r.step },
        symbol: if r.cursor < r.tape.len() { r.tape[r.cursor as int] } else { r.symbol },
        ..r
    }
}

/// One turn of the machine read straight from its dispatch table: the rule
/// that fires, or a report of the unmatched pair with the registers left
/// alone; then the step is counted.
pub open spec fn table_step(m: IndexedMachine, t: DispatchTable, r: RegisterView) -> (RegisterView, Seq<Event>) {
    match t.outcome(r.state as int, r.symbol as int) {
        Some(i) => (advance(fire(r, m.rules@[i as int])), Seq::<Event>::empty()),
        None => (advance(r), seq![Event::Unmatched { state: r.state, symbol: r.symbol }]),
    }
}

proof fn lemma_continuation(r: RegisterView)
    ensures
        apply_ops(r, seq![Op::IncrementStep, Op::RereadSymbol]) == (advance(r), Seq::<Event>::empty()),
{
    let ops = seq![Op::IncrementStep, Op::RereadSymbol];
    assert(seq![Op::IncrementStep] == Seq::<Op>::empty().push(Op::IncrementStep));
    assert(ops == seq![Op::IncrementStep].push(Op::RereadSymbol));
    lemma_apply_push(r, Seq::<Op>::empty(), Op::IncrementStep);
    let r1 = apply_op(r, Op::IncrementStep).0;
    lemma_apply_push(r, seq![Op::IncrementStep], Op::RereadSymbol);
    assert(apply_ops(r, ops).1 =~= Seq::<Event>::empty());
}

/// Each turn of the lowered loop does exactly what the dispatch table says:
/// the rule resolved for the live pair fires, or the pair is reported as
/// unmatched and the registers stay as they are; then the step is counted.
pub proof fn lemma_graph_follows_table(m: IndexedMachine, t: DispatchTable, g: ControlFlowGraph, r: RegisterView)
    requires
        m.wf(),
        t.of(m),
        g.lowers(m, t),
        m.n_symbols > 0,
        m.n_states > 0,
        m.n_symbols * m.n_states <= usize::MAX,
        bounded(r, m.n_symbols as int, m.n_states as int),
    ensures
        g.iteration(r) == table_step(m, t, r),
{
    let n_states = m.n_states as int;
    lemma_index_bijection(r.symbol as int, r.state as int, n_states, m.n_symbols as int);
    let a = r.symbol * n_states + r.state;
    assert(g.n_states == m.n_states);
    let addrs = matched_addresses(t.entries@);
    let cases = g.switch_cases();
    lemma_matched_addresses_exact(t.entries@);
    lemma_matched_addresses_bounded_all(t, addrs);
    assert(t.outcome(r.state as int, r.symbol as int) == t.entries@[a]);
    let r_cont = g.blocks@[CONTINUATION as int].ops@;
    assert(r_cont == seq![Op::IncrementStep, Op::RereadSymbol]);
    match t.entries@[a] {
        Some(i) => {
            let k = choose|k: int| 0 <= k < addrs.len() && #[trigger] addrs[k] == a;
            assert(g.case_ok(m, t, k));
            assert forall|j: int| 0 <= j < k implies #[trigger] cases[j].0 != a as usize by {
                assert(g.case_ok(m, t, j));
                assert(addrs[j] < addrs[k]);
            }
            lemma_switch_target_found(cases, UNMATCHED_CASE, a as usize, k);
            assert(g.blocks@.len() == g.blocks.len());
            assert(g.dispatch(r) == FIRST_CASE + k);
            let rule = m.rules@[i as int];
            let acts = rule.actions@.map_values(|x: Action| op_of(x));
            let ops = g.blocks@[FIRST_CASE + k].ops@;
            assert(ops == acts.push(Op::SetState(rule.target)));
            lemma_apply_push(r, acts, Op::SetState(rule.target));
            assert forall|j: int| 0 <= j < acts.len() implies !(#[trigger] acts[j] is ReportUnmatched) && !(acts[j] is ReportDone) by {
                assert(acts[j] == op_of(rule.actions@[j]));
            }
            lemma_quiet_ops(r, acts);
            let r1 = fire(r, rule);
            assert(apply_ops(r, ops) == (r1, Seq::<Event>::empty().add(Seq::<Event>::empty())));
            lemma_continuation(r1);
            assert(g.iteration(r).0 == advance(r1));
            assert(g.iteration(r).1 =~= Seq::<Event>::empty());
        },
        None => {
            assert forall|j: int| 0 <= j < cases.len() implies #[trigger] cases[j].0 != a as usize by {
                assert(g.case_ok(m, t, j));
            }
            lemma_switch_target_missing(cases, UNMATCHED_CASE, a as usize);
            let ops = g.blocks@[UNMATCHED_CASE as int].ops@;
            assert(ops == Seq::<Op>::empty().push(Op::ReportUnmatched));
            lemma_apply_push(r, Seq::<Op>::empty(), Op::ReportUnmatched);
            lemma_continuation(r);
            assert(g.iteration(r).1 =~= seq![Event::Unmatched { state: r.state, symbol: r.symbol }]);
        },
    }
}

/// Turns of the machine read straight from its dispatch table, while the step
/// counter is below `budget`, at most `fuel` of them.
pub open spec fn table_run(m: IndexedMachine, t: DispatchTable, r: RegisterView, budget: usize, fuel: nat) -> (RegisterView, Seq<Event>)
    decreases fuel,
{
    if fuel == 0 || r.step >= budget {
        (r, Seq::<Event>::empty())
    } else {
        let (r1, e1) = table_step(m, t, r);
        let (r2, e2) = table_run(m, t, r1, budget, (fuel - 1) as nat);
        (r2, e1 + e2)
    }
}

/// Running the lowered graph prints the same events and leaves the same
/// registers and tape as stepping through the dispatch table directly.
pub proof fn lemma_run_follows_table(m: IndexedMachine, t: DispatchTable, g: ControlFlowGraph, r: RegisterView, budget: usize, fuel: nat)
    requires
        m.wf(),
        t.of(m),
        g.lowers(m, t),
        m.n_symbols > 0,
        m.n_states > 0,
        m.n_symbols * m.n_states <= usize::MAX,
        bounded(r, m.n_symbols as int, m.n_states as int),
    ensures
        g.iterate(r, budget, fuel) == table_run(m, t, r, budget, fuel),
    decreases fuel,
{
    if fuel > 0 && r.step < budget {
        lemma_lowered_runnable(m, t, g);
        lemma_graph_follows_table(m, t, g, r);
        g.lemma_iteration(r);
        lemma_run_follows_table(m, t, g, g.iteration(r).0, budget, (fuel - 1) as nat);
    }
}

proof fn lemma_matched_addresses_bounded_all(t: DispatchTable, addrs: Seq<usize>)
    requires
        addrs == matched_addresses(t.entries@),
    ensures
        forall|k: int| 0 <= k < addrs.len() ==> (#[trigger] t.entries@[addrs[k] as int]) is Some,
{
    assert forall|k: int| 0 <= k < addrs.len() implies (#[trigger] t.entries@[addrs[k] as int]) is Some by {
        assert(t.entries@.len() == t.entries.len());
        lemma_case_address(t.entries@, k);
    }
}

/// Compiles a machine: replaces its names by positions, resolves its
/// conditions into a dispatch table and lowers that table into a
/// control-flow graph.
pub fn compile(m: &Machine) -> (r: Result<Compiled, CompileError>)
    requires
        m.symbols@.len() * m.states@.len() + FIRST_CASE <= usize::MAX,
    ensures
        r matches Ok(c) ==> {
            &&& machine_declared(*m)
            &&& indexed_of(*m, c.machine)
            &&& c.machine.wf()
            &&& !ambiguous(c.machine)
            &&& !double_remainder(c.machine)
            &&& c.table.of(c.machine)
            &&& c.graph.lowers(c.machine, c.table)
            &&& (c.machine.n_symbols > 0 && c.machine.n_states > 0 ==> c.graph.runnable())
        },
        r matches Err(e) ==> {
            ||| !machine_declared(*m) && exists|i: int|
                0 <= i < m.transitions@.len() && reports_undeclared(*m, #[trigger] m.transitions@[i], e)
            ||| machine_declared(*m) && exists|im: IndexedMachine| #[trigger] indexed_of(*m, im) && match e {
                CompileError::Ambiguous { state, symbol } => ambiguous_at(im, state as int, symbol as int),
                CompileError::MultipleRemainder { state } => !ambiguous(im) && double_remainder_at(im, state as int),
                _ => false,
            }
        },
        !machine_declared(*m) ==> r is Err,
        machine_declared(*m) && (forall|im: IndexedMachine| #[trigger] indexed_of(*m, im)
            ==> !ambiguous(im) && !double_remainder(im)) ==> r is Ok,
{
    let machine = match m.index() {
        Ok(im) => im,
        Err(e) => return Err(e),
    };
    let table = match resolve(&machine) {
        Ok(t) => t,
        Err(e) => return Err(e),
    };
    let graph = lower(&machine, &table);
    proof {
        if machine.n_symbols > 0 && machine.n_states > 0 {
            lemma_lowered_runnable(machine, table, graph);
        }
    }
    Ok(Compiled { machine, table, graph })
}

} // verus!
