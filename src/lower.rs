use vstd::prelude::*;

use crate::machine::{Action, IndexedMachine, Rule};
use crate::resolve::DispatchTable;

verus! {

pub const ENTRY: usize = 0;
pub const LOOP_HEADER: usize = 1;
pub const LOOP_BODY: usize = 2;
pub const UNMATCHED_CASE: usize = 3;
pub const CONTINUATION: usize = 4;
pub const LOOP_EXIT: usize = 5;
/// Case blocks follow the fixed blocks, in increasing order of address.
pub const FIRST_CASE: usize = 6;

/// One straight-line operation of a basic block.
#[derive(Clone, Copy, Debug, PartialEq, Eq)]
pub enum Op {
    /// Read the step budget from the runtime environment.
    ReadBudget,
    /// Read the tape capacity from the runtime environment.
    ReadCapacity,
    /// Allocate a tape of the requested capacity.
    AllocateTape,
    /// Set cursor, step counter, live symbol and live state to 0.
    InitRegisters,
    /// Compute the dispatch address from the live registers.
    ComputeAddress,
    MoveLeft,
    MoveRight,
    /// Do nothing.
    NoOp,
    /// Store a symbol's index at the cursor.
    Write(usize),
    /// Set the live state register.
    SetState(usize),
    /// Report the live `(state, symbol)` pair as unmatched.
    ReportUnmatched,
    IncrementStep,
    /// Load the live symbol register from the tape at the cursor.
    RereadSymbol,
    /// Report that the step budget is used up.
    ReportDone,
}

#[derive(Clone, Debug)]
pub enum Terminator {
    Jump(usize),
    /// To `then_block` while the step counter is below the budget, else to `else_block`.
    BranchIfStepsLeft { then_block: usize, else_block: usize },
    /// A multiway branch on the dispatch address: `(address, block)` pairs.
    Switch { cases: Vec<(usize, usize)>, default: usize },
    Return,
}

#[derive(Clone, Debug)]
pub struct Block {
    pub ops: Vec<Op>,
    pub terminator: Terminator,
}

#[derive(Clone, Debug)]
pub struct ControlFlowGraph {
    pub n_symbols: usize,
    pub n_states: usize,
    pub blocks: Vec<Block>,
}

pub open spec fn op_of(a: Action) -> Op {
    match a {
        Action::MoveLeft => Op::MoveLeft,
        Action::MoveRight => Op::MoveRight,
        Action::Write(s) => Op::Write(s),
        Action::NoOp => Op::NoOp,
    }
}

/// The operations of the case block of rule `r`: its actions in order, then
/// the move to its target state.
pub open spec fn case_ops(r: Rule) -> Seq<Op> {
    r.actions@.map_values(|a: Action| op_of(a)) + seq![Op::SetState(r.target)]
}

/// The addresses of the resolved entries, in increasing order.
pub open spec fn matched_addresses(entries: Seq<Option<usize>>) -> Seq<usize>
    decreases entries.len(),
{
    if entries.len() == 0 {
        Seq::empty()
    } else {
        let rest = matched_addresses(entries.drop_last());
        if entries.last() is Some {
            rest.push((entries.len() - 1) as usize)
        } else {
            rest
        }
    }
}

pub open spec fn entry_ops() -> Seq<Op> {
    seq![Op::ReadBudget, Op::ReadCapacity, Op::AllocateTape, Op::InitRegisters]
}

impl ControlFlowGraph {
    /// The six fixed blocks of the read-execute loop.
    pub open spec fn skeleton_ok(&self) -> bool {
        &&& self.blocks@.len() >= FIRST_CASE
        &&& self.blocks@[ENTRY as int].ops@ == entry_ops()
        &&& self.blocks@[ENTRY as int].terminator == Terminator::Jump(LOOP_HEADER)
        &&& self.blocks@[LOOP_HEADER as int].ops@ == seq![Op::ComputeAddress]
        &&& self.blocks@[LOOP_HEADER as int].terminator
            == (Terminator::BranchIfStepsLeft { then_block: LOOP_BODY, else_block: LOOP_EXIT })
        &&& self.blocks@[LOOP_BODY as int].ops@.len() == 0
        &&& self.blocks@[LOOP_BODY as int].terminator matches Terminator::Switch { default, .. }
        &&& self.blocks@[LOOP_BODY as int].terminator->default == UNMATCHED_CASE
        &&& self.blocks@[UNMATCHED_CASE as int].ops@ == seq![Op::ReportUnmatched]
        &&& self.blocks@[UNMATCHED_CASE as int].terminator == Terminator::Jump(CONTINUATION)
        &&& self.blocks@[CONTINUATION as int].ops@ == seq![Op::IncrementStep, Op::RereadSymbol]
        &&& self.blocks@[CONTINUATION as int].terminator == Terminator::Jump(LOOP_HEADER)
        &&& self.blocks@[LOOP_EXIT as int].ops@ == seq![Op::ReportDone]
        &&& self.blocks@[LOOP_EXIT as int].terminator == Terminator::Return
    }

    pub open spec fn switch_cases(&self) -> Seq<(usize, usize)> {
        self.blocks@[LOOP_BODY as int].terminator->cases@
    }

    /// `self` is the lowering of dispatch table `t` of machine `m`: one case
    /// block per resolved entry, labelled with its address.
    pub open spec fn lowers(&self, m: IndexedMachine, t: DispatchTable) -> bool {
        let addrs = matched_addresses(t.entries@);
        &&& self.n_symbols == t.n_symbols
        &&& self.n_states == t.n_states
        &&& self.skeleton_ok()
        &&& self.blocks@.len() == FIRST_CASE + addrs.len()
        &&& self.switch_cases().len() == addrs.len()
        &&& forall|k: int| 0 <= k < addrs.len() ==> #[trigger] self.case_ok(m, t, k)
    }

    /// The `k`-th case block is the lowering of the `k`-th resolved entry.
    pub open spec fn case_ok(&self, m: IndexedMachine, t: DispatchTable, k: int) -> bool {
        let a = matched_addresses(t.entries@)[k];
        let b = self.blocks@[FIRST_CASE + k];
        &&& self.switch_cases()[k] == (a, (FIRST_CASE + k) as usize)
        &&& t.entries@[a as int] is Some
        &&& b.ops@ == case_ops(m.rules@[t.entries@[a as int]->0 as int])
        &&& b.terminator == Terminator::Jump(CONTINUATION)
    }
}

/// `b` is a block that terminator `term` may branch to.
pub open spec fn branches_to(term: Terminator, b: int) -> bool {
    match term {
        Terminator::Jump(x) => b == x,
        Terminator::BranchIfStepsLeft { then_block, else_block } => b == then_block || b == else_block,
        Terminator::Switch { cases, default } => b == default
            || exists|k: int| 0 <= k < cases@.len() && #[trigger] cases@[k].1 == b,
        Terminator::Return => false,
    }
}

pub open spec fn edge(g: ControlFlowGraph, a: int, b: int) -> bool {
    0 <= a < g.blocks@.len() && branches_to(g.blocks@[a].terminator, b)
}

/// `p` is a path of branches of `g` that starts at the entry block.
pub open spec fn is_path(g: ControlFlowGraph, p: Seq<int>) -> bool {
    &&& p.len() > 0
    &&& p[0] == ENTRY
    &&& forall|i: int| 0 <= i < p.len() - 1 ==> edge(g, #[trigger] p[i], p[i + 1])
}

/// Block `b` of `g` can be reached from the entry block.
pub open spec fn reachable(g: ControlFlowGraph, b: int) -> bool {
    exists|p: Seq<int>| #[trigger] is_path(g, p) && p.last() == b
}

proof fn lemma_path_push(g: ControlFlowGraph, p: Seq<int>, b: int)
    requires
        is_path(g, p),
        edge(g, p.last(), b),
    ensures
        is_path(g, p.push(b)),
        reachable(g, b),
{
    let q = p.push(b);
    assert forall|i: int| 0 <= i < q.len() - 1 implies edge(g, #[trigger] q[i], q[i + 1]) by {
        if i < p.len() - 1 {
            assert(q[i] == p[i] && q[i + 1] == p[i + 1]);
        }
    }
    assert(is_path(g, q));
    assert(q.last() == b);
}

/// In a lowered graph, every case block and the unmatched block branch only to
/// the continuation, the continuation only to the loop header, the loop header
/// only to the loop body or the loop exit; every branch lands on a block of
/// the graph, and every block is reachable from the entry.
pub proof fn lemma_topology(m: IndexedMachine, t: DispatchTable, g: ControlFlowGraph)
    requires
        g.lowers(m, t),
    ensures
        forall|k: int, b: int| FIRST_CASE <= k < g.blocks@.len() ==> (#[trigger] edge(g, k, b) <==> b == CONTINUATION),
        forall|b: int| #[trigger] edge(g, UNMATCHED_CASE as int, b) <==> b == CONTINUATION,
        forall|b: int| #[trigger] edge(g, CONTINUATION as int, b) <==> b == LOOP_HEADER,
        forall|b: int| #[trigger] edge(g, LOOP_HEADER as int, b) <==> b == LOOP_BODY || b == LOOP_EXIT,
        forall|a: int, b: int| #[trigger] edge(g, a, b) ==> 0 <= b < g.blocks@.len(),
        forall|b: int| 0 <= b < g.blocks@.len() ==> #[trigger] reachable(g, b),
{
    let addrs = matched_addresses(t.entries@);
    let cases = g.switch_cases();
    assert forall|k: int, b: int| FIRST_CASE <= k < g.blocks@.len() implies
        (#[trigger] edge(g, k, b) <==> b == CONTINUATION) by {
        let j = k - FIRST_CASE;
        assert(0 <= j < addrs.len());
        assert(g.case_ok(m, t, j));
    }
    assert forall|a: int, b: int| #[trigger] edge(g, a, b) implies 0 <= b < g.blocks@.len() by {
        if a == LOOP_BODY {
            if b != UNMATCHED_CASE {
                let k = choose|k: int| 0 <= k < cases.len() && #[trigger] cases[k].1 == b;
                assert(g.case_ok(m, t, k));
            }
        } else if a >= FIRST_CASE {
            let j = a - FIRST_CASE;
            assert(g.case_ok(m, t, j));
        }
    }
    let e = ENTRY as int;
    let h = LOOP_HEADER as int;
    let body = LOOP_BODY as int;
    let u = UNMATCHED_CASE as int;
    let x = LOOP_EXIT as int;
    let p0 = seq![e];
    assert(is_path(g, p0));
    assert(reachable(g, e)) by {
        assert(p0.last() == e);
    }
    lemma_path_push(g, p0, h);
    let p1 = p0.push(h);
    lemma_path_push(g, p1, body);
    lemma_path_push(g, p1, x);
    let p2 = p1.push(body);
    lemma_path_push(g, p2, u);
    lemma_path_push(g, p2.push(u), CONTINUATION as int);
    assert forall|b: int| 0 <= b < g.blocks@.len() implies #[trigger] reachable(g, b) by {
        if b >= FIRST_CASE {
            let k = b - FIRST_CASE;
            assert(g.case_ok(m, t, k));
            assert(g.blocks@.len() == g.blocks.len());
            assert(cases[k].1 == b);
            assert(edge(g, body, b));
            lemma_path_push(g, p2, b);
        }
    }
}

fn to_op(a: Action) -> (o: Op)
    ensures
        o == op_of(a),
{
    match a {
        Action::MoveLeft => Op::MoveLeft,
        Action::MoveRight => Op::MoveRight,
        Action::Write(s) => Op::Write(s),
        Action::NoOp => Op::NoOp,
    }
}

fn case_block(r: &Rule) -> (b: Block)
    ensures
        b.ops@ == case_ops(*r),
        b.terminator == Terminator::Jump(CONTINUATION),
{
    let mut ops: Vec<Op> = Vec::new();
    let mut k: usize = 0;
    while k < r.actions.len()
        invariant
            k <= r.actions@.len(),
            ops@ == r.actions@.take(k as int).map_values(|a: Action| op_of(a)),
        decreases r.actions@.len() - k,
    {
        ops.push(to_op(r.actions[k]));
        proof {
            assert(r.actions@.take(k as int + 1) == r.actions@.take(k as int).push(r.actions@[k as int]));
        }
        k += 1;
        assert(ops@ =~= r.actions@.take(k as int).map_values(|a: Action| op_of(a)));
    }
    assert(r.actions@.take(k as int) == r.actions@);
    ops.push(Op::SetState(r.target));
    Block { ops, terminator: Terminator::Jump(CONTINUATION) }
}

proof fn lemma_matched_addresses_bounded(entries: Seq<Option<usize>>)
    requires
        entries.len() <= usize::MAX,
    ensures
        matched_addresses(entries).len() <= entries.len(),
        forall|k: int| 0 <= k < matched_addresses(entries).len() ==>
            #[trigger] matched_addresses(entries)[k] < entries.len() && entries[matched_addresses(entries)[k] as int] is Some,
    decreases entries.len(),
{
    if entries.len() > 0 {
        let prefix = entries.drop_last();
        lemma_matched_addresses_bounded(prefix);
        assert forall|k: int| 0 <= k < matched_addresses(prefix).len() implies
            entries[#[trigger] matched_addresses(prefix)[k] as int] is Some by {
            assert(prefix[matched_addresses(prefix)[k] as int] == entries[matched_addresses(prefix)[k] as int]);
        }
        let rest = matched_addresses(prefix);
        let all = matched_addresses(entries);
        if entries.last() is Some {
            assert(all == rest.push((entries.len() - 1) as usize));
            assert forall|k: int| 0 <= k < all.len() implies
                #[trigger] all[k] < entries.len() && entries[all[k] as int] is Some by {
                if k < rest.len() {
                    assert(all[k] == rest[k]);
                } else {
                    assert(all[k] == entries.len() - 1);
                }
            }
        } else {
            assert(all == rest);
        }
    }
}

pub proof fn lemma_case_address(entries: Seq<Option<usize>>, k: int)
    requires
        entries.len() <= usize::MAX,
        0 <= k < matched_addresses(entries).len(),
    ensures
        matched_addresses(entries)[k] < entries.len(),
        entries[matched_addresses(entries)[k] as int] is Some,
{
    lemma_matched_addresses_bounded(entries);
}

/// The addresses of the resolved entries increase strictly, and are exactly
/// the addresses whose entry is resolved.
pub proof fn lemma_matched_addresses_exact(entries: Seq<Option<usize>>)
    requires
        entries.len() <= usize::MAX,
    ensures
        forall|j: int, k: int| 0 <= j < k < matched_addresses(entries).len() ==>
            #[trigger] matched_addresses(entries)[j] < #[trigger] matched_addresses(entries)[k],
        forall|a: int| 0 <= a < entries.len() && (#[trigger] entries[a]) is Some ==>
            exists|k: int| 0 <= k < matched_addresses(entries).len() && #[trigger] matched_addresses(entries)[k] == a,
    decreases entries.len(),
{
    lemma_matched_addresses_bounded(entries);
    if entries.len() > 0 {
        let prefix = entries.drop_last();
        lemma_matched_addresses_exact(prefix);
        lemma_matched_addresses_bounded(prefix);
        let rest = matched_addresses(prefix);
        let all = matched_addresses(entries);
        if entries.last() is Some {
            assert(all == rest.push((entries.len() - 1) as usize));
            assert forall|j: int, k: int| 0 <= j < k < all.len() implies #[trigger] all[j] < #[trigger] all[k] by {
                assert(all[j] == rest[j]);
                if k < rest.len() {
                    assert(all[k] == rest[k]);
                } else {
                    assert(rest[j] < prefix.len());
                }
            }
            assert forall|a: int| 0 <= a < entries.len() && (#[trigger] entries[a]) is Some implies
                exists|k: int| 0 <= k < all.len() && #[trigger] all[k] == a by {
                if a < prefix.len() {
                    assert(prefix[a] == entries[a]);
                    let k = choose|k: int| 0 <= k < rest.len() && #[trigger] rest[k] == a;
                    assert(all[k] == rest[k]);
                } else {
                    assert(all[rest.len() as int] == a);
                }
            }
        } else {
            assert(all == rest);
            assert forall|a: int| 0 <= a < entries.len() && (#[trigger] entries[a]) is Some implies
                exists|k: int| 0 <= k < all.len() && #[trigger] all[k] == a by {
                assert(prefix[a] == entries[a]);
            }
        }
    }
}

/// Builds the control-flow graph of the read-execute loop over table `t`.
pub fn lower(m: &IndexedMachine, t: &DispatchTable) -> (g: ControlFlowGraph)
    requires
        t.of(*m),
        t.entries@.len() + FIRST_CASE <= usize::MAX,
    ensures
        g.lowers(*m, *t),
{
    let n = t.entries.len();
    let mut cases: Vec<(usize, usize)> = Vec::new();
    let mut case_blocks: Vec<Block> = Vec::new();
    let mut a: usize = 0;
    while a < n
        invariant
            n == t.entries@.len(),
            n + FIRST_CASE <= usize::MAX,
            t.of(*m),
            a <= n,
            cases@.len() <= a,
            cases@.len() == case_blocks@.len(),
            cases@.len() == matched_addresses(t.entries@.take(a as int)).len(),
            forall|k: int| 0 <= k < cases@.len() ==> {
                let addr = #[trigger] matched_addresses(t.entries@.take(a as int))[k];
                &&& cases@[k] == (addr, (FIRST_CASE + k) as usize)
                &&& t.entries@[addr as int] is Some
                &&& case_blocks@[k].ops@ == case_ops(m.rules@[t.entries@[addr as int]->0 as int])
                &&& case_blocks@[k].terminator == Terminator::Jump(CONTINUATION)
            },
        decreases n - a,
    {
        proof {
            assert(t.entries@.take(a as int + 1).drop_last() == t.entries@.take(a as int));
            lemma_matched_addresses_bounded(t.entries@.take(a as int));
        }
        if let Some(i) = t.entries[a] {
            proof {
                assert(crate::resolve::outcome_ok(*m, a as int % t.n_states as int, a as int / t.n_states as int, t.entries@[a as int]));
            }
            let label = FIRST_CASE + cases.len();
            cases.push((a, label));
            case_blocks.push(case_block(&m.rules[i]));
        }
        a += 1;
    }
    assert(t.entries@.take(n as int) == t.entries@);
    let mut blocks: Vec<Block> = Vec::new();
    blocks.push(Block {
        ops: vec![Op::ReadBudget, Op::ReadCapacity, Op::AllocateTape, Op::InitRegisters],
        terminator: Terminator::Jump(LOOP_HEADER),
    });
    blocks.push(Block {
        ops: vec![Op::ComputeAddress],
        terminator: Terminator::BranchIfStepsLeft { then_block: LOOP_BODY, else_block: LOOP_EXIT },
    });
    blocks.push(Block { ops: Vec::new(), terminator: Terminator::Switch { cases, default: UNMATCHED_CASE } });
    blocks.push(Block { ops: vec![Op::ReportUnmatched], terminator: Terminator::Jump(CONTINUATION) });
    blocks.push(Block {
        ops: vec![Op::IncrementStep, Op::RereadSymbol],
        terminator: Terminator::Jump(LOOP_HEADER),
    });
    blocks.push(Block { ops: vec![Op::ReportDone], terminator: Terminator::Return });
    assert(blocks@[ENTRY as int].ops@ =~= entry_ops());
    assert(blocks@[LOOP_HEADER as int].ops@ =~= seq![Op::ComputeAddress]);
    assert(blocks@[UNMATCHED_CASE as int].ops@ =~= seq![Op::ReportUnmatched]);
    assert(blocks@[CONTINUATION as int].ops@ =~= seq![Op::IncrementStep, Op::RereadSymbol]);
    assert(blocks@[LOOP_EXIT as int].ops@ =~= seq![Op::ReportDone]);
    let ghost fixed = blocks@;
    let ghost cb = case_blocks@;
    blocks.append(&mut case_blocks);
    let g = ControlFlowGraph { n_symbols: t.n_symbols, n_states: t.n_states, blocks };
    proof {
        let addrs = matched_addresses(t.entries@);
        assert(g.blocks@ == fixed + cb);
        assert forall|k: int| 0 <= k < addrs.len() implies g.blocks@[FIRST_CASE + k] == cb[k] by {
            assert(g.blocks@[FIRST_CASE + k] == (fixed + cb)[FIRST_CASE + k]);
        }
    }
    g
}

} // verus!
