use vstd::prelude::*;

use crate::index::{address_of, decode_address, lemma_address_decodes, lemma_index_bijection};
use crate::machine::{CompileError, Guard, IndexedMachine, Rule};

verus! {

/// The resolved dispatch space: for each address, the rule that fires there,
/// or `None` for an unmatched pair.
#[derive(Clone, Debug)]
pub struct DispatchTable {
    pub n_symbols: usize,
    pub n_states: usize,
    pub entries: Vec<Option<usize>>,
}

pub open spec fn guard_claims(g: Guard, symbol: int) -> bool {
    match g {
        Guard::Explicit(ix) => exists|k: int| 0 <= k < ix@.len() && #[trigger] ix@[k] == symbol,
        Guard::Remainder => false,
    }
}

/// Rule `i` leaves `state` with an explicit condition listing `symbol`.
pub open spec fn claims(m: IndexedMachine, i: int, state: int, symbol: int) -> bool {
    &&& 0 <= i < m.rules@.len()
    &&& m.rules@[i].source == state
    &&& guard_claims(m.rules@[i].guard, symbol)
}

pub open spec fn is_remainder(m: IndexedMachine, i: int, state: int) -> bool {
    &&& 0 <= i < m.rules@.len()
    &&& m.rules@[i].source == state
    &&& m.rules@[i].guard is Remainder
}

pub open spec fn claimed(m: IndexedMachine, state: int, symbol: int) -> bool {
    exists|i: int| #[trigger] claims(m, i, state, symbol)
}

/// Rule `i` fires on `(state, symbol)`: explicitly, or as the remainder of a
/// symbol that no explicit condition of `state` claims.
pub open spec fn fires(m: IndexedMachine, i: int, state: int, symbol: int) -> bool {
    ||| claims(m, i, state, symbol)
    ||| is_remainder(m, i, state) && !claimed(m, state, symbol)
}

/// Two different explicit conditions of `state` both claim `symbol`.
pub open spec fn ambiguous_at(m: IndexedMachine, state: int, symbol: int) -> bool {
    exists|i: int, j: int| i != j && #[trigger] claims(m, i, state, symbol) && #[trigger] claims(m, j, state, symbol)
}

pub open spec fn ambiguous(m: IndexedMachine) -> bool {
    exists|q: int, s: int| #[trigger] ambiguous_at(m, q, s)
}

/// `state` has two different remainder conditions.
pub open spec fn double_remainder_at(m: IndexedMachine, state: int) -> bool {
    exists|i: int, j: int| i != j && #[trigger] is_remainder(m, i, state) && #[trigger] is_remainder(m, j, state)
}

pub open spec fn double_remainder(m: IndexedMachine) -> bool {
    exists|q: int| #[trigger] double_remainder_at(m, q)
}

/// `e` is the outcome of `(state, symbol)`: the rule that fires there, or
/// `None` when none does.
pub open spec fn outcome_ok(m: IndexedMachine, state: int, symbol: int, e: Option<usize>) -> bool {
    match e {
        Some(i) => fires(m, i as int, state, symbol),
        None => forall|i: int| !#[trigger] fires(m, i, state, symbol),
    }
}

impl DispatchTable {
    /// The entry of `(state, symbol)`.
    pub open spec fn outcome(&self, state: int, symbol: int) -> Option<usize> {
        self.entries@[address_of(symbol, state, self.n_states as int)]
    }

    /// `self` is the dispatch table of `m`.
    pub open spec fn of(&self, m: IndexedMachine) -> bool {
        &&& self.n_symbols == m.n_symbols
        &&& self.n_states == m.n_states
        &&& self.entries@.len() == self.n_symbols * self.n_states
        &&& forall|a: int| 0 <= a < self.entries@.len() ==>
            outcome_ok(m, a % self.n_states as int, a / self.n_states as int, #[trigger] self.entries@[a])
    }
}

fn contains(v: &Vec<usize>, x: usize) -> (r: bool)
    ensures
        r == exists|k: int| 0 <= k < v@.len() && #[trigger] v@[k] == x,
{
    let mut k: usize = 0;
    while k < v.len()
        invariant
            k <= v@.len(),
            forall|j: int| 0 <= j < k ==> #[trigger] v@[j] != x,
        decreases v@.len() - k,
    {
        if v[k] == x {
            return true;
        }
        k += 1;
    }
    false
}

fn rule_claims(r: &Rule, symbol: usize) -> (b: bool)
    ensures
        b == guard_claims(r.guard, symbol as int),
{
    match &r.guard {
        Guard::Explicit(ix) => contains(ix, symbol),
        Guard::Remainder => false,
    }
}

/// The rule that fires on `(state, symbol)`, if any.
pub fn find_rule(m: &IndexedMachine, state: usize, symbol: usize) -> (r: Option<usize>)
    ensures
        outcome_ok(*m, state as int, symbol as int, r),
{
    let mut i: usize = 0;
    while i < m.rules.len()
        invariant
            i <= m.rules@.len(),
            forall|j: int| 0 <= j < i ==> !#[trigger] claims(*m, j, state as int, symbol as int),
        decreases m.rules@.len() - i,
    {
        if m.rules[i].source == state && rule_claims(&m.rules[i], symbol) {
            return Some(i);
        }
        i += 1;
    }
    assert(!claimed(*m, state as int, symbol as int));
    let mut i: usize = 0;
    while i < m.rules.len()
        invariant
            i <= m.rules@.len(),
            !claimed(*m, state as int, symbol as int),
            forall|j: int| 0 <= j < i ==> !#[trigger] is_remainder(*m, j, state as int),
        decreases m.rules@.len() - i,
    {
        if m.rules[i].source == state && matches!(m.rules[i].guard, Guard::Remainder) {
            return Some(i);
        }
        i += 1;
    }
    None
}

/// Rules `i` and `j` differ and both claim `symbol` from the source state of `i`.
pub open spec fn clash(m: IndexedMachine, i: int, j: int, symbol: int) -> bool {
    &&& i != j
    &&& claims(m, i, m.rules@[i].source as int, symbol)
    &&& claims(m, j, m.rules@[i].source as int, symbol)
}

proof fn lemma_ambiguous_clash(m: IndexedMachine)
    requires
        forall|i: int, j: int, s: int| !#[trigger] clash(m, i, j, s),
    ensures
        !ambiguous(m),
{
    assert forall|q: int, s: int| !#[trigger] ambiguous_at(m, q, s) by {
        if ambiguous_at(m, q, s) {
            let (i, j) = choose|i: int, j: int| i != j && #[trigger] claims(m, i, q, s) && #[trigger] claims(m, j, q, s);
            assert(clash(m, i, j, s));
        }
    }
}

/// A `(state, symbol)` pair that two explicit conditions both claim, if any.
fn find_ambiguity(m: &IndexedMachine) -> (r: Option<(usize, usize)>)
    ensures
        r is None <==> !ambiguous(*m),
        r matches Some(p) ==> ambiguous_at(*m, p.0 as int, p.1 as int),
{
    let n = m.rules.len();
    let mut i: usize = 0;
    while i < n
        invariant
            n == m.rules@.len(),
            i <= n,
            forall|i2: int, j: int, s: int| 0 <= i2 < i ==> !#[trigger] clash(*m, i2, j, s),
        decreases n - i,
    {
        let mut j: usize = 0;
        while j < n
            invariant
                n == m.rules@.len(),
                i < n,
                j <= n,
                forall|i2: int, j2: int, s: int| 0 <= i2 < i ==> !#[trigger] clash(*m, i2, j2, s),
                forall|j2: int, s: int| 0 <= j2 < j ==> !#[trigger] clash(*m, i as int, j2, s),
            decreases n - j,
        {
            if i != j && m.rules[i].source == m.rules[j].source {
                if let Guard::Explicit(ix) = &m.rules[i].guard {
                    let mut k: usize = 0;
                    while k < ix.len()
                        invariant
                            n == m.rules@.len(),
                            i < n,
                            j < n,
                            i != j,
                            m.rules@[i as int].source == m.rules@[j as int].source,
                            m.rules@[i as int].guard == Guard::Explicit(*ix),
                            k <= ix@.len(),
                            forall|k2: int| 0 <= k2 < k ==> !guard_claims(m.rules@[j as int].guard, #[trigger] ix@[k2] as int),
                        decreases ix@.len() - k,
                    {
                        if rule_claims(&m.rules[j], ix[k]) {
                            let q = m.rules[i].source;
                            let s = ix[k];
                            proof {
                                assert(m.rules@[i as int].guard->Explicit_0 == *ix);
                                assert(ix@[k as int] == s);
                                assert(claims(*m, i as int, q as int, s as int));
                                assert(claims(*m, j as int, q as int, s as int));
                                assert(ambiguous_at(*m, q as int, s as int));
                            }
                            return Some((q, s));
                        }
                        k += 1;
                    }
                    proof {
                        assert forall|s: int| !#[trigger] clash(*m, i as int, j as int, s) by {
                            if clash(*m, i as int, j as int, s) {
                                assert(m.rules@[i as int].guard->Explicit_0 == *ix);
                                let k2 = choose|k2: int| 0 <= k2 < ix@.len() && #[trigger] ix@[k2] == s;
                                assert(!guard_claims(m.rules@[j as int].guard, ix@[k2] as int));
                            }
                        }
                    }
                }
            }
            j += 1;
        }
        i += 1;
    }
    proof {
        lemma_ambiguous_clash(*m);
    }
    None
}

/// A state with two remainder conditions, if any.
fn find_double_remainder(m: &IndexedMachine) -> (r: Option<usize>)
    ensures
        r is None <==> !double_remainder(*m),
        r matches Some(q) ==> double_remainder_at(*m, q as int),
{
    let n = m.rules.len();
    let mut i: usize = 0;
    while i < n
        invariant
            n == m.rules@.len(),
            i <= n,
            forall|i2: int, j: int, q: int| 0 <= i2 < i && i2 != j ==>
                !(#[trigger] is_remainder(*m, i2, q) && #[trigger] is_remainder(*m, j, q)),
        decreases n - i,
    {
        let mut j: usize = 0;
        while j < n
            invariant
                n == m.rules@.len(),
                i < n,
                j <= n,
                forall|i2: int, j2: int, q: int| 0 <= i2 < i && i2 != j2 ==>
                    !(#[trigger] is_remainder(*m, i2, q) && #[trigger] is_remainder(*m, j2, q)),
                forall|j2: int, q: int| 0 <= j2 < j && i != j2 ==>
                    !(#[trigger] is_remainder(*m, i as int, q) && #[trigger] is_remainder(*m, j2, q)),
            decreases n - j,
        {
            if i != j && m.rules[i].source == m.rules[j].source && matches!(m.rules[i].guard, Guard::Remainder)
                && matches!(m.rules[j].guard, Guard::Remainder) {
                let q = m.rules[i].source;
                assert(is_remainder(*m, i as int, q as int) && is_remainder(*m, j as int, q as int));
                assert(double_remainder_at(*m, q as int));
                return Some(q);
            }
            j += 1;
        }
        i += 1;
    }
    None
}

/// Resolves the rules of `m` into a dispatch table, or rejects a machine whose
/// conditions overlap.
pub fn resolve(m: &IndexedMachine) -> (r: Result<DispatchTable, CompileError>)
    requires
        m.n_symbols * m.n_states <= usize::MAX,
    ensures
        r is Ok <==> !ambiguous(*m) && !double_remainder(*m),
        r matches Ok(t) ==> t.of(*m),
        r matches Err(e) ==> match e {
            CompileError::Ambiguous { state, symbol } => ambiguous_at(*m, state as int, symbol as int),
            CompileError::MultipleRemainder { state } => !ambiguous(*m) && double_remainder_at(*m, state as int),
            _ => false,
        },
{
    if let Some((state, symbol)) = find_ambiguity(m) {
        return Err(CompileError::Ambiguous { state, symbol });
    }
    if let Some(state) = find_double_remainder(m) {
        return Err(CompileError::MultipleRemainder { state });
    }
    let size = m.n_symbols * m.n_states;
    let mut entries: Vec<Option<usize>> = Vec::new();
    let mut a: usize = 0;
    while a < size
        invariant
            size == m.n_symbols * m.n_states,
            a <= size,
            entries@.len() == a,
            forall|a2: int| 0 <= a2 < a ==>
                outcome_ok(*m, a2 % m.n_states as int, a2 / m.n_states as int, #[trigger] entries@[a2]),
        decreases size - a,
    {
        assert(m.n_states > 0) by (nonlinear_arith)
            requires
                a < size,
                size == m.n_symbols * m.n_states,
        ;
        let (symbol, state) = decode_address(a, m.n_states, m.n_symbols);
        entries.push(find_rule(m, state, symbol));
        a += 1;
    }
    Ok(DispatchTable { n_symbols: m.n_symbols, n_states: m.n_states, entries })
}

proof fn lemma_outcome_at(m: IndexedMachine, t: DispatchTable, state: int, symbol: int)
    requires
        t.of(m),
        0 <= state < t.n_states,
        0 <= symbol < t.n_symbols,
    ensures
        outcome_ok(m, state, symbol, t.outcome(state, symbol)),
{
    lemma_index_bijection(symbol, state, t.n_states as int, t.n_symbols as int);
    let a = address_of(symbol, state, t.n_states as int);
    assert(outcome_ok(m, a % t.n_states as int, a / t.n_states as int, t.entries@[a]));
}

proof fn lemma_at_most_one_fires(m: IndexedMachine, state: int, symbol: int, i: int, j: int)
    requires
        !ambiguous(m),
        !double_remainder(m),
        fires(m, i, state, symbol),
        fires(m, j, state, symbol),
    ensures
        i == j,
{
    if i != j {
        if claims(m, i, state, symbol) && claims(m, j, state, symbol) {
            assert(ambiguous_at(m, state, symbol));
        } else if is_remainder(m, i, state) && is_remainder(m, j, state) {
            assert(double_remainder_at(m, state));
        }
    }
}

/// Once resolved, every `(state, symbol)` pair has exactly one outcome: the
/// one rule that fires there, or "unmatched" when no rule does.
pub proof fn lemma_totality(m: IndexedMachine, t: DispatchTable, state: int, symbol: int)
    requires
        t.of(m),
        !ambiguous(m),
        !double_remainder(m),
        0 <= state < t.n_states,
        0 <= symbol < t.n_symbols,
    ensures
        t.outcome(state, symbol) is None <==> forall|j: int| !#[trigger] fires(m, j, state, symbol),
        t.outcome(state, symbol) matches Some(i) ==>
            fires(m, i as int, state, symbol) && forall|j: int| #[trigger] fires(m, j, state, symbol) ==> j == i,
{
    lemma_outcome_at(m, t, state, symbol);
    if let Some(i) = t.outcome(state, symbol) {
        assert forall|j: int| #[trigger] fires(m, j, state, symbol) implies j == i by {
            lemma_at_most_one_fires(m, state, symbol, i as int, j);
        }
    }
}

/// An explicit condition wins over the remainder condition of the same state.
pub proof fn lemma_priority(m: IndexedMachine, t: DispatchTable, i: int, rem: int, state: int, symbol: int)
    requires
        t.of(m),
        !ambiguous(m),
        0 <= state < t.n_states,
        0 <= symbol < t.n_symbols,
        claims(m, i, state, symbol),
        is_remainder(m, rem, state),
    ensures
        t.outcome(state, symbol) == Some(i as usize),
{
    lemma_outcome_at(m, t, state, symbol);
    let e = t.outcome(state, symbol);
    assert(claimed(m, state, symbol));
    assert(e is Some) by {
        assert(fires(m, i, state, symbol));
    }
    let j = e->0 as int;
    assert(claims(m, j, state, symbol));
    if j != i {
        assert(ambiguous_at(m, state, symbol));
    }
}

} // verus!
