use vstd::prelude::*;
use vstd::arithmetic::div_mod::{lemma_fundamental_div_mod, lemma_fundamental_div_mod_converse, lemma_mod_pos_bound, lemma_multiply_divide_lt};

verus! {

/// The dispatch address of a `(symbol, state)` pair: rows by symbol, columns by state.
pub open spec fn address_of(symbol: int, state: int, n_states: int) -> int {
    symbol * n_states + state
}

/// Computes `symbol * n_states + state`, the dense dispatch address of a pair.
pub fn dispatch_address(symbol: usize, state: usize, n_states: usize, n_symbols: usize) -> (r: usize)
    requires
        symbol < n_symbols,
        state < n_states,
        n_symbols * n_states <= usize::MAX,
    ensures
        r == address_of(symbol as int, state as int, n_states as int),
        r < n_symbols * n_states,
{
    proof {
        lemma_address_in_range(symbol as int, state as int, n_states as int, n_symbols as int);
    }
    symbol * n_states + state
}

proof fn lemma_address_in_range(symbol: int, state: int, n_states: int, n_symbols: int)
    requires
        0 <= symbol < n_symbols,
        0 <= state < n_states,
    ensures
        0 <= address_of(symbol, state, n_states) < n_symbols * n_states,
{
    assert(symbol * n_states + state < n_symbols * n_states) by (nonlinear_arith)
        requires
            0 <= symbol < n_symbols,
            0 <= state < n_states,
    ;
    assert(0 <= symbol * n_states) by (nonlinear_arith)
        requires
            0 <= symbol,
            0 <= n_states,
    ;
}

/// Recovers `(symbol, state)` from a dispatch address.
pub fn decode_address(address: usize, n_states: usize, n_symbols: usize) -> (r: (usize, usize))
    requires
        n_states > 0,
        address < n_symbols * n_states,
    ensures
        r.0 == address as int / n_states as int,
        r.1 == address as int % n_states as int,
        r.0 < n_symbols,
        r.1 < n_states,
        address_of(r.0 as int, r.1 as int, n_states as int) == address,
{
    proof {
        lemma_address_decodes(address as int, n_states as int, n_symbols as int);
    }
    (address / n_states, address % n_states)
}

/// Every address in range is the address of the pair it decodes to.
pub proof fn lemma_address_decodes(address: int, n_states: int, n_symbols: int)
    requires
        n_states > 0,
        0 <= address < n_symbols * n_states,
    ensures
        0 <= address / n_states < n_symbols,
        0 <= address % n_states < n_states,
        address_of(address / n_states, address % n_states, n_states) == address,
{
    lemma_fundamental_div_mod(address, n_states);
    lemma_mod_pos_bound(address, n_states);
    assert(n_symbols * n_states == n_states * n_symbols) by (nonlinear_arith);
    lemma_multiply_divide_lt(address, n_states, n_symbols);
    assert(address / n_states * n_states == n_states * (address / n_states)) by (nonlinear_arith);
    assert(0 <= address / n_states) by (nonlinear_arith)
        requires
            0 <= address,
            n_states > 0,
    ;
}

/// Decoding the address of a pair gives the pair back, and every address in
/// range comes from exactly the pair that it decodes to.
pub proof fn lemma_index_bijection(symbol: int, state: int, n_states: int, n_symbols: int)
    requires
        0 <= symbol < n_symbols,
        0 <= state < n_states,
    ensures
        0 <= address_of(symbol, state, n_states) < n_symbols * n_states,
        address_of(symbol, state, n_states) / n_states == symbol,
        address_of(symbol, state, n_states) % n_states == state,
        forall|a: int| 0 <= a < n_symbols * n_states ==>
            (#[trigger] (a / n_states) == symbol && a % n_states == state <==> a == address_of(symbol, state, n_states)),
{
    lemma_address_in_range(symbol, state, n_states, n_symbols);
    lemma_fundamental_div_mod_converse(address_of(symbol, state, n_states), n_states, symbol, state);
    assert forall|a: int| 0 <= a < n_symbols * n_states implies
        (#[trigger] (a / n_states) == symbol && a % n_states == state <==> a == address_of(symbol, state, n_states)) by {
        lemma_address_decodes(a, n_states, n_symbols);
    }
}

} // verus!
