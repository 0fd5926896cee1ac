//! The (state index, symbol) pairs of an automaton, enumerated by
//! `itertools`' cartesian product.
//!
//! The iterator itself is opaque here. What it still has to hand out is named
//! by [`pairs_left`], and the two functions that touch it state over that name
//! what the adaptor's source shows: the pairs come state by state, and within
//! one state in the order of the symbols.
use itertools::structs::Product;
use itertools::Itertools;
use std::ops::Range;
use std::vec::IntoIter;
use vstd::prelude::*;

verus! {

/// `itertools::structs::Product`, the adaptor that `cartesian_product` returns.
#[verifier::external_type_specification]
#[verifier::external_body]
#[verifier::reject_recursive_types(I)]
#[verifier::reject_recursive_types(J)]
pub struct ExProduct<I: Iterator, J>(Product<I, J>);

/// The pairs that a product of a range of state indices and a list of
/// symbols has not handed out yet, in the order in which it will.
pub uninterp spec fn pairs_left(p: Product<Range<usize>, IntoIter<char>>) -> Seq<(usize, char)>;

/// Every pair of a state index below `states` and a symbol of `symbols`:
/// state by state, and within one state in the order of `symbols`.
pub open spec fn pairs_in_order(states: nat, symbols: Seq<char>) -> Seq<(usize, char)> {
    Seq::new(
        states * symbols.len(),
        |k: int| ((k / (symbols.len() as int)) as usize, symbols[k % (symbols.len() as int)]),
    )
}

/// Calls `Itertools::cartesian_product` on the range `0..states` and a copy of
/// `symbols`. Trusted: the new iterator will hand out exactly
/// `pairs_in_order(states, symbols)`.
#[verifier::external_body]
pub(crate) fn state_symbol_pairs(states: usize, symbols: &Vec<char>) -> (p: Product<
    Range<usize>,
    IntoIter<char>,
>)
    ensures
        pairs_left(p) == pairs_in_order(states as nat, symbols@),
{
    (0..states).cartesian_product(symbols.clone())
}

/// Calls `Iterator::next` on the product. Trusted: it hands out the first of
/// the pairs that were left and keeps the rest; with none left it returns
/// `None` and none is left afterwards.
#[verifier::external_body]
pub(crate) fn next_pair(p: &mut Product<Range<usize>, IntoIter<char>>) -> (r: Option<
    (usize, char),
>)
    ensures
        match r {
            Some(pair) => pairs_left(*old(p)).len() > 0 && pair == pairs_left(*old(p))[0]
                && pairs_left(*final(p)) == pairs_left(*old(p)).skip(1),
            None => pairs_left(*old(p)).len() == 0 && pairs_left(*final(p)).len() == 0,
        },
{
    p.next()
}

/// The pair of state `s` and the `j`-th symbol stands at position
/// `s * symbols.len() + j`.
pub proof fn lemma_pair_position(states: nat, symbols: Seq<char>, s: usize, j: int)
    requires
        s < states,
        0 <= j < symbols.len(),
    ensures
        0 <= s * symbols.len() + j < pairs_in_order(states, symbols).len(),
        pairs_in_order(states, symbols)[s * symbols.len() + j] == (s, symbols[j]),
{
    let n = symbols.len() as int;
    let k = s * n + j;
    assert(0 <= s * n && (s + 1) * n <= states * n) by (nonlinear_arith)
        requires
            0 <= s < states,
            0 < n,
    ;
    assert((s + 1) * n == s * n + n) by (nonlinear_arith);
    vstd::arithmetic::div_mod::lemma_fundamental_div_mod_converse(k, n, s as int, j);
}

/// Each listed pair has a state index below `states` and a symbol of
/// `symbols`, namely the one at the pair's position modulo `symbols.len()`.
pub proof fn lemma_pair_at(states: nat, symbols: Seq<char>, k: int)
    requires
        0 <= k < pairs_in_order(states, symbols).len(),
        states <= usize::MAX + 1,
    ensures
        symbols.len() > 0,
        0 <= k / (symbols.len() as int) < states,
        0 <= k % (symbols.len() as int) < symbols.len(),
        pairs_in_order(states, symbols)[k].0 == k / (symbols.len() as int),
        pairs_in_order(states, symbols)[k].1 == symbols[k % (symbols.len() as int)],
        symbols.contains(pairs_in_order(states, symbols)[k].1),
{
    let n = symbols.len() as int;
    assert(n > 0) by (nonlinear_arith)
        requires
            0 <= k < states * n,
            n >= 0,
            states >= 0,
    ;
    vstd::arithmetic::div_mod::lemma_fundamental_div_mod(k, n);
    vstd::arithmetic::div_mod::lemma_mod_pos_bound(k, n);
    let q = k / n;
    assert(0 <= q < states) by (nonlinear_arith)
        requires
            0 <= k < states * n,
            n > 0,
            k == n * q + k % n,
            0 <= k % n < n,
    ;
}

/// Where no symbol is listed twice, no pair is.
pub proof fn lemma_pairs_distinct(states: nat, symbols: Seq<char>)
    requires
        symbols.no_duplicates(),
        states <= usize::MAX + 1,
    ensures
        pairs_in_order(states, symbols).no_duplicates(),
{
    let listed = pairs_in_order(states, symbols);
    let n = symbols.len() as int;
    assert forall|i: int, j: int|
        0 <= i < listed.len() && 0 <= j < listed.len() && i != j implies listed[i] != listed[j] by {
        lemma_pair_at(states, symbols, i);
        lemma_pair_at(states, symbols, j);
        vstd::arithmetic::div_mod::lemma_fundamental_div_mod(i, n);
        vstd::arithmetic::div_mod::lemma_fundamental_div_mod(j, n);
        if listed[i] == listed[j] {
            assert(i / n == j / n);
            assert(i % n == j % n);
        }
    }
}

} // verus!
