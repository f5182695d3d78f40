//! Row masks: one bit per row, held in a `bit_vec::BitVec`.

use vstd::prelude::*;
use bit_vec::BitVec;

verus! {

#[verifier::external_type_specification]
#[verifier::external_body]
#[verifier::reject_recursive_types(B)]
pub struct ExBitVec<B>(BitVec<B>);

/// The bits held by a mask, in row order.
pub uninterp spec fn mask_bits(m: BitVec) -> Seq<bool>;

/// Relies on `BitVec::len`: the number of bits held.
#[verifier::external_body]
pub(crate) fn mask_len(m: &BitVec) -> (r: usize)
    ensures
        r == mask_bits(*m).len(),
{
    m.len()
}

/// Relies on `BitVec::get`: the bit at `i`, or `None` past the end.
#[verifier::external_body]
pub(crate) fn mask_get(m: &BitVec, i: usize) -> (r: Option<bool>)
    ensures
        i < mask_bits(*m).len() ==> r == Some(mask_bits(*m)[i as int]),
        i >= mask_bits(*m).len() ==> r is None,
{
    m.get(i)
}

/// The elements of `s` at the positions where `m` is set, in order.
pub open spec fn select<A>(s: Seq<A>, m: Seq<bool>) -> Seq<A>
    decreases s.len(),
{
    if s.len() == 0 {
        seq![]
    } else if m[s.len() - 1] {
        select(s.drop_last(), m).push(s.last())
    } else {
        select(s.drop_last(), m)
    }
}

/// The number of set bits among the first `n` of `m`.
pub open spec fn count_set(m: Seq<bool>, n: nat) -> nat
    decreases n,
{
    if n == 0 {
        0
    } else if m[n - 1] {
        count_set(m, (n - 1) as nat) + 1
    } else {
        count_set(m, (n - 1) as nat)
    }
}

/// The number of set bits in `m`.
pub open spec fn popcount(m: Seq<bool>) -> nat {
    count_set(m, m.len())
}

/// Selecting through a mask keeps one element per set bit.
pub proof fn lemma_select_len<A>(s: Seq<A>, m: Seq<bool>)
    ensures
        select(s, m).len() == count_set(m, s.len()),
    decreases s.len(),
{
    if s.len() > 0 {
        lemma_select_len(s.drop_last(), m);
    }
}

/// Filtering through a mask as long as the rows keeps one row per set bit.
pub proof fn lemma_filter_count<A>(s: Seq<A>, m: Seq<bool>)
    requires
        s.len() == m.len(),
    ensures
        select(s, m).len() == popcount(m),
{
    lemma_select_len(s, m);
}

/// Selecting commutes with mapping each element.
pub proof fn lemma_select_map<A, B>(s: Seq<A>, m: Seq<bool>, f: spec_fn(A) -> B)
    ensures
        select(s.map_values(f), m) == select(s, m).map_values(f),
    decreases s.len(),
{
    if s.len() > 0 {
        lemma_select_map(s.drop_last(), m, f);
        assert(s.map_values(f).drop_last() =~= s.drop_last().map_values(f));
        assert(select(s, m).map_values(f) =~= select(s.map_values(f), m));
    } else {
        assert(select(s, m).map_values(f) =~= select(s.map_values(f), m));
    }
}

/// Selecting from a prefix one element longer adds that element when its bit is set.
pub proof fn lemma_select_take<A>(s: Seq<A>, m: Seq<bool>, i: int)
    requires
        0 <= i < s.len(),
    ensures
        select(s.take(i + 1), m) == if m[i] {
            select(s.take(i), m).push(s[i])
        } else {
            select(s.take(i), m)
        },
{
    assert(s.take(i + 1).drop_last() =~= s.take(i));
}

} // verus!
