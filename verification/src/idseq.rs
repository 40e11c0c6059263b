//! Spec-level helpers over sequences of identifier views.
//!
//! Identifiers are modelled as `Seq<char>`; both index components reason
//! about sequences of such identifiers when they build their derived
//! tables.
use vstd::prelude::*;

verus! {

/// How many entries of `s` are exactly `k`.
pub open spec fn count_occ(s: Seq<Seq<char>>, k: Seq<char>) -> nat
    decreases s.len(),
{
    if s.len() == 0 {
        0
    } else {
        count_occ(s.drop_last(), k) + (if s.last() == k {
            1nat
        } else {
            0nat
        })
    }
}

/// Counting over a one-longer prefix adds the contribution of the new element.
pub proof fn lemma_count_occ_take_step(s: Seq<Seq<char>>, k: Seq<char>, i: int)
    requires
        0 <= i < s.len(),
    ensures
        count_occ(s.take(i + 1), k) == count_occ(s.take(i), k) + (if s[i] == k {
            1nat
        } else {
            0nat
        }),
{
    assert(s.take(i + 1).drop_last() =~= s.take(i));
    assert(s.take(i + 1).last() == s[i]);
}

/// An identifier that does not occur has count zero.
pub proof fn lemma_count_occ_zero(s: Seq<Seq<char>>, k: Seq<char>)
    requires
        !s.contains(k),
    ensures
        count_occ(s, k) == 0,
    decreases s.len(),
{
    if s.len() > 0 {
        assert(forall|i: int| 0 <= i < s.len() ==> s[i] != k);
        assert(forall|i: int| 0 <= i < s.drop_last().len() ==> s.drop_last()[i] != k);
        assert(!s.drop_last().contains(k));
        lemma_count_occ_zero(s.drop_last(), k);
        assert(s.last() != k);
    }
}

/// An identifier that occurs has a positive count.
pub proof fn lemma_count_occ_pos(s: Seq<Seq<char>>, k: Seq<char>)
    requires
        s.contains(k),
    ensures
        count_occ(s, k) >= 1,
    decreases s.len(),
{
    if s.last() != k {
        let i = choose|i: int| 0 <= i < s.len() && s[i] == k;
        assert(s.drop_last()[i] == k);
        assert(s.drop_last().contains(k));
        lemma_count_occ_pos(s.drop_last(), k);
    }
}

} // verus!
