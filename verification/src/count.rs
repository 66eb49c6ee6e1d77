//! Counting the items of a sequence that satisfy a predicate.

use vstd::prelude::*;

verus! {

/// The number of items of `s` that satisfy `p`.
pub open spec fn count_of<T>(s: Seq<T>, p: spec_fn(T) -> bool) -> nat
    decreases s.len(),
{
    if s.len() == 0 {
        0
    } else {
        count_of(s.drop_last(), p) + if p(s.last()) {
            1nat
        } else {
            0nat
        }
    }
}

/// The predicate that a flag is set.
pub open spec fn is_set() -> spec_fn(bool) -> bool {
    |b: bool| b
}

/// No more items satisfy a predicate than there are items.
pub proof fn lemma_count_bound<T>(s: Seq<T>, p: spec_fn(T) -> bool)
    ensures
        count_of(s, p) <= s.len(),
    decreases s.len(),
{
    if s.len() > 0 {
        lemma_count_bound(s.drop_last(), p);
    }
}

/// Replacing one item changes the count by what the old and the new item contribute.
pub proof fn lemma_count_update<T>(s: Seq<T>, i: int, v: T, p: spec_fn(T) -> bool)
    requires
        0 <= i < s.len(),
    ensures
        count_of(s.update(i, v), p) + (if p(s[i]) {
            1nat
        } else {
            0nat
        }) == count_of(s, p) + (if p(v) {
            1nat
        } else {
            0nat
        }),
    decreases s.len(),
{
    let t = s.update(i, v);
    if i == s.len() - 1 {
        assert(t.drop_last() =~= s.drop_last());
    } else {
        assert(t.drop_last() =~= s.drop_last().update(i, v));
        lemma_count_update(s.drop_last(), i, v, p);
    }
}

/// Appending one item adds what it contributes.
pub proof fn lemma_count_push<T>(s: Seq<T>, v: T, p: spec_fn(T) -> bool)
    ensures
        count_of(s.push(v), p) == count_of(s, p) + (if p(v) {
            1nat
        } else {
            0nat
        }),
{
    assert(s.push(v).drop_last() =~= s);
}

/// Where fewer items satisfy the predicate than there are items, one does not.
pub proof fn lemma_count_short<T>(s: Seq<T>, p: spec_fn(T) -> bool) -> (i: int)
    requires
        count_of(s, p) < s.len(),
    ensures
        0 <= i < s.len(),
        !p(s[i]),
    decreases s.len(),
{
    if p(s.last()) {
        let i = lemma_count_short(s.drop_last(), p);
        i
    } else {
        s.len() - 1
    }
}

/// Where one item does not satisfy the predicate, fewer do than there are items.
pub proof fn lemma_count_miss<T>(s: Seq<T>, i: int, p: spec_fn(T) -> bool)
    requires
        0 <= i < s.len(),
        !p(s[i]),
    ensures
        count_of(s, p) < s.len(),
    decreases s.len(),
{
    if i == s.len() - 1 {
        lemma_count_bound(s.drop_last(), p);
    } else {
        assert(s.drop_last()[i] == s[i]);
        lemma_count_miss(s.drop_last(), i, p);
    }
}

/// Where no item satisfies the predicate, the count is zero, and conversely.
pub proof fn lemma_count_none<T>(s: Seq<T>, p: spec_fn(T) -> bool)
    ensures
        count_of(s, p) == 0 <==> forall|i: int| 0 <= i < s.len() ==> !p(#[trigger] s[i]),
    decreases s.len(),
{
    if s.len() > 0 {
        lemma_count_none(s.drop_last(), p);
        if count_of(s, p) == 0 {
            assert forall|i: int| 0 <= i < s.len() implies !p(#[trigger] s[i]) by {
                if i < s.len() - 1 {
                    assert(s.drop_last()[i] == s[i]);
                }
            }
        }
        if forall|i: int| 0 <= i < s.len() ==> !p(#[trigger] s[i]) {
            assert forall|i: int| 0 <= i < s.drop_last().len() implies !p(
                #[trigger] s.drop_last()[i],
            ) by {
                assert(s.drop_last()[i] == s[i]);
            }
            assert(!p(s[s.len() - 1]));
        }
    }
}

} // verus!
