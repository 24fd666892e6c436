//! Occurrence counting over buckets.
//!
//! The wheel's central invariant says that every live timer id sits
//! in exactly one bucket across all three levels. These spec
//! functions count how often an id occurs in one bucket and in one
//! level, and the lemmas track those counts through the operations
//! the wheel performs: appending an id, emptying a bucket, and moving
//! a bucket's contents elsewhere.

use vstd::prelude::*;

verus! {

/// How many times `x` occurs in `s`.
pub open spec fn seq_count(s: Seq<usize>, x: usize) -> nat
    decreases s.len(),
{
    if s.len() == 0 {
        0
    } else {
        seq_count(s.drop_last(), x) + if s.last() == x {
            1nat
        } else {
            0nat
        }
    }
}

/// How many times `x` occurs across all buckets of a level.
pub open spec fn level_count(lv: Seq<Seq<usize>>, x: usize) -> nat
    decreases lv.len(),
{
    if lv.len() == 0 {
        0
    } else {
        level_count(lv.drop_last(), x) + seq_count(lv.last(), x)
    }
}

/// Appending one id raises its count by one and no other's.
pub proof fn lemma_seq_count_push(s: Seq<usize>, y: usize, x: usize)
    ensures
        seq_count(s.push(y), x) == seq_count(s, x) + if y == x {
            1nat
        } else {
            0nat
        },
{
    assert(s.push(y).drop_last() =~= s);
    assert(s.push(y).last() == y);
}

/// Counts add up over concatenation.
pub proof fn lemma_seq_count_concat(a: Seq<usize>, b: Seq<usize>, x: usize)
    ensures
        seq_count(a + b, x) == seq_count(a, x) + seq_count(b, x),
    decreases b.len(),
{
    if b.len() == 0 {
        assert(a + b =~= a);
    } else {
        assert((a + b).drop_last() =~= a + b.drop_last());
        assert((a + b).last() == b.last());
        lemma_seq_count_concat(a, b.drop_last(), x);
    }
}

/// An id at some position occurs at least once.
pub proof fn lemma_seq_count_index(s: Seq<usize>, k: int)
    requires
        0 <= k < s.len(),
    ensures
        seq_count(s, s[k]) >= 1,
    decreases s.len(),
{
    if k == s.len() - 1 {
        assert(s.last() == s[k]);
    } else {
        assert(s.drop_last()[k] == s[k]);
        lemma_seq_count_index(s.drop_last(), k);
    }
}

/// Counting can peel the front element off instead of the back.
pub proof fn lemma_seq_count_head(s: Seq<usize>, x: usize)
    requires
        s.len() > 0,
    ensures
        seq_count(s, x) == seq_count(s.subrange(1, s.len() as int), x) + if s[0] == x {
            1nat
        } else {
            0nat
        },
{
    let head = seq![s[0]];
    let tail = s.subrange(1, s.len() as int);
    assert(s =~= head + tail);
    lemma_seq_count_concat(head, tail, x);
    assert(head.drop_last() =~= Seq::<usize>::empty());
    assert(seq_count(Seq::<usize>::empty(), x) == 0);
    assert(head.last() == s[0]);
    assert(seq_count(head, x) == if s[0] == x {
        1nat
    } else {
        0nat
    });
}

/// An id counted at least once occurs somewhere.
pub proof fn lemma_seq_count_contains(s: Seq<usize>, x: usize)
    requires
        seq_count(s, x) >= 1,
    ensures
        exists|k: int| 0 <= k < s.len() && s[k] == x,
    decreases s.len(),
{
    if s.last() == x {
        assert(s[s.len() - 1] == x);
    } else {
        lemma_seq_count_contains(s.drop_last(), x);
        let k = choose|k: int| 0 <= k < s.drop_last().len() && s.drop_last()[k] == x;
        assert(s[k] == x);
    }
}

/// Replacing one bucket exchanges its contribution to the count.
pub proof fn lemma_level_count_update(lv: Seq<Seq<usize>>, i: int, b: Seq<usize>, x: usize)
    requires
        0 <= i < lv.len(),
    ensures
        level_count(lv.update(i, b), x) + seq_count(lv[i], x) == level_count(lv, x) + seq_count(
            b,
            x,
        ),
    decreases lv.len(),
{
    if i == lv.len() - 1 {
        assert(lv.update(i, b).drop_last() =~= lv.drop_last());
        assert(lv.update(i, b).last() == b);
        assert(lv.last() == lv[i]);
    } else {
        assert(lv.update(i, b).drop_last() =~= lv.drop_last().update(i, b));
        assert(lv.update(i, b).last() == lv.last());
        assert(lv.drop_last()[i] == lv[i]);
        lemma_level_count_update(lv.drop_last(), i, b, x);
    }
}

/// One bucket's count never exceeds the level's.
pub proof fn lemma_level_count_member(lv: Seq<Seq<usize>>, i: int, x: usize)
    requires
        0 <= i < lv.len(),
    ensures
        level_count(lv, x) >= seq_count(lv[i], x),
    decreases lv.len(),
{
    if i == lv.len() - 1 {
        assert(lv.last() == lv[i]);
    } else {
        assert(lv.drop_last()[i] == lv[i]);
        lemma_level_count_member(lv.drop_last(), i, x);
    }
}

/// A level of empty buckets holds nothing.
pub proof fn lemma_level_count_all_empty(lv: Seq<Seq<usize>>, x: usize)
    requires
        forall|i: int| 0 <= i < lv.len() ==> (#[trigger] lv[i]).len() == 0,
    ensures
        level_count(lv, x) == 0,
    decreases lv.len(),
{
    if lv.len() > 0 {
        assert(lv.last() == lv[lv.len() - 1]);
        assert(forall|i: int|
            0 <= i < lv.drop_last().len() ==> (#[trigger] lv.drop_last()[i]).len() == 0);
        lemma_level_count_all_empty(lv.drop_last(), x);
        assert(seq_count(lv.last(), x) == 0);
    }
}

} // verus!
