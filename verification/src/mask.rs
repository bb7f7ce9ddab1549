//! Row selection by boolean masks: which elements a mask keeps, and how many.
use vstd::prelude::*;

verus! {

/// The elements of `s` whose mask entry is `true`, in their original order.
pub open spec fn filter_seq<T>(s: Seq<T>, m: Seq<bool>) -> Seq<T>
    decreases s.len(),
{
    if s.len() == 0 || m.len() == 0 {
        Seq::empty()
    } else if m.last() {
        filter_seq(s.drop_last(), m.drop_last()).push(s.last())
    } else {
        filter_seq(s.drop_last(), m.drop_last())
    }
}

/// The number of `true` entries of `m`.
pub open spec fn count_true(m: Seq<bool>) -> nat
    decreases m.len(),
{
    if m.len() == 0 {
        0
    } else {
        count_true(m.drop_last()) + if m.last() {
            1nat
        } else {
            0nat
        }
    }
}

/// Extending a prefix by one element extends its filter by that element
/// exactly when the mask keeps it.
pub proof fn lemma_filter_step<T>(s: Seq<T>, m: Seq<bool>, i: int)
    requires
        0 <= i < s.len(),
        s.len() == m.len(),
    ensures
        filter_seq(s.take(i + 1), m.take(i + 1)) == if m[i] {
            filter_seq(s.take(i), m.take(i)).push(s[i])
        } else {
            filter_seq(s.take(i), m.take(i))
        },
        count_true(m.take(i + 1)) == count_true(m.take(i)) + if m[i] {
            1nat
        } else {
            0nat
        },
{
    assert(s.take(i + 1).drop_last() =~= s.take(i));
    assert(m.take(i + 1).drop_last() =~= m.take(i));
}

/// The filter of a sequence has one element per `true` mask entry.
pub proof fn lemma_filter_len<T>(s: Seq<T>, m: Seq<bool>)
    requires
        s.len() == m.len(),
    ensures
        filter_seq(s, m).len() == count_true(m),
        count_true(m) <= m.len(),
    decreases s.len(),
{
    if s.len() > 0 {
        lemma_filter_len(s.drop_last(), m.drop_last());
    }
}

/// A mask that keeps everything keeps the sequence unchanged.
pub proof fn lemma_filter_all<T>(s: Seq<T>, m: Seq<bool>)
    requires
        s.len() == m.len(),
        count_true(m) == m.len(),
    ensures
        filter_seq(s, m) == s,
    decreases s.len(),
{
    if s.len() > 0 {
        lemma_filter_len(s.drop_last(), m.drop_last());
        if !m.last() {
            assert(count_true(m) == count_true(m.drop_last()));
        }
        lemma_filter_all(s.drop_last(), m.drop_last());
        assert(s.drop_last().push(s.last()) =~= s);
    }
}

/// A mask that keeps nothing gives the empty sequence.
pub proof fn lemma_filter_none<T>(s: Seq<T>, m: Seq<bool>)
    requires
        s.len() == m.len(),
        count_true(m) == 0,
    ensures
        filter_seq(s, m) == Seq::<T>::empty(),
{
    lemma_filter_len(s, m);
}

/// Filtering commutes with mapping each element.
pub proof fn lemma_filter_map<A, B>(s: Seq<A>, m: Seq<bool>, f: spec_fn(A) -> B)
    requires
        s.len() == m.len(),
    ensures
        filter_seq(s, m).map_values(f) == filter_seq(s.map_values(f), m),
    decreases s.len(),
{
    if s.len() > 0 {
        lemma_filter_map(s.drop_last(), m.drop_last(), f);
        assert(s.map_values(f).drop_last() =~= s.drop_last().map_values(f));
        assert(filter_seq(s, m).map_values(f) =~= filter_seq(s.map_values(f), m));
    } else {
        assert(filter_seq(s, m).map_values(f) =~= Seq::<B>::empty());
    }
}

/// Counts the `true` entries of `mask`.
pub fn count_selected(mask: &[bool]) -> (n: usize)
    ensures
        n == count_true(mask@),
{
    let mut n: usize = 0;
    let mut i: usize = 0;
    while i < mask.len()
        invariant
            i <= mask@.len(),
            n == count_true(mask@.take(i as int)),
            n <= i,
        decreases mask@.len() - i,
    {
        proof {
            assert(mask@.take(i + 1).drop_last() =~= mask@.take(i as int));
        }
        if mask[i] {
            n = n + 1;
        }
        i = i + 1;
    }
    assert(mask@.take(mask@.len() as int) =~= mask@);
    n
}

/// The elements of `v` that `mask` keeps, in order; `cap` is the number of
/// kept elements and only sizes the allocation.
pub fn filter_slice<T: Copy>(v: &[T], mask: &[bool], cap: usize) -> (out: Vec<T>)
    requires
        v@.len() == mask@.len(),
    ensures
        out@ == filter_seq(v@, mask@),
{
    let mut out: Vec<T> = Vec::with_capacity(cap);
    let mut i: usize = 0;
    while i < v.len()
        invariant
            i <= v@.len(),
            v@.len() == mask@.len(),
            out@ == filter_seq(v@.take(i as int), mask@.take(i as int)),
        decreases v@.len() - i,
    {
        proof {
            lemma_filter_step(v@, mask@, i as int);
        }
        if mask[i] {
            out.push(v[i]);
        }
        i = i + 1;
    }
    assert(v@.take(v@.len() as int) =~= v@);
    assert(mask@.take(mask@.len() as int) =~= mask@);
    out
}

} // verus!
