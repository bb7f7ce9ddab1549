//! Checks on lists of named items.
use vstd::prelude::*;

verus! {

/// Whether no two items carry the same name.
pub open spec fn unique_names<T>(items: Seq<(String, T)>) -> bool {
    forall|i: int, j: int|
        0 <= i < j < items.len() ==> (#[trigger] items[i]).0@ != (#[trigger] items[j]).0@
}

/// The first position whose name already occurs earlier in `items`, if any.
pub fn find_duplicate_name<T>(items: &[(String, T)]) -> (r: Option<usize>)
    ensures
        match r {
            None => unique_names(items@),
            Some(i) => i < items@.len() && (exists|j: int|
                0 <= j < i && items@[j].0@ == (#[trigger] items@[i as int]).0@) && unique_names(
                items@.take(i as int),
            ),
        },
{
    let mut i: usize = 1;
    if items.len() == 0 {
        return None;
    }
    while i < items.len()
        invariant
            1 <= i <= items@.len(),
            unique_names(items@.take(i as int)),
        decreases items@.len() - i,
    {
        let mut j: usize = 0;
        while j < i
            invariant
                j <= i < items@.len(),
                unique_names(items@.take(i as int)),
                forall|k: int| 0 <= k < j ==> items@[k].0@ != items@[i as int].0@,
            decreases i - j,
        {
            if items[j].0 == items[i].0 {
                assert(items@.take(i as int) =~= items@.take(i as int));
                return Some(i);
            }
            j = j + 1;
        }
        assert forall|a: int, b: int| 0 <= a < b < i + 1 implies (#[trigger] items@.take(
            i + 1,
        )[a]).0@ != (#[trigger] items@.take(i + 1)[b]).0@ by {
            if b < i {
                assert(items@.take(i as int)[a] == items@[a]);
                assert(items@.take(i as int)[b] == items@[b]);
            }
        }
        i = i + 1;
    }
    assert(items@.take(items@.len() as int) =~= items@);
    None
}

/// Checks that no two items share a name; callers guarantee it.
pub fn assert_unique_names<T>(items: &[(String, T)])
    requires
        unique_names(items@),
{
    let d = find_duplicate_name(items);
    assert(d is None);
}

} // verus!
