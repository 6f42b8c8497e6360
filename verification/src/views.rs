//! Views of lists and optional values, and copies that keep them.

use vstd::prelude::*;

verus! {

/// The views of the elements of a list, in order.
pub open spec fn of<T: View>(list: Seq<T>) -> Seq<T::V> {
    Seq::new(list.len(), |i: int| list[i]@)
}

/// The view of a value that may be absent.
pub open spec fn opt<T: View>(value: Option<T>) -> Option<T::V> {
    match value {
        Some(v) => Some(v@),
        None => None,
    }
}

/// Whether a clone of a `T` always has the view of what it was cloned from.
pub open spec fn clone_keeps_view<T: View + Clone>() -> bool {
    forall|a: T, b: T| #[trigger] call_ensures(T::clone, (&a,), b) ==> b@ == a@
}

/// A copy of a list, element by element.
pub fn clone_list<T: View + Clone>(list: &Vec<T>) -> (copy: Vec<T>)
    requires
        clone_keeps_view::<T>(),
    ensures
        of(copy@) == of(list@),
{
    let mut copy: Vec<T> = Vec::new();
    let mut i: usize = 0;
    while i < list.len()
        invariant
            i <= list@.len(),
            clone_keeps_view::<T>(),
            copy@.len() == i,
            forall|k: int| 0 <= k < i ==> #[trigger] copy@[k]@ == list@[k]@,
        decreases list@.len() - i,
    {
        let item: T = list[i].clone();
        copy.push(item);
        i = i + 1;
    }
    assert(of(copy@) =~= of(list@));
    copy
}

/// A copy of a list of plain values.
pub fn copy_list<T: Copy>(list: &Vec<T>) -> (copy: Vec<T>)
    ensures
        copy@ == list@,
{
    let mut copy: Vec<T> = Vec::new();
    let mut i: usize = 0;
    while i < list.len()
        invariant
            i <= list@.len(),
            copy@ == list@.take(i as int),
        decreases list@.len() - i,
    {
        copy.push(list[i]);
        i = i + 1;
        assert(copy@ =~= list@.take(i as int));
    }
    assert(list@.take(i as int) =~= list@);
    copy
}

/// A copy of a value that may be absent.
pub fn clone_option<T: View + Clone>(value: &Option<T>) -> (copy: Option<T>)
    requires
        clone_keeps_view::<T>(),
    ensures
        opt(copy) == opt(*value),
{
    match value {
        Some(v) => Some(v.clone()),
        None => None,
    }
}

} // verus!
