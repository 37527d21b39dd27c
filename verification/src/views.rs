//! Lists seen through the views of their elements.

use vstd::prelude::*;

verus! {

/// The views of the elements of `s`, in order.
pub open spec fn views<T: View>(s: Seq<T>) -> Seq<T::V> {
    s.map_values(|x: T| x@)
}

/// Adds `x` at the end of `v`.
pub fn push_view<T: View>(v: &mut Vec<T>, x: T)
    ensures
        final(v)@ == old(v)@.push(x),
        views(final(v)@) == views(old(v)@).push(x@),
{
    v.push(x);
    assert(views(v@) =~= views(old(v)@).push(x@));
}

/// The view of the content of an option.
pub open spec fn opt_view<T: View>(x: Option<T>) -> Option<T::V> {
    match x {
        Some(v) => Some(v@),
        None => None,
    }
}

} // verus!
