//! The mathematical view of a collection, element by element.

use vstd::prelude::*;

verus! {

/// The views of the elements of a sequence, in order.
pub open spec fn of_seq<T: View>(s: Seq<T>) -> Seq<T::V> {
    s.map_values(|x: T| x@)
}

/// The view of an optional value.
pub open spec fn of_option<T: View>(o: Option<T>) -> Option<T::V> {
    match o {
        Some(x) => Some(x@),
        None => None,
    }
}

} // verus!
