//! The messages of the Spotify protocol, with their wire encodings.
use vstd::prelude::*;

pub mod authentication;
pub mod mercury;
pub mod metadata;
pub mod spirc;

verus! {

/// The value inside `o`, to change in place, when there is one.
pub(crate) fn opt_as_mut<T>(o: &mut Option<T>) -> (r: Option<&mut T>)
    ensures
        match *old(o) {
            Some(x) => r is Some && *r.unwrap() == x && *final(o) == Some(*final(r.unwrap())),
            None => r is None && *final(o) == None::<T>,
        },
    no_unwind
{
    match o {
        Some(v) => Some(v),
        None => None,
    }
}

/// The value of a field, to change in place.
pub(crate) fn field_mut<T>(x: &mut T) -> (r: &mut T)
    ensures
        *r == *old(x),
        *final(x) == *final(r),
    no_unwind
{
    x
}

/// The boxed value, to change in place.
pub(crate) fn box_mut<T>(b: &mut Box<T>) -> (r: &mut T)
    ensures
        *r == **old(b),
        **final(b) == *final(r),
    no_unwind
{
    &mut **b
}

} // verus!
