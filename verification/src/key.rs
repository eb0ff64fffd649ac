use vstd::prelude::*;

verus! {

/// The capability every state and action type must offer: values can be
/// copied and compared, and the comparison decides real equality.
/// Environments implement this for their own state and action types.
pub trait Key: Copy {
    fn key_eq(&self, other: &Self) -> (r: bool)
        ensures
            r <==> self == other,
    ;
}

impl Key for usize {
    fn key_eq(&self, other: &Self) -> (r: bool)
        ensures
            r <==> self == other,
    {
        *self == *other
    }
}

impl Key for u64 {
    fn key_eq(&self, other: &Self) -> (r: bool)
        ensures
            r <==> self == other,
    {
        *self == *other
    }
}

impl Key for u32 {
    fn key_eq(&self, other: &Self) -> (r: bool)
        ensures
            r <==> self == other,
    {
        *self == *other
    }
}

impl Key for i64 {
    fn key_eq(&self, other: &Self) -> (r: bool)
        ensures
            r <==> self == other,
    {
        *self == *other
    }
}

impl Key for bool {
    fn key_eq(&self, other: &Self) -> (r: bool)
        ensures
            r <==> self == other,
    {
        *self == *other
    }
}

} // verus!
