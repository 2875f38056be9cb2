//! The order in which literal children are kept: by first byte, `/` last.
use core::cmp::Ordering;
use vstd::prelude::*;

use crate::bytes::SLASH;
use crate::node::byte_rank;

verus! {

/// Compares two first bytes of literal keys: bytes in their usual order,
/// except that `/` comes after every other byte.
pub fn compare(a: u8, b: u8) -> (r: Ordering)
    ensures
        (r == Ordering::Less) <==> byte_rank(a) < byte_rank(b),
        (r == Ordering::Equal) <==> a == b,
        (r == Ordering::Greater) <==> byte_rank(a) > byte_rank(b),
{
    if a == b {
        Ordering::Equal
    } else if a == SLASH {
        Ordering::Greater
    } else if b == SLASH {
        Ordering::Less
    } else if a < b {
        Ordering::Less
    } else {
        Ordering::Greater
    }
}

/// The first byte `a` comes before `b` in the order of literal children.
pub fn byte_before(a: u8, b: u8) -> (r: bool)
    ensures
        r == (byte_rank(a) < byte_rank(b)),
{
    match compare(a, b) {
        Ordering::Less => true,
        _ => false,
    }
}

} // verus!
