//! Conversions between ids and positions, and between units.

use vstd::prelude::*;

verus! {

/// The position of the item with this id in a list kept in id order.
pub fn id_to_vec_pos(id: i32) -> (r: usize)
    requires
        id >= 1,
    ensures
        r == id - 1,
{
    (id - 1) as usize
}

/// Whole minutes in the seconds.
pub fn seconds_to_minutes(seconds: i32) -> (r: i32)
    requires
        seconds >= 0,
    ensures
        r == seconds / 60,
{
    seconds / 60
}

/// Whole kilometres in the metres.
pub fn meter_to_km(m: i32) -> (r: i32)
    requires
        m >= 0,
    ensures
        r == m / 1000,
{
    m / 1000
}

} // verus!
