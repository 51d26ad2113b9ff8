//! Per-colour capture counts, kept in an `enum_map::EnumMap`.

use crate::stone::Stone;
use enum_map::EnumMap;
use vstd::prelude::*;

verus! {

/// The capture counts of the two colours. They live in an `EnumMap` keyed by
/// `bool`, a key type the map supports out of the box: `false` stands for
/// White and `true` for Black.
///
/// The verifier does not look inside this struct; what the map holds is
/// `tally_of`.
#[verifier::external_body]
#[derive(Debug)]
pub struct Captures {
    counts: EnumMap<bool, usize>,
}

/// The count that the map inside `c` stores under each key.
pub uninterp spec fn tally_of(c: Captures) -> Map<bool, usize>;

/// Calls `EnumMap::default`, which fills every slot with the value type's
/// default. The contract claims that both keys of the new map hold 0.
#[verifier::external_body]
pub(crate) fn tally_new() -> (r: Captures)
    ensures
        tally_of(r)[false] == 0,
        tally_of(r)[true] == 0,
{
    Captures { counts: EnumMap::default() }
}

/// Reads through `EnumMap`'s `Index`. The contract claims that the result is
/// the count stored under `key`.
#[verifier::external_body]
pub(crate) fn tally_get(c: &Captures, key: bool) -> (r: usize)
    ensures
        r == tally_of(*c)[key],
{
    c.counts[key]
}

/// Writes through `EnumMap`'s `IndexMut`. The contract claims that afterwards
/// `key` holds `value` and the other key holds what it held before.
#[verifier::external_body]
pub(crate) fn tally_set(c: &mut Captures, key: bool, value: usize)
    ensures
        tally_of(*final(c)) == tally_of(*old(c)).insert(key, value),
{
    c.counts[key] = value;
}

impl Captures {
    /// The map key that stands for `color`.
    pub open spec fn spec_key(color: Stone) -> bool {
        color == Stone::Black
    }

    /// The number of stones that `color` has captured.
    pub open spec fn spec_get(&self, color: Stone) -> nat {
        tally_of(*self)[Self::spec_key(color)] as nat
    }

    fn key(color: Stone) -> (r: bool)
        ensures
            r == Self::spec_key(color),
    {
        match color {
            Stone::White => false,
            Stone::Black => true,
        }
    }

    /// A tally with no captures on either side.
    pub fn new() -> (r: Captures)
        ensures
            r.spec_get(Stone::White) == 0,
            r.spec_get(Stone::Black) == 0,
    {
        tally_new()
    }

    /// The number of stones that `color` has captured.
    pub fn get(&self, color: Stone) -> (r: usize)
        ensures
            r == self.spec_get(color),
    {
        tally_get(self, Self::key(color))
    }

    /// Credits `n` more captured stones to `color`.
    pub fn credit(&mut self, color: Stone, n: usize)
        requires
            old(self).spec_get(color) + n <= usize::MAX,
        ensures
            final(self).spec_get(color) == old(self).spec_get(color) + n,
            final(self).spec_get(color.opponent()) == old(self).spec_get(color.opponent()),
    {
        let key = Self::key(color);
        let held = tally_get(self, key);
        tally_set(self, key, held + n);
    }
}

impl Clone for Captures {
    /// A second tally with the same counts.
    fn clone(&self) -> (r: Captures)
        ensures
            r.spec_get(Stone::White) == self.spec_get(Stone::White),
            r.spec_get(Stone::Black) == self.spec_get(Stone::Black),
    {
        let mut copy = tally_new();
        tally_set(&mut copy, false, tally_get(self, false));
        tally_set(&mut copy, true, tally_get(self, true));
        copy
    }
}

} // verus!
