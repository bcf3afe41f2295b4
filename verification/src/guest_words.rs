//! Addresses and lengths that the guest names.
//!
//! A sum that leaves 64 bits must fail before a guest range becomes a host pointer or a
//! mapping, so the arithmetic on these words exists only in its checked form.

use crate::text::{dec, decimal, hex, hexadecimal};
use vstd::prelude::*;

verus! {

/// An address that the guest names.
#[derive(Clone, Copy, Debug, PartialEq, Eq, Ord, Structural)]
pub struct GuestAddr(pub u64);

/// A length that the guest names.
#[derive(Clone, Copy, Debug, PartialEq, Eq, Ord, Structural)]
pub struct GuestLen(pub u64);

impl GuestAddr {
    pub fn new(v: u64) -> (r: GuestAddr)
        ensures
            r == GuestAddr(v),
    {
        GuestAddr(v)
    }

    /// The bare word.
    pub fn get(self) -> (v: u64)
        ensures
            v == self.0,
    {
        self.0
    }

    /// The address behind the last byte; nothing where it leaves 64 bits.
    pub fn end(self, len: GuestLen) -> (r: Option<GuestAddr>)
        ensures
            r == (if self.0 + len.0 <= u64::MAX {
                Some(GuestAddr((self.0 + len.0) as u64))
            } else {
                None
            }),
    {
        match self.0.checked_add(len.0) {
            Some(v) => Some(GuestAddr(v)),
            None => None,
        }
    }

    /// The distance from a base; nothing for an address below it.
    pub fn offset_from(self, base: GuestAddr) -> (r: Option<u64>)
        ensures
            r == (if base.0 <= self.0 {
                Some((self.0 - base.0) as u64)
            } else {
                None
            }),
    {
        self.0.checked_sub(base.0)
    }

    /// The word in hexadecimal digits, without a prefix.
    pub fn to_hex(self) -> (s: String)
        ensures
            s@ == hexadecimal(self.0 as nat),
    {
        hex(self.0)
    }
}

impl GuestLen {
    pub fn new(v: u64) -> (r: GuestLen)
        ensures
            r == GuestLen(v),
    {
        GuestLen(v)
    }

    /// The bare word.
    pub fn get(self) -> (v: u64)
        ensures
            v == self.0,
    {
        self.0
    }

    /// Whether the length is zero.
    pub fn is_zero(self) -> (r: bool)
        ensures
            r == (self.0 == 0),
    {
        self.0 == 0
    }

    /// The sum of two lengths; nothing where it leaves 64 bits.
    pub fn plus(self, other: GuestLen) -> (r: Option<GuestLen>)
        ensures
            r == (if self.0 + other.0 <= u64::MAX {
                Some(GuestLen((self.0 + other.0) as u64))
            } else {
                None
            }),
    {
        match self.0.checked_add(other.0) {
            Some(v) => Some(GuestLen(v)),
            None => None,
        }
    }

    /// The word in hexadecimal digits, without a prefix.
    pub fn to_hex(self) -> (s: String)
        ensures
            s@ == hexadecimal(self.0 as nat),
    {
        hex(self.0)
    }

    /// The word in decimal digits.
    pub fn to_text(self) -> (s: String)
        ensures
            s@ == decimal(self.0 as nat),
    {
        dec(self.0)
    }
}

impl Default for GuestLen {
    fn default() -> (r: GuestLen)
        ensures
            r == GuestLen(0),
    {
        GuestLen(0)
    }
}

impl PartialOrd for GuestAddr {
    fn partial_cmp(&self, other: &Self) -> (r: Option<core::cmp::Ordering>) {
        if self.0 < other.0 {
            Some(core::cmp::Ordering::Less)
        } else if self.0 == other.0 {
            Some(core::cmp::Ordering::Equal)
        } else {
            Some(core::cmp::Ordering::Greater)
        }
    }
}

impl vstd::std_specs::cmp::PartialOrdSpecImpl for GuestAddr {
    open spec fn obeys_partial_cmp_spec() -> bool {
        true
    }

    open spec fn partial_cmp_spec(&self, other: &Self) -> Option<core::cmp::Ordering> {
        if self.0 < other.0 {
            Some(core::cmp::Ordering::Less)
        } else if self.0 == other.0 {
            Some(core::cmp::Ordering::Equal)
        } else {
            Some(core::cmp::Ordering::Greater)
        }
    }
}

impl PartialOrd for GuestLen {
    fn partial_cmp(&self, other: &Self) -> (r: Option<core::cmp::Ordering>) {
        if self.0 < other.0 {
            Some(core::cmp::Ordering::Less)
        } else if self.0 == other.0 {
            Some(core::cmp::Ordering::Equal)
        } else {
            Some(core::cmp::Ordering::Greater)
        }
    }
}

impl vstd::std_specs::cmp::PartialOrdSpecImpl for GuestLen {
    open spec fn obeys_partial_cmp_spec() -> bool {
        true
    }

    open spec fn partial_cmp_spec(&self, other: &Self) -> Option<core::cmp::Ordering> {
        if self.0 < other.0 {
            Some(core::cmp::Ordering::Less)
        } else if self.0 == other.0 {
            Some(core::cmp::Ordering::Equal)
        } else {
            Some(core::cmp::Ordering::Greater)
        }
    }
}

} // verus!
