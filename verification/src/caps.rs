//! The capability that the device gives up before it serves a guest.

use vstd::prelude::*;

verus! {

/// The bit of `CAP_SYS_ADMIN` in the first word of each set.
pub const ADMIN_BIT: u32 = 0x20_0000;

/// One word of the three capability sets.
#[derive(Clone, Copy, Debug, PartialEq, Eq, Structural)]
pub struct CapData {
    pub effective: u32,
    pub permitted: u32,
    pub inheritable: u32,
}

impl Default for CapData {
    fn default() -> (c: CapData)
        ensures
            c == (CapData { effective: 0, permitted: 0, inheritable: 0 }),
    {
        CapData { effective: 0, permitted: 0, inheritable: 0 }
    }
}

/// Whether some set holds the bit.
pub open spec fn holds_admin(c: CapData) -> bool {
    (c.effective | c.permitted | c.inheritable) & ADMIN_BIT != 0
}

/// The sets without the bit.
pub open spec fn without_admin(c: CapData) -> CapData {
    CapData {
        effective: c.effective & !ADMIN_BIT,
        permitted: c.permitted & !ADMIN_BIT,
        inheritable: c.inheritable & !ADMIN_BIT,
    }
}

/// Takes the capability out of all three sets, and tells whether any of them held it.
pub fn clear_admin_capability(data: &mut [CapData; 2]) -> (present: bool)
    ensures
        present == holds_admin(old(data)@[0]),
        final(data)@ == old(data)@.update(0, without_admin(old(data)@[0])),
{
    let c: CapData = data[0];
    let present: bool = (c.effective | c.permitted | c.inheritable) & ADMIN_BIT != 0;
    data[0] = CapData {
        effective: c.effective & !ADMIN_BIT,
        permitted: c.permitted & !ADMIN_BIT,
        inheritable: c.inheritable & !ADMIN_BIT,
    };
    present
}

/// What is cleared is gone from every set, and clearing again changes nothing.
pub proof fn law_a_cleared_capability_is_gone(c: CapData)
    ensures
        !holds_admin(without_admin(c)),
        without_admin(without_admin(c)) == without_admin(c),
        !holds_admin(c) ==> without_admin(c) == c,
{
    let (e, p, i) = (c.effective, c.permitted, c.inheritable);
    assert(((e & !0x20_0000u32) | (p & !0x20_0000u32) | (i & !0x20_0000u32)) & 0x20_0000u32 == 0
        && ((e & !0x20_0000u32) & !0x20_0000u32) == e & !0x20_0000u32 && ((p & !0x20_0000u32)
        & !0x20_0000u32) == p & !0x20_0000u32 && ((i & !0x20_0000u32) & !0x20_0000u32) == i
        & !0x20_0000u32 && ((e | p | i) & 0x20_0000u32 == 0 ==> e & !0x20_0000u32 == e && p
        & !0x20_0000u32 == p && i & !0x20_0000u32 == i)) by (bit_vector);
}

/// Clearing takes the one bit out of each of the three sets, and leaves every other bit; the
/// bit was held where any of the three had it.
pub proof fn law_only_the_one_capability_goes(c: CapData)
    ensures
        without_admin(c).effective & 0x20_0000 == 0,
        without_admin(c).permitted & 0x20_0000 == 0,
        without_admin(c).inheritable & 0x20_0000 == 0,
        without_admin(c).effective | (c.effective & 0x20_0000) == c.effective,
        without_admin(c).permitted | (c.permitted & 0x20_0000) == c.permitted,
        without_admin(c).inheritable | (c.inheritable & 0x20_0000) == c.inheritable,
        holds_admin(c) <==> c.effective & 0x20_0000 != 0 || c.permitted & 0x20_0000 != 0
            || c.inheritable & 0x20_0000 != 0,
{
    let (e, p, i) = (c.effective, c.permitted, c.inheritable);
    assert((e & !0x20_0000u32) & 0x20_0000u32 == 0 && (e & !0x20_0000u32) | (e & 0x20_0000u32) == e)
        by (bit_vector);
    assert((p & !0x20_0000u32) & 0x20_0000u32 == 0 && (p & !0x20_0000u32) | (p & 0x20_0000u32) == p)
        by (bit_vector);
    assert((i & !0x20_0000u32) & 0x20_0000u32 == 0 && (i & !0x20_0000u32) | (i & 0x20_0000u32) == i)
        by (bit_vector);
    assert((e | p | i) & 0x20_0000u32 != 0 <==> e & 0x20_0000u32 != 0 || p & 0x20_0000u32 != 0 || i
        & 0x20_0000u32 != 0) by (bit_vector);
}

} // verus!
