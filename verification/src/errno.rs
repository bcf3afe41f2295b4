//! Error numbers handed to the guest, as Linux numbers them.

use vstd::prelude::*;

verus! {

pub const EPERM: i32 = 1;

pub const EIO: i32 = 5;

pub const EBADF: i32 = 9;

pub const ENOMEM: i32 = 12;

pub const EACCES: i32 = 13;

pub const EBUSY: i32 = 16;

pub const EINVAL: i32 = 22;

pub const ENOSPC: i32 = 28;

pub const EPROTO: i32 = 71;

pub const EMSGSIZE: i32 = 90;

pub const ENOTSUP: i32 = 95;

} // verus!
