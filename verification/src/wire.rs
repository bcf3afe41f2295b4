//! The messages of the device, as values.

use crate::abi::Dev;
use vstd::prelude::*;

verus! {

/// What a message asks for.
#[derive(Clone, Copy, Debug, PartialEq, Eq, Structural)]
pub enum Kind {
    Hello,
    Open,
    Close,
    Ioctl,
    MapPrepare,
    UvmPoolBack,
    GetTables,
    MapRelease,
    ProcGone,
    /// Any other number.
    Unknown,
}

/// One second-level pointer: the field that holds it and the bytes it stands for.
#[derive(Clone, Copy, Debug, PartialEq, Eq, Structural)]
pub struct NestedDesc {
    pub ptr_off: u32,
    pub aux_off: u32,
    pub len: u32,
}

/// The header of a request.
pub struct Req {
    pub seq: u32,
    pub kind: Kind,
    /// The device node the request is for, where the tag names one.
    pub dev: Option<Dev>,
    /// The tag, as it stands in the message.
    pub dev_tag: u32,
    pub ioctl_nr: u32,
    pub target_token: u64,
    pub inline_len: u32,
    pub aux_len: u32,
    pub fd_field_off: Option<u32>,
    pub fd_field_token: Option<u64>,
    pub fd_field_proc: Option<u32>,
    pub embedded_ptr_off: Option<u32>,
    pub aux_fd_field_off: Option<u32>,
    pub aux_fd_field_token: Option<u64>,
    pub aux_fd_field_proc: Option<u32>,
    pub nested_count: u32,
    /// The whole descriptor array of the header.
    pub nested: Vec<NestedDesc>,
    pub gpa_run_count: u32,
    pub map_len: u64,
    pub addr: u64,
    pub guest_proc: u32,
}

impl Default for Req {
    fn default() -> (r: Req)
        ensures
            r.seq == 0,
            r.kind == Kind::Unknown,
            r.dev is None,
            r.dev_tag == 0,
            r.ioctl_nr == 0,
            r.target_token == 0,
            r.inline_len == 0,
            r.aux_len == 0,
            r.fd_field_off is None,
            r.fd_field_token is None,
            r.fd_field_proc is None,
            r.embedded_ptr_off is None,
            r.aux_fd_field_off is None,
            r.aux_fd_field_token is None,
            r.aux_fd_field_proc is None,
            r.nested_count == 0,
            r.nested@ == Seq::<NestedDesc>::empty(),
            r.gpa_run_count == 0,
            r.map_len == 0,
            r.addr == 0,
            r.guest_proc == 0,
    {
        Req {
            seq: 0,
            kind: Kind::Unknown,
            dev: None,
            dev_tag: 0,
            ioctl_nr: 0,
            target_token: 0,
            inline_len: 0,
            aux_len: 0,
            fd_field_off: None,
            fd_field_token: None,
            fd_field_proc: None,
            embedded_ptr_off: None,
            aux_fd_field_off: None,
            aux_fd_field_token: None,
            aux_fd_field_proc: None,
            nested_count: 0,
            nested: Vec::new(),
            gpa_run_count: 0,
            map_len: 0,
            addr: 0,
            guest_proc: 0,
        }
    }
}

/// The header of a response.
#[derive(Clone, Copy, Debug, PartialEq, Eq, Structural)]
pub struct Rsp {
    pub seq: u32,
    pub ret: i32,
    pub token: u64,
    pub inline_len: u32,
    pub aux_len: u32,
    pub scm_fd_count: u32,
}

impl Rsp {
    /// Success without a payload.
    pub open spec fn ok_spec(seq: u32, token: u64) -> Rsp {
        Rsp { seq, ret: 0, token, inline_len: 0, aux_len: 0, scm_fd_count: 0 }
    }

    /// A guest error: the negated error number and no payload.
    pub open spec fn err_spec(seq: u32, errno: i32) -> Rsp {
        Rsp { seq, ret: (-errno) as i32, token: 0, inline_len: 0, aux_len: 0, scm_fd_count: 0 }
    }

    /// Success without a payload.
    pub fn ok(seq: u32, token: u64) -> (r: Rsp)
        ensures
            r == Rsp::ok_spec(seq, token),
    {
        Rsp { seq, ret: 0, token, inline_len: 0, aux_len: 0, scm_fd_count: 0 }
    }

    /// A guest error: the negated error number and no payload.
    pub fn err(seq: u32, errno: i32) -> (r: Rsp)
        requires
            errno != i32::MIN,
        ensures
            r == Rsp::err_spec(seq, errno),
    {
        Rsp { seq, ret: -errno, token: 0, inline_len: 0, aux_len: 0, scm_fd_count: 0 }
    }
}

/// A response: its header and the bytes that follow it.
pub struct Reply {
    pub rsp: Rsp,
    pub bytes: Vec<u8>,
}

impl Reply {
    /// A header without a payload.
    pub fn bare(rsp: Rsp) -> (r: Reply)
        ensures
            r.rsp == rsp,
            r.bytes@ == Seq::<u8>::empty(),
    {
        Reply { rsp, bytes: Vec::new() }
    }
}

/// The limits of the protocol.
#[derive(Clone, Copy, Debug, PartialEq, Eq, Structural)]
pub struct Limits {
    pub proto_version: u32,
    /// The header of a request in bytes.
    pub req_len: usize,
    /// The header of a response in bytes.
    pub rsp_len: usize,
    /// What a process says of itself, in bytes.
    pub proc_info_len: usize,
    /// The longest inline block, and the longest chunk of the table stream.
    pub max_payload: usize,
    /// The longest auxiliary buffer.
    pub max_aux: usize,
    /// The longest message.
    pub max_msg: usize,
}

/// A success names its token, a failure the negated error; neither carries bytes, and both
/// answer the request of their number.
pub proof fn law_a_bare_response_tells_how_it_went(seq: u32, token: u64, errno: i32)
    requires
        errno > 0,
    ensures
        Rsp::ok_spec(seq, token).seq == seq,
        Rsp::ok_spec(seq, token).ret == 0,
        Rsp::ok_spec(seq, token).token == token,
        Rsp::ok_spec(seq, token).inline_len == 0 && Rsp::ok_spec(seq, token).aux_len == 0,
        Rsp::err_spec(seq, errno).seq == seq,
        Rsp::err_spec(seq, errno).ret == -errno,
        Rsp::err_spec(seq, errno).token == 0,
        Rsp::err_spec(seq, errno).inline_len == 0 && Rsp::err_spec(seq, errno).aux_len == 0,
{
}

} // verus!
