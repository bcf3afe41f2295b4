//! Holds a request's envelope and translation metadata against the host's own
//! descriptors, before anything is acquired for it.

use crate::abi::{Abi, Dev, Layout, NestedSpec, Params, CLASS_OS_DESCRIPTOR, NVOS64_LEN};
use crate::bytes::{le32, le64, put_zeros, u32_at, u64_at};
use crate::errno::{EINVAL, EMSGSIZE, ENOTSUP, EPERM};
use crate::wire::{NestedDesc, Req};
use vstd::prelude::*;

verus! {

/// Why a request is refused.
#[derive(Clone, Copy, Debug, PartialEq, Eq, Structural)]
pub enum Error {
    Lengths,
    UvmTools,
    UnknownUvm,
    UvmSize,
    TooLarge,
    UnknownFrontend,
    FrontendSize,
    UnexpectedFd,
    MisplacedFd,
    UnresolvedFd,
    OutsideField,
    CapabilityFd,
    BlockedControl,
    SerializedControl,
    SerializedAlloc,
    HeapCallback,
    Rights,
    UnknownParams,
    MissingEmbedded,
    UnexpectedEmbedded,
    RunsWithoutOsdesc,
    RunBytes,
    OsdescWithoutRuns,
    AuxWithoutTarget,
    NestedCount,
    NestedLength,
    NestedMissing,
    NestedDiffers,
    NestedOverlap,
    NestedUnexpected,
}

impl Error {
    /// The error number that the guest gets.
    pub open spec fn number(self) -> i32 {
        match self {
            Error::UvmTools
            | Error::UnknownUvm
            | Error::UnknownFrontend
            | Error::CapabilityFd
            | Error::SerializedControl
            | Error::SerializedAlloc
            | Error::HeapCallback
            | Error::Rights
            | Error::UnknownParams
            | Error::OsdescWithoutRuns => ENOTSUP,
            Error::TooLarge => EMSGSIZE,
            Error::BlockedControl => EPERM,
            _ => EINVAL,
        }
    }

    /// The error number that the guest gets.
    pub fn errno(self) -> (n: i32)
        ensures
            n == self.number(),
            n > 0,
    {
        match self {
            Error::UvmTools
            | Error::UnknownUvm
            | Error::UnknownFrontend
            | Error::CapabilityFd
            | Error::SerializedControl
            | Error::SerializedAlloc
            | Error::HeapCallback
            | Error::Rights
            | Error::UnknownParams
            | Error::OsdescWithoutRuns => ENOTSUP,
            Error::TooLarge => EMSGSIZE,
            Error::BlockedControl => EPERM,
            _ => EINVAL,
        }
    }

    /// The reason in words, for the log.
    pub open spec fn words(self) -> &'static str {
        match self {
            Error::Lengths => "request lengths do not match its buffers",
            Error::UvmTools => "UVM tools forwarding has no request descriptors",
            Error::UnknownUvm => "unknown UVM request",
            Error::UvmSize => "UVM inline size differs from the host ABI",
            Error::TooLarge => "frontend request exceeds _IOC size",
            Error::UnknownFrontend => "unsupported frontend request",
            Error::FrontendSize => "frontend inline size differs from the host ABI",
            Error::UnexpectedFd => "unexpected FD translation metadata",
            Error::MisplacedFd => "missing or misplaced FD translation metadata",
            Error::UnresolvedFd => "nonnegative FD requires a resolved guest token",
            Error::OutsideField => "descriptor field outside its parameter buffer",
            Error::CapabilityFd => "allocation capability FD is not translated",
            Error::BlockedControl => "control is not forwarded",
            Error::SerializedControl => "serialized controls have no translation layout",
            Error::SerializedAlloc => "serialized allocations have no translation layout",
            Error::HeapCallback => "VID_HEAP callback/OS-descriptor parameters are not translated",
            Error::Rights => "pRightsRequested is not translated",
            Error::UnknownParams => "unknown allocation parameter layout",
            Error::MissingEmbedded => "missing embedded pointer metadata or truncated parameters",
            Error::UnexpectedEmbedded => "unexpected embedded pointer metadata",
            Error::RunsWithoutOsdesc => "GPA runs require an OS-descriptor allocation",
            Error::RunBytes => "GPA run bytes differ from the declared count",
            Error::OsdescWithoutRuns => "OS-descriptor allocation requires pinned GPA runs",
            Error::AuxWithoutTarget => "aux buffer has no host-described target",
            Error::NestedCount => "nested_count exceeds the wire descriptor array",
            Error::NestedLength => "nested length exceeds the parameter layout",
            Error::NestedMissing => "missing nested pointer translation metadata",
            Error::NestedDiffers => "nested descriptor differs from the host layout",
            Error::NestedOverlap => "nested buffers overlap or extend outside aux",
            Error::NestedUnexpected => "unexpected nested pointer translation metadata",
        }
    }

    /// The reason in words, for the log.
    pub fn why(self) -> (s: &'static str)
        ensures
            s == self.words(),
    {
        match self {
            Error::Lengths => "request lengths do not match its buffers",
            Error::UvmTools => "UVM tools forwarding has no request descriptors",
            Error::UnknownUvm => "unknown UVM request",
            Error::UvmSize => "UVM inline size differs from the host ABI",
            Error::TooLarge => "frontend request exceeds _IOC size",
            Error::UnknownFrontend => "unsupported frontend request",
            Error::FrontendSize => "frontend inline size differs from the host ABI",
            Error::UnexpectedFd => "unexpected FD translation metadata",
            Error::MisplacedFd => "missing or misplaced FD translation metadata",
            Error::UnresolvedFd => "nonnegative FD requires a resolved guest token",
            Error::OutsideField => "descriptor field outside its parameter buffer",
            Error::CapabilityFd => "allocation capability FD is not translated",
            Error::BlockedControl => "control is not forwarded",
            Error::SerializedControl => "serialized controls have no translation layout",
            Error::SerializedAlloc => "serialized allocations have no translation layout",
            Error::HeapCallback => "VID_HEAP callback/OS-descriptor parameters are not translated",
            Error::Rights => "pRightsRequested is not translated",
            Error::UnknownParams => "unknown allocation parameter layout",
            Error::MissingEmbedded => "missing embedded pointer metadata or truncated parameters",
            Error::UnexpectedEmbedded => "unexpected embedded pointer metadata",
            Error::RunsWithoutOsdesc => "GPA runs require an OS-descriptor allocation",
            Error::RunBytes => "GPA run bytes differ from the declared count",
            Error::OsdescWithoutRuns => "OS-descriptor allocation requires pinned GPA runs",
            Error::AuxWithoutTarget => "aux buffer has no host-described target",
            Error::NestedCount => "nested_count exceeds the wire descriptor array",
            Error::NestedLength => "nested length exceeds the parameter layout",
            Error::NestedMissing => "missing nested pointer translation metadata",
            Error::NestedDiffers => "nested descriptor differs from the host layout",
            Error::NestedOverlap => "nested buffers overlap or extend outside aux",
            Error::NestedUnexpected => "unexpected nested pointer translation metadata",
        }
    }
}

/// Pointers that stand for no bytes: the guest gathered nothing behind them.
pub struct Shape {
    pub zero_inline: Option<usize>,
    pub zero_aux: Vec<usize>,
}

/// `s` with eight zero bytes at each of the offsets.
pub open spec fn cleared(s: Seq<u8>, offs: Seq<usize>) -> Seq<u8> {
    Seq::new(
        s.len(),
        |i: int|
            if exists|k: int| 0 <= k < offs.len() && #[trigger] offs[k] <= i < offs[k] + 8 {
                0u8
            } else {
                s[i]
            },
    )
}

impl Shape {
    /// Whether every pointer lies inside its buffer.
    pub open spec fn fits(&self, inline: Seq<u8>, aux: Seq<u8>) -> bool {
        &&& self.zero_inline matches Some(off) ==> off + 8 <= inline.len()
        &&& forall|k: int| 0 <= k < self.zero_aux@.len() ==> #[trigger] self.zero_aux@[k] + 8 <= aux.len()
    }

    /// Zeroes the pointers that stand for no bytes, so that no guest address
    /// reaches the driver.
    pub fn clear_unused_pointers(&self, inline: &mut [u8], aux: &mut [u8])
        requires
            self.fits(old(inline)@, old(aux)@),
        ensures
            final(inline)@ == (match self.zero_inline {
                Some(off) => cleared(old(inline)@, seq![off]),
                None => old(inline)@,
            }),
            final(aux)@ == cleared(old(aux)@, self.zero_aux@),
    {
        if let Some(off) = self.zero_inline {
            put_zeros(inline, off, 8);
            assert(inline@ =~= cleared(old(inline)@, seq![off])) by {
                let offs = seq![off];
                assert(offs[0] == off);
                assert forall|i: int| 0 <= i < inline@.len() implies #[trigger] inline@[i]
                    == cleared(old(inline)@, offs)[i] by {
                    if off <= i < off + 8 {
                        assert(offs[0] <= i < offs[0] + 8);
                    }
                }
            }
        }
        let mut k: usize = 0;
        while k < self.zero_aux.len()
            invariant
                k <= self.zero_aux@.len(),
                aux@.len() == old(aux)@.len(),
                forall|j: int|
                    0 <= j < self.zero_aux@.len() ==> #[trigger] self.zero_aux@[j] + 8 <= aux@.len(),
                aux@ == cleared(old(aux)@, self.zero_aux@.take(k as int)),
            decreases self.zero_aux@.len() - k,
        {
            let off: usize = self.zero_aux[k];
            let ghost before = aux@;
            put_zeros(aux, off, 8);
            proof {
                let done = self.zero_aux@.take(k as int);
                let next = self.zero_aux@.take(k + 1);
                assert(next =~= done.push(off));
                assert forall|i: int| 0 <= i < aux@.len() implies #[trigger] aux@[i] == cleared(
                    old(aux)@,
                    next,
                )[i] by {
                    if off <= i < off + 8 {
                        assert(next[k as int] <= i < next[k as int] + 8);
                    } else {
                        assert(aux@[i] == before[i]);
                        if exists|j: int|
                            0 <= j < done.len() && #[trigger] done[j] <= i < done[j] + 8 {
                            let j = choose|j: int|
                                0 <= j < done.len() && #[trigger] done[j] <= i < done[j] + 8;
                            assert(next[j] <= i < next[j] + 8);
                        } else if exists|j: int|
                            0 <= j < next.len() && #[trigger] next[j] <= i < next[j] + 8 {
                            let j = choose|j: int|
                                0 <= j < next.len() && #[trigger] next[j] <= i < next[j] + 8;
                            assert(done[j] <= i < done[j] + 8);
                        }
                    }
                }
                assert(aux@ =~= cleared(old(aux)@, next));
            }
            k = k + 1;
        }
        proof {
            assert(self.zero_aux@.take(k as int) =~= self.zero_aux@);
            assert(self.zero_aux@.len() == 0 ==> aux@ =~= cleared(old(aux)@, self.zero_aux@));
        }
    }
}

/// The word at `off`, or the error of a field outside its buffer.
pub open spec fn word(b: Seq<u8>, off: int) -> Result<u32, Error> {
    if off + 4 <= b.len() {
        Ok(le32(b, off))
    } else {
        Err(Error::OutsideField)
    }
}

/// The double word at `off`, or the error of a field outside its buffer.
pub open spec fn double(b: Seq<u8>, off: int) -> Result<u64, Error> {
    if off + 8 <= b.len() {
        Ok(le64(b, off))
    } else {
        Err(Error::OutsideField)
    }
}

fn need32(b: &[u8], off: usize) -> (r: Result<u32, Error>)
    ensures
        r == word(b@, off as int),
{
    match u32_at(b, off) {
        Some(v) => Ok(v),
        None => Err(Error::OutsideField),
    }
}

fn need64(b: &[u8], off: usize) -> (r: Result<u64, Error>)
    ensures
        r == double(b@, off as int),
{
    match u64_at(b, off) {
        Some(v) => Ok(v),
        None => Err(Error::OutsideField),
    }
}

/// A descriptor field of four or eight bytes.
#[derive(Clone, Copy, Debug, PartialEq, Eq, Structural)]
pub enum FdField {
    /// A 32-bit descriptor.
    Narrow(u32),
    /// A descriptor in a 64-bit field, which the driver cuts to 32 bits.
    Wide(u32),
}

impl FdField {
    pub open spec fn off(self) -> u32 {
        match self {
            FdField::Narrow(o) => o,
            FdField::Wide(o) => o,
        }
    }

    /// Whether the field holds a negative placeholder: no descriptor at all. A wide
    /// field is one only where its upper half repeats the sign.
    pub open spec fn negative(self, b: Seq<u8>) -> Result<bool, Error> {
        match self {
            FdField::Narrow(o) => match word(b, o as int) {
                Ok(v) => Ok(v >= 0x8000_0000),
                Err(e) => Err(e),
            },
            FdField::Wide(o) => match double(b, o as int) {
                Ok(v) => Ok(v >= 0xffff_ffff_8000_0000),
                Err(e) => Err(e),
            },
        }
    }
}

/// What is wrong with the metadata of a descriptor field, if anything is.
pub open spec fn fd_verdict(
    b: Seq<u8>,
    expected: Option<FdField>,
    off: Option<u32>,
    token: Option<u64>,
    owner: Option<u32>,
) -> Option<Error> {
    match expected {
        None => if off is None && token is None && owner is None {
            None
        } else {
            Some(Error::UnexpectedFd)
        },
        Some(f) => if off != Some(f.off()) {
            Some(Error::MisplacedFd)
        } else {
            match f.negative(b) {
                Err(e) => Some(e),
                Ok(negative) => if token is None && (!negative || owner is Some) {
                    Some(Error::UnresolvedFd)
                } else {
                    None
                },
            }
        },
    }
}

fn fd_field(
    b: &[u8],
    expected: Option<FdField>,
    off: Option<u32>,
    token: Option<u64>,
    owner: Option<u32>,
) -> (r: Option<Error>)
    ensures
        r == fd_verdict(b@, expected, off, token, owner),
{
    let f: FdField = match expected {
        None => {
            return if off.is_none() && token.is_none() && owner.is_none() {
                None
            } else {
                Some(Error::UnexpectedFd)
            };
        },
        Some(f) => f,
    };
    let at: u32 = match f {
        FdField::Narrow(o) => o,
        FdField::Wide(o) => o,
    };
    match off {
        Some(o) if o == at => {},
        _ => {
            return Some(Error::MisplacedFd);
        },
    }
    let negative: bool = match f {
        FdField::Narrow(o) => match need32(b, o as usize) {
            Ok(v) => v >= 0x8000_0000,
            Err(e) => {
                return Some(e);
            },
        },
        FdField::Wide(o) => match need64(b, o as usize) {
            Ok(v) => v >= 0xffff_ffff_8000_0000,
            Err(e) => {
                return Some(e);
            },
        },
    };
    if token.is_none() && (!negative || owner.is_some()) {
        Some(Error::UnresolvedFd)
    } else {
        None
    }
}

/// What is wrong with the size of the inline block, if anything is.
pub open spec fn envelope_verdict(
    layout: &Layout,
    dev: Dev,
    req: &Req,
    inline: Seq<u8>,
    aux: Seq<u8>,
) -> Option<Error> {
    if inline.len() != req.inline_len || aux.len() != req.aux_len {
        Some(Error::Lengths)
    } else if dev == Dev::UvmTools {
        Some(Error::UvmTools)
    } else if dev == Dev::Uvm {
        match layout.uvm_size {
            None => Some(Error::UnknownUvm),
            Some(size) => if req.inline_len != size {
                Some(Error::UvmSize)
            } else {
                None
            },
        }
    } else if req.inline_len >= 0x4000 {
        Some(Error::TooLarge)
    } else {
        match layout.frontend_accepts {
            None => Some(Error::UnknownFrontend),
            Some(accepted) => if !accepted {
                Some(Error::FrontendSize)
            } else {
                None
            },
        }
    }
}

fn envelope(layout: &Layout, dev: Dev, req: &Req, inline: &[u8], aux: &[u8]) -> (r: Option<Error>)
    ensures
        r == envelope_verdict(layout, dev, req, inline@, aux@),
{
    if inline.len() as u64 != req.inline_len as u64 || aux.len() as u64 != req.aux_len as u64 {
        return Some(Error::Lengths);
    }
    if dev == Dev::UvmTools {
        return Some(Error::UvmTools);
    }
    if dev == Dev::Uvm {
        match layout.uvm_size {
            None => Some(Error::UnknownUvm),
            Some(size) => if req.inline_len != size {
                Some(Error::UvmSize)
            } else {
                None
            },
        }
    } else if req.inline_len >= 0x4000 {
        Some(Error::TooLarge)
    } else {
        match layout.frontend_accepts {
            None => Some(Error::UnknownFrontend),
            Some(accepted) => if !accepted {
                Some(Error::FrontendSize)
            } else {
                None
            },
        }
    }
}

/// A front-end request with this number.
pub open spec fn is_escape(dev: Dev, req: &Req, nr: u32) -> bool {
    !dev.uvm() && req.ioctl_nr == nr
}

/// What forbids a front-end request by the words of its inline block, if anything does.
pub open spec fn policy_verdict(
    abi: &Abi,
    layout: &Layout,
    dev: Dev,
    req: &Req,
    inline: Seq<u8>,
) -> Option<Error> {
    let e = abi.escapes;
    let alloc = is_escape(dev, req, e.rm_alloc);
    let control = is_escape(dev, req, e.rm_control);
    let heap = is_escape(dev, req, e.rm_vid_heap_control);
    let any_alloc = alloc || is_escape(dev, req, e.rm_alloc_object) || is_escape(
        dev,
        req,
        e.rm_alloc_memory,
    );
    let long_alloc = alloc && inline.len() == NVOS64_LEN;
    if any_alloc && word(inline, 12) is Err {
        Some(Error::OutsideField)
    } else if any_alloc && layout.class_blocked {
        Some(Error::CapabilityFd)
    } else if control && word(inline, 8) is Err {
        Some(Error::OutsideField)
    } else if control && layout.ctrl_blocked {
        Some(Error::BlockedControl)
    } else if control && word(inline, 12) is Err {
        Some(Error::OutsideField)
    } else if control && le32(inline, 12) & abi.nvos54_serialized != 0 {
        Some(Error::SerializedControl)
    } else if long_alloc && le32(inline, 36) & abi.nvos64_serialized != 0 {
        Some(Error::SerializedAlloc)
    } else if heap && word(inline, 8) is Err {
        Some(Error::OutsideField)
    } else if heap && (le32(inline, 8) == abi.heap.hw_alloc || le32(inline, 8)
        == abi.heap.alloc_os_descriptor) {
        Some(Error::HeapCallback)
    } else if long_alloc && le64(inline, 24) != 0 {
        Some(Error::Rights)
    } else if control && (double(inline, 16) is Err || (le64(inline, 16) != 0 && word(
        inline,
        24,
    ) is Err)) {
        Some(Error::OutsideField)
    } else {
        None
    }
}

fn policy(abi: &Abi, layout: &Layout, dev: Dev, req: &Req, inline: &[u8]) -> (r: Option<Error>)
    ensures
        r == policy_verdict(abi, layout, dev, req, inline@),
{
    let frontend: bool = !dev.is_uvm();
    let nr: u32 = req.ioctl_nr;
    let alloc: bool = frontend && nr == abi.escapes.rm_alloc;
    let control: bool = frontend && nr == abi.escapes.rm_control;
    let heap: bool = frontend && nr == abi.escapes.rm_vid_heap_control;
    let any_alloc: bool = alloc || (frontend && (nr == abi.escapes.rm_alloc_object || nr
        == abi.escapes.rm_alloc_memory));
    let long_alloc: bool = alloc && inline.len() == NVOS64_LEN;
    if any_alloc {
        if let Err(e) = need32(inline, 12) {
            return Some(e);
        }
        if layout.class_blocked {
            return Some(Error::CapabilityFd);
        }
    }
    if control {
        if let Err(e) = need32(inline, 8) {
            return Some(e);
        }
        if layout.ctrl_blocked {
            return Some(Error::BlockedControl);
        }
        match need32(inline, 12) {
            Err(e) => {
                return Some(e);
            },
            Ok(flags) => {
                if flags & abi.nvos54_serialized != 0 {
                    return Some(Error::SerializedControl);
                }
            },
        }
    }
    if long_alloc {
        if let Ok(flags) = need32(inline, 36) {
            if flags & abi.nvos64_serialized != 0 {
                return Some(Error::SerializedAlloc);
            }
        }
    }
    if heap {
        match need32(inline, 8) {
            Err(e) => {
                return Some(e);
            },
            Ok(function) => {
                if function == abi.heap.hw_alloc || function == abi.heap.alloc_os_descriptor {
                    return Some(Error::HeapCallback);
                }
            },
        }
    }
    if long_alloc {
        if let Ok(rights) = need64(inline, 24) {
            if rights != 0 {
                return Some(Error::Rights);
            }
        }
    }
    if control {
        match need64(inline, 16) {
            Err(e) => {
                return Some(e);
            },
            Ok(pointer) => {
                if pointer != 0 {
                    if let Err(e) = need32(inline, 24) {
                        return Some(e);
                    }
                }
            },
        }
    }
    None
}

/// How many bytes of the auxiliary buffer are parameters.
pub open spec fn params_verdict(layout: &Layout, req: &Req, aux: Seq<u8>) -> Result<usize, Error> {
    match layout.params {
        Params::Unknown => Err(Error::UnknownParams),
        Params::Behind(e) => if req.embedded_ptr_off != Some(e.ptr_off) || e.len > aux.len() {
            Err(Error::MissingEmbedded)
        } else {
            Ok(e.len as usize)
        },
        Params::Absent => if req.embedded_ptr_off is Some {
            Err(Error::UnexpectedEmbedded)
        } else {
            Ok(0)
        },
    }
}

fn params_len(layout: &Layout, req: &Req, aux: &[u8]) -> (r: Result<usize, Error>)
    ensures
        r == params_verdict(layout, req, aux@),
{
    match layout.params {
        Params::Unknown => Err(Error::UnknownParams),
        Params::Behind(e) => {
            let named: bool = match req.embedded_ptr_off {
                Some(off) => off == e.ptr_off,
                None => false,
            };
            if !named || e.len as u64 > aux.len() as u64 {
                Err(Error::MissingEmbedded)
            } else {
                Ok(e.len as usize)
            }
        },
        Params::Absent => if req.embedded_ptr_off.is_some() {
            Err(Error::UnexpectedEmbedded)
        } else {
            Ok(0)
        },
    }
}

/// What is wrong with the page runs behind the parameters, if anything is.
pub open spec fn runs_verdict(
    abi: &Abi,
    dev: Dev,
    req: &Req,
    inline: Seq<u8>,
    aux: Seq<u8>,
    params_len: int,
) -> Option<Error> {
    let alloc = is_escape(dev, req, abi.escapes.rm_alloc);
    let memory = is_escape(dev, req, abi.escapes.rm_alloc_memory);
    let osdesc = (alloc || memory) && le32(inline, 12) == CLASS_OS_DESCRIPTOR;
    if (alloc || memory) && word(inline, 12) is Err {
        Some(Error::OutsideField)
    } else if req.gpa_run_count != 0 {
        if !osdesc || (alloc && inline.len() != NVOS64_LEN) {
            Some(Error::RunsWithoutOsdesc)
        } else if params_len + 16 * req.gpa_run_count != aux.len() {
            Some(Error::RunBytes)
        } else {
            None
        }
    } else if osdesc {
        Some(Error::OsdescWithoutRuns)
    } else if params_len == 0 && aux.len() != 0 {
        Some(Error::AuxWithoutTarget)
    } else {
        None
    }
}

fn runs(
    abi: &Abi,
    dev: Dev,
    req: &Req,
    inline: &[u8],
    aux: &[u8],
    params_len: usize,
) -> (r: Option<Error>)
    requires
        params_len <= aux@.len(),
        aux@.len() <= u32::MAX,
    ensures
        r == runs_verdict(abi, dev, req, inline@, aux@, params_len as int),
{
    let frontend: bool = !dev.is_uvm();
    let alloc: bool = frontend && req.ioctl_nr == abi.escapes.rm_alloc;
    let memory: bool = frontend && req.ioctl_nr == abi.escapes.rm_alloc_memory;
    let osdesc: bool = if alloc || memory {
        match need32(inline, 12) {
            Err(e) => {
                return Some(e);
            },
            Ok(class) => class == CLASS_OS_DESCRIPTOR,
        }
    } else {
        false
    };
    if req.gpa_run_count != 0 {
        if !osdesc || (alloc && inline.len() != NVOS64_LEN) {
            return Some(Error::RunsWithoutOsdesc);
        }
        if params_len as u64 + 16 * req.gpa_run_count as u64 != aux.len() as u64 {
            return Some(Error::RunBytes);
        }
        None
    } else if osdesc {
        Some(Error::OsdescWithoutRuns)
    } else if params_len == 0 && aux.len() != 0 {
        Some(Error::AuxWithoutTarget)
    } else {
        None
    }
}

/// The descriptor field that the parameters carry.
pub open spec fn params_fd(
    abi: &Abi,
    layout: &Layout,
    dev: Dev,
    req: &Req,
    params: Seq<u8>,
) -> Result<Option<FdField>, Error> {
    if params.len() == 0 {
        Ok(None)
    } else if is_escape(dev, req, abi.escapes.rm_alloc) {
        let field = match layout.alloc_fd {
            Some(off) => Some(FdField::Wide(off)),
            None => None,
        };
        match layout.alloc_fd_guard {
            None => Ok(field),
            Some((off, value)) => match word(params, off as int) {
                Err(e) => Err(e),
                Ok(w) => if w == value {
                    Ok(field)
                } else {
                    Ok(None)
                },
            },
        }
    } else if is_escape(dev, req, abi.escapes.rm_control) {
        match layout.ctrl_fd {
            Some(off) => Ok(Some(FdField::Narrow(off))),
            None => Ok(None),
        }
    } else {
        Ok(None)
    }
}

fn find_params_fd(abi: &Abi, layout: &Layout, dev: Dev, req: &Req, params: &[u8]) -> (r: Result<
    Option<FdField>,
    Error,
>)
    ensures
        r == params_fd(abi, layout, dev, req, params@),
{
    let frontend: bool = !dev.is_uvm();
    if params.len() == 0 {
        return Ok(None);
    }
    if frontend && req.ioctl_nr == abi.escapes.rm_alloc {
        let enabled: bool = match layout.alloc_fd_guard {
            None => true,
            Some((off, value)) => match need32(params, off as usize) {
                Err(e) => {
                    return Err(e);
                },
                Ok(w) => w == value,
            },
        };
        match layout.alloc_fd {
            Some(off) if enabled => Ok(Some(FdField::Wide(off))),
            _ => Ok(None),
        }
    } else if frontend && req.ioctl_nr == abi.escapes.rm_control {
        match layout.ctrl_fd {
            Some(off) => Ok(Some(FdField::Narrow(off))),
            None => Ok(None),
        }
    } else {
        Ok(None)
    }
}

/// The part of the auxiliary buffer that a descriptor stands for.
pub open spec fn range_of(d: NestedDesc) -> (int, int) {
    (d.aux_off as int, d.aux_off + d.len)
}

/// Two ranges share a byte (or one is empty inside the other).
pub open spec fn overlap(a: (int, int), b: (int, int)) -> bool {
    a.0 < b.1 && b.0 < a.1
}

/// The state of the walk over the pointers inside the parameters: how many
/// descriptors are used up, and which pointers stand for no bytes.
pub struct Walk {
    pub used: nat,
    pub zero: Seq<usize>,
}

/// The walk over the first `n` pointers: each one that is not null and not empty
/// takes the next descriptor, which must match it, lie behind the parameters and
/// inside the auxiliary buffer, and overlap no earlier one.
pub open spec fn nested_walk(
    specs: Seq<NestedSpec>,
    n: nat,
    descs: Seq<NestedDesc>,
    count: nat,
    aux: Seq<u8>,
    params_len: int,
) -> Result<Walk, Error>
    decreases n,
{
    if n == 0 {
        Ok(Walk { used: 0, zero: Seq::empty() })
    } else {
        let s = specs[n - 1];
        let params = aux.take(params_len);
        match nested_walk(specs, (n - 1) as nat, descs, count, aux, params_len) {
            Err(e) => Err(e),
            Ok(w) => match double(params, s.ptr_off as int) {
                Err(e) => Err(e),
                Ok(pointer) => match s.len {
                    None => Err(Error::NestedLength),
                    Some(len) => if pointer == 0 || len == 0 {
                        Ok(
                            Walk {
                                used: w.used,
                                zero: if pointer != 0 {
                                    w.zero.push(s.ptr_off as usize)
                                } else {
                                    w.zero
                                },
                            },
                        )
                    } else if w.used >= count {
                        Err(Error::NestedMissing)
                    } else if descs[w.used as int].ptr_off != s.ptr_off || descs[w.used as int].len
                        < len {
                        Err(Error::NestedDiffers)
                    } else if descs[w.used as int].aux_off < params_len || descs[w.used as int].aux_off
                        + descs[w.used as int].len > aux.len() || (exists|k: int|
                        0 <= k < w.used && overlap(
                            range_of(#[trigger] descs[k]),
                            range_of(descs[w.used as int]),
                        )) {
                        Err(Error::NestedOverlap)
                    } else {
                        Ok(Walk { used: w.used + 1, zero: w.zero })
                    },
                },
            },
        }
    }
}

/// What the pointers inside the parameters come to: the ones to clear, or an error.
pub open spec fn nested_verdict(
    abi: &Abi,
    layout: &Layout,
    dev: Dev,
    req: &Req,
    aux: Seq<u8>,
    params_len: int,
) -> Result<Seq<usize>, Error> {
    let specs = if is_escape(dev, req, abi.escapes.rm_control) && params_len != 0 {
        layout.nested@
    } else {
        Seq::empty()
    };
    if req.nested_count > req.nested@.len() {
        Err(Error::NestedCount)
    } else {
        match nested_walk(
            specs,
            specs.len(),
            req.nested@,
            req.nested_count as nat,
            aux,
            params_len,
        ) {
            Err(e) => Err(e),
            Ok(w) => if w.used != req.nested_count {
                Err(Error::NestedUnexpected)
            } else {
                Ok(w.zero)
            },
        }
    }
}

proof fn lemma_walk_error(
    specs: Seq<NestedSpec>,
    n: nat,
    m: nat,
    descs: Seq<NestedDesc>,
    count: nat,
    aux: Seq<u8>,
    params_len: int,
)
    requires
        n <= m,
        nested_walk(specs, n, descs, count, aux, params_len) is Err,
    ensures
        nested_walk(specs, m, descs, count, aux, params_len) == nested_walk(
            specs,
            n,
            descs,
            count,
            aux,
            params_len,
        ),
    decreases m,
{
    if n < m {
        lemma_walk_error(specs, n, (m - 1) as nat, descs, count, aux, params_len);
    }
}

fn nested(abi: &Abi, layout: &Layout, dev: Dev, req: &Req, aux: &[u8], params_len: usize) -> (r:
    Result<Vec<usize>, Error>)
    requires
        params_len <= aux@.len(),
    ensures
        match (r, nested_verdict(abi, layout, dev, req, aux@, params_len as int)) {
            (Ok(zero), Ok(want)) => zero@ == want && forall|k: int|
                0 <= k < zero@.len() ==> #[trigger] zero@[k] + 8 <= aux@.len(),
            (Err(e), Err(want)) => e == want,
            _ => false,
        },
{
    if req.nested_count as u64 > req.nested.len() as u64 {
        return Err(Error::NestedCount);
    }
    let count: usize = req.nested_count as usize;
    let walk: bool = !dev.is_uvm() && req.ioctl_nr == abi.escapes.rm_control && params_len != 0;
    let n: usize = if walk {
        layout.nested.len()
    } else {
        0
    };
    let ghost specs = if walk {
        layout.nested@
    } else {
        Seq::empty()
    };
    let ghost params = aux@.take(params_len as int);
    let params_slice: &[u8] = vstd::slice::slice_subrange(aux, 0, params_len);
    assert(params_slice@ =~= params);
    let mut zero: Vec<usize> = Vec::new();
    let mut used: usize = 0;
    let mut i: usize = 0;
    while i < n
        invariant
            i <= n,
            n == specs.len(),
            n > 0 ==> specs == layout.nested@,
            params_len <= aux@.len(),
            params == aux@.take(params_len as int),
            params_slice@ == params,
            count == req.nested_count,
            used <= count <= req.nested@.len(),
            nested_walk(specs, i as nat, req.nested@, count as nat, aux@, params_len as int) == Ok::<
                Walk,
                Error,
            >(Walk { used: used as nat, zero: zero@ }),
            forall|k: int| 0 <= k < zero@.len() ==> #[trigger] zero@[k] + 8 <= aux@.len(),
            nested_verdict(abi, layout, dev, req, aux@, params_len as int) == (match nested_walk(
                specs,
                specs.len(),
                req.nested@,
                count as nat,
                aux@,
                params_len as int,
            ) {
                Err(e) => Err(e),
                Ok(w) => if w.used != req.nested_count {
                    Err(Error::NestedUnexpected)
                } else {
                    Ok(w.zero)
                },
            }),
        decreases n - i,
    {
        let s: NestedSpec = layout.nested[i];
        proof {
            if nested_walk(specs, (i + 1) as nat, req.nested@, count as nat, aux@, params_len as int) is Err {
                lemma_walk_error(
                    specs,
                    (i + 1) as nat,
                    specs.len(),
                    req.nested@,
                    count as nat,
                    aux@,
                    params_len as int,
                );
            }
        }
        let pointer: u64 = match need64(params_slice, s.ptr_off as usize) {
            Err(e) => {
                return Err(e);
            },
            Ok(p) => p,
        };
        let len: u32 = match s.len {
            None => {
                return Err(Error::NestedLength);
            },
            Some(len) => len,
        };
        if pointer == 0 || len == 0 {
            if pointer != 0 {
                zero.push(s.ptr_off as usize);
            }
        } else {
            if used >= count {
                return Err(Error::NestedMissing);
            }
            let d: NestedDesc = req.nested[used];
            if d.ptr_off != s.ptr_off || d.len < len {
                return Err(Error::NestedDiffers);
            }
            let start: u64 = d.aux_off as u64;
            let end: u64 = start + d.len as u64;
            if start < params_len as u64 || end > aux.len() as u64 {
                return Err(Error::NestedOverlap);
            }
            let mut k: usize = 0;
            while k < used
                invariant
                    k <= used <= req.nested@.len(),
                    d == req.nested@[used as int],
                    start == d.aux_off,
                    end == d.aux_off + d.len,
                    forall|j: int|
                        0 <= j < k ==> !overlap(range_of(#[trigger] req.nested@[j]), range_of(d)),
                    used < count,
                    !(d.ptr_off != s.ptr_off || d.len < len),
                    nested_walk(
                        specs,
                        (i + 1) as nat,
                        req.nested@,
                        count as nat,
                        aux@,
                        params_len as int,
                    ) == (if exists|k: int|
                        0 <= k < used && overlap(range_of(#[trigger] req.nested@[k]), range_of(d)) {
                        Err::<Walk, Error>(Error::NestedOverlap)
                    } else {
                        Ok(Walk { used: (used + 1) as nat, zero: zero@ })
                    }),
                    nested_walk(
                        specs,
                        (i + 1) as nat,
                        req.nested@,
                        count as nat,
                        aux@,
                        params_len as int,
                    ) is Err ==> nested_verdict(abi, layout, dev, req, aux@, params_len as int)
                        == Err::<Seq<usize>, Error>(Error::NestedOverlap),
                decreases used - k,
            {
                let o: NestedDesc = req.nested[k];
                if (o.aux_off as u64) < end && start < o.aux_off as u64 + o.len as u64 {
                    assert(overlap(range_of(req.nested@[k as int]), range_of(d)));
                    return Err(Error::NestedOverlap);
                }
                k = k + 1;
            }
            used = used + 1;
        }
        i = i + 1;
    }
    if used != count {
        return Err(Error::NestedUnexpected);
    }
    Ok(zero)
}

/// What a request comes to: the pointers to clear in the inline block and in the
/// auxiliary buffer, or the first reason to refuse it.
pub open spec fn verdict(
    abi: &Abi,
    layout: &Layout,
    dev: Dev,
    req: &Req,
    inline: Seq<u8>,
    aux: Seq<u8>,
) -> Result<(Option<usize>, Seq<usize>), Error> {
    let inline_fd = match layout.fd_off {
        Some(off) => Some(FdField::Narrow(off)),
        None => None,
    };
    match envelope_verdict(layout, dev, req, inline, aux) {
        Some(e) => Err(e),
        None => match fd_verdict(
            inline,
            inline_fd,
            req.fd_field_off,
            req.fd_field_token,
            req.fd_field_proc,
        ) {
            Some(e) => Err(e),
            None => match policy_verdict(abi, layout, dev, req, inline) {
                Some(e) => Err(e),
                None => match params_verdict(layout, req, aux) {
                    Err(e) => Err(e),
                    Ok(n) => match runs_verdict(abi, dev, req, inline, aux, n as int) {
                        Some(e) => Err(e),
                        None => match params_fd(abi, layout, dev, req, aux.take(n as int)) {
                            Err(e) => Err(e),
                            Ok(field) => match fd_verdict(
                                aux.take(n as int),
                                field,
                                req.aux_fd_field_off,
                                req.aux_fd_field_token,
                                req.aux_fd_field_proc,
                            ) {
                                Some(e) => Err(e),
                                None => match nested_verdict(
                                    abi,
                                    layout,
                                    dev,
                                    req,
                                    aux,
                                    n as int,
                                ) {
                                    Err(e) => Err(e),
                                    Ok(zero) => Ok(
                                        (
                                            if is_escape(dev, req, abi.escapes.rm_control)
                                                && le64(inline, 16) != 0 && le32(inline, 24) == 0 {
                                                Some(16usize)
                                            } else {
                                                None
                                            },
                                            zero,
                                        ),
                                    ),
                                },
                            },
                        },
                    },
                },
            },
        },
    }
}

/// Holds a request against the host's descriptors. The answer names the pointers
/// that stand for no bytes, or the first reason to refuse the request.
pub fn validate(abi: &Abi, layout: &Layout, dev: Dev, req: &Req, inline: &[u8], aux: &[u8]) -> (r:
    Result<Shape, Error>)
    ensures
        match (r, verdict(abi, layout, dev, req, inline@, aux@)) {
            (Ok(shape), Ok(want)) => {
                &&& shape.zero_inline == want.0
                &&& shape.zero_aux@ == want.1
                &&& shape.fits(inline@, aux@)
            },
            (Err(e), Err(want)) => e == want,
            _ => false,
        },
{
    if let Some(e) = envelope(layout, dev, req, inline, aux) {
        return Err(e);
    }
    let inline_fd: Option<FdField> = match layout.fd_off {
        Some(off) => Some(FdField::Narrow(off)),
        None => None,
    };
    if let Some(e) = fd_field(
        inline,
        inline_fd,
        req.fd_field_off,
        req.fd_field_token,
        req.fd_field_proc,
    ) {
        return Err(e);
    }
    if let Some(e) = policy(abi, layout, dev, req, inline) {
        return Err(e);
    }
    let zero_inline: Option<usize> = if !dev.is_uvm() && req.ioctl_nr == abi.escapes.rm_control {
        match (u64_at(inline, 16), u32_at(inline, 24)) {
            (Some(pointer), Some(size)) => if pointer != 0 && size == 0 {
                Some(16)
            } else {
                None
            },
            _ => None,
        }
    } else {
        None
    };
    let n: usize = match params_len(layout, req, aux) {
        Err(e) => {
            return Err(e);
        },
        Ok(n) => n,
    };
    if let Some(e) = runs(abi, dev, req, inline, aux, n) {
        return Err(e);
    }
    let params: &[u8] = vstd::slice::slice_subrange(aux, 0, n);
    assert(params@ =~= aux@.take(n as int));
    let field: Option<FdField> = match find_params_fd(abi, layout, dev, req, params) {
        Err(e) => {
            return Err(e);
        },
        Ok(f) => f,
    };
    if let Some(e) = fd_field(
        params,
        field,
        req.aux_fd_field_off,
        req.aux_fd_field_token,
        req.aux_fd_field_proc,
    ) {
        return Err(e);
    }
    match nested(abi, layout, dev, req, aux, n) {
        Err(e) => Err(e),
        Ok(zero_aux) => Ok(Shape { zero_inline, zero_aux }),
    }
}

proof fn lemma_walk_ranges(
    specs: Seq<NestedSpec>,
    n: nat,
    descs: Seq<NestedDesc>,
    count: nat,
    aux: Seq<u8>,
    params_len: int,
)
    requires
        n <= specs.len(),
        nested_walk(specs, n, descs, count, aux, params_len) is Ok,
    ensures
        ({
            let used = nested_walk(specs, n, descs, count, aux, params_len)->Ok_0.used;
            &&& used <= count
            &&& forall|k: int|
                0 <= k < used ==> {
                    &&& params_len <= #[trigger] descs[k].aux_off
                    &&& descs[k].aux_off + descs[k].len <= aux.len()
                }
            &&& forall|j: int, k: int|
                0 <= j < k < used ==> !overlap(
                    range_of(#[trigger] descs[j]),
                    range_of(#[trigger] descs[k]),
                )
        }),
    decreases n,
{
    if n > 0 {
        lemma_walk_ranges(specs, (n - 1) as nat, descs, count, aux, params_len);
    }
}

proof fn lemma_walk_pointers(
    specs: Seq<NestedSpec>,
    n: nat,
    descs: Seq<NestedDesc>,
    count: nat,
    aux: Seq<u8>,
    params_len: int,
)
    requires
        n <= specs.len(),
        0 <= params_len <= aux.len(),
        nested_walk(specs, n, descs, count, aux, params_len) is Ok,
    ensures
        ({
            let used = nested_walk(specs, n, descs, count, aux, params_len)->Ok_0.used;
            &&& n == 0 ==> used == 0
            &&& forall|k: int| 0 <= k < used ==> (#[trigger] descs[k]).ptr_off + 8 <= params_len
        }),
    decreases n,
{
    if n > 0 {
        lemma_walk_pointers(specs, (n - 1) as nat, descs, count, aux, params_len);
    }
}

/// Every field that an accepted request has translated lies inside its buffer, and page runs
/// come only with an allocation of a descriptor of system pages.
pub proof fn law_accepted_fields_lie_inside(
    abi: &Abi,
    layout: &Layout,
    dev: Dev,
    req: &Req,
    inline: Seq<u8>,
    aux: Seq<u8>,
)
    requires
        verdict(abi, layout, dev, req, inline, aux) is Ok,
    ensures
        inline.len() == req.inline_len,
        aux.len() == req.aux_len,
        !dev.uvm() ==> inline.len() < 0x4000,
        req.fd_field_off matches Some(off) ==> off + 4 <= inline.len(),
        is_escape(dev, req, abi.escapes.rm_control) ==> inline.len() >= 24,
        req.nested_count <= req.nested@.len(),
        req.nested_count > 0 ==> is_escape(dev, req, abi.escapes.rm_control),
        forall|k: int|
            0 <= k < req.nested_count ==> {
                let d = #[trigger] req.nested@[k];
                d.ptr_off + 8 <= aux.len() && d.aux_off + d.len <= aux.len()
            },
        req.gpa_run_count != 0 ==> {
            &&& is_escape(dev, req, abi.escapes.rm_alloc) || is_escape(
                dev,
                req,
                abi.escapes.rm_alloc_memory,
            )
            &&& inline.len() >= 16
            &&& is_escape(dev, req, abi.escapes.rm_alloc) ==> inline.len() == NVOS64_LEN
        },
{
    law_nested_buffers_are_disjoint_and_inside(abi, layout, dev, req, inline, aux);
    let n = params_verdict(layout, req, aux)->Ok_0 as int;
    let specs = if is_escape(dev, req, abi.escapes.rm_control) && n != 0 {
        layout.nested@
    } else {
        Seq::empty()
    };
    lemma_walk_pointers(specs, specs.len(), req.nested@, req.nested_count as nat, aux, n);
}

/// The buffers that an accepted request lets the driver reach through its nested
/// pointers lie inside the auxiliary buffer, behind the parameters, and apart
/// from each other.
pub proof fn law_nested_buffers_are_disjoint_and_inside(
    abi: &Abi,
    layout: &Layout,
    dev: Dev,
    req: &Req,
    inline: Seq<u8>,
    aux: Seq<u8>,
)
    requires
        verdict(abi, layout, dev, req, inline, aux) is Ok,
    ensures
        params_verdict(layout, req, aux) matches Ok(n) && {
            &&& forall|k: int|
                0 <= k < req.nested_count ==> {
                    &&& n <= #[trigger] req.nested@[k].aux_off
                    &&& req.nested@[k].aux_off + req.nested@[k].len <= aux.len()
                }
            &&& forall|j: int, k: int|
                0 <= j < k < req.nested_count ==> !overlap(
                    range_of(#[trigger] req.nested@[j]),
                    range_of(#[trigger] req.nested@[k]),
                )
        },
{
    let n = params_verdict(layout, req, aux)->Ok_0 as int;
    let specs = if is_escape(dev, req, abi.escapes.rm_control) && n != 0 {
        layout.nested@
    } else {
        Seq::empty()
    };
    lemma_walk_ranges(specs, specs.len(), req.nested@, req.nested_count as nat, aux, n);
}

/// An accepted request never lets the driver read parameters past the end of
/// what the guest sent, and names the pointer where the driver expects it.
pub proof fn law_parameters_are_backed(
    abi: &Abi,
    layout: &Layout,
    dev: Dev,
    req: &Req,
    inline: Seq<u8>,
    aux: Seq<u8>,
)
    requires
        verdict(abi, layout, dev, req, inline, aux) is Ok,
    ensures
        match layout.params {
            Params::Unknown => false,
            Params::Absent => req.embedded_ptr_off is None,
            Params::Behind(e) => req.embedded_ptr_off == Some(e.ptr_off) && e.len <= aux.len(),
        },
{
}

/// A control on the deny list, a serialized control and a capability class are
/// never accepted, whatever the metadata says.
pub proof fn law_denied_requests_are_never_accepted(
    abi: &Abi,
    layout: &Layout,
    dev: Dev,
    req: &Req,
    inline: Seq<u8>,
    aux: Seq<u8>,
)
    requires
        !dev.uvm(),
        ({
            ||| req.ioctl_nr == abi.escapes.rm_control && (layout.ctrl_blocked || le32(inline, 12)
                & abi.nvos54_serialized != 0)
            ||| (req.ioctl_nr == abi.escapes.rm_alloc || req.ioctl_nr
                == abi.escapes.rm_alloc_object || req.ioctl_nr == abi.escapes.rm_alloc_memory)
                && layout.class_blocked
        }),
    ensures
        verdict(abi, layout, dev, req, inline, aux) is Err,
{
}

/// A cleared buffer holds zeros where a pointer was, and everything else as it was.
pub proof fn law_a_cleared_pointer_is_zero(s: Seq<u8>, offs: Seq<usize>, i: int)
    requires
        0 <= i < s.len(),
    ensures
        cleared(s, offs).len() == s.len(),
        forall|k: int|
            0 <= k < offs.len() && #[trigger] offs[k] <= i < offs[k] + 8 ==> cleared(s, offs)[i]
                == 0,
        (forall|k: int| 0 <= k < offs.len() ==> !(#[trigger] offs[k] <= i < offs[k] + 8))
            ==> cleared(s, offs)[i] == s[i],
{
}

/// A descriptor field is accepted where the message tells of it exactly what the tables say:
/// nothing where there is none, else its place, with a token for every descriptor; a negative
/// one may do without, as long as no owner is named.
pub proof fn law_a_descriptor_needs_its_token(
    b: Seq<u8>,
    expected: Option<FdField>,
    off: Option<u32>,
    token: Option<u64>,
    owner: Option<u32>,
)
    ensures
        expected is None ==> (fd_verdict(b, expected, off, token, owner) is None <==> off is None
            && token is None && owner is None),
        expected matches Some(FdField::Narrow(o)) ==> (fd_verdict(b, expected, off, token, owner)
            is None <==> off == Some(o) && o + 4 <= b.len() && (token is Some || (owner is None
            && le32(b, o as int) / 0x8000_0000 == 1))),
        expected matches Some(FdField::Wide(o)) ==> (fd_verdict(b, expected, off, token, owner)
            is None <==> off == Some(o) && o + 8 <= b.len() && (token is Some || (owner is None
            && le64(b, o as int) >= 0xffff_ffff_8000_0000))),
{
}

/// A message is accepted at its outside where its lengths are those of its buffers and the
/// tables know the request by its size; the tools of UVM have no request.
pub proof fn law_an_envelope_has_the_size_of_its_request(
    layout: &Layout,
    dev: Dev,
    req: &Req,
    inline: Seq<u8>,
    aux: Seq<u8>,
)
    ensures
        envelope_verdict(layout, dev, req, inline, aux) is None <==> {
            &&& inline.len() == req.inline_len && aux.len() == req.aux_len
            &&& dev != Dev::UvmTools
            &&& dev == Dev::Uvm ==> layout.uvm_size == Some(req.inline_len)
            &&& dev != Dev::Uvm ==> req.inline_len < 0x4000 && layout.frontend_accepts == Some(true)
        },
{
}

/// The rules accept a request exactly where its class and control are not blocked, nothing in it
/// is serialized, the heap makes no callback, no rights are asked for, and the words that say so
/// are there.
#[verifier::rlimit(50)]
pub proof fn law_the_rules_accept_what_they_do_not_deny(
    abi: &Abi,
    layout: &Layout,
    dev: Dev,
    req: &Req,
    inline: Seq<u8>,
)
    ensures
        ({
            let e = abi.escapes;
            let front = !dev.uvm();
            let nr = req.ioctl_nr;
            let any_alloc = front && (nr == e.rm_alloc || nr == e.rm_alloc_object || nr
                == e.rm_alloc_memory);
            let long_alloc = front && nr == e.rm_alloc && inline.len() == 48;
            let control = front && nr == e.rm_control;
            let heap = front && nr == e.rm_vid_heap_control;
            policy_verdict(abi, layout, dev, req, inline) is None <==> {
                &&& any_alloc ==> inline.len() >= 16 && !layout.class_blocked
                &&& control ==> inline.len() >= 24 && !layout.ctrl_blocked && le32(inline, 12)
                    & abi.nvos54_serialized == 0 && (le64(inline, 16) == 0 || inline.len() >= 28)
                &&& long_alloc ==> le32(inline, 36) & abi.nvos64_serialized == 0 && le64(inline, 24)
                    == 0
                &&& heap ==> inline.len() >= 12 && le32(inline, 8) != abi.heap.hw_alloc && le32(
                    inline,
                    8,
                ) != abi.heap.alloc_os_descriptor
            }
        }),
{
}

/// Pages come exactly with an allocation of class 0x71 that describes them, in its long form
/// where it has two, and fill what the parameters leave of the buffer; a buffer without
/// parameters has no other use.
pub proof fn law_pages_come_with_the_class_that_describes_them(
    abi: &Abi,
    dev: Dev,
    req: &Req,
    inline: Seq<u8>,
    aux: Seq<u8>,
    n: int,
)
    ensures
        ({
            let front = !dev.uvm();
            let alloc = front && req.ioctl_nr == abi.escapes.rm_alloc;
            let memory = front && req.ioctl_nr == abi.escapes.rm_alloc_memory;
            let pages = (alloc || memory) && le32(inline, 12) == 0x71;
            runs_verdict(abi, dev, req, inline, aux, n) is None <==> {
                &&& alloc || memory ==> inline.len() >= 16
                &&& pages <==> req.gpa_run_count > 0
                &&& req.gpa_run_count > 0 && alloc ==> inline.len() == 48
                &&& req.gpa_run_count > 0 ==> n + 16 * req.gpa_run_count == aux.len()
                &&& req.gpa_run_count == 0 && n == 0 ==> aux.len() == 0
            }
        }),
{
}

/// A request is accepted exactly where each of its parts is, and the pointer to its parameters is
/// cleared exactly where a control call has one that stands for no bytes.
#[verifier::rlimit(50)]
pub proof fn law_a_request_is_accepted_part_by_part(
    abi: &Abi,
    layout: &Layout,
    dev: Dev,
    req: &Req,
    inline: Seq<u8>,
    aux: Seq<u8>,
)
    ensures
        ({
            let inline_fd = match layout.fd_off {
                Some(off) => Some(FdField::Narrow(off)),
                None => None,
            };
            let outside = envelope_verdict(layout, dev, req, inline, aux) is None && fd_verdict(
                inline,
                inline_fd,
                req.fd_field_off,
                req.fd_field_token,
                req.fd_field_proc,
            ) is None && policy_verdict(abi, layout, dev, req, inline) is None;
            let inside = match params_verdict(layout, req, aux) {
                Ok(n) => runs_verdict(abi, dev, req, inline, aux, n as int) is None && match params_fd(
                    abi,
                    layout,
                    dev,
                    req,
                    aux.take(n as int),
                ) {
                    Ok(field) => fd_verdict(
                        aux.take(n as int),
                        field,
                        req.aux_fd_field_off,
                        req.aux_fd_field_token,
                        req.aux_fd_field_proc,
                    ) is None && nested_verdict(abi, layout, dev, req, aux, n as int) is Ok,
                    Err(_) => false,
                },
                Err(_) => false,
            };
            let control = !dev.uvm() && req.ioctl_nr == abi.escapes.rm_control;
            match verdict(abi, layout, dev, req, inline, aux) {
                Ok((zero, zeros)) => {
                    &&& outside && inside
                    &&& zero == (if control && le64(inline, 16) != 0 && le32(inline, 24) == 0 {
                        Some(16usize)
                    } else {
                        None
                    })
                    &&& nested_verdict(
                        abi,
                        layout,
                        dev,
                        req,
                        aux,
                        params_verdict(layout, req, aux)->Ok_0 as int,
                    ) == Ok::<Seq<usize>, Error>(zeros)
                },
                Err(_) => !outside || !inside,
            }
        }),
{
}

/// Every pointer of the layout that leads to some bytes has a descriptor of its own with at least
/// that many, one that stands for none is cleared, and no other pointer is.
#[verifier::rlimit(50)]
pub proof fn law_every_pointer_is_backed_or_cleared(
    specs: Seq<NestedSpec>,
    n: nat,
    descs: Seq<NestedDesc>,
    count: nat,
    aux: Seq<u8>,
    params_len: int,
    i: int,
)
    requires
        n <= specs.len(),
        0 <= params_len <= aux.len(),
        nested_walk(specs, n, descs, count, aux, params_len) is Ok,
        0 <= i < n,
    ensures
        ({
            let w = nested_walk(specs, n, descs, count, aux, params_len)->Ok_0;
            let s = specs[i];
            let pointer = le64(aux.take(params_len), s.ptr_off as int);
            &&& w.used <= count
            &&& s.ptr_off + 8 <= params_len
            &&& s.len matches Some(len) && {
                &&& pointer != 0 && len > 0 ==> exists|k: int|
                    0 <= k < w.used && (#[trigger] descs[k]).ptr_off == s.ptr_off && descs[k].len
                        >= len
                &&& pointer != 0 && len == 0 ==> w.zero.contains(s.ptr_off as usize)
            }
        }),
    decreases n,
{
    let before = nested_walk(specs, (n - 1) as nat, descs, count, aux, params_len);
    let b = before->Ok_0;
    let w = nested_walk(specs, n, descs, count, aux, params_len)->Ok_0;
    let last = specs[n - 1];
    lemma_walk_grows(specs, n, descs, count, aux, params_len);
    if i < n - 1 {
        law_every_pointer_is_backed_or_cleared(
            specs,
            (n - 1) as nat,
            descs,
            count,
            aux,
            params_len,
            i,
        );
        let s = specs[i];
        if b.zero.contains(s.ptr_off as usize) {
            let j = b.zero.index_of(s.ptr_off as usize);
            assert(w.zero[j] == s.ptr_off as usize);
        }
    } else {
        if w.zero.len() > b.zero.len() {
            assert(w.zero[b.zero.len() as int] == last.ptr_off as usize);
        }
        if w.used > b.used {
            assert(descs[b.used as int].ptr_off == last.ptr_off);
        }
    }
}

proof fn lemma_walk_grows(
    specs: Seq<NestedSpec>,
    n: nat,
    descs: Seq<NestedDesc>,
    count: nat,
    aux: Seq<u8>,
    params_len: int,
)
    requires
        n <= specs.len(),
        nested_walk(specs, n, descs, count, aux, params_len) is Ok,
    ensures
        nested_walk(specs, n, descs, count, aux, params_len)->Ok_0.used <= count,
    decreases n,
{
    if n > 0 {
        lemma_walk_grows(specs, (n - 1) as nat, descs, count, aux, params_len);
    }
}

/// What is cleared in the parameters is the pointers of the layout that stand for no bytes.
pub proof fn law_only_empty_pointers_are_cleared(
    specs: Seq<NestedSpec>,
    n: nat,
    descs: Seq<NestedDesc>,
    count: nat,
    aux: Seq<u8>,
    params_len: int,
    z: usize,
)
    requires
        n <= specs.len(),
        nested_walk(specs, n, descs, count, aux, params_len) is Ok,
        nested_walk(specs, n, descs, count, aux, params_len)->Ok_0.zero.contains(z),
    ensures
        exists|i: int|
            0 <= i < n && (#[trigger] specs[i]).ptr_off as usize == z && specs[i].len == Some(0u32)
                && le64(aux.take(params_len), specs[i].ptr_off as int) != 0,
    decreases n,
{
    if n > 0 {
        let b = nested_walk(specs, (n - 1) as nat, descs, count, aux, params_len)->Ok_0;
        let w = nested_walk(specs, n, descs, count, aux, params_len)->Ok_0;
        if b.zero.contains(z) {
            law_only_empty_pointers_are_cleared(
                specs,
                (n - 1) as nat,
                descs,
                count,
                aux,
                params_len,
                z,
            );
        } else {
            let j = w.zero.index_of(z);
            assert(w.zero[j] == z);
            if j < b.zero.len() {
                assert(b.zero[j] == z);
            }
            assert(specs[n - 1].ptr_off as usize == z);
        }
    }
}

/// A refusal for what has no translation says that it is not supported, one for size or for a
/// blocked control says so, and every other says that the request is bad.
pub proof fn law_a_refusal_has_its_number(e: Error)
    ensures
        e.number() == 95 <==> (e is UvmTools || e is UnknownUvm || e is UnknownFrontend
            || e is CapabilityFd || e is SerializedControl || e is SerializedAlloc
            || e is HeapCallback || e is Rights || e is UnknownParams || e is OsdescWithoutRuns),
        e.number() == 90 <==> e is TooLarge,
        e.number() == 1 <==> e is BlockedControl,
        e.number() == 95 || e.number() == 90 || e.number() == 1 || e.number() == 22,
{
}

/// A denial names its reason: the class or the control that is blocked, what is serialized, the
/// callback of the heap, the rights that are asked for, or a word that is missing.
pub proof fn law_a_denial_names_its_reason(
    abi: &Abi,
    layout: &Layout,
    dev: Dev,
    req: &Req,
    inline: Seq<u8>,
)
    ensures
        ({
            let e = abi.escapes;
            let nr = req.ioctl_nr;
            match policy_verdict(abi, layout, dev, req, inline) {
                None => true,
                Some(Error::CapabilityFd) => layout.class_blocked && (nr == e.rm_alloc || nr
                    == e.rm_alloc_object || nr == e.rm_alloc_memory),
                Some(Error::BlockedControl) => layout.ctrl_blocked && nr == e.rm_control,
                Some(Error::SerializedControl) => nr == e.rm_control && le32(inline, 12)
                    & abi.nvos54_serialized != 0,
                Some(Error::SerializedAlloc) => nr == e.rm_alloc && inline.len() == 48 && le32(
                    inline,
                    36,
                ) & abi.nvos64_serialized != 0,
                Some(Error::HeapCallback) => nr == e.rm_vid_heap_control && (le32(inline, 8)
                    == abi.heap.hw_alloc || le32(inline, 8) == abi.heap.alloc_os_descriptor),
                Some(Error::Rights) => nr == e.rm_alloc && inline.len() == 48 && le64(inline, 24)
                    != 0,
                Some(Error::OutsideField) => inline.len() < 28,
                Some(_) => false,
            }
        }),
        policy_verdict(abi, layout, dev, req, inline) is Some ==> !dev.uvm(),
{
}

/// A pointer is accepted where it is null, stands for no bytes, or has the next descriptor: one
/// with its place, at least its length, behind the parameters, inside the buffer and apart from
/// the ones before.
pub proof fn law_a_backed_pointer_is_accepted(
    specs: Seq<NestedSpec>,
    n: nat,
    descs: Seq<NestedDesc>,
    count: nat,
    aux: Seq<u8>,
    params_len: int,
)
    requires
        0 < n <= specs.len(),
        0 <= params_len <= aux.len(),
        nested_walk(specs, (n - 1) as nat, descs, count, aux, params_len) is Ok,
        specs[n - 1].ptr_off + 8 <= params_len,
        specs[n - 1].len is Some,
    ensures
        ({
            let s = specs[n - 1];
            let len = s.len->Some_0;
            let b = nested_walk(specs, (n - 1) as nat, descs, count, aux, params_len)->Ok_0;
            let pointer = le64(aux.take(params_len), s.ptr_off as int);
            let d = descs[b.used as int];
            let apart = forall|k: int|
                0 <= k < b.used ==> (#[trigger] descs[k]).aux_off + descs[k].len <= d.aux_off
                    || d.aux_off + d.len <= descs[k].aux_off;
            &&& pointer == 0 ==> nested_walk(specs, n, descs, count, aux, params_len) == Ok::<
                Walk,
                Error,
            >(b)
            &&& pointer != 0 && len == 0 ==> (nested_walk(
                specs,
                n,
                descs,
                count,
                aux,
                params_len,
            ) matches Ok(w) && w.used == b.used && w.zero == b.zero.push(s.ptr_off as usize))
            &&& pointer != 0 && len > 0 && b.used < count && d.ptr_off == s.ptr_off && d.len >= len
                && d.aux_off >= params_len && d.aux_off + d.len <= aux.len() && apart ==> (
            nested_walk(specs, n, descs, count, aux, params_len) matches Ok(w) && w.used == b.used
                + 1 && w.zero == b.zero)
        }),
{
}

} // verus!
