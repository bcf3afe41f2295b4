//! A request on its way to the driver: what it carries, and why it may not go.

use crate::abi::{Abi, Dev, OsdescNumbers, NV_OK};
use crate::errno::{EBADF, EINVAL, EIO, ENOSPC, EPERM};
use crate::events::{EventReg, Waiter};
use crate::host_pool::{Arena, GpaRun};
use crate::request_shape::Error;
use crate::text::{dec, decimal, hex, hexadecimal, signed_dec, signed_decimal};
use crate::vram::Ask;
use vstd::prelude::*;
use vstd::string::*;

verus! {

/// Why a request is refused before the driver sees it.
#[derive(Clone, Copy, Debug, PartialEq, Eq, Structural)]
pub enum Refusal {
    Length { inline: u32, aux: u32, payload: usize },
    UnknownTag(u32),
    PrivateClient(u32),
    NeverForwarded(u32),
    Shape(Error),
    UnknownToken,
    TagDiffers,
    FdToken,
    FdOwner,
    RunsForm,
    RunsWithoutMemory,
    OsdescParams,
    RunsUnreadable,
    Limit,
    Arena,
    /// The node for pages of the guest did not open.
    GpuNode,
    /// That node was not registered with its control descriptor.
    RegisterFd(i32),
    AuxFdTable,
    AuxFdOffset,
    AuxFdToken,
    EventIds,
    Generations,
    EventCtl,
    WaiterCtl,
    /// What the call returned, and the driver's status where the call itself went well.
    OsEvent { ret: i32, status: u32 },
}

impl Refusal {
    /// The error number that the guest gets.
    pub open spec fn number(self) -> i32 {
        match self {
            Refusal::Length { .. }
            | Refusal::UnknownTag(_)
            | Refusal::TagDiffers
            | Refusal::RunsForm
            | Refusal::OsdescParams
            | Refusal::RunsUnreadable
            | Refusal::Limit
            | Refusal::AuxFdTable
            | Refusal::AuxFdOffset => EINVAL,
            Refusal::PrivateClient(_) | Refusal::NeverForwarded(_) => EPERM,
            Refusal::Shape(e) => e.number(),
            Refusal::UnknownToken
            | Refusal::FdToken
            | Refusal::FdOwner
            | Refusal::AuxFdToken => EBADF,
            Refusal::RunsWithoutMemory
            | Refusal::Arena
            | Refusal::GpuNode
            | Refusal::RegisterFd(_)
            | Refusal::EventCtl
            | Refusal::WaiterCtl
            | Refusal::OsEvent { .. } => EIO,
            Refusal::EventIds | Refusal::Generations => ENOSPC,
        }
    }

    /// The error number that the guest gets.
    pub fn errno(self) -> (n: i32)
        ensures
            n == self.number(),
            n > 0,
    {
        match self {
            Refusal::Length { .. }
            | Refusal::UnknownTag(_)
            | Refusal::TagDiffers
            | Refusal::RunsForm
            | Refusal::OsdescParams
            | Refusal::RunsUnreadable
            | Refusal::Limit
            | Refusal::AuxFdTable
            | Refusal::AuxFdOffset => EINVAL,
            Refusal::PrivateClient(_) | Refusal::NeverForwarded(_) => EPERM,
            Refusal::Shape(e) => e.errno(),
            Refusal::UnknownToken
            | Refusal::FdToken
            | Refusal::FdOwner
            | Refusal::AuxFdToken => EBADF,
            Refusal::RunsWithoutMemory
            | Refusal::Arena
            | Refusal::GpuNode
            | Refusal::RegisterFd(_)
            | Refusal::EventCtl
            | Refusal::WaiterCtl
            | Refusal::OsEvent { .. } => EIO,
            Refusal::EventIds | Refusal::Generations => ENOSPC,
        }
    }

    /// The reason in words, up to the first number in it.
    pub open spec fn phrase(self) -> &'static str {
        match self {
            Refusal::Length { .. } => "Length",
            Refusal::UnknownTag(_) => "dev_tag",
            Refusal::PrivateClient(_) => "backend-owned RM client",
            Refusal::NeverForwarded(_) => "control",
            Refusal::Shape(e) => e.words(),
            Refusal::UnknownToken => "unknown token",
            Refusal::TagDiffers => "device tag differs from opened token",
            Refusal::FdToken => "fd_field_token",
            Refusal::FdOwner => "fd_field_proc/token unresolved",
            Refusal::RunsForm => "gpa_run_count only for 0x71",
            Refusal::RunsWithoutMemory => "0x71 runs without guest RAM",
            Refusal::OsdescParams => "0x71 kernel form: params too short",
            Refusal::RunsUnreadable => "0x71: runs unreadable",
            Refusal::Limit => "0x71: limit == u64::MAX",
            Refusal::Arena => "0x71 arena failed",
            Refusal::GpuNode => "0x71 osdesc: open gpu",
            Refusal::RegisterFd(_) => "0x71 osdesc: REGISTER_FD returned",
            Refusal::AuxFdTable => "aux_fd_field_off vs table",
            Refusal::AuxFdOffset => "aux_fd_field_off",
            Refusal::AuxFdToken => "aux_fd_field_token",
            Refusal::EventIds => "OS-event id space exhausted",
            Refusal::Generations => "waiter generation space exhausted",
            Refusal::EventCtl => "event ctl",
            Refusal::WaiterCtl => "waiter ctl",
            Refusal::OsEvent { .. } => "ALLOC_OS_EVENT",
        }
    }

    fn stem(self) -> (s: &'static str)
        ensures
            s == self.phrase(),
    {
        match self {
            Refusal::Length { .. } => "Length",
            Refusal::UnknownTag(_) => "dev_tag",
            Refusal::PrivateClient(_) => "backend-owned RM client",
            Refusal::NeverForwarded(_) => "control",
            Refusal::Shape(e) => e.why(),
            Refusal::UnknownToken => "unknown token",
            Refusal::TagDiffers => "device tag differs from opened token",
            Refusal::FdToken => "fd_field_token",
            Refusal::FdOwner => "fd_field_proc/token unresolved",
            Refusal::RunsForm => "gpa_run_count only for 0x71",
            Refusal::RunsWithoutMemory => "0x71 runs without guest RAM",
            Refusal::OsdescParams => "0x71 kernel form: params too short",
            Refusal::RunsUnreadable => "0x71: runs unreadable",
            Refusal::Limit => "0x71: limit == u64::MAX",
            Refusal::Arena => "0x71 arena failed",
            Refusal::GpuNode => "0x71 osdesc: open gpu",
            Refusal::RegisterFd(_) => "0x71 osdesc: REGISTER_FD returned",
            Refusal::AuxFdTable => "aux_fd_field_off vs table",
            Refusal::AuxFdOffset => "aux_fd_field_off",
            Refusal::AuxFdToken => "aux_fd_field_token",
            Refusal::EventIds => "OS-event id space exhausted",
            Refusal::Generations => "waiter generation space exhausted",
            Refusal::EventCtl => "event ctl",
            Refusal::WaiterCtl => "waiter ctl",
            Refusal::OsEvent { .. } => "ALLOC_OS_EVENT",
        }
    }

    /// The reason in words.
    pub open spec fn words(self) -> Seq<char> {
        match self {
            Refusal::Length { inline, aux, payload } => self.phrase()@ + ": inline "@ + decimal(
                inline as nat,
            ) + " aux "@ + decimal(aux as nat) + " payload "@ + decimal(payload as nat),
            Refusal::UnknownTag(tag) => self.phrase()@ + " "@ + decimal(tag as nat) + " unknown"@,
            Refusal::PrivateClient(root) => self.phrase()@ + " 0x"@ + hexadecimal(root as nat),
            Refusal::NeverForwarded(cmd) => self.phrase()@ + " 0x"@ + hexadecimal(cmd as nat)
                + " is never forwarded"@,
            Refusal::RegisterFd(ret) => self.phrase()@ + " "@ + signed_decimal(ret as int),
            Refusal::OsEvent { ret, status } => if ret != 0 {
                self.phrase()@ + " ret "@ + signed_decimal(ret as int)
            } else {
                self.phrase()@ + " status 0x"@ + hexadecimal(status as nat)
            },
            _ => self.phrase()@,
        }
    }

    /// The reason in words.
    pub fn text(self) -> (s: String)
        ensures
            s@ == self.words(),
    {
        let mut s: String = self.stem().to_string();
        match self {
            Refusal::Length { inline, aux, payload } => {
                s.append(": inline ");
                s.append(dec(inline as u64).as_str());
                s.append(" aux ");
                s.append(dec(aux as u64).as_str());
                s.append(" payload ");
                s.append(dec(payload as u64).as_str());
            },
            Refusal::UnknownTag(tag) => {
                s.append(" ");
                s.append(dec(tag as u64).as_str());
                s.append(" unknown");
            },
            Refusal::PrivateClient(root) => {
                s.append(" 0x");
                s.append(hex(root as u64).as_str());
            },
            Refusal::NeverForwarded(cmd) => {
                s.append(" 0x");
                s.append(hex(cmd as u64).as_str());
                s.append(" is never forwarded");
            },
            Refusal::RegisterFd(ret) => {
                s.append(" ");
                s.append(signed_dec(ret).as_str());
            },
            Refusal::OsEvent { ret, status } => {
                if ret != 0 {
                    s.append(" ret ");
                    s.append(signed_dec(ret).as_str());
                } else {
                    s.append(" status 0x");
                    s.append(hex(status as u64).as_str());
                }
            },
            _ => {},
        }
        s
    }
}

/// Why an OS event was not made, or nothing where it was: what the call returned, and the
/// driver's status.
pub fn os_event_outcome(ret: i32, status: u32) -> (r: Option<Refusal>)
    ensures
        r == (if ret != 0 || status != NV_OK {
            Some(Refusal::OsEvent { ret, status })
        } else {
            None
        }),
{
    if ret != 0 || status != NV_OK {
        Some(Refusal::OsEvent { ret, status })
    } else {
        None
    }
}

/// The flags of an allocation that takes a host address, for a guest that asked with `attr`
/// and `attr2`: pages in system memory, not contiguous, written back, not mapped. The guest
/// decides only whether the GPU may cache them.
pub open spec fn osdesc_flags(n: OsdescNumbers, attr2: u32) -> u32 {
    n.flags_physicality.holding(n.flags_noncontiguous) | n.flags_location.holding(n.flags_pci)
        | n.flags_coherency.holding(n.flags_write_back) | n.flags_gpu_cacheable.holding(
        if n.gpu_cacheable.of(attr2) == n.gpu_cacheable_yes {
            n.flags_gpu_cacheable_yes
        } else {
            n.flags_gpu_cacheable_no
        },
    ) | n.flags_mapping.holding(n.flags_no_map)
}

/// The coherency that the guest asked for and does not get.
pub open spec fn lost_coherency(n: OsdescNumbers, attr: u32) -> Option<&'static str> {
    let c = n.coherency.of(attr);
    if c == n.cached || c == n.write_back {
        None
    } else if c == n.uncached {
        Some("UNCACHED")
    } else if c == n.write_combine {
        Some("WRITE_COMBINE")
    } else if c == n.write_through {
        Some("WRITE_THROUGH")
    } else if c == n.write_protect {
        Some("WRITE_PROTECT")
    } else {
        Some("(unknown)")
    }
}

/// The flags, and the name of a coherency that was replaced.
pub fn nvos02_flags_for_osdesc(n: &OsdescNumbers, attr: u32, attr2: u32) -> (r: (
    u32,
    Option<&'static str>,
))
    requires
        n.wf(),
    ensures
        r == (osdesc_flags(*n, attr2), lost_coherency(*n, attr)),
{
    let c: u32 = n.coherency.get(attr);
    let lost: Option<&'static str> = if c == n.cached || c == n.write_back {
        None
    } else if c == n.uncached {
        Some("UNCACHED")
    } else if c == n.write_combine {
        Some("WRITE_COMBINE")
    } else if c == n.write_through {
        Some("WRITE_THROUGH")
    } else if c == n.write_protect {
        Some("WRITE_PROTECT")
    } else {
        Some("(unknown)")
    };
    let cacheable: u32 = if n.gpu_cacheable.get(attr2) == n.gpu_cacheable_yes {
        n.flags_gpu_cacheable_yes
    } else {
        n.flags_gpu_cacheable_no
    };
    let flags: u32 = n.flags_physicality.set(n.flags_noncontiguous) | n.flags_location.set(
        n.flags_pci,
    ) | n.flags_coherency.set(n.flags_write_back) | n.flags_gpu_cacheable.set(cacheable)
        | n.flags_mapping.set(n.flags_no_map);
    (flags, lost)
}

/// Where an allocation keeps its status: at 40 in the long form, at 28 in the short one.
pub open spec fn status_off(inline_len: int) -> Option<usize> {
    if inline_len >= 48 {
        Some(40)
    } else if inline_len == 32 {
        Some(28)
    } else {
        None
    }
}

/// Where an allocation keeps its status.
pub fn alloc_status_off(inline_len: usize) -> (r: Option<usize>)
    ensures
        r == status_off(inline_len as int),
{
    if inline_len >= 48 {
        Some(40)
    } else if inline_len == 32 {
        Some(28)
    } else {
        None
    }
}

/// The request number of a front-end call: both directions, the size, the letter `F`, and
/// the call.
pub open spec fn ioc(nr: u32, size: u32) -> u64 {
    (0xc000_4600u32 | (size << 16u32) | nr) as u64
}

/// The request number of a front-end call.
pub fn iowr(nr: u32, size: u32) -> (r: u64)
    ensures
        r == ioc(nr, size),
{
    (0xc000_4600u32 | (size << 16u32) | nr) as u64
}

/// More than any buffer of a message holds.
pub const PAYLOAD_BOUND: usize = 0x1000_0000;

/// What becomes of a request.
#[derive(Clone, Copy, Debug, PartialEq, Eq, Structural)]
pub enum Action {
    /// The driver gets it.
    Forward,
    /// It succeeds without the driver: the guest's own mapping will take the place.
    FakeSemaphorePool,
    /// It succeeds without the driver: the pages stay where they are.
    FakeManaged,
    /// It is answered as a full card would.
    FakeVramFull,
}

/// The pages that an allocation describes.
pub struct OsdescAsk {
    pub runs: Vec<GpaRun>,
    pub total: u64,
    /// The last byte, as the guest gave it.
    pub limit: u64,
    /// Whether it is the kernel's form, which is rewritten.
    pub kern: bool,
}

/// The OS event that a request needs before it can go.
#[derive(Clone, Copy, Debug, PartialEq, Eq, Structural)]
pub enum Want {
    Nothing,
    /// An event of a client on its control descriptor, which may have to be opened.
    Event { h_client: u32, id: u32, ctl: Option<i32> },
    /// An event of a client on a control descriptor of its own.
    Slot { h_client: u32, id: u32, generation: u64, ctl: Option<i32> },
}

/// What a request waits for.
#[derive(Clone, Copy, Debug, PartialEq, Eq, Structural)]
pub enum Stage {
    /// Its pages have to be mapped.
    MapArena,
    /// It has to ride on a node that is registered with its control descriptor.
    OpenGpu,
    /// Its pointers have to be bound to where its buffer is.
    Bind,
    /// The guest's callback in it has to be replaced.
    Substitute,
    /// A control descriptor has to be opened.
    OpenCtl,
    /// An OS event has to be made on the control descriptor.
    AllocOsEvent,
    /// What it will hold of the card has to be reserved.
    Reserve,
    /// Nothing: it may go.
    Ready,
}

/// A request that was translated. The driver reads `inline`, and what `inline` points to lies
/// in `aux`: neither may move until it has answered.
pub struct Plan {
    pub stage: Stage,
    pub seq: u32,
    pub dev: Dev,
    pub nr: u32,
    pub token: u64,
    pub target_fd: i32,
    pub request: u64,
    pub action: Action,
    pub inline: Vec<u8>,
    pub aux: Vec<u8>,
    pub inline_len: usize,
    pub aux_len: usize,
    /// The pointer to the parameters.
    pub embedded: Option<usize>,
    /// The pointers inside the parameters, and where in `aux` they point.
    pub nested: Vec<(usize, usize)>,
    pub osdesc: Option<OsdescAsk>,
    pub arena: Option<Arena>,
    /// What the guest had from byte 16 to byte 40, where the form was rewritten.
    pub tail: Option<Vec<u8>>,
    pub want: Want,
    pub event_reg: Option<EventReg>,
    pub waiter_reg: Option<Waiter>,
    pub waiter_unreg: Option<u32>,
    pub vram_reserved: u64,
    pub vram_status_off: usize,
    pub vram_vidheap: bool,
    pub vram_ask: Option<Ask>,
    /// Where the list of sizes starts in `aux`, and how many the guest asked for.
    pub fb_info_list: Option<(usize, usize)>,
}

impl Plan {
    /// Whether the front end gets it.
    pub open spec fn frontend(&self) -> bool {
        !self.dev.uvm()
    }

    /// Whether it is this call of the front end.
    pub open spec fn is(&self, nr: u32) -> bool {
        self.frontend() && self.nr == nr
    }

    /// Every field that is translated or read later lies inside its buffer.
    pub open spec fn wf(&self, abi: &Abi) -> bool {
        &&& self.inline_len == self.inline@.len() <= PAYLOAD_BOUND
        &&& self.aux_len == self.aux@.len() <= PAYLOAD_BOUND
        &&& self.frontend() ==> self.inline_len < 0x4000
        &&& self.embedded matches Some(off) ==> off + 8 <= self.inline@.len()
        &&& forall|k: int|
            0 <= k < self.nested@.len() ==> {
                let p = #[trigger] self.nested@[k];
                p.0 + 8 <= self.aux@.len() && p.1 <= self.aux@.len()
            }
        &&& self.nested@.len() > 0 ==> self.is(abi.escapes.rm_control) && self.inline_len >= 24
        &&& self.stage is MapArena <==> self.osdesc is Some
        &&& self.osdesc matches Some(ask) ==> {
            &&& self.frontend()
            &&& self.nested@.len() == 0
            &&& ask.kern ==> self.inline_len == 48 && self.aux@.len() >= abi.osdesc.len
                && abi.osdesc.wf()
            &&& !ask.kern ==> self.inline_len >= 44
        }
        &&& self.stage is OpenGpu ==> self.inline@.len() >= 56 && self.nested@.len() == 0
        &&& match self.want {
            Want::Nothing => !(self.stage is OpenCtl) && !(self.stage is AllocOsEvent),
            Want::Event { ctl, .. } => {
                &&& self.inline_len >= 16
                &&& self.aux@.len() >= 24
                &&& self.stage == (if ctl is Some {
                    Stage::AllocOsEvent
                } else {
                    Stage::OpenCtl
                })
            },
            Want::Slot { ctl, .. } => {
                &&& self.inline_len >= 32
                &&& self.aux@.len() >= 32
                &&& self.stage == (if ctl is Some {
                    Stage::AllocOsEvent
                } else {
                    Stage::OpenCtl
                })
            },
        }
        &&& self.arena is Some ==> self.inline_len >= 44
        &&& self.tail matches Some(t) ==> t@.len() == 24 && self.inline_len >= 40 && self.nr
            == abi.escapes.rm_alloc_memory
        &&& self.waiter_reg is Some ==> self.inline_len >= 32
        &&& self.waiter_unreg is Some ==> self.inline_len >= 32
        &&& self.event_reg is Some ==> self.inline_len >= 16
        &&& self.vram_reserved != 0 || self.action is FakeVramFull ==> {
            &&& self.inline_len >= 12
            &&& self.vram_status_off + 4 <= self.inline_len
        }
    }
}

/// A request as values.
#[verifier::ext_equal]
pub struct PlanView {
    pub seq: u32,
    pub dev: Dev,
    pub nr: u32,
    pub token: u64,
    pub target_fd: i32,
    pub action: Action,
    pub inline: Seq<u8>,
    pub aux: Seq<u8>,
    pub arena: Option<Arena>,
    pub tail: Option<Seq<u8>>,
    pub event_reg: Option<EventReg>,
    pub waiter_reg: Option<Waiter>,
    pub waiter_unreg: Option<u32>,
    pub vram_reserved: u64,
    pub vram_status_off: usize,
    pub vram_vidheap: bool,
    pub vram_ask: Option<Ask>,
    pub fb_info_list: Option<(usize, usize)>,
}

impl PlanView {
    /// Whether it is this call of the front end.
    pub open spec fn is(self, nr: u32) -> bool {
        !self.dev.uvm() && self.nr == nr
    }
}

impl View for Plan {
    type V = PlanView;

    open spec fn view(&self) -> PlanView {
        PlanView {
            seq: self.seq,
            dev: self.dev,
            nr: self.nr,
            token: self.token,
            target_fd: self.target_fd,
            action: self.action,
            inline: self.inline@,
            aux: self.aux@,
            arena: self.arena,
            tail: match self.tail {
                Some(t) => Some(t@),
                None => None,
            },
            event_reg: self.event_reg,
            waiter_reg: self.waiter_reg,
            waiter_unreg: self.waiter_unreg,
            vram_reserved: self.vram_reserved,
            vram_status_off: self.vram_status_off,
            vram_vidheap: self.vram_vidheap,
            vram_ask: self.vram_ask,
            fb_info_list: self.fb_info_list,
        }
    }
}

/// A request number of the front end: both directions in the two highest bits, the size of the
/// block below them, the letter of the driver, and the number of the call in the lowest byte.
pub proof fn law_a_request_number_holds_call_and_size(nr: u32, size: u32)
    requires
        nr < 0x100,
        size < 0x4000,
    ensures
        ioc(nr, size) == 0xc000_0000 + 0x1_0000 * size + 0x100 * ('F' as u32) + nr,
{
    assert(nr < 0x100u32 && size < 0x4000u32 ==> (0xc000_4600u32 | (size << 16u32) | nr)
        == 0xc000_0000u32 + 0x1_0000u32 * size + 0x4600u32 + nr) by (bit_vector);
}

/// The flags of a rewritten allocation hold each of its five settings, and nothing else. Of what
/// the guest said they take whether the GPU may cache the pages, and nothing else.
pub proof fn law_the_flags_hold_every_setting(n: OsdescNumbers, attr2: u32, other: u32)
    ensures
        ({
            let f = osdesc_flags(n, attr2);
            let a = n.flags_physicality.holding(n.flags_noncontiguous);
            let b = n.flags_location.holding(n.flags_pci);
            let c = n.flags_coherency.holding(n.flags_write_back);
            let yes = n.flags_gpu_cacheable.holding(n.flags_gpu_cacheable_yes);
            let no = n.flags_gpu_cacheable.holding(n.flags_gpu_cacheable_no);
            let e = n.flags_mapping.holding(n.flags_no_map);
            let d = if n.gpu_cacheable.of(attr2) == n.gpu_cacheable_yes {
                yes
            } else {
                no
            };
            &&& f & a == a && f & b == b && f & c == c && f & d == d && f & e == e
            &&& f & !(a | b | c | d | e) == 0
            &&& (n.gpu_cacheable.of(attr2) == n.gpu_cacheable_yes <==> n.gpu_cacheable.of(other)
                == n.gpu_cacheable_yes) ==> osdesc_flags(n, other) == f
        }),
{
    let a = n.flags_physicality.holding(n.flags_noncontiguous);
    let b = n.flags_location.holding(n.flags_pci);
    let c = n.flags_coherency.holding(n.flags_write_back);
    let d = n.flags_gpu_cacheable.holding(
        if n.gpu_cacheable.of(attr2) == n.gpu_cacheable_yes {
            n.flags_gpu_cacheable_yes
        } else {
            n.flags_gpu_cacheable_no
        },
    );
    let e = n.flags_mapping.holding(n.flags_no_map);
    assert(((a | b | c | d | e) & a) == a && ((a | b | c | d | e) & b) == b && ((a | b | c | d | e)
        & c) == c && ((a | b | c | d | e) & d) == d && ((a | b | c | d | e) & e) == e && ((a | b | c
        | d | e) & !(a | b | c | d | e)) == 0) by (bit_vector);
}

/// Pages that are written back anyway lose nothing; any other kind of caching is named.
pub proof fn law_a_lost_caching_is_named(n: OsdescNumbers, attr: u32)
    ensures
        lost_coherency(n, attr) is None <==> n.coherency.of(attr) == n.cached || n.coherency.of(
            attr,
        ) == n.write_back,
{
}

/// Where an allocation keeps its status: the long form behind forty bytes, the short one
/// behind twenty-eight, and no other form has one.
pub proof fn law_each_form_has_its_status(len: int)
    ensures
        len >= 48 ==> status_off(len) == Some(40usize),
        len == 32 ==> status_off(len) == Some(28usize),
        len < 48 && len != 32 ==> status_off(len) is None,
        status_off(len) matches Some(o) ==> o + 4 <= len,
{
}

/// A refusal tells the guest what was wrong: a bad request, a thing it may not touch, a
/// descriptor that it does not have, a failure of the host, or that the numbers are spent.
pub proof fn law_a_refusal_has_its_number(r: Refusal)
    ensures
        r is PrivateClient || r is NeverForwarded ==> r.number() == 1,
        r is UnknownToken || r is FdToken || r is FdOwner || r is AuxFdToken ==> r.number() == 9,
        r is RunsWithoutMemory || r is Arena || r is GpuNode || r is RegisterFd || r is EventCtl
            || r is WaiterCtl || r is OsEvent ==> r.number() == 5,
        r is EventIds || r is Generations ==> r.number() == 28,
        r matches Refusal::Shape(e) ==> r.number() == e.number(),
        r is Length || r is UnknownTag || r is TagDiffers || r is RunsForm || r is OsdescParams
            || r is RunsUnreadable || r is Limit || r is AuxFdTable || r is AuxFdOffset
            ==> r.number() == 22,
{
}

/// A call of any number stands in the lowest bits of its request number.
pub proof fn law_the_call_stands_in_the_lowest_bits(nr: u32, size: u32)
    ensures
        ioc(nr, size) == ioc(0, size) | (nr as u64),
        ioc(nr, size) & 0xc000_4600 == 0xc000_4600,
{
    assert((0xc000_4600u32 | (size << 16u32) | nr) as u64 == ((0xc000_4600u32 | (size << 16u32)
        | 0u32) as u64) | (nr as u64)) by (bit_vector);
    assert(((0xc000_4600u32 | (size << 16u32) | nr) as u64) & 0xc000_4600u64 == 0xc000_4600u64)
        by (bit_vector);
}

/// A plan is for a call of the front end exactly where it is not on a node of UVM and has its
/// number.
pub proof fn law_a_call_is_known_by_node_and_number(plan: &Plan, nr: u32)
    ensures
        plan.is(nr) <==> !plan.dev.uvm() && plan.nr == nr,
        plan@.is(nr) <==> !plan@.dev.uvm() && plan@.nr == nr,
        plan@.dev == plan.dev && plan@.nr == plan.nr && plan@.token == plan.token && plan@.inline
            == plan.inline@ && plan@.aux == plan.aux@,
{
}

} // verus!
