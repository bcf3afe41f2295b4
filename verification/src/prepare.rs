//! From a message of the guest to a request that the driver may see.
//!
//! Preparing a request needs things that only the system has: a mapping for pages, a
//! registered node, an OS event. Each stage below takes what the one before it left and what
//! the system answered, and leaves what the next one needs. A refusal at any stage ends it.

use crate::abi::{
    Abi, Dev, Layout, CLASS_KERNEL_CALLBACK, CLASS_KERNEL_CALLBACK_EX, CLASS_OS_EVENT,
};
use crate::bytes::{
    bytes32, bytes64, copy_range, get32, get64, law_word32_reads_back, law_word64_reads_back, le32,
    le64, lemma_same_bytes_same_word, overlay, put32, put64, put_zeros, zeroed,
};
use crate::client_policy::{names_private, private_client, private_named};
use crate::events::{
    found, EventBook, EventReg, EventView, Pollable, Waiter, WaiterSlot, WaiterTarget,
};
use crate::host_pool::{run_at, Arena, GpaRun, PinBudget};
use crate::mirror::{Entry, Mirror, MirrorView};
use crate::plan::{
    alloc_status_off, ioc, iowr, lost_coherency, nvos02_flags_for_osdesc, osdesc_flags, status_off,
    Action, OsdescAsk, Plan, Refusal, Stage, Want, PAYLOAD_BOUND,
};
use crate::request_shape::{
    cleared, is_escape, law_accepted_fields_lie_inside, law_parameters_are_backed, validate,
    verdict, Shape,
};
use crate::vram::{
    alloc_bytes, heap_bytes, request_bytes, rows_kept, vidheap_request_bytes, Ask, Books, Door,
    Ledger, V_STATUS_OFF,
};
use crate::wire::{Limits, Req};
use vstd::prelude::*;
use vstd::slice::slice_subrange;

verus! {

/// What a request is held against.
#[derive(Clone, Copy)]
pub struct Context<'a> {
    pub abi: &'a Abi,
    /// What the tables say of this request.
    pub layout: &'a Layout,
    pub limits: Limits,
    /// The clients that no guest may name.
    pub private: &'a [u32],
}

impl<'a> Context<'a> {
    /// The pointer to the parameters lies inside the inline block, and buffers are bounded.
    pub open spec fn fits(&self, req: &Req) -> bool {
        &&& self.abi.wf()
        &&& self.limits.max_payload < PAYLOAD_BOUND
        &&& self.limits.max_aux < PAYLOAD_BOUND
        &&& self.layout.params matches crate::abi::Params::Behind(e) ==> e.ptr_off + 8
            <= req.inline_len
    }
}

/// Whether every request can be held against the numbers of a release and the limits of the
/// protocol: the numbers are well-formed, and buffers are bounded.
pub fn can_serve(abi: &Abi, limits: &Limits) -> (r: bool)
    ensures
        r == (abi.wf() && limits.max_payload < PAYLOAD_BOUND && limits.max_aux < PAYLOAD_BOUND),
{
    abi.is_wf() && limits.max_payload < PAYLOAD_BOUND && limits.max_aux < PAYLOAD_BOUND
}

/// Descriptors that the device resolved against the process that owns them.
#[derive(Clone, Copy, Debug, PartialEq, Eq, Structural)]
pub struct Hosts {
    pub fd_field: Option<i32>,
    pub aux_fd: Option<i32>,
}

/// The inline block of a message.
pub open spec fn inline_of(req: &Req, payload: Seq<u8>) -> Seq<u8> {
    payload.take(req.inline_len as int)
}

/// The auxiliary buffer of a message.
pub open spec fn aux_of(req: &Req, payload: Seq<u8>) -> Seq<u8> {
    payload.subrange(req.inline_len as int, req.inline_len + req.aux_len)
}

/// Whether a request passes, and the pointers in it that stand for no bytes.
pub open spec fn gate(cx: &Context, mirror: MirrorView, req: &Req, payload: Seq<u8>) -> Result<
    (Option<usize>, Seq<usize>),
    Refusal,
> {
    let inline = inline_of(req, payload);
    let aux = aux_of(req, payload);
    if payload.len() < req.inline_len + req.aux_len || req.inline_len > cx.limits.max_payload
        || req.aux_len > cx.limits.max_aux {
        Err(
            Refusal::Length {
                inline: req.inline_len,
                aux: req.aux_len,
                payload: payload.len() as usize,
            },
        )
    } else {
        match req.dev {
            None => Err(Refusal::UnknownTag(req.dev_tag)),
            Some(dev) => if names_private(cx.abi, dev, req.ioctl_nr, inline, aux, cx.private@) {
                Err(
                    Refusal::PrivateClient(
                        private_named(cx.abi, dev, req.ioctl_nr, inline, aux, cx.private@),
                    ),
                )
            } else if is_escape(dev, req, cx.abi.escapes.rm_control) && req.inline_len >= 12
                && cx.layout.ctrl_blocked {
                Err(Refusal::NeverForwarded(le32(inline, 8)))
            } else {
                match verdict(cx.abi, cx.layout, dev, req, inline, aux) {
                    Err(e) => Err(Refusal::Shape(e)),
                    Ok(zero) => match mirror.at(req.target_token) {
                        None => Err(Refusal::UnknownToken),
                        Some(e) => if e.kind != dev {
                            Err(Refusal::TagDiffers)
                        } else {
                            Ok(zero)
                        },
                    },
                }
            },
        }
    }
}

/// The host descriptor that takes the place of the guest's, where the request names one. One
/// whose owner is named is found only by the device.
pub open spec fn fd_number(mirror: MirrorView, req: &Req, host: Option<i32>) -> Result<
    Option<i32>,
    Refusal,
> {
    match (req.fd_field_off, req.fd_field_token) {
        (Some(_), Some(token)) => match host {
            Some(fd) => Ok(Some(fd)),
            None => if req.fd_field_proc is Some {
                Err(Refusal::FdOwner)
            } else {
                match mirror.at(token) {
                    Some(e) => Ok(Some(e.fd)),
                    None => Err(Refusal::FdToken),
                }
            },
        },
        _ => Ok(None),
    }
}

/// The inline block without the pointers that stand for nothing, and with the host descriptor.
pub open spec fn translated(
    inline: Seq<u8>,
    zero: Option<usize>,
    off: Option<u32>,
    number: Option<i32>,
) -> Seq<u8> {
    let clean = match zero {
        Some(z) => cleared(inline, seq![z]),
        None => inline,
    };
    match (off, number) {
        (Some(o), Some(n)) => overlay(clean, o as int, bytes32(n as u32)),
        _ => clean,
    }
}

/// The watch that a request asks for by itself: an event on the descriptor it rides on.
pub open spec fn polled(v: EventView, abi: &Abi, req: &Req, dev: Dev, fd: i32) -> EventView {
    if is_escape(dev, req, abi.escapes.alloc_os_event) {
        EventView {
            pollables: v.pollables.push(
                Pollable::Client { token: req.target_token, fd, owner: None },
            ),
            ..v
        }
    } else {
        v
    }
}

/// The pages that a request describes: the runs, the last byte, and whether it is the
/// kernel's form.
pub open spec fn described(
    abi: &Abi,
    req: &Req,
    dev: Dev,
    inline: Seq<u8>,
    aux: Seq<u8>,
    memory: bool,
) -> Result<Option<(Seq<GpaRun>, u64, bool)>, Refusal> {
    let kern = req.ioctl_nr == abi.escapes.rm_alloc;
    let from = if kern {
        abi.osdesc.len as int
    } else {
        0
    };
    let limit = if kern {
        le64(aux, abi.osdesc.limit_off as int)
    } else {
        le64(inline, 32)
    };
    if dev.uvm() || req.gpa_run_count == 0 {
        Ok(None)
    } else if !kern && (req.ioctl_nr != abi.escapes.rm_alloc_memory || req.inline_len < 44) {
        Err(Refusal::RunsForm)
    } else if !memory {
        Err(Refusal::RunsWithoutMemory)
    } else if aux.len() < from {
        Err(Refusal::OsdescParams)
    } else if aux.len() - from < 16 * req.gpa_run_count {
        Err(Refusal::RunsUnreadable)
    } else if limit == u64::MAX {
        Err(Refusal::Limit)
    } else {
        Ok(
            Some(
                (
                    Seq::new(req.gpa_run_count as nat, |i: int| run_at(aux.skip(from), i)),
                    limit,
                    kern,
                ),
            ),
        )
    }
}

/// The pointers inside the parameters, and where they point.
pub open spec fn nested_of(req: &Req) -> Seq<(usize, usize)> {
    Seq::new(
        req.nested_count as nat,
        |k: int| (req.nested@[k].ptr_off as usize, req.nested@[k].aux_off as usize),
    )
}

/// The pages as the plan holds them.
pub open spec fn same_ask(a: Option<OsdescAsk>, b: Option<(Seq<GpaRun>, u64, bool)>) -> bool {
    match (a, b) {
        (None, None) => true,
        (Some(x), Some((runs, limit, kern))) => x.runs@ == runs && x.limit == limit && x.total
            == limit + 1 && x.kern == kern,
        _ => false,
    }
}

fn find_osdesc(abi: &Abi, req: &Req, dev: Dev, inline: &[u8], aux: &[u8], memory: bool) -> (r:
    Result<Option<OsdescAsk>, Refusal>)
    requires
        abi.osdesc.wf(),
        inline@.len() == req.inline_len,
    ensures
        match (r, described(abi, req, dev, inline@, aux@, memory)) {
            (Ok(a), Ok(b)) => same_ask(a, b),
            (Err(a), Err(b)) => a == b,
            _ => false,
        },
        r matches Ok(Some(a)) ==> {
            &&& !dev.uvm()
            &&& a.kern == (req.ioctl_nr == abi.escapes.rm_alloc)
            &&& a.kern ==> aux@.len() >= abi.osdesc.len
            &&& !a.kern ==> req.inline_len >= 44
        },
{
    if dev.is_uvm() || req.gpa_run_count == 0 {
        return Ok(None);
    }
    let kern: bool = req.ioctl_nr == abi.escapes.rm_alloc;
    if !kern && (req.ioctl_nr != abi.escapes.rm_alloc_memory || req.inline_len < 44) {
        return Err(Refusal::RunsForm);
    }
    if !memory {
        return Err(Refusal::RunsWithoutMemory);
    }
    if kern && aux.len() < abi.osdesc.len {
        return Err(Refusal::OsdescParams);
    }
    let from: usize = if kern {
        abi.osdesc.len
    } else {
        0
    };
    let bytes: &[u8] = slice_subrange(aux, from, aux.len());
    proof {
        assert(bytes@ =~= aux@.skip(from as int));
    }
    let count: usize = req.gpa_run_count as usize;
    let runs: Vec<GpaRun> = match GpaRun::decode(bytes, count) {
        Some(runs) => runs,
        None => {
            return Err(Refusal::RunsUnreadable);
        },
    };
    let limit: u64 = if kern {
        get64(aux, abi.osdesc.limit_off)
    } else {
        get64(inline, 32)
    };
    match limit.checked_add(1) {
        Some(total) => Ok(Some(OsdescAsk { runs, total, limit, kern })),
        None => Err(Refusal::Limit),
    }
}

/// Whether what a passed request has translated lies inside its buffers.
pub open spec fn accepted(cx: &Context, req: &Req, dev: Dev) -> bool {
    &&& req.inline_len < PAYLOAD_BOUND && req.aux_len < PAYLOAD_BOUND
    &&& !dev.uvm() ==> req.inline_len < 0x4000
    &&& req.fd_field_off matches Some(off) ==> off + 4 <= req.inline_len
    &&& req.embedded_ptr_off matches Some(off) ==> off + 8 <= req.inline_len
    &&& req.nested_count <= req.nested@.len()
    &&& req.nested_count > 0 ==> is_escape(dev, req, cx.abi.escapes.rm_control) && req.inline_len
        >= 24
    &&& forall|k: int|
        0 <= k < req.nested_count ==> {
            let d = #[trigger] req.nested@[k];
            d.ptr_off + 8 <= req.aux_len && d.aux_off <= req.aux_len
        }
    &&& req.gpa_run_count != 0 && is_escape(dev, req, cx.abi.escapes.rm_alloc) ==> req.inline_len
        == 48
    &&& req.gpa_run_count != 0 ==> req.nested_count == 0
}

fn pass_gate(cx: &Context, mirror: &Mirror, req: &Req, payload: &[u8]) -> (r: Result<
    (Dev, i32, Shape),
    Refusal,
>)
    requires
        cx.fits(req),
    ensures
        match (r, gate(cx, mirror@, req, payload@)) {
            (Err(a), Err(b)) => a == b,
            (Ok((dev, fd, shape)), Ok((zero, zeros))) => {
                &&& payload@.len() >= req.inline_len + req.aux_len
                &&& req.dev == Some(dev)
                &&& mirror@.at(req.target_token) == Some(Entry { fd, kind: dev })
                &&& shape.zero_inline == zero
                &&& shape.zero_aux@ == zeros
                &&& shape.fits(inline_of(req, payload@), aux_of(req, payload@))
                &&& accepted(cx, req, dev)
            },
            _ => false,
        },
{
    let have: usize = payload.len();
    if (have as u64) < req.inline_len as u64 + req.aux_len as u64 || req.inline_len as u64
        > cx.limits.max_payload as u64 || req.aux_len as u64 > cx.limits.max_aux as u64 {
        return Err(Refusal::Length { inline: req.inline_len, aux: req.aux_len, payload: have });
    }
    let inline_len: usize = req.inline_len as usize;
    let end: usize = inline_len + req.aux_len as usize;
    let dev: Dev = match req.dev {
        Some(dev) => dev,
        None => {
            return Err(Refusal::UnknownTag(req.dev_tag));
        },
    };
    let inline: &[u8] = slice_subrange(payload, 0, inline_len);
    let aux: &[u8] = slice_subrange(payload, inline_len, end);
    proof {
        assert(inline@ =~= inline_of(req, payload@));
        assert(aux@ =~= aux_of(req, payload@));
    }
    if let Some(root) = private_client(cx.abi, dev, req.ioctl_nr, inline, aux, cx.private) {
        return Err(Refusal::PrivateClient(root));
    }
    if !dev.is_uvm() && req.ioctl_nr == cx.abi.escapes.rm_control && inline_len >= 12
        && cx.layout.ctrl_blocked {
        return Err(Refusal::NeverForwarded(get32(inline, 8)));
    }
    let shape = match validate(cx.abi, cx.layout, dev, req, inline, aux) {
        Ok(shape) => shape,
        Err(e) => {
            return Err(Refusal::Shape(e));
        },
    };
    proof {
        lemma_accepted(cx, dev, req, inline@, aux@);
    }
    match mirror.raw(req.target_token) {
        Some(fd) => match mirror.kind(req.target_token) {
            Some(kind) => if kind != dev {
                Err(Refusal::TagDiffers)
            } else {
                Ok((dev, fd, shape))
            },
            None => Err(Refusal::UnknownToken),
        },
        None => Err(Refusal::UnknownToken),
    }
}

proof fn lemma_accepted(cx: &Context, dev: Dev, req: &Req, inline: Seq<u8>, aux: Seq<u8>)
    requires
        cx.fits(req),
        req.inline_len <= cx.limits.max_payload,
        req.aux_len <= cx.limits.max_aux,
        verdict(cx.abi, cx.layout, dev, req, inline, aux) is Ok,
    ensures
        accepted(cx, req, dev),
{
    law_accepted_fields_lie_inside(cx.abi, cx.layout, dev, req, inline, aux);
    law_parameters_are_backed(cx.abi, cx.layout, dev, req, inline, aux);
    let e = cx.abi.escapes;
    let s = seq![
        e.rm_alloc,
        e.rm_alloc_memory,
        e.rm_free,
        e.rm_control,
        e.rm_vid_heap_control,
        e.alloc_os_event,
    ];
    assert(s[0] != s[3] && s[1] != s[3]);
}

fn find_number(mirror: &Mirror, req: &Req, host: Option<i32>) -> (r: Result<Option<i32>, Refusal>)
    ensures
        r == fd_number(mirror@, req, host),
{
    if req.fd_field_off.is_none() {
        return Ok(None);
    }
    match req.fd_field_token {
        None => Ok(None),
        Some(token) => match host {
            Some(fd) => Ok(Some(fd)),
            None => {
                if req.fd_field_proc.is_some() {
                    return Err(Refusal::FdOwner);
                }
                match mirror.raw(token) {
                    Some(fd) => Ok(Some(fd)),
                    None => Err(Refusal::FdToken),
                }
            },
        },
    }
}

fn list_nested(req: &Req) -> (r: Vec<(usize, usize)>)
    requires
        req.nested_count <= req.nested@.len(),
    ensures
        r@ == nested_of(req),
{
    let mut nested: Vec<(usize, usize)> = Vec::new();
    let mut k: usize = 0;
    while k < req.nested_count as usize
        invariant
            k <= req.nested_count <= req.nested@.len(),
            nested@ == nested_of(req).take(k as int),
        decreases req.nested_count - k,
    {
        nested.push((req.nested[k].ptr_off as usize, req.nested[k].aux_off as usize));
        k += 1;
        proof {
            assert(nested@ =~= nested_of(req).take(k as int));
        }
    }
    proof {
        assert(nested_of(req).take(k as int) =~= nested_of(req));
    }
    nested
}

/// Holds a request against everything that needs no system: its lengths, the clients and
/// controls that are off limits, the host's tables, its token, and the descriptors and pages
/// that it names. What passes is copied, translated, and known to lie inside its buffers.
pub fn begin(
    cx: &Context,
    mirror: &Mirror,
    events: &mut EventBook,
    req: &Req,
    payload: &[u8],
    hosts: Hosts,
    memory: bool,
) -> (r: Result<Plan, Refusal>)
    requires
        cx.fits(req),
    ensures
        match gate(cx, mirror@, req, payload@) {
            Err(e) => r == Err::<Plan, Refusal>(e) && final(events)@ == old(events)@,
            Ok((zero, zeros)) => {
                let dev = req.dev->Some_0;
                let fd = mirror@.at(req.target_token)->Some_0.fd;
                match fd_number(mirror@, req, hosts.fd_field) {
                    Err(e) => r == Err::<Plan, Refusal>(e) && final(events)@ == old(events)@,
                    Ok(number) => {
                        let inline = translated(
                            inline_of(req, payload@),
                            zero,
                            req.fd_field_off,
                            number,
                        );
                        let aux = cleared(aux_of(req, payload@), zeros);
                        &&& final(events)@ == polled(old(events)@, cx.abi, req, dev, fd)
                        &&& match (r, described(cx.abi, req, dev, inline, aux, memory)) {
                            (Err(a), Err(b)) => a == b,
                            (Ok(p), Ok(ask)) => {
                                &&& p.wf(cx.abi)
                                &&& p.inline@ == inline
                                &&& p.aux@ == aux
                                &&& p.nested@ == nested_of(req)
                                &&& same_ask(p.osdesc, ask)
                                &&& p == (Plan {
                                    inline: p.inline,
                                    aux: p.aux,
                                    nested: p.nested,
                                    osdesc: p.osdesc,
                                    stage: if ask is Some {
                                        Stage::MapArena
                                    } else {
                                        Stage::Bind
                                    },
                                    seq: req.seq,
                                    dev,
                                    nr: req.ioctl_nr,
                                    token: req.target_token,
                                    target_fd: fd,
                                    request: 0,
                                    action: Action::Forward,
                                    inline_len: req.inline_len as usize,
                                    aux_len: req.aux_len as usize,
                                    embedded: match req.embedded_ptr_off {
                                        Some(o) => Some(o as usize),
                                        None => None,
                                    },
                                    arena: None,
                                    tail: None,
                                    want: Want::Nothing,
                                    event_reg: None,
                                    waiter_reg: None,
                                    waiter_unreg: None,
                                    vram_reserved: 0,
                                    vram_status_off: 0,
                                    vram_vidheap: false,
                                    vram_ask: None,
                                    fb_info_list: None,
                                })
                            },
                            _ => false,
                        }
                    },
                }
            },
        },
{
    let (dev, target_fd, shape) = match pass_gate(cx, mirror, req, payload) {
        Ok(t) => t,
        Err(e) => {
            return Err(e);
        },
    };
    let number: Option<i32> = match find_number(mirror, req, hosts.fd_field) {
        Ok(n) => n,
        Err(e) => {
            return Err(e);
        },
    };
    // What is there fits a usize, and so does every place in it.
    let _have: usize = payload.len();
    let inline_len: usize = req.inline_len as usize;
    let end: usize = inline_len + req.aux_len as usize;
    let mut scratch: Vec<u8> = copy_range(payload, 0, inline_len);
    let mut params: Vec<u8> = copy_range(payload, inline_len, end);
    proof {
        assert(scratch@ =~= inline_of(req, payload@));
        assert(params@ =~= aux_of(req, payload@));
    }
    shape.clear_unused_pointers(&mut scratch, &mut params);
    if let Some(off) = req.fd_field_off {
        if let Some(fd) = number {
            put32(&mut scratch, off as usize, fd as u32);
        }
    }
    if !dev.is_uvm() && req.ioctl_nr == cx.abi.escapes.alloc_os_event {
        events.push_pollable(
            Pollable::Client { token: req.target_token, fd: target_fd, owner: None },
        );
    }
    let osdesc = match find_osdesc(cx.abi, req, dev, &scratch, &params, memory) {
        Ok(a) => a,
        Err(e) => {
            return Err(e);
        },
    };
    let nested: Vec<(usize, usize)> = list_nested(req);
    proof {
        assert forall|j: int| 0 <= j < nested@.len() implies {
            let p = #[trigger] nested@[j];
            p.0 + 8 <= params@.len() && p.1 <= params@.len()
        } by {
            let d = req.nested@[j];
        }
    }
    let embedded: Option<usize> = match req.embedded_ptr_off {
        Some(o) => Some(o as usize),
        None => None,
    };
    let stage = if osdesc.is_some() {
        Stage::MapArena
    } else {
        Stage::Bind
    };
    Ok(
        Plan {
            stage,
            seq: req.seq,
            dev,
            nr: req.ioctl_nr,
            token: req.target_token,
            target_fd,
            request: 0,
            action: Action::Forward,
            inline: scratch,
            aux: params,
            inline_len,
            aux_len: req.aux_len as usize,
            embedded,
            nested,
            osdesc,
            arena: None,
            tail: None,
            want: Want::Nothing,
            event_reg: None,
            waiter_reg: None,
            waiter_unreg: None,
            vram_reserved: 0,
            vram_status_off: 0,
            vram_vidheap: false,
            vram_ask: None,
            fb_info_list: None,
        },
    )
}

/// The kernel's form of an allocation, rewritten into the one that takes a host address.
pub open spec fn rewritten(inline: Seq<u8>, flags: u32, va: u64, limit: u64) -> Seq<u8> {
    overlay(
        overlay(
            overlay(zeroed(inline, 16, 8), 16, bytes32(flags)),
            24,
            bytes64(va),
        ),
        32,
        bytes64(limit),
    ) + seq![0u8, 0u8, 0u8, 0u8, 0u8, 0u8, 0u8, 0u8]
}

/// The plan once its pages are mapped.
pub open spec fn mapped(abi: &Abi, p: Plan, q: Plan, arena: Arena) -> bool {
    let ask = p.osdesc->Some_0;
    let n = abi.osdesc;
    &&& q.aux@ == Seq::<u8>::empty()
    &&& if ask.kern {
        &&& q.inline@ == rewritten(
            p.inline@,
            osdesc_flags(n, le32(p.aux@, n.attr2_off as int)),
            arena.base,
            ask.limit,
        )
        &&& q.tail matches Some(t) && t@ == p.inline@.subrange(16, 40)
        &&& q == (Plan {
            stage: Stage::OpenGpu,
            nr: abi.escapes.rm_alloc_memory,
            inline: q.inline,
            aux: q.aux,
            inline_len: 56,
            aux_len: 0,
            embedded: None,
            osdesc: None,
            arena: Some(arena),
            tail: q.tail,
            ..p
        })
    } else {
        &&& q.inline@ == overlay(p.inline@, 24, bytes64(arena.base))
        &&& q == (Plan {
            stage: Stage::Bind,
            inline: q.inline,
            aux: q.aux,
            aux_len: 0,
            osdesc: None,
            arena: Some(arena),
            ..p
        })
    }
}

/// Puts the host address of the mapped pages in place of the guest's. The kernel's form is
/// refused by the driver from here, so it becomes the form that takes a host address; the
/// answer names a coherency that is lost on the way.
pub fn place_arena(abi: &Abi, plan: &mut Plan, arena: Arena) -> (lost: Option<&'static str>)
    requires
        old(plan).wf(abi),
        old(plan).stage is MapArena,
    ensures
        final(plan).wf(abi),
        mapped(abi, *old(plan), *final(plan), arena),
        lost == (if old(plan).osdesc->Some_0.kern {
            lost_coherency(abi.osdesc, le32(old(plan).aux@, abi.osdesc.attr_off as int))
        } else {
            None
        }),
{
    let mut lost: Option<&'static str> = None;
    let (kern, limit): (bool, u64) = match &plan.osdesc {
        Some(ask) => (ask.kern, ask.limit),
        None => (false, 0),
    };
    if kern {
        let attr: u32 = get32(&plan.aux, abi.osdesc.attr_off);
        let attr2: u32 = get32(&plan.aux, abi.osdesc.attr2_off);
        let (flags, name) = nvos02_flags_for_osdesc(&abi.osdesc, attr, attr2);
        lost = name;
        let tail: Vec<u8> = copy_range(&plan.inline, 16, 40);
        put_zeros(&mut plan.inline, 16, 8);
        put32(&mut plan.inline, 16, flags);
        put64(&mut plan.inline, 24, arena.base);
        put64(&mut plan.inline, 32, limit);
        let ghost block = plan.inline@;
        plan.inline.push(0);
        plan.inline.push(0);
        plan.inline.push(0);
        plan.inline.push(0);
        plan.inline.push(0);
        plan.inline.push(0);
        plan.inline.push(0);
        plan.inline.push(0);
        proof {
            assert(plan.inline@ =~= block + seq![0u8, 0u8, 0u8, 0u8, 0u8, 0u8, 0u8, 0u8]);
        }
        plan.tail = Some(tail);
        plan.inline_len = 56;
        plan.nr = abi.escapes.rm_alloc_memory;
        plan.embedded = None;
        plan.stage = Stage::OpenGpu;
    } else {
        put64(&mut plan.inline, 24, arena.base);
        plan.stage = Stage::Bind;
    }
    plan.aux = Vec::new();
    plan.aux_len = 0;
    plan.osdesc = None;
    plan.arena = Some(arena);
    lost
}

/// Sends the rewritten allocation to the node that is registered with its control descriptor.
pub fn retarget(abi: &Abi, plan: &mut Plan, gpu_fd: i32)
    requires
        old(plan).wf(abi),
        old(plan).stage is OpenGpu,
    ensures
        final(plan).wf(abi),
        final(plan).inline@ == overlay(old(plan).inline@, 48, bytes32(gpu_fd as u32)),
        *final(plan) == (Plan {
            stage: Stage::Bind,
            target_fd: gpu_fd,
            inline: final(plan).inline,
            ..*old(plan)
        }),
        gpu_fd >= 0 ==> le32(final(plan).inline@, 48) == gpu_fd,
{
    proof {
        law_word32_reads_back(plan.inline@, 48, gpu_fd as u32);
    }
    put32(&mut plan.inline, 48, gpu_fd as u32);
    plan.target_fd = gpu_fd;
    plan.stage = Stage::Bind;
}

/// How wide the descriptor field in the parameters is. A control says so in the table, and
/// the guest may name no other place; an allocation keeps it in a double word.
pub open spec fn aux_fd_width(cx: &Context, plan: &Plan, off: u32) -> Result<int, Refusal> {
    if plan.is(cx.abi.escapes.rm_control) && plan.inline_len >= 32 {
        match cx.layout.ctrl_fd {
            Some(o) => if o == off {
                Ok(4)
            } else {
                Err(Refusal::AuxFdTable)
            },
            None => Ok(8),
        }
    } else {
        Ok(8)
    }
}

/// The descriptor field in the parameters: where, how wide, and what goes there.
pub open spec fn aux_fd(cx: &Context, plan: &Plan, req: &Req, host: Option<i32>) -> Result<
    Option<(u32, int, u64, i32)>,
    Refusal,
> {
    match req.aux_fd_field_off {
        None => Ok(None),
        Some(off) => match aux_fd_width(cx, plan, off) {
            Err(e) => Err(e),
            Ok(width) => if off + width > plan.aux@.len() {
                Err(Refusal::AuxFdOffset)
            } else {
                match req.aux_fd_field_token {
                    None => Ok(None),
                    Some(token) => match host {
                        None => Err(Refusal::AuxFdToken),
                        Some(fd) => Ok(Some((off, width, token, fd))),
                    },
                }
            },
        },
    }
}

/// The parameters with the host descriptor in them.
pub open spec fn with_aux_fd(aux: Seq<u8>, field: Option<(u32, int, u64, i32)>) -> Seq<u8> {
    match field {
        None => aux,
        Some((off, width, _, fd)) => if width == 4 {
            overlay(aux, off as int, bytes32(fd as u32))
        } else {
            overlay(aux, off as int, bytes64((fd as i64) as u64))
        },
    }
}

/// The driver will wake the descriptor that an allocation names, so it is watched.
pub open spec fn watched(v: EventView, req: &Req, field: Option<(u32, int, u64, i32)>) -> EventView {
    match field {
        Some((_, width, token, fd)) => if width == 8 {
            EventView {
                pollables: v.pollables.push(
                    Pollable::Client { token, fd, owner: req.aux_fd_field_proc },
                ),
                ..v
            }
        } else {
            v
        },
        None => v,
    }
}

/// The parameters with the first `n` pointers in them bound to a buffer at `base`.
pub open spec fn pointed(aux: Seq<u8>, nested: Seq<(usize, usize)>, base: u64, n: int) -> Seq<u8>
    decreases n,
{
    if n <= 0 {
        aux
    } else {
        overlay(
            pointed(aux, nested, base, n - 1),
            nested[n - 1].0 as int,
            bytes64((base + nested[n - 1].1) as u64),
        )
    }
}

/// The inline block with the pointer to the parameters bound.
pub open spec fn embedded_at(inline: Seq<u8>, off: Option<usize>, base: u64) -> Seq<u8> {
    match off {
        Some(o) => overlay(inline, o as int, bytes64(base)),
        None => inline,
    }
}

/// The list of sizes that the answer will hold, where a cap makes that matter.
pub open spec fn size_list(cx: &Context, plan: &Plan, inline: Seq<u8>, aux: Seq<u8>, capped: bool) -> Option<
    (usize, usize),
> {
    if capped && plan.is(cx.abi.escapes.rm_control) && plan.nested@.len() > 0 && le32(inline, 8)
        == cx.abi.controls.fb_get_info {
        Some((plan.nested@.last().1, le32(aux, 0) as usize))
    } else {
        None
    }
}

/// The request number: UVM takes the bare number, the front end one with the size in it.
pub open spec fn request_of(plan: &Plan) -> u64 {
    if plan.frontend() {
        ioc(plan.nr, plan.inline_len as u32)
    } else {
        plan.nr as u64
    }
}

proof fn lemma_pointed_len(aux: Seq<u8>, nested: Seq<(usize, usize)>, base: u64, n: int)
    ensures
        pointed(aux, nested, base, n).len() == aux.len(),
    decreases n,
{
    if n > 0 {
        lemma_pointed_len(aux, nested, base, n - 1);
    }
}

/// Binds every pointer of the request to the buffer that now lies at `base`, puts in the
/// descriptor that its parameters name, and gives it its number.
pub fn bind(
    cx: &Context,
    events: &mut EventBook,
    plan: &mut Plan,
    req: &Req,
    hosts: Hosts,
    base: u64,
    capped: bool,
) -> (r: Result<(), Refusal>)
    requires
        old(plan).wf(cx.abi),
        old(plan).stage is Bind,
        base + old(plan).aux@.len() <= u64::MAX,
    ensures
        match (r, aux_fd(cx, old(plan), req, hosts.aux_fd)) {
            (Err(a), Err(b)) => a == b && final(events)@ == old(events)@,
            (Ok(_), Ok(field)) => {
                let nested = old(plan).nested@;
                let inline = embedded_at(old(plan).inline@, old(plan).embedded, base);
                let aux = pointed(
                    with_aux_fd(old(plan).aux@, field),
                    nested,
                    base,
                    nested.len() as int,
                );
                &&& final(plan).wf(cx.abi)
                &&& final(plan).inline@ == inline
                &&& final(plan).aux@ == aux
                &&& *final(plan) == (Plan {
                    stage: Stage::Substitute,
                    inline: final(plan).inline,
                    aux: final(plan).aux,
                    request: request_of(old(plan)),
                    fb_info_list: size_list(cx, old(plan), inline, aux, capped),
                    ..*old(plan)
                })
                &&& final(events)@ == watched(old(events)@, req, field)
            },
            _ => false,
        },
        final(plan).arena == old(plan).arena,
{
    if let Some(off) = plan.embedded {
        put64(&mut plan.inline, off, base);
    }
    let control: bool = !plan.dev.is_uvm() && plan.nr == cx.abi.escapes.rm_control;
    if let Some(off) = req.aux_fd_field_off {
        let mut width: usize = 8;
        if control && plan.inline_len >= 32 {
            if let Some(o) = cx.layout.ctrl_fd {
                if o != off {
                    return Err(Refusal::AuxFdTable);
                }
                width = 4;
            }
        }
        if off as u64 + width as u64 > plan.aux.len() as u64 {
            return Err(Refusal::AuxFdOffset);
        }
        if let Some(token) = req.aux_fd_field_token {
            let fd: i32 = match hosts.aux_fd {
                Some(fd) => fd,
                None => {
                    return Err(Refusal::AuxFdToken);
                },
            };
            if width == 4 {
                put32(&mut plan.aux, off as usize, fd as u32);
            } else {
                put64(&mut plan.aux, off as usize, (fd as i64) as u64);
                events.push_pollable(
                    Pollable::Client { token, fd, owner: req.aux_fd_field_proc },
                );
            }
        }
    }
    let ghost start = plan.aux@;
    let ghost inline = plan.inline@;
    let count: usize = plan.nested.len();
    let mut k: usize = 0;
    while k < count
        invariant
            k <= count == old(plan).nested@.len(),
            plan.nested == old(plan).nested,
            start.len() == old(plan).aux@.len(),
            base + start.len() <= u64::MAX,
            old(plan).wf(cx.abi),
            plan.aux@ == pointed(start, plan.nested@, base, k as int),
            plan.aux@.len() == start.len(),
            plan.inline@ == inline,
            *plan == (Plan { inline: plan.inline, aux: plan.aux, ..*old(plan) }),
        decreases count - k,
    {
        let (po, ao): (usize, usize) = plan.nested[k];
        proof {
            let p = old(plan).nested@[k as int];
            assert(p.0 + 8 <= old(plan).aux@.len() && p.1 <= old(plan).aux@.len());
        }
        put64(&mut plan.aux, po, base + ao as u64);
        k += 1;
    }
    if capped && control && count > 0 {
        proof {
            let p = old(plan).nested@[0];
        }
        if get32(&plan.inline, 8) == cx.abi.controls.fb_get_info {
            let asked: u32 = get32(&plan.aux, 0);
            plan.fb_info_list = Some((plan.nested[count - 1].1, asked as usize));
        } else {
            plan.fb_info_list = None;
        }
    } else {
        plan.fb_info_list = None;
    }
    plan.request = if plan.dev.is_uvm() {
        plan.nr as u64
    } else {
        iowr(plan.nr, plan.inline_len as u32)
    };
    plan.stage = Stage::Substitute;
    Ok(())
}

/// Whether an allocation asks for a callback into the guest's kernel.
pub open spec fn is_callback(abi: &Abi, plan: &Plan) -> bool {
    &&& plan.is(abi.escapes.rm_alloc)
    &&& plan.inline_len >= 16
    &&& plan.aux@.len() >= 24
    &&& le32(plan.inline@, 12) == CLASS_KERNEL_CALLBACK || le32(plan.inline@, 12)
        == CLASS_KERNEL_CALLBACK_EX
}

/// Whether a control is this one, with so many bytes of parameters, and names a pointer of
/// the guest's kernel at `at`.
pub open spec fn is_waiter_control(abi: &Abi, plan: &Plan, cmd: u32, len: int, at: int) -> bool {
    &&& plan.is(abi.escapes.rm_control)
    &&& plan.inline_len >= 32
    &&& le32(plan.inline@, 8) == cmd
    &&& plan.aux@.len() >= len
    &&& le64(plan.aux@, at) > u32::MAX
}

/// The waiter that a control asks for, in a slot.
pub open spec fn waiter_of(plan: &Plan, slot: WaiterSlot, generation: u64) -> Waiter {
    Waiter {
        slot,
        generation,
        target: WaiterTarget::named(plan.inline@, plan.aux@),
        h_client: le32(plan.inline@, 0),
        guest_kc: le64(plan.aux@, 24),
        token: plan.token,
    }
}

/// The slot that a client put back last, and its events without it.
pub open spec fn popped(v: EventView, client: u32) -> Option<(WaiterSlot, EventView)> {
    match crate::events::pooled_below(v.pool, client, v.pool.len() as int) {
        Some(i) => Some((v.pool[i].slot, EventView { pool: v.pool.remove(i), ..v })),
        None => None,
    }
}

/// The events with a number more given out.
pub open spec fn numbered(v: EventView) -> EventView {
    EventView { next_id: (v.next_id + 1) as u64, ..v }
}

/// What a callback of the guest needs: an OS event, and the events of the session once its
/// number is given out. A waiter takes a generation first, and then the slot that its client
/// put back last where there is one.
pub open spec fn substituted(
    abi: &Abi,
    v: EventView,
    p: Plan,
    q: Plan,
    w: EventView,
    r: Result<(), Refusal>,
) -> bool {
    let client = le32(p.inline@, 0);
    let register = abi.controls.semsurf_register_waiter;
    let unregister = abi.controls.semsurf_unregister_waiter;
    if is_callback(abi, &p) {
        if v.next_id > u32::MAX {
            r == Err::<(), Refusal>(Refusal::EventIds) && w == v
        } else {
            let ctl = if v.ctls.contains_key(client as u64) {
                Some(v.ctls[client as u64])
            } else {
                None
            };
            &&& r is Ok
            &&& w == numbered(v)
            &&& q == (Plan {
                stage: if ctl is Some {
                    Stage::AllocOsEvent
                } else {
                    Stage::OpenCtl
                },
                want: Want::Event { h_client: client, id: v.next_id as u32, ctl },
                ..p
            })
        }
    } else if is_waiter_control(abi, &p, register, 32, 24) {
        if v.next_generation == u64::MAX {
            r == Err::<(), Refusal>(Refusal::Generations) && w == v
        } else {
            let g = v.next_generation;
            let u = EventView { next_generation: (g + 1) as u64, ..v };
            match popped(u, client) {
                Some((slot, rest)) => {
                    &&& r is Ok
                    &&& w == rest
                    &&& q.aux@ == overlay(p.aux@, 24, bytes64(slot.id as u64))
                    &&& q == (Plan {
                        stage: Stage::Reserve,
                        aux: q.aux,
                        waiter_reg: Some(waiter_of(&p, slot, g)),
                        ..p
                    })
                },
                None => if v.next_id > u32::MAX {
                    r == Err::<(), Refusal>(Refusal::EventIds) && w == u
                } else {
                    &&& r is Ok
                    &&& w == numbered(u)
                    &&& q == (Plan {
                        stage: Stage::OpenCtl,
                        want: Want::Slot {
                            h_client: client,
                            id: v.next_id as u32,
                            generation: g,
                            ctl: None,
                        },
                        ..p
                    })
                },
            }
        }
    } else if is_waiter_control(abi, &p, unregister, 24, 16) {
        let target = WaiterTarget::named(p.inline@, p.aux@);
        &&& r is Ok
        &&& w == v
        &&& match found(v.waiters, client, le64(p.aux@, 16), target) {
            Some(id) => {
                &&& q.aux@ == overlay(p.aux@, 16, bytes64(id as u64))
                &&& q == (Plan { stage: Stage::Reserve, aux: q.aux, waiter_unreg: Some(id), ..p })
            },
            None => q == (Plan { stage: Stage::Reserve, ..p }),
        }
    } else {
        r is Ok && w == v && q == (Plan { stage: Stage::Reserve, ..p })
    }
}

/// Finds out what stands for the guest's callback: the OS event that a new one needs, a slot
/// that its client keeps, or the waiter that it cancels. One that already fired keeps the
/// guest's pointer, so that the driver answers that there is none.
#[verifier::spinoff_prover]
pub fn substitute(abi: &Abi, events: &mut EventBook, plan: &mut Plan) -> (r: Result<(), Refusal>)
    requires
        old(plan).wf(abi),
        old(plan).stage is Substitute,
        abi.wf(),
    ensures
        substituted(abi, old(events)@, *old(plan), *final(plan), final(events)@, r),
        r is Ok ==> final(plan).wf(abi),
        final(plan).arena == old(plan).arena,
{
    proof {
        let e = abi.escapes;
        let s = seq![
            e.rm_alloc,
            e.rm_alloc_memory,
            e.rm_free,
            e.rm_control,
            e.rm_vid_heap_control,
            e.alloc_os_event,
        ];
        assert(s[0] != s[3]);
    }
    let frontend: bool = !plan.dev.is_uvm();
    if frontend && plan.nr == abi.escapes.rm_alloc && plan.inline_len >= 16 && plan.aux.len() >= 24 {
        let class: u32 = get32(&plan.inline, 12);
        if class == CLASS_KERNEL_CALLBACK || class == CLASS_KERNEL_CALLBACK_EX {
            let client: u32 = get32(&plan.inline, 0);
            let id: u32 = match events.take_event_id() {
                Some(id) => id,
                None => {
                    return Err(Refusal::EventIds);
                },
            };
            let ctl: Option<i32> = events.ctl_of(client);
            plan.stage = if ctl.is_some() {
                Stage::AllocOsEvent
            } else {
                Stage::OpenCtl
            };
            plan.want = Want::Event { h_client: client, id, ctl };
            return Ok(());
        }
    }
    if frontend && plan.nr == abi.escapes.rm_control && plan.inline_len >= 32 {
        let cmd: u32 = get32(&plan.inline, 8);
        let client: u32 = get32(&plan.inline, 0);
        if cmd == abi.controls.semsurf_register_waiter && plan.aux.len() >= 32 {
            let kc: u64 = get64(&plan.aux, 24);
            if kc > u32::MAX as u64 {
                let generation: u64 = match events.take_waiter_generation() {
                    Some(g) => g,
                    None => {
                        return Err(Refusal::Generations);
                    },
                };
                if let Some(slot) = events.pop_slot(client) {
                    let target = WaiterTarget::from_params(&plan.inline, &plan.aux);
                    put64(&mut plan.aux, 24, slot.id as u64);
                    plan.waiter_reg = Some(
                        Waiter {
                            slot,
                            generation,
                            target,
                            h_client: client,
                            guest_kc: kc,
                            token: plan.token,
                        },
                    );
                    plan.stage = Stage::Reserve;
                    return Ok(());
                }
                let id: u32 = match events.take_event_id() {
                    Some(id) => id,
                    None => {
                        return Err(Refusal::EventIds);
                    },
                };
                plan.want = Want::Slot { h_client: client, id, generation, ctl: None };
                plan.stage = Stage::OpenCtl;
                return Ok(());
            }
        }
        if cmd == abi.controls.semsurf_unregister_waiter && plan.aux.len() >= 24 {
            let kc: u64 = get64(&plan.aux, 16);
            if kc > u32::MAX as u64 {
                let target = WaiterTarget::from_params(&plan.inline, &plan.aux);
                if let Some(id) = events.find_waiter(client, kc, target) {
                    put64(&mut plan.aux, 16, id as u64);
                    plan.waiter_unreg = Some(id);
                }
            }
        }
    }
    plan.stage = Stage::Reserve;
    Ok(())
}

/// Takes up the control descriptor that was opened for the event. One that serves the whole
/// client is kept and watched at once; the answer is a number of them that is worth a line.
pub fn ctl_opened(abi: &Abi, events: &mut EventBook, plan: &mut Plan, fd: i32) -> (warn: Option<
    usize,
>)
    requires
        old(plan).wf(abi),
        old(plan).stage is OpenCtl,
    ensures
        final(plan).wf(abi),
        match old(plan).want {
            Want::Event { h_client, id, .. } => {
                &&& final(events)@ == old(events)@.with_ctl(h_client, fd)
                &&& *final(plan) == (Plan {
                    stage: Stage::AllocOsEvent,
                    want: Want::Event { h_client, id, ctl: Some(fd) },
                    ..*old(plan)
                })
                &&& warn == (EventView {
                    ctls: old(events)@.ctls.insert(h_client as u64, fd),
                    ..old(events)@
                }).warning()
            },
            Want::Slot { h_client, id, generation, .. } => {
                &&& final(events)@ == old(events)@
                &&& *final(plan) == (Plan {
                    stage: Stage::AllocOsEvent,
                    want: Want::Slot { h_client, id, generation, ctl: Some(fd) },
                    ..*old(plan)
                })
                &&& warn is None
            },
            Want::Nothing => false,
        },
{
    plan.stage = Stage::AllocOsEvent;
    match plan.want {
        Want::Event { h_client, id, .. } => {
            plan.want = Want::Event { h_client, id, ctl: Some(fd) };
            events.adopt_ctl(h_client, fd)
        },
        Want::Slot { h_client, id, generation, .. } => {
            plan.want = Want::Slot { h_client, id, generation, ctl: Some(fd) };
            None
        },
        Want::Nothing => None,
    }
}

/// The callback of the guest as the session remembers it.
pub open spec fn callback_of(plan: &Plan, client: u32, id: u32) -> EventReg {
    EventReg {
        h_client: client,
        h_event: 0,
        class: le32(plan.inline@, 12),
        notify_index: le32(plan.aux@, 12),
        guest_data: le64(plan.aux@, 16),
        token: plan.token,
        id,
    }
}

/// The driver made the OS event: it takes the place of the guest's callback. Both the outer
/// class and the one in the parameters change, as the driver looks at either.
pub fn os_event_made(abi: &Abi, events: &mut EventBook, plan: &mut Plan) -> (warn: Option<usize>)
    requires
        old(plan).wf(abi),
        old(plan).stage is AllocOsEvent,
    ensures
        final(plan).wf(abi),
        match old(plan).want {
            Want::Event { h_client, id, .. } => {
                &&& final(events)@ == old(events)@
                &&& final(plan).inline@ == overlay(old(plan).inline@, 12, bytes32(CLASS_OS_EVENT))
                &&& final(plan).aux@ == overlay(
                    overlay(old(plan).aux@, 8, bytes32(CLASS_OS_EVENT)),
                    16,
                    bytes64(id as u64),
                )
                &&& *final(plan) == (Plan {
                    stage: Stage::Reserve,
                    want: Want::Nothing,
                    inline: final(plan).inline,
                    aux: final(plan).aux,
                    event_reg: Some(callback_of(old(plan), h_client, id)),
                    ..*old(plan)
                })
                &&& warn is None
            },
            Want::Slot { h_client, id, generation, ctl } => {
                let slot = WaiterSlot { ctl: ctl->Some_0, id };
                &&& final(events)@ == old(events)@.counted()
                &&& final(plan).aux@ == overlay(old(plan).aux@, 24, bytes64(id as u64))
                &&& *final(plan) == (Plan {
                    stage: Stage::Reserve,
                    want: Want::Nothing,
                    aux: final(plan).aux,
                    waiter_reg: Some(
                        Waiter { h_client, ..waiter_of(old(plan), slot, generation) },
                    ),
                    ..*old(plan)
                })
                &&& warn == old(events)@.warning()
            },
            Want::Nothing => false,
        },
        match old(plan).want {
            Want::Event { id, .. } => {
                &&& le32(final(plan).inline@, 12) == 0x79
                &&& le32(final(plan).aux@, 8) == 0x79
                &&& le64(final(plan).aux@, 16) == id
                &&& final(plan).event_reg matches Some(e) && e.id == id && e.class == le32(
                    old(plan).inline@,
                    12,
                ) && e.guest_data == le64(old(plan).aux@, 16)
            },
            Want::Slot { id, .. } => {
                &&& le64(final(plan).aux@, 24) == id
                &&& final(plan).waiter_reg matches Some(x) && x.slot.id == id && x.guest_kc == le64(
                    old(plan).aux@,
                    24,
                )
            },
            Want::Nothing => false,
        },
{
    plan.stage = Stage::Reserve;
    proof {
        match plan.want {
            Want::Event { id, .. } => {
                let (inline, aux) = (plan.inline@, plan.aux@);
                let classed = overlay(aux, 8, bytes32(CLASS_OS_EVENT));
                law_word32_reads_back(inline, 12, CLASS_OS_EVENT);
                law_word32_reads_back(aux, 8, CLASS_OS_EVENT);
                lemma_one_pointer(classed, 16, id as u64);
                lemma_same_bytes_same_word(
                    overlay(classed, 16, bytes64(id as u64)),
                    classed,
                    8,
                );
            },
            Want::Slot { id, .. } => {
                lemma_one_pointer(plan.aux@, 24, id as u64);
            },
            Want::Nothing => {},
        }
    }
    let want = plan.want;
    plan.want = Want::Nothing;
    match want {
        Want::Event { h_client, id, .. } => {
            let class: u32 = get32(&plan.inline, 12);
            let notify_index: u32 = get32(&plan.aux, 12);
            let guest_data: u64 = get64(&plan.aux, 16);
            put32(&mut plan.aux, 8, CLASS_OS_EVENT);
            put64(&mut plan.aux, 16, id as u64);
            put32(&mut plan.inline, 12, CLASS_OS_EVENT);
            plan.event_reg = Some(
                EventReg {
                    h_client,
                    h_event: 0,
                    class,
                    notify_index,
                    guest_data,
                    token: plan.token,
                    id,
                },
            );
            None
        },
        Want::Slot { h_client, id, generation, ctl } => {
            let fd: i32 = match ctl {
                Some(fd) => fd,
                None => -1,
            };
            let target = WaiterTarget::from_params(&plan.inline, &plan.aux);
            let guest_kc: u64 = get64(&plan.aux, 24);
            put64(&mut plan.aux, 24, id as u64);
            plan.waiter_reg = Some(
                Waiter {
                    slot: WaiterSlot { ctl: fd, id },
                    generation,
                    target,
                    h_client,
                    guest_kc,
                    token: plan.token,
                },
            );
            events.note_ctl_taken()
        },
        Want::Nothing => None,
    }
}

/// `UVM_ALLOC_SEMAPHORE_POOL`.
pub const UVM_ALLOC_SEMAPHORE_POOL: u32 = 68;

/// `UVM_SET_PREFERRED_LOCATION`, and the six after it that speak of managed memory.
pub const UVM_SET_PREFERRED_LOCATION: u32 = 42;

/// `UVM_UNSET_ACCESSED_BY`.
pub const UVM_UNSET_ACCESSED_BY: u32 = 47;

/// `UVM_MIGRATE`.
pub const UVM_MIGRATE: u32 = 51;

/// Whether a UVM request only moves managed memory about.
pub open spec fn is_managed(nr: u32) -> bool {
    UVM_SET_PREFERRED_LOCATION <= nr <= UVM_UNSET_ACCESSED_BY || nr == UVM_MIGRATE
}

/// What a request asks of the card's memory: the bytes, where its status will be, whether it
/// is a heap call, and the request as the log shows it.
pub open spec fn memory_ask(abi: &Abi, plan: &Plan) -> Option<(u64, usize, bool, Option<Ask>)> {
    if plan.is(abi.escapes.rm_alloc) {
        match status_off(plan.inline_len as int) {
            None => None,
            Some(off) => {
                let class = le32(plan.inline@, 12);
                let door = if off == 40 {
                    Door::Nvos64
                } else {
                    Door::Nvos21
                };
                match alloc_bytes(class, plan.aux@) {
                    Some(b) => Some((b, off, false, Ask::in_alloc(door, class, plan.aux@))),
                    None => None,
                }
            },
        }
    } else if plan.is(abi.escapes.rm_vid_heap_control) {
        match heap_bytes(abi, plan.inline@) {
            Some(b) => Some((b, V_STATUS_OFF, true, Ask::in_heap(abi, plan.inline@))),
            None => None,
        }
    } else {
        None
    }
}

/// What becomes of a request: two kinds are answered without the driver, and one that the
/// card has no room for is answered as a full card would.
pub open spec fn action_of(plan: &Plan, managed: bool, full: bool) -> Action {
    if plan.dev.uvm() && plan.nr == UVM_ALLOC_SEMAPHORE_POOL {
        Action::FakeSemaphorePool
    } else if plan.dev.uvm() && is_managed(plan.nr) && managed {
        Action::FakeManaged
    } else if full {
        Action::FakeVramFull
    } else {
        Action::Forward
    }
}

fn find_memory_ask(abi: &Abi, plan: &Plan) -> (r: Option<(u64, usize, bool, Option<Ask>)>)
    requires
        plan.wf(abi),
        abi.wf(),
    ensures
        r == memory_ask(abi, plan),
        r matches Some((b, off, _, _)) ==> b > 0 && plan.inline_len >= 12 && off + 4
            <= plan.inline_len,
{
    if plan.dev.is_uvm() {
        return None;
    }
    if plan.nr == abi.escapes.rm_alloc {
        let off: usize = match alloc_status_off(plan.inline_len) {
            Some(off) => off,
            None => {
                return None;
            },
        };
        let class: u32 = get32(&plan.inline, 12);
        match request_bytes(class, &plan.aux) {
            Some(b) => {
                let door = if off == 40 {
                    Door::Nvos64
                } else {
                    Door::Nvos21
                };
                Some((b, off, false, Ask::of_alloc(door, class, &plan.aux)))
            },
            None => None,
        }
    } else if plan.nr == abi.escapes.rm_vid_heap_control {
        match vidheap_request_bytes(abi, &plan.inline) {
            Some(b) => Some((b, V_STATUS_OFF, true, Ask::of_vidheap(abi, &plan.inline))),
            None => None,
        }
    } else {
        None
    }
}

/// Reserves what the request asks of the card's memory, and decides what becomes of it.
pub fn reserve(
    abi: &Abi,
    books: &mut Books,
    led: &mut Ledger,
    plan: &mut Plan,
    managed: bool,
)
    requires
        old(plan).wf(abi),
        old(plan).stage is Reserve,
        abi.wf(),
    ensures
        final(plan).wf(abi),
        final(books)@ == old(books)@,
        match memory_ask(abi, old(plan)) {
            Some((bytes, off, heap, ask)) => {
                let full = !old(led)@.admits(bytes);
                &&& final(led)@ == (if full {
                    old(led)@
                } else {
                    old(led)@.charged(bytes)
                })
                &&& *final(plan) == (Plan {
                    stage: Stage::Ready,
                    vram_reserved: if full {
                        0
                    } else {
                        bytes
                    },
                    vram_status_off: off,
                    vram_vidheap: heap,
                    vram_ask: ask,
                    action: action_of(old(plan), managed, full),
                    ..*old(plan)
                })
            },
            None => {
                &&& final(led)@ == old(led)@
                &&& *final(plan) == (Plan {
                    stage: Stage::Ready,
                    vram_reserved: 0,
                    vram_status_off: 0,
                    vram_vidheap: false,
                    vram_ask: None,
                    action: action_of(old(plan), managed, false),
                    ..*old(plan)
                })
            },
        },
        rows_kept(old(books)@, old(led)@, final(books)@, final(led)@),
        old(led)@.capped() ==> final(led)@.capped(),
{
    let mut full: bool = false;
    match find_memory_ask(abi, plan) {
        Some((bytes, off, heap, ask)) => {
            plan.vram_status_off = off;
            plan.vram_vidheap = heap;
            plan.vram_ask = ask;
            if books.reserve(led, bytes) {
                plan.vram_reserved = bytes;
            } else {
                plan.vram_reserved = 0;
                full = true;
            }
        },
        None => {
            plan.vram_reserved = 0;
            plan.vram_status_off = 0;
            plan.vram_vidheap = false;
            plan.vram_ask = None;
        },
    }
    let uvm: bool = plan.dev.is_uvm();
    plan.action = if uvm && plan.nr == UVM_ALLOC_SEMAPHORE_POOL {
        Action::FakeSemaphorePool
    } else if uvm && ((UVM_SET_PREFERRED_LOCATION <= plan.nr && plan.nr <= UVM_UNSET_ACCESSED_BY)
        || plan.nr == UVM_MIGRATE) && managed {
        Action::FakeManaged
    } else if full {
        Action::FakeVramFull
    } else {
        Action::Forward
    };
    plan.stage = Stage::Ready;
}

/// Gives up a request that is refused after its pages were mapped: the budget has its charge
/// back, and the answer is the arena to unmap.
pub fn abandon(budget: &mut PinBudget, plan: &Plan) -> (r: Option<Arena>)
    requires
        old(budget)@.wf(),
        plan.arena matches Some(a) ==> a.charge <= old(budget)@.leased(),
    ensures
        final(budget)@.wf(),
        r == plan.arena,
        final(budget)@ == (match plan.arena {
            Some(a) => old(budget)@.refunded(a.charge),
            None => old(budget)@,
        }),
{
    if let Some(a) = plan.arena {
        budget.refund(a.charge);
    }
    plan.arena
}

/// A request that names a client of the host, a control that is never forwarded, or a
/// descriptor of a process that nobody resolved, is refused whatever else it holds.
pub proof fn law_what_is_off_limits_never_passes(
    cx: &Context,
    mirror: MirrorView,
    req: &Req,
    payload: Seq<u8>,
    host: Option<i32>,
)
    requires
        req.dev is Some,
        ({
            let dev = req.dev->Some_0;
            let (inline, aux) = (inline_of(req, payload), aux_of(req, payload));
            ||| names_private(cx.abi, dev, req.ioctl_nr, inline, aux, cx.private@)
            ||| is_escape(dev, req, cx.abi.escapes.rm_control) && req.inline_len >= 12
                && cx.layout.ctrl_blocked
            ||| req.fd_field_off is Some && req.fd_field_token is Some && req.fd_field_proc is Some
                && host is None
        }),
    ensures
        gate(cx, mirror, req, payload) is Err || fd_number(mirror, req, host) is Err,
{
}

/// A request on a token of another node, or on a token that is not open, is refused.
pub proof fn law_a_request_rides_on_its_own_node(
    cx: &Context,
    mirror: MirrorView,
    req: &Req,
    payload: Seq<u8>,
)
    requires
        gate(cx, mirror, req, payload) is Ok,
    ensures
        mirror.at(req.target_token) matches Some(e) && req.dev == Some(e.kind),
{
}

/// What one more pointer does: its word reads as given, and the bytes outside it stay.
#[verifier::rlimit(50)]
proof fn lemma_one_pointer(s: Seq<u8>, at: int, v: u64)
    requires
        0 <= at,
        at + 8 <= s.len(),
    ensures
        overlay(s, at, bytes64(v)).len() == s.len(),
        le64(overlay(s, at, bytes64(v)), at) == v,
        forall|i: int|
            0 <= i < s.len() && !(at <= i < at + 8) ==> #[trigger] overlay(s, at, bytes64(v))[i]
                == s[i],
{
    law_word64_reads_back(s, at, v);
}

/// Every pointer inside the parameters leads to its own buffer, at the place that the request
/// named for it, where the fields of the pointers are apart; so pointers to different places
/// differ. No byte outside these fields changes.
#[verifier::rlimit(50)]
pub proof fn law_every_nested_pointer_leads_to_its_own_buffer(
    aux: Seq<u8>,
    nested: Seq<(usize, usize)>,
    base: u64,
    n: int,
)
    requires
        0 <= n <= nested.len(),
        forall|k: int|
            0 <= k < n ==> (#[trigger] nested[k]).0 + 8 <= aux.len() && base + nested[k].1
                <= u64::MAX,
        forall|j: int, k: int|
            0 <= j < k < n ==> (#[trigger] nested[j]).0 + 8 <= (#[trigger] nested[k]).0
                || nested[k].0 + 8 <= nested[j].0,
    ensures
        pointed(aux, nested, base, n).len() == aux.len(),
        forall|k: int|
            0 <= k < n ==> le64(pointed(aux, nested, base, n), (#[trigger] nested[k]).0 as int)
                == base + nested[k].1,
        forall|i: int|
            0 <= i < aux.len() && (forall|k: int|
                0 <= k < n ==> !((#[trigger] nested[k]).0 <= i < nested[k].0 + 8))
                ==> #[trigger] pointed(aux, nested, base, n)[i] == aux[i],
    decreases n,
{
    if n > 0 {
        law_every_nested_pointer_leads_to_its_own_buffer(aux, nested, base, n - 1);
        let before = pointed(aux, nested, base, n - 1);
        let at = nested[n - 1].0 as int;
        lemma_one_pointer(before, at, (base + nested[n - 1].1) as u64);
        let after = pointed(aux, nested, base, n);
        assert forall|k: int| 0 <= k < n implies le64(after, (#[trigger] nested[k]).0 as int)
            == base + nested[k].1 by {
            if k < n - 1 {
                let p = nested[k].0 as int;
                assert(p + 8 <= at || at + 8 <= p);
                lemma_same_bytes_same_word(after, before, p);
            }
        }
        assert forall|i: int|
            0 <= i < aux.len() && (forall|k: int|
                0 <= k < n ==> !((#[trigger] nested[k]).0 <= i < nested[k].0 + 8)) implies #[trigger] after[i]
            == aux[i] by {
            assert(!(nested[n - 1].0 <= i < nested[n - 1].0 + 8));
            assert(before[i] == aux[i]);
        }
    }
}

proof fn lemma_wrapped(fd: i32)
    ensures
        fd >= 0 ==> fd as u32 == fd && (fd as i64) as u64 == fd,
        fd < 0 ==> fd as u32 == 0x1_0000_0000 + fd && (fd as i64) as u64 == 0x1_0000_0000_0000_0000
            + fd,
{
    assert(fd < 0 ==> fd as u32 == 0x1_0000_0000i64 + fd) by (bit_vector);
    assert(fd < 0 ==> (fd as i64) as u64 == 0x1_0000_0000_0000_0000i128 + fd) by (bit_vector);
}

/// The descriptor field of the parameters, where there is one, reads as the host's descriptor,
/// and the bytes outside it are the guest's.
#[verifier::rlimit(50)]
pub proof fn law_the_descriptor_field_names_the_host(
    aux: Seq<u8>,
    field: Option<(u32, int, u64, i32)>,
)
    requires
        field matches Some((off, width, _, _)) ==> (width == 4 || width == 8) && off + width
            <= aux.len(),
    ensures
        with_aux_fd(aux, field).len() == aux.len(),
        field matches Some((off, width, _, fd)) ==> fd >= 0 ==> (width == 4 ==> le32(
            with_aux_fd(aux, field),
            off as int,
        ) == fd) && (width == 8 ==> le64(with_aux_fd(aux, field), off as int) == fd),
        field matches Some((off, width, _, fd)) ==> fd < 0 ==> (width == 4 ==> le32(
            with_aux_fd(aux, field),
            off as int,
        ) == 0x1_0000_0000 + fd) && (width == 8 ==> le64(with_aux_fd(aux, field), off as int)
            == 0x1_0000_0000_0000_0000 + fd),
        forall|i: int|
            0 <= i < aux.len() && !(field matches Some((off, width, _, _)) && off <= i < off
                + width) ==> #[trigger] with_aux_fd(aux, field)[i] == aux[i],
{
    if let Some((off, width, _, fd)) = field {
        lemma_wrapped(fd);
        if width == 4 {
            law_word32_reads_back(aux, off as int, fd as u32);
        } else {
            lemma_one_pointer(aux, off as int, (fd as i64) as u64);
        }
    }
}

/// A bound request: the pointer to the parameters leads to where they lie, every pointer inside
/// them to its own buffer, the descriptor field holds the host's descriptor, and every other byte
/// is the guest's.
#[verifier::rlimit(50)]
pub proof fn law_a_bound_request_is_whole(
    inline: Seq<u8>,
    embedded: Option<usize>,
    aux: Seq<u8>,
    field: Option<(u32, int, u64, i32)>,
    nested: Seq<(usize, usize)>,
    base: u64,
)
    requires
        embedded matches Some(o) ==> o + 8 <= inline.len(),
        field matches Some((off, width, _, _)) ==> (width == 4 || width == 8) && off + width
            <= aux.len(),
        forall|k: int|
            0 <= k < nested.len() ==> (#[trigger] nested[k]).0 + 8 <= aux.len() && base
                + nested[k].1 <= u64::MAX,
        forall|j: int, k: int|
            0 <= j < k < nested.len() ==> (#[trigger] nested[j]).0 + 8 <= (#[trigger] nested[k]).0
                || nested[k].0 + 8 <= nested[j].0,
        field matches Some((off, width, _, _)) ==> forall|k: int|
            0 <= k < nested.len() ==> off + width <= (#[trigger] nested[k]).0 || nested[k].0 + 8
                <= off,
    ensures
        ({
            let block = embedded_at(inline, embedded, base);
            let params = pointed(with_aux_fd(aux, field), nested, base, nested.len() as int);
            &&& block.len() == inline.len() && params.len() == aux.len()
            &&& embedded matches Some(o) ==> le64(block, o as int) == base
            &&& forall|i: int|
                0 <= i < inline.len() && !(embedded matches Some(o) && o <= i < o + 8)
                    ==> #[trigger] block[i] == inline[i]
            &&& forall|k: int|
                0 <= k < nested.len() ==> le64(params, (#[trigger] nested[k]).0 as int) == base
                    + nested[k].1
            &&& field matches Some((off, width, _, fd)) ==> fd >= 0 ==> (width == 4 ==> le32(
                params,
                off as int,
            ) == fd) && (width == 8 ==> le64(params, off as int) == fd)
            &&& forall|i: int|
                0 <= i < aux.len() && !(field matches Some((off, width, _, _)) && off <= i < off
                    + width) && (forall|k: int|
                    0 <= k < nested.len() ==> !((#[trigger] nested[k]).0 <= i < nested[k].0 + 8))
                    ==> #[trigger] params[i] == aux[i]
        }),
{
    let start = with_aux_fd(aux, field);
    let params = pointed(start, nested, base, nested.len() as int);
    if let Some(o) = embedded {
        lemma_one_pointer(inline, o as int, base);
    }
    law_the_descriptor_field_names_the_host(aux, field);
    law_every_nested_pointer_leads_to_its_own_buffer(start, nested, base, nested.len() as int);
    if let Some((off, width, _, _)) = field {
        let at = off as int;
        assert forall|i: int| at <= i < at + width implies #[trigger] params[i] == start[i] by {
            assert forall|k: int| 0 <= k < nested.len() implies !((#[trigger] nested[k]).0 <= i
                < nested[k].0 + 8) by {
                assert(off + width <= nested[k].0 || nested[k].0 + 8 <= off);
            }
        }
        lemma_same_bytes_same_word(params, start, at);
    }
}

/// The block that the driver sees: the descriptor field reads as the host's number, a pointer
/// that stands for no bytes is zero, and every other byte is the guest's.
#[verifier::rlimit(50)]
pub proof fn law_a_translated_block_names_the_host(
    inline: Seq<u8>,
    zero: Option<usize>,
    off: Option<u32>,
    number: Option<i32>,
)
    requires
        off matches Some(o) ==> o + 4 <= inline.len(),
    ensures
        ({
            let out = translated(inline, zero, off, number);
            let field = off is Some && number is Some;
            &&& out.len() == inline.len()
            &&& field && number->Some_0 >= 0 ==> le32(out, off->Some_0 as int) == number->Some_0
            &&& field && number->Some_0 < 0 ==> le32(out, off->Some_0 as int) == 0x1_0000_0000
                + number->Some_0
            &&& forall|i: int|
                0 <= i < inline.len() && !(field && off->Some_0 <= i < off->Some_0 + 4)
                    ==> #[trigger] out[i] == (if zero is Some && zero->Some_0 <= i < zero->Some_0
                    + 8 {
                    0u8
                } else {
                    inline[i]
                })
        }),
{
    let clean = match zero {
        Some(z) => cleared(inline, seq![z]),
        None => inline,
    };
    assert forall|i: int| 0 <= i < inline.len() implies #[trigger] clean[i] == (if zero is Some
        && zero->Some_0 <= i < zero->Some_0 + 8 {
        0u8
    } else {
        inline[i]
    }) by {
        if let Some(z) = zero {
            assert(seq![z][0] == z);
        }
    }
    if let (Some(o), Some(n)) = (off, number) {
        lemma_wrapped(n);
        law_word32_reads_back(clean, o as int, n as u32);
    }
}

/// The number for the descriptor field: what the owner's session answered, else the
/// descriptor that this session mirrors under the token; there is one wherever the request has
/// the field and the token, or the request is refused.
pub proof fn law_a_descriptor_comes_from_its_owner(
    mirror: MirrorView,
    req: &Req,
    host: Option<i32>,
)
    ensures
        req.fd_field_off is None || req.fd_field_token is None ==> fd_number(mirror, req, host)
            == Ok::<Option<i32>, Refusal>(None),
        req.fd_field_off is Some ==> (req.fd_field_token matches Some(token) ==> {
            let found = mirror.at(token);
            match fd_number(mirror, req, host) {
                Ok(None) => false,
                Ok(Some(n)) => host == Some(n) || (host is None && req.fd_field_proc is None
                    && found is Some && found->Some_0.fd == n),
                Err(e) => host is None && if req.fd_field_proc is Some {
                    e == Refusal::FdOwner
                } else {
                    e == Refusal::FdToken && found is None
                },
            }
        }),
{
}

/// A request passes exactly where its lengths fit, its device is known, it names no private
/// client, it is no blocked call, its shape is good, and its token is open on that device.
pub proof fn law_a_request_passes_where_nothing_is_wrong(
    cx: &Context,
    mirror: MirrorView,
    req: &Req,
    payload: Seq<u8>,
)
    ensures
        ({
            let inline = payload.take(req.inline_len as int);
            let aux = payload.subrange(req.inline_len as int, req.inline_len + req.aux_len);
            let long = payload.len() >= req.inline_len + req.aux_len && req.inline_len
                <= cx.limits.max_payload && req.aux_len <= cx.limits.max_aux;
            match gate(cx, mirror, req, payload) {
                Ok(zeros) => {
                    &&& long
                    &&& req.dev matches Some(dev) && {
                        &&& !names_private(cx.abi, dev, req.ioctl_nr, inline, aux, cx.private@)
                        &&& !(!dev.uvm() && req.ioctl_nr == cx.abi.escapes.rm_control
                            && req.inline_len >= 12 && cx.layout.ctrl_blocked)
                        &&& verdict(cx.abi, cx.layout, dev, req, inline, aux) == Ok::<
                            (Option<usize>, Seq<usize>),
                            crate::request_shape::Error,
                        >(zeros)
                        &&& mirror.at(req.target_token) matches Some(e) && e.kind == dev
                    }
                },
                Err(e) => {
                    &&& !long <==> e is Length
                    &&& long && req.dev is None <==> e is UnknownTag
                    &&& long ==> (req.dev matches Some(dev) ==> {
                        let private = names_private(
                            cx.abi,
                            dev,
                            req.ioctl_nr,
                            inline,
                            aux,
                            cx.private@,
                        );
                        let blocked = !dev.uvm() && req.ioctl_nr == cx.abi.escapes.rm_control
                            && req.inline_len >= 12 && cx.layout.ctrl_blocked;
                        let bad = verdict(cx.abi, cx.layout, dev, req, inline, aux) is Err;
                        &&& private <==> e is PrivateClient
                        &&& !private && blocked <==> e is NeverForwarded
                        &&& e is NeverForwarded ==> e == Refusal::NeverForwarded(le32(inline, 8))
                        &&& !private && !blocked && bad <==> e is Shape
                        &&& !private && !blocked && !bad && mirror.at(req.target_token) is None
                            <==> e is UnknownToken
                        &&& !private && !blocked && !bad && mirror.at(req.target_token) is Some
                            <==> e is TagDiffers
                    })
                },
            }
        }),
{
}

/// The rewritten form of an allocation: flags, address and limit stand where its driver
/// reads them, the handles before them and the rest behind them are the guest's, and the words
/// between and behind are zero.
#[verifier::rlimit(40)]
pub proof fn law_a_rewritten_allocation_reads_as_meant(
    inline: Seq<u8>,
    flags: u32,
    va: u64,
    limit: u64,
)
    requires
        inline.len() == 48,
    ensures
        ({
            let out = rewritten(inline, flags, va, limit);
            &&& out.len() == 56
            &&& le32(out, 16) == flags
            &&& le64(out, 24) == va
            &&& le64(out, 32) == limit
            &&& forall|i: int| 20 <= i < 24 || 48 <= i < 56 ==> #[trigger] out[i] == 0
            &&& forall|i: int| 0 <= i < 16 || 40 <= i < 48 ==> #[trigger] out[i] == inline[i]
        }),
{
    let a = zeroed(inline, 16, 8);
    let b = overlay(a, 16, bytes32(flags));
    let c = overlay(b, 24, bytes64(va));
    let d = overlay(c, 32, bytes64(limit));
    let out = rewritten(inline, flags, va, limit);
    assert(le32(out, 16) == flags) by {
        law_word32_reads_back(a, 16, flags);
        lemma_same_bytes_same_word(out, b, 16);
    }
    assert(le64(out, 24) == va) by {
        lemma_one_pointer(b, 24, va);
        lemma_same_bytes_same_word(out, c, 24);
    }
    assert(le64(out, 32) == limit) by {
        lemma_one_pointer(c, 32, limit);
        lemma_same_bytes_same_word(out, d, 32);
    }
}

/// The pages of a described allocation: as many runs as the request says, each the address and
/// the length that stand in the message in its turn, and the limit that the guest gave.
#[verifier::rlimit(50)]
pub proof fn law_described_pages_are_those_of_the_message(
    abi: &Abi,
    req: &Req,
    dev: Dev,
    inline: Seq<u8>,
    aux: Seq<u8>,
    memory: bool,
)
    ensures
        match described(abi, req, dev, inline, aux, memory) {
            Ok(None) => dev.uvm() || req.gpa_run_count == 0,
            Ok(Some((runs, limit, kern))) => {
                let from = if req.ioctl_nr == abi.escapes.rm_alloc {
                    abi.osdesc.len as int
                } else {
                    0
                };
                &&& memory && !dev.uvm() && req.gpa_run_count > 0
                &&& kern == (req.ioctl_nr == abi.escapes.rm_alloc)
                &&& !kern ==> req.ioctl_nr == abi.escapes.rm_alloc_memory && req.inline_len >= 44
                &&& limit < u64::MAX
                &&& kern ==> limit == le64(aux, abi.osdesc.limit_off as int)
                &&& !kern ==> limit == le64(inline, 32)
                &&& runs.len() == req.gpa_run_count
                &&& from + 16 * runs.len() <= aux.len()
                &&& forall|i: int|
                    0 <= i < runs.len() ==> (#[trigger] runs[i]).gpa.0 == le64(aux, from + 16 * i)
                        && runs[i].len.0 == le64(aux, from + 16 * i + 8)
            },
            Err(e) => {
                let kern = req.ioctl_nr == abi.escapes.rm_alloc;
                let from = if kern {
                    abi.osdesc.len as int
                } else {
                    0
                };
                &&& !dev.uvm() && req.gpa_run_count > 0
                &&& e is RunsForm <==> !kern && (req.ioctl_nr != abi.escapes.rm_alloc_memory
                    || req.inline_len < 44)
                &&& e is RunsWithoutMemory ==> !memory
                &&& e is OsdescParams ==> aux.len() < from
                &&& e is RunsUnreadable ==> from <= aux.len() < from + 16 * req.gpa_run_count
                &&& e is Limit ==> (kern && le64(aux, abi.osdesc.limit_off as int) == u64::MAX
                    || !kern && le64(inline, 32) == u64::MAX)
                &&& e is RunsForm || e is RunsWithoutMemory || e is OsdescParams
                    || e is RunsUnreadable || e is Limit
            },
        },
{
    if let Ok(Some((runs, _, _))) = described(abi, req, dev, inline, aux, memory) {
        let from = if req.ioctl_nr == abi.escapes.rm_alloc {
            abi.osdesc.len as int
        } else {
            0
        };
        assert forall|i: int| 0 <= i < runs.len() implies (#[trigger] runs[i]).gpa.0 == le64(
            aux,
            from + 16 * i,
        ) && runs[i].len.0 == le64(aux, from + 16 * i + 8) by {
            lemma_word_behind(aux, from, 16 * i);
            lemma_word_behind(aux, from, 16 * i + 8);
        }
    }
}

#[verifier::rlimit(50)]
proof fn lemma_word_behind(s: Seq<u8>, from: int, o: int)
    requires
        0 <= from,
        0 <= o,
        from + o + 8 <= s.len(),
    ensures
        le64(s.skip(from), o) == le64(s, from + o),
{
    let t = s.skip(from);
    assert(t[o] == s[from + o] && t[o + 1] == s[from + o + 1] && t[o + 2] == s[from + o + 2] && t[o
        + 3] == s[from + o + 3]);
    assert(t[o + 4] == s[from + o + 4] && t[o + 5] == s[from + o + 5] && t[o + 6] == s[from + o + 6]
        && t[o + 7] == s[from + o + 7]);
}

/// Every pointer of a request comes with the place that it leads to, in their order.
pub proof fn law_pointers_keep_their_places(req: &Req, k: int)
    requires
        0 <= k < req.nested_count,
    ensures
        nested_of(req).len() == req.nested_count,
        nested_of(req)[k].0 == req.nested@[k].ptr_off,
        nested_of(req)[k].1 == req.nested@[k].aux_off,
{
}

/// The descriptor field of the parameters: four bytes wide where the tables say so of
/// the control call, and eight elsewhere; it lies inside the parameters and takes the host's
/// descriptor.
pub proof fn law_a_descriptor_field_lies_inside(
    cx: &Context,
    plan: &Plan,
    req: &Req,
    host: Option<i32>,
)
    ensures
        match aux_fd(cx, plan, req, host) {
            Ok(None) => req.aux_fd_field_off is None || req.aux_fd_field_token is None,
            Ok(Some((off, width, token, fd))) => {
                let tabled = !plan.dev.uvm() && plan.nr == cx.abi.escapes.rm_control
                    && plan.inline_len >= 32 && cx.layout.ctrl_fd is Some;
                &&& req.aux_fd_field_off == Some(off) && req.aux_fd_field_token == Some(token)
                &&& host == Some(fd)
                &&& width == (if tabled {
                    4int
                } else {
                    8
                })
                &&& tabled ==> cx.layout.ctrl_fd == Some(off)
                &&& off + width <= plan.aux@.len()
            },
            Err(e) => {
                let tabled = !plan.dev.uvm() && plan.nr == cx.abi.escapes.rm_control
                    && plan.inline_len >= 32 && cx.layout.ctrl_fd is Some;
                &&& req.aux_fd_field_off is Some
                &&& e is AuxFdToken ==> host is None && req.aux_fd_field_token is Some
                &&& e is AuxFdTable ==> tabled && cx.layout.ctrl_fd != req.aux_fd_field_off
                &&& e is AuxFdOffset ==> req.aux_fd_field_off->Some_0 + (if tabled {
                    4int
                } else {
                    8
                }) > plan.aux@.len()
                &&& e is AuxFdToken || e is AuxFdTable || e is AuxFdOffset
            },
        },
{
}

/// Only a descriptor in a field of eight bytes is watched: it comes behind the others, with the
/// owner that the request names.
pub proof fn law_a_watched_descriptor_has_its_owner(
    v: EventView,
    req: &Req,
    field: Option<(u32, int, u64, i32)>,
)
    ensures
        ({
            let w = watched(v, req, field);
            &&& match field {
                Some((_, width, token, fd)) => if width == 8 {
                    &&& w.pollables.len() == v.pollables.len() + 1
                    &&& w.pollables.last() == (Pollable::Client {
                        token,
                        fd,
                        owner: req.aux_fd_field_proc,
                    })
                    &&& w.pollables.drop_last() == v.pollables
                } else {
                    w == v
                },
                None => w == v,
            }
            &&& w.waiters == v.waiters && w.pool == v.pool && w.ctls == v.ctls && w.next_id
                == v.next_id && w.next_generation == v.next_generation
        }),
{
    let w = watched(v, req, field);
    if let Some((_, width, token, fd)) = field {
        if width == 8 {
            assert(w.pollables.drop_last() =~= v.pollables);
        }
    }
}

/// The number of a request: that of the call by itself for UVM, and for the front end one
/// with the length of the block in it.
pub proof fn law_a_request_has_the_number_of_its_call(plan: &Plan)
    requires
        plan.nr < 0x100,
        plan.inline_len < 0x4000,
    ensures
        plan.dev.uvm() ==> request_of(plan) == plan.nr,
        !plan.dev.uvm() ==> request_of(plan) == 0xc000_0000 + 0x1_0000 * plan.inline_len + 0x4600
            + plan.nr,
{
    crate::plan::law_a_request_number_holds_call_and_size(plan.nr, plan.inline_len as u32);
}

/// What replaces the guest's callback. A fresh event takes the next number, and no other changes.
/// A pooled slot of the same client, the last one that came in, puts its own number where the
/// guest's pointer was, and the pointer is remembered. A cancellation puts there the number of
/// the waiter that it names. Nothing else of the parameters changes.
#[verifier::rlimit(50)]
pub proof fn law_a_callback_gives_way_to_a_number(
    abi: &Abi,
    v: EventView,
    p: Plan,
    q: Plan,
    w: EventView,
    r: Result<(), Refusal>,
)
    requires
        substituted(abi, v, p, q, w, r),
        r is Ok,
    ensures
        v.next_id <= w.next_id <= v.next_id + 1,
        w.waiters == v.waiters,
        w.events == v.events,
        w.ctls == v.ctls,
        w.pollables == v.pollables,
        q.inline == p.inline,
        q.token == p.token && q.target_fd == p.target_fd && q.nr == p.nr && q.request == p.request,
        match q.want {
            Want::Event { h_client, id, ctl } => q.want != p.want ==> {
                &&& id == v.next_id && w.next_id == v.next_id + 1
                &&& h_client == le32(p.inline@, 0)
                &&& le32(p.inline@, 12) == 0x78 || le32(p.inline@, 12) == 0x7e
                &&& ctl == (if v.ctls.contains_key(h_client as u64) {
                    Some(v.ctls[h_client as u64])
                } else {
                    None
                })
                &&& q.aux == p.aux
            },
            Want::Slot { h_client, id, generation, ctl } => q.want != p.want ==> {
                &&& id == v.next_id && w.next_id == v.next_id + 1
                &&& generation == v.next_generation && w.next_generation == v.next_generation + 1
                &&& h_client == le32(p.inline@, 0) && ctl is None
                &&& forall|i: int| 0 <= i < v.pool.len() ==> (#[trigger] v.pool[i]).client
                    != h_client
                &&& q.aux == p.aux
            },
            Want::Nothing => true,
        },
        q.waiter_reg != p.waiter_reg ==> {
            &&& q.waiter_reg matches Some(x)
            &&& x.guest_kc == le64(p.aux@, 24) && x.token == p.token && x.h_client == le32(
                p.inline@,
                0,
            )
            &&& x.target.surface == le32(p.inline@, 4) && x.target.index == le64(p.aux@, 0)
                && x.target.wait_value == le64(p.aux@, 8)
            &&& x.generation == v.next_generation && w.next_generation == v.next_generation + 1
            &&& exists|i: int|
                0 <= i < v.pool.len() && (#[trigger] v.pool[i]).client == x.h_client
                    && v.pool[i].slot == x.slot && w.pool == v.pool.remove(i)
            &&& p.aux@.len() >= 32 ==> le64(q.aux@, 24) == x.slot.id && q.aux@.len()
                == p.aux@.len() && forall|i: int|
                0 <= i < p.aux@.len() && !(24 <= i < 32) ==> #[trigger] q.aux@[i] == p.aux@[i]
        },
        q.waiter_unreg != p.waiter_unreg ==> {
            &&& q.waiter_unreg matches Some(id)
            &&& v.waiters.contains_key(id as u64)
            &&& v.waiters[id as u64].h_client == le32(p.inline@, 0)
            &&& v.waiters[id as u64].guest_kc == le64(p.aux@, 16)
            &&& p.aux@.len() >= 24 ==> le64(q.aux@, 16) == id && q.aux@.len() == p.aux@.len()
                && forall|i: int|
                0 <= i < p.aux@.len() && !(16 <= i < 24) ==> #[trigger] q.aux@[i] == p.aux@[i]
        },
{
    let client = le32(p.inline@, 0);
    crate::events::law_a_client_gets_its_own_last_slot(v.pool, client, v.pool.len() as int);
    if is_waiter_control(abi, &p, abi.controls.semsurf_register_waiter, 32, 24) {
        if let Some(x) = q.waiter_reg {
            if p.aux@.len() >= 32 {
                lemma_one_pointer(p.aux@, 24, x.slot.id as u64);
            }
        }
    }
    if is_waiter_control(abi, &p, abi.controls.semsurf_unregister_waiter, 24, 16) {
        let target = WaiterTarget::named(p.inline@, p.aux@);
        crate::events::law_a_cancellation_finds_what_it_names(
            v.waiters,
            client,
            le64(p.aux@, 16),
            target,
            0,
        );
        if let Some(id) = found(v.waiters, client, le64(p.aux@, 16), target) {
            lemma_one_pointer(p.aux@, 16, id as u64);
        }
    }
}

/// A registration remembers what the guest gave: the class, the index and the pointer, under
/// the number that stands for them.
pub proof fn law_a_registration_remembers_the_guest(plan: &Plan, client: u32, id: u32)
    ensures
        ({
            let e = callback_of(plan, client, id);
            &&& e.h_client == client && e.id == id && e.token == plan.token
            &&& e.class == le32(plan.inline@, 12)
            &&& e.notify_index == le32(plan.aux@, 12)
            &&& e.guest_data == le64(plan.aux@, 16)
        }),
{
}

/// What a request will hold of the card: an allocation by either form or a call on the heap, by
/// the size in it; no other request holds anything.
pub proof fn law_only_allocations_hold_memory(abi: &Abi, plan: &Plan)
    ensures
        match memory_ask(abi, plan) {
            Some((bytes, off, heap, ask)) => {
                &&& !plan.dev.uvm() && bytes > 0
                &&& heap ==> plan.nr == abi.escapes.rm_vid_heap_control && le64(plan.inline@, 88)
                    == bytes && off == 20
                &&& !heap ==> plan.nr == abi.escapes.rm_alloc && le64(plan.aux@, 64) == bytes
                    && le32(plan.inline@, 12) == 0x40 && (plan.inline_len >= 48 && off == 40
                    || plan.inline_len == 32 && off == 28)
                &&& ask matches Some(a) && a.size == bytes && a.door == (if heap {
                    Door::Nvos32
                } else if off == 40 {
                    Door::Nvos64
                } else {
                    Door::Nvos21
                })
            },
            None => plan.dev.uvm() || (plan.nr != abi.escapes.rm_vid_heap_control && plan.nr
                != abi.escapes.rm_alloc) || (plan.nr == abi.escapes.rm_alloc && (status_off(
                plan.inline_len as int,
            ) is None || alloc_bytes(le32(plan.inline@, 12), plan.aux@) is None)) || (plan.nr
                == abi.escapes.rm_vid_heap_control && heap_bytes(abi, plan.inline@) is None),
        },
{
}

/// What becomes of a request: the semaphore pool of UVM and, where it is told to, the hints
/// about managed memory succeed without the driver, a request that the card has no room for
/// is answered so, and every other one is forwarded.
pub proof fn law_only_these_requests_stay(plan: &Plan, managed: bool, full: bool)
    ensures
        ({
            let hint = 42 <= plan.nr <= 47 || plan.nr == 51;
            let a = action_of(plan, managed, full);
            &&& a is FakeSemaphorePool <==> plan.dev.uvm() && plan.nr == 68
            &&& a is FakeManaged <==> plan.dev.uvm() && hint && managed
            &&& a is FakeVramFull <==> full && !(plan.dev.uvm() && (plan.nr == 68 || hint
                && managed))
            &&& a is Forward <==> !full && !(plan.dev.uvm() && (plan.nr == 68 || hint && managed))
        }),
{
}

/// A placed arena: the allocation names the host address of the arena where the driver looks for
/// it, and the guest's own words are kept for its answer.
#[verifier::rlimit(50)]
pub proof fn law_an_allocation_names_its_arena(abi: &Abi, p: Plan, q: Plan, arena: Arena)
    requires
        p.wf(abi),
        p.stage is MapArena,
        mapped(abi, p, q, arena),
    ensures
        q.arena == Some(arena),
        q.aux@.len() == 0 && q.aux_len == 0,
        q.osdesc is None,
        q.token == p.token && q.seq == p.seq && q.dev == p.dev,
        le64(q.inline@, 24) == arena.base,
        forall|i: int| 0 <= i < 16 || 40 <= i < 44 ==> #[trigger] q.inline@[i] == p.inline@[i],
        p.osdesc->Some_0.kern ==> {
            &&& q.nr == abi.escapes.rm_alloc_memory
            &&& q.inline_len == 56 && q.inline@.len() == 56
            &&& le32(q.inline@, 16) == osdesc_flags(
                abi.osdesc,
                le32(p.aux@, abi.osdesc.attr2_off as int),
            )
            &&& le64(q.inline@, 32) == p.osdesc->Some_0.limit
            &&& q.tail matches Some(t) && t@.len() == 24 && forall|i: int|
                0 <= i < 24 ==> #[trigger] t@[i] == p.inline@[16 + i]
        },
        !p.osdesc->Some_0.kern ==> {
            &&& q.nr == p.nr && q.inline_len == p.inline_len && q.tail == p.tail
            &&& q.inline@.len() == p.inline@.len()
            &&& forall|i: int|
                0 <= i < p.inline@.len() && !(24 <= i < 32) ==> #[trigger] q.inline@[i]
                    == p.inline@[i]
        },
{
    let ask = p.osdesc->Some_0;
    if ask.kern {
        law_a_rewritten_allocation_reads_as_meant(
            p.inline@,
            osdesc_flags(abi.osdesc, le32(p.aux@, abi.osdesc.attr2_off as int)),
            arena.base,
            ask.limit,
        );
    } else {
        lemma_one_pointer(p.inline@, 24, arena.base);
    }
}

/// The list of sizes is found again at the place of the last pointer, and is as long as the
/// parameters say; it is looked for only under a cap, in the control that asks for sizes.
pub proof fn law_a_list_of_sizes_is_found_again(
    cx: &Context,
    plan: &Plan,
    inline: Seq<u8>,
    aux: Seq<u8>,
    capped: bool,
)
    ensures
        match size_list(cx, plan, inline, aux, capped) {
            Some((at, n)) => {
                &&& capped && !plan.dev.uvm() && plan.nr == cx.abi.escapes.rm_control
                &&& le32(inline, 8) == cx.abi.controls.fb_get_info
                &&& plan.nested@.len() > 0 && at == plan.nested@[plan.nested@.len() - 1].1
                &&& n == le32(aux, 0)
            },
            None => !capped || plan.dev.uvm() || plan.nr != cx.abi.escapes.rm_control
                || plan.nested@.len() == 0 || le32(inline, 8) != cx.abi.controls.fb_get_info,
        },
{
}

/// The descriptor of a request for OS events is watched for the session itself; no other request
/// is watched at this point.
pub proof fn law_a_request_for_events_is_watched(
    v: EventView,
    abi: &Abi,
    req: &Req,
    dev: Dev,
    fd: i32,
)
    ensures
        ({
            let w = polled(v, abi, req, dev, fd);
            let asks = !dev.uvm() && req.ioctl_nr == abi.escapes.alloc_os_event;
            &&& !asks ==> w == v
            &&& asks ==> w.pollables.len() == v.pollables.len() + 1 && w.pollables.drop_last()
                == v.pollables && w.pollables.last() == (Pollable::Client {
                token: req.target_token,
                fd,
                owner: None,
            })
            &&& w.events == v.events && w.waiters == v.waiters && w.ctls == v.ctls && w.next_id
                == v.next_id
        }),
{
    assert(polled(v, abi, req, dev, fd).pollables.drop_last() =~= v.pollables || polled(
        v,
        abi,
        req,
        dev,
        fd,
    ) == v);
}

/// No callback into the guest's kernel reaches the driver: one of either class gets an event, a
/// registration of a waiter gets a slot, and a request without any goes on as it is.
pub proof fn law_no_callback_goes_through(
    abi: &Abi,
    v: EventView,
    p: Plan,
    q: Plan,
    w: EventView,
    r: Result<(), Refusal>,
)
    requires
        substituted(abi, v, p, q, w, r),
        r is Ok,
    ensures
        ({
            let callback = !p.dev.uvm() && p.nr == abi.escapes.rm_alloc && p.inline_len >= 16
                && p.aux@.len() >= 24 && (le32(p.inline@, 12) == 0x78 || le32(p.inline@, 12)
                == 0x7e);
            let control = !p.dev.uvm() && p.nr == abi.escapes.rm_control && p.inline_len >= 32;
            let register = control && le32(p.inline@, 8) == abi.controls.semsurf_register_waiter
                && p.aux@.len() >= 32 && le64(p.aux@, 24) > 0xffff_ffff;
            let cancel = control && le32(p.inline@, 8) == abi.controls.semsurf_unregister_waiter
                && p.aux@.len() >= 24 && le64(p.aux@, 16) > 0xffff_ffff;
            &&& callback ==> q.want is Event && !(q.stage is Reserve)
            &&& !callback && register ==> q.want is Slot && q.stage is OpenCtl || q.waiter_reg
                is Some && q.stage is Reserve
            &&& !callback && !register && !cancel ==> q == (Plan { stage: Stage::Reserve, ..p }) && w
                == v
            &&& !callback && !register && cancel ==> q.stage is Reserve && w == v && (forall|id: u32|
                #![trigger v.waiters.contains_key(id as u64)]
                v.waiters.contains_key(id as u64) && v.waiters[id as u64].h_client == le32(
                    p.inline@,
                    0,
                ) && v.waiters[id as u64].guest_kc == le64(p.aux@, 16)
                    && v.waiters[id as u64].target == WaiterTarget::named(p.inline@, p.aux@)
                    ==> q.waiter_unreg is Some)
        }),
{
    let client = le32(p.inline@, 0);
    let target = WaiterTarget::named(p.inline@, p.aux@);
    assert forall|id: u32|
        #![trigger v.waiters.contains_key(id as u64)]
        v.waiters.contains_key(id as u64) && v.waiters[id as u64].h_client == client
            && v.waiters[id as u64].guest_kc == le64(p.aux@, 16) && v.waiters[id as u64].target
            == target implies found(v.waiters, client, le64(p.aux@, 16), target) is Some by {
        crate::events::law_a_cancellation_finds_what_it_names(
            v.waiters,
            client,
            le64(p.aux@, 16),
            target,
            id,
        );
    }
}

} // verus!
