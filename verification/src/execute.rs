//! From a prepared request to the answer that the guest gets, and what it leaves behind.
//!
//! Some requests are answered without the driver. For the others the driver's word decides:
//! only what it confirmed is kept, armed or given back.

use crate::abi::{Abi, Layout, NV_ERR_NO_MEMORY, NV_OK};
use crate::bytes::{
    bytes32, bytes64, copy_range, get32, get64, law_word32_reads_back, le32, le64, overlay, put32,
    put_bytes, put_zeros, zeroed,
};
use crate::errno::EINVAL;
use crate::events::{EventBook, EventReg, EventView};
use crate::grid::{rewrite_encoder_capacity, rewrite_virtualization_mode, Card, VIRTUALIZATION_MODE_VGX};
use crate::guest_words::GuestAddr;
use crate::host_pool::{Arena, PinBudget, PinView};
use crate::mediate::{
    card_name, fb_count, fb_entries, info_count, info_entries, lossy_text, named, pids_answer,
    remaining, rewrite_fb_info, rewrite_fb_info_list, rewrite_get_pid_info, rewrite_get_pids,
    rewrite_gpu_name, rewrite_vidheap_info, until_zero, FBINFO_COUNT_OFF, FBINFO_ENTRY,
    FBINFO_LIST_OFF, NAME_MAX, NAME_OFF, PIDINFO_COUNT_OFF, PIDINFO_ENTRY, PIDINFO_LIST_OFF,
    PIDS_LEN,
};
use crate::plan::{alloc_status_off, status_off, Action, Plan, PlanView};
use crate::pool_state::{PoolState, PoolView};
use crate::prepare::{UVM_MIGRATE, UVM_SET_PREFERRED_LOCATION, UVM_UNSET_ACCESSED_BY};
use crate::vram::{
    freed_with, given_back, heap_function, key, kind_key, law_the_listing_is_one, lemma_total,
    lemma_total_insert, listing, location, rows_kept, settled, vidheap_attr_out, vidheap_function,
    vidheap_handle, Books, BooksView, Charge, Ledger, LedgerView, Outcome, Placement, Policy,
    ProcRow, Profile, RowView, VA_ATTR, VA_HMEMORY, V_FREE, V_LEN, V_STATUS_OFF, V_TOTAL,
};
use crate::wire::{Reply, Rsp};
use vstd::prelude::*;
use vstd::utf8::encode_utf8;

verus! {

/// Where `UVM_ALLOC_SEMAPHORE_POOL_PARAMS` keeps its status.
pub const SEMAPHORE_POOL_STATUS: usize = 9240;

/// Where `UVM_MIGRATE_PARAMS` keeps its fields.
pub const MIGRATE_SEMAPHORE_ADDRESS: usize = 40;

pub const MIGRATE_SEMAPHORE_PAYLOAD: usize = 48;

pub const MIGRATE_USER_SPACE: usize = 56;

pub const MIGRATE_STATUS: usize = 72;

/// How the host answers in the card's place.
#[derive(Clone, Copy)]
pub struct Rules<'a> {
    pub abi: &'a Abi,
    /// What the tables say of this request.
    pub layout: &'a Layout,
    /// The card whose UUID the guest does not see.
    pub card: Option<&'a Card>,
    /// Whether the virtualization mode is rewritten.
    pub mode: bool,
    /// Whether the encoder's capacity is rewritten.
    pub enc: bool,
    /// Whether the card keeps its own name.
    pub name_raw: bool,
}

impl<'a> Rules<'a> {
    pub open spec fn wf(&self) -> bool {
        &&& self.abi.wf()
        &&& self.card matches Some(c) ==> c.wf()
    }
}

/// Which buffer of a request can hold a UUID: a UVM block, or the parameters of a control that
/// names the card by it.
pub open spec fn uuid_in_inline(plan: PlanView) -> bool {
    plan.dev.uvm()
}

/// Whether the parameters can hold a UUID.
pub open spec fn uuid_in_aux(rules: &Rules, plan: PlanView) -> bool {
    plan.is(rules.abi.escapes.rm_control) && plan.inline.len() >= 32
        && rules.abi.controls.with_uuid(le32(plan.inline, 8))
}

/// The buffers with the guest's UUID replaced by the card's.
pub open spec fn hosted(rules: &Rules, plan: PlanView) -> (Seq<u8>, Seq<u8>) {
    match rules.card {
        Some(c) => (
            if uuid_in_inline(plan) {
                c.hosted(plan.inline)
            } else {
                plan.inline
            },
            if uuid_in_aux(rules, plan) {
                c.hosted(plan.aux)
            } else {
                plan.aux
            },
        ),
        None => (plan.inline, plan.aux),
    }
}

/// The buffers with the card's UUID replaced by the guest's.
pub open spec fn guested(rules: &Rules, plan: PlanView) -> (Seq<u8>, Seq<u8>) {
    match rules.card {
        Some(c) => (
            if uuid_in_inline(plan) {
                c.guested(plan.inline)
            } else {
                plan.inline
            },
            if uuid_in_aux(rules, plan) {
                c.guested(plan.aux)
            } else {
                plan.aux
            },
        ),
        None => (plan.inline, plan.aux),
    }
}

/// Puts the card's UUID where the guest's stands, or the guest's where the card's does.
fn swap_uuid(rules: &Rules, plan: &mut Plan, to_host: bool)
    requires
        rules.wf(),
        old(plan).wf(rules.abi),
    ensures
        final(plan).wf(rules.abi),
        (final(plan).inline@, final(plan).aux@) == (if to_host {
            hosted(rules, old(plan)@)
        } else {
            guested(rules, old(plan)@)
        }),
        *final(plan) == (Plan {
            inline: final(plan).inline,
            aux: final(plan).aux,
            ..*old(plan)
        }),
{
    if let Some(card) = rules.card {
        if plan.dev.is_uvm() {
            if to_host {
                card.to_host(&mut plan.inline);
            } else {
                card.to_guest(&mut plan.inline);
            }
        } else if plan.nr == rules.abi.escapes.rm_control && plan.inline_len >= 32
            && rules.abi.controls.carries_uuid(get32(&plan.inline, 8)) {
            if to_host {
                card.to_host(&mut plan.aux);
            } else {
                card.to_guest(&mut plan.aux);
            }
        }
    }
}

/// The answer to a request that only moves managed memory about: the pages stay where they
/// are, so it succeeds; nothing where the block is too short for its status.
pub open spec fn managed_answer(nr: u32, inline: Seq<u8>) -> Option<Seq<u8>> {
    let ok = bytes32(NV_OK);
    if 43 <= nr <= 45 && inline.len() >= 20 {
        Some(overlay(inline, 16, ok))
    } else if nr == UVM_SET_PREFERRED_LOCATION && inline.len() >= 40 {
        Some(overlay(inline, 36, ok))
    } else if 46 <= nr <= UVM_UNSET_ACCESSED_BY && inline.len() >= 36 {
        Some(overlay(inline, 32, ok))
    } else if nr == UVM_MIGRATE && inline.len() >= 80 {
        Some(overlay(zeroed(inline, MIGRATE_USER_SPACE as int, 16), MIGRATE_STATUS as int, ok))
    } else {
        None
    }
}

/// A word that has to be written to the guest: where, and what.
#[derive(Clone, Copy, Debug, PartialEq, Eq, Structural)]
pub struct GuestWord {
    pub va: u64,
    /// The host address; nothing where no pool of the address space holds it aligned.
    pub host: Option<u64>,
    pub value: u32,
}

/// The semaphore that a migration signals once it is done.
pub open spec fn migrate_signal(pool: PoolView, plan: PlanView) -> Option<GuestWord> {
    let va = le64(plan.inline, MIGRATE_SEMAPHORE_ADDRESS as int);
    if plan.nr == UVM_MIGRATE && va != 0 {
        Some(
            GuestWord {
                va,
                host: pool.word_at(plan.token, va, 0),
                value: le32(plan.inline, MIGRATE_SEMAPHORE_PAYLOAD as int),
            },
        )
    } else {
        None
    }
}

/// How a request starts.
#[derive(Clone, Copy, Debug, PartialEq, Eq, Structural)]
pub enum Launch {
    /// The driver gets it.
    Forward,
    /// It is answered. The refusal of a full card may be worth a line, with how many there
    /// were; a migration may have a word to write.
    Answered { refusal: Option<u64>, word: Option<GuestWord> },
    /// Its block is too short to be answered.
    TooShort,
}

/// The answer to a request whose block is too short to be answered.
pub fn too_short(plan: &Plan) -> (r: Reply)
    ensures
        r.rsp == Rsp::err_spec(plan.seq, EINVAL),
        r.bytes@ == Seq::<u8>::empty(),
{
    Reply::bare(Rsp::err(plan.seq, EINVAL))
}

/// Starts a request: puts the card's UUID in it and lets it go, or answers it.
pub fn launch(rules: &Rules, pool: &PoolState, books: &mut Books, plan: &mut Plan) -> (r: Launch)
    requires
        rules.wf(),
        pool@.wf(),
        old(plan).wf(rules.abi),
        old(plan).stage is Ready,
    ensures
        final(plan).wf(rules.abi),
        *final(plan) == (Plan {
            inline: final(plan).inline,
            aux: final(plan).aux,
            ..*old(plan)
        }),
        match old(plan).action {
            Action::Forward => {
                &&& r is Forward
                &&& (final(plan).inline@, final(plan).aux@) == hosted(rules, old(plan)@)
                &&& final(books)@ == old(books)@
            },
            Action::FakeVramFull => {
                &&& final(plan).inline@ == overlay(
                    old(plan).inline@,
                    old(plan).vram_status_off as int,
                    bytes32(NV_ERR_NO_MEMORY),
                )
                &&& final(plan).aux@ == old(plan).aux@
                &&& match old(plan).vram_ask {
                    Some(ask) => {
                        let n = old(books)@.next_refusal(ask);
                        &&& final(books)@ == (BooksView {
                            refusals: old(books)@.refusals.insert(kind_key(ask.kind_spec()), n),
                            ..old(books)@
                        })
                        &&& r == (Launch::Answered {
                            refusal: if n <= 8 || n % 100 == 0 {
                                Some(n)
                            } else {
                                None
                            },
                            word: None,
                        })
                    },
                    None => final(books)@ == old(books)@ && r == (Launch::Answered {
                        refusal: None,
                        word: None,
                    }),
                }
            },
            Action::FakeSemaphorePool => {
                &&& final(plan).inline@ == (if SEMAPHORE_POOL_STATUS + 4 <= old(plan).inline_len {
                    overlay(old(plan).inline@, SEMAPHORE_POOL_STATUS as int, bytes32(NV_OK))
                } else {
                    old(plan).inline@
                })
                &&& final(plan).aux@ == old(plan).aux@
                &&& final(books)@ == old(books)@
                &&& r == (Launch::Answered { refusal: None, word: None })
            },
            Action::FakeManaged => {
                &&& final(plan).aux@ == old(plan).aux@
                &&& final(books)@ == old(books)@
                &&& match managed_answer(old(plan).nr, old(plan).inline@) {
                    Some(b) => {
                        &&& final(plan).inline@ == b
                        &&& r == (Launch::Answered {
                            refusal: None,
                            word: migrate_signal(pool@, old(plan)@),
                        })
                    },
                    None => final(plan).inline@ == old(plan).inline@ && r is TooShort,
                }
            },
        },
{
    match plan.action {
        Action::Forward => {
            swap_uuid(rules, plan, true);
            Launch::Forward
        },
        Action::FakeVramFull => {
            let off: usize = plan.vram_status_off;
            put32(&mut plan.inline, off, NV_ERR_NO_MEMORY);
            let refusal: Option<u64> = match &plan.vram_ask {
                Some(ask) => books.count_refusal(ask),
                None => None,
            };
            Launch::Answered { refusal, word: None }
        },
        Action::FakeSemaphorePool => {
            if SEMAPHORE_POOL_STATUS + 4 <= plan.inline_len {
                put32(&mut plan.inline, SEMAPHORE_POOL_STATUS, NV_OK);
            }
            Launch::Answered { refusal: None, word: None }
        },
        Action::FakeManaged => {
            let (nr, len): (u32, usize) = (plan.nr, plan.inline_len);
            if 43 <= nr && nr <= 45 && len >= 20 {
                put32(&mut plan.inline, 16, NV_OK);
            } else if nr == UVM_SET_PREFERRED_LOCATION && len >= 40 {
                put32(&mut plan.inline, 36, NV_OK);
            } else if 46 <= nr && nr <= UVM_UNSET_ACCESSED_BY && len >= 36 {
                put32(&mut plan.inline, 32, NV_OK);
            } else if nr == UVM_MIGRATE && len >= 80 {
                let va: u64 = get64(&plan.inline, MIGRATE_SEMAPHORE_ADDRESS);
                let value: u32 = get32(&plan.inline, MIGRATE_SEMAPHORE_PAYLOAD);
                put_zeros(&mut plan.inline, MIGRATE_USER_SPACE, 16);
                put32(&mut plan.inline, MIGRATE_STATUS, NV_OK);
                let word: Option<GuestWord> = if va != 0 {
                    let host: Option<u64> = pool.write_guest_u32_for(plan.token, GuestAddr::new(va));
                    Some(GuestWord { va, host, value })
                } else {
                    None
                };
                return Launch::Answered { refusal: None, word };
            } else {
                return Launch::TooShort;
            }
            Launch::Answered { refusal: None, word: None }
        },
    }
}

/// What is left to do once an answer is settled.
#[derive(Clone, Copy, Debug, PartialEq, Eq, Structural)]
pub enum Deed {
    /// Unmap an arena that the driver did not take.
    UnmapArena(Arena),
    /// Free an OS event on a control descriptor.
    FreeOsEvent { fd: i32, h_client: u32, id: u32 },
    /// Release what is left of the pools at an address.
    SweepRange { token: u64, addr: u64 },
    /// Label a client with the guest process it belongs to.
    SetSubProcessId { fd: i32, h_client: u32 },
    /// Let UVM duplicate an object from this process.
    GrantDup { fd: i32, h_client: u32, h_object: u32 },
}

/// Whether the call returned and its status at `off` says that it succeeded.
pub open spec fn succeeded(inline: Seq<u8>, ret: i32, off: int) -> bool {
    ret == 0 && off + 4 <= inline.len() && le32(inline, off) == NV_OK
}

fn has_succeeded(inline: &[u8], ret: i32, off: usize) -> (r: bool)
    ensures
        r == succeeded(inline@, ret, off as int),
{
    let len: usize = inline.len();
    if ret != 0 || off > len || len - off < 4 {
        return false;
    }
    get32(inline, off) == NV_OK
}

/// Whether an allocation, in either form, succeeded.
pub open spec fn allocated(plan: PlanView, ret: i32) -> bool {
    status_off(plan.inline.len() as int) matches Some(off) && succeeded(plan.inline, ret, off as int)
}

fn was_allocated(plan: &Plan, ret: i32) -> (r: bool)
    requires
        plan.inline_len == plan.inline@.len(),
    ensures
        r == allocated(plan@, ret),
{
    match alloc_status_off(plan.inline_len) {
        Some(off) => has_succeeded(&plan.inline, ret, off),
        None => false,
    }
}

/// Keeps the arena of an object that the driver made, and gives up one that it did not take.
fn settle_arena(
    abi: &Abi,
    pool: &mut PoolState,
    budget: &mut PinBudget,
    plan: &Plan,
    ret: i32,
) -> (r: (Option<Deed>, bool))
    requires
        plan.wf(abi),
        old(pool)@.wf(),
        old(budget)@.wf(),
        old(pool)@.held() + arena_charge(plan@) <= old(budget)@.leased(),
    ensures
        final(pool)@.wf(),
        final(pool)@.covered(final(budget)@),
        (final(pool)@, final(budget)@) == arena_settled(old(pool)@, old(budget)@, plan@, ret),
        final(budget)@.leased() - final(pool)@.held() == old(budget)@.leased() - old(pool)@.held()
            - arena_charge(plan@),
        r.0 == arena_deed(plan@, ret),
        final(budget)@.retained >= old(budget)@.retained,
        r.1 <==> old(budget)@.retained == 0 && final(budget)@.retained != 0,
{
    match plan.arena {
        None => (None, false),
        Some(arena) => {
            if has_succeeded(&plan.inline, ret, 40) {
                let root: u32 = get32(&plan.inline, 0);
                let handle: u32 = get32(&plan.inline, 8);
                let first: bool = pool.keep_osdesc_arena(budget, root, handle, arena);
                (None, first)
            } else {
                budget.refund(arena.charge);
                (Some(Deed::UnmapArena(arena)), false)
            }
        },
    }
}

/// What the arena of a request is charged.
pub open spec fn arena_charge(plan: PlanView) -> u64 {
    match plan.arena {
        Some(a) => a.charge,
        None => 0,
    }
}

/// The registrations and the budget once it is known whether the driver took the arena.
pub open spec fn arena_settled(pool: PoolView, budget: PinView, plan: PlanView, ret: i32) -> (
    PoolView,
    PinView,
) {
    match plan.arena {
        None => (pool, budget),
        Some(a) => if succeeded(plan.inline, ret, 40) {
            let (root, handle) = (le32(plan.inline, 0), le32(plan.inline, 8));
            (
                pool.keeping(root, handle, a),
                budget.retaining(pool.charge_of(root, handle)),
            )
        } else {
            (pool, budget.refunded(a.charge))
        },
    }
}

/// The arena that has to be unmapped.
pub open spec fn arena_deed(plan: PlanView, ret: i32) -> Option<Deed> {
    match plan.arena {
        Some(a) => if succeeded(plan.inline, ret, 40) {
            None
        } else {
            Some(Deed::UnmapArena(a))
        },
        None => None,
    }
}

/// The events once the driver has answered: an event or a waiter that it took is filed, a
/// slot that it did not take is free again, and a waiter that it dropped is retired.
pub open spec fn events_settled(v: EventView, plan: PlanView, ret: i32) -> EventView {
    let filed = match plan.event_reg {
        Some(r) => if allocated(plan, ret) {
            v.filed(EventReg { h_event: le32(plan.inline, 8), ..r })
        } else {
            v
        },
        None => v,
    };
    let armed = match plan.waiter_reg {
        Some(w) => if succeeded(plan.inline, ret, 28) {
            filed.armed(w)
        } else {
            filed.pooling(w.h_client, w.slot)
        },
        None => filed,
    };
    match plan.waiter_unreg {
        Some(id) => if succeeded(plan.inline, ret, 28) {
            armed.disarmed(id)
        } else {
            armed
        },
        None => armed,
    }
}

/// The OS event of a callback that the driver did not take.
pub open spec fn event_deed(v: EventView, plan: PlanView, ret: i32) -> Option<Deed> {
    match plan.event_reg {
        Some(r) => if !allocated(plan, ret) && v.ctls.contains_key(r.h_client as u64) {
            Some(
                Deed::FreeOsEvent {
                    fd: v.ctls[r.h_client as u64],
                    h_client: r.h_client,
                    id: r.id,
                },
            )
        } else {
            None
        },
        None => None,
    }
}

fn settle_events(abi: &Abi, events: &mut EventBook, plan: &Plan, ret: i32) -> (r: Option<Deed>)
    requires
        plan.wf(abi),
    ensures
        final(events)@ == events_settled(old(events)@, plan@, ret),
        r == event_deed(old(events)@, plan@, ret),
{
    let mut deed: Option<Deed> = None;
    if let Some(reg) = plan.event_reg {
        if was_allocated(plan, ret) {
            events.file(EventReg { h_event: get32(&plan.inline, 8), ..reg });
        } else if let Some(fd) = events.ctl_of(reg.h_client) {
            deed = Some(Deed::FreeOsEvent { fd, h_client: reg.h_client, id: reg.id });
        }
    }
    if let Some(w) = plan.waiter_reg {
        if has_succeeded(&plan.inline, ret, 28) {
            events.arm(w);
        } else {
            events.push_slot(w.h_client, w.slot);
        }
    }
    if let Some(id) = plan.waiter_unreg {
        if has_succeeded(&plan.inline, ret, 28) {
            events.disarm(id);
        }
    }
    deed
}

/// The inline block as the guest gets it back where its form was rewritten: its own words,
/// with the driver's status.
pub open spec fn restored(plan: PlanView) -> Seq<u8> {
    match plan.tail {
        Some(t) => overlay(plan.inline, 16, t),
        None => plan.inline,
    }
}

fn restore(abi: &Abi, plan: &mut Plan)
    requires
        old(plan).wf(abi),
    ensures
        final(plan).wf(abi),
        final(plan).inline@ == restored(old(plan)@),
        *final(plan) == (Plan { inline: final(plan).inline, ..*old(plan) }),
{
    if let Some(tail) = &plan.tail {
        put_bytes(&mut plan.inline, 16, tail);
    }
}

/// The framebuffer query with every size capped.
pub open spec fn fb_info_answer(abi: &Abi, aux: Seq<u8>, limit: u64, used: u64) -> Seq<u8> {
    if limit == 0 || aux.len() < FBINFO_LIST_OFF + FBINFO_ENTRY {
        aux
    } else {
        fb_entries(
            abi,
            aux,
            FBINFO_LIST_OFF as int,
            fb_count(le32(aux, FBINFO_COUNT_OFF as int) as int, aux.len() - FBINFO_LIST_OFF),
            limit,
            used,
        )
    }
}

/// The framebuffer query of the older form, whose list lies elsewhere.
pub open spec fn fb_list_answer(
    abi: &Abi,
    aux: Seq<u8>,
    list: Option<(usize, usize)>,
    limit: u64,
    used: u64,
) -> Seq<u8> {
    match list {
        Some((at, asked)) => if at > aux.len() || limit == 0 || aux.len() - at < FBINFO_ENTRY {
            aux
        } else {
            fb_entries(abi, aux, at as int, fb_count(asked as int, aux.len() - at), limit, used)
        },
        None => aux,
    }
}

/// The name of the card, with the guest's size in it.
pub open spec fn name_answer(aux: Seq<u8>, profile: Profile) -> Seq<u8> {
    if aux.len() < NAME_OFF + NAME_MAX {
        aux
    } else {
        let field = aux.subrange(NAME_OFF as int, NAME_OFF + NAME_MAX);
        named(aux, encode_utf8(card_name(lossy_text(until_zero(field)), profile.fb_length)))
    }
}

/// The list of processes, or what they hold, from the machine's own books; nothing where the
/// parameters are too short for it.
pub open spec fn process_answer(abi: &Abi, pids: bool, aux: Seq<u8>, rows: Seq<RowView>) -> Option<
    Seq<u8>,
> {
    if pids {
        if aux.len() < PIDS_LEN {
            None
        } else {
            Some(pids_answer(aux, rows))
        }
    } else if aux.len() < PIDINFO_LIST_OFF + PIDINFO_ENTRY {
        None
    } else {
        let n = info_count(aux);
        Some(overlay(info_entries(abi, aux, rows, n), PIDINFO_COUNT_OFF as int, bytes32(n as u32)))
    }
}

/// The virtualization mode and the encoder's capacity, as the guest's profile has them.
pub open spec fn profile_answer(rules: &Rules, profile: Profile, cmd: u32, aux: Seq<u8>) -> Seq<u8> {
    let f = rules.abi.answers;
    if cmd == rules.abi.controls.gpu_get_virtualization_mode && profile.policy == Policy::Grid
        && rules.mode {
        if aux.len() < f.virtmode_len {
            aux
        } else {
            overlay(
                overlay(aux, 0, bytes32(VIRTUALIZATION_MODE_VGX)),
                f.virtmode_gridbuild as int,
                seq![1u8],
            )
        }
    } else if cmd == rules.abi.controls.gpu_get_encoder_capacity && rules.enc {
        let percent = profile.encoder_capacity;
        if aux.len() < f.enccap_len || percent == 0 || percent >= 100 {
            aux
        } else {
            overlay(aux, f.enccap_off as int, bytes32(percent))
        }
    } else {
        aux
    }
}

/// Whether a control asks for the host's processes.
pub open spec fn asks_for_processes(abi: &Abi, cmd: u32) -> bool {
    cmd == abi.controls.gpu_get_pids || cmd == abi.controls.gpu_get_pid_info
}

/// Whether the answer of a control is looked at: the driver gave one.
pub open spec fn answered_control(rules: &Rules, plan: PlanView, ret: i32) -> bool {
    plan.is(rules.abi.escapes.rm_control) && plan.inline.len() >= 32 && succeeded(
        plan.inline,
        ret,
        28,
    )
}

/// The framebuffer query, in either form, with every size capped.
pub open spec fn sizes_answer(abi: &Abi, led: LedgerView, plan: PlanView, cmd: u32) -> Seq<u8> {
    let a = if led.limit() != 0 && cmd == abi.controls.fb_get_info_v2 {
        fb_info_answer(abi, plan.aux, led.limit(), led.used)
    } else {
        plan.aux
    };
    fb_list_answer(abi, a, plan.fb_info_list, led.limit(), led.used)
}

fn cap_sizes(abi: &Abi, led: &Ledger, plan: &mut Plan, cmd: u32)
    ensures
        final(plan).aux@ == sizes_answer(abi, led@, old(plan)@, cmd),
        final(plan).aux@.len() == old(plan).aux@.len(),
        *final(plan) == (Plan { aux: final(plan).aux, ..*old(plan) }),
{
    let (limit, used): (u64, u64) = (led.limit(), led.used());
    if limit != 0 && cmd == abi.controls.fb_get_info_v2 {
        rewrite_fb_info(abi, &mut plan.aux, limit, used);
    }
    if let Some((at, asked)) = plan.fb_info_list {
        if at <= plan.aux.len() {
            rewrite_fb_info_list(abi, &mut plan.aux, at, asked, limit, used);
        }
    }
}

fn own_name(aux: &mut Vec<u8>, profile: Profile)
    ensures
        final(aux)@ == name_answer(old(aux)@, profile),
        final(aux)@.len() == old(aux)@.len(),
{
    rewrite_gpu_name(aux, profile);
}

fn own_processes(abi: &Abi, books: &Books, led: &Ledger, aux: &mut Vec<u8>, pids: bool) -> (fine:
    bool)
    ensures
        match process_answer(abi, pids, old(aux)@, listing(led@.roster)) {
            Some(x) => fine && final(aux)@ == x,
            None => !fine && final(aux)@ == old(aux)@,
        },
        final(aux)@.len() == old(aux)@.len(),
{
    let roster: Vec<ProcRow> = books.roster(led);
    proof {
        law_the_listing_is_one(led@.roster, roster@.map_values(|r: ProcRow| r@));
    }
    let n: Option<usize> = if pids {
        rewrite_get_pids(aux, &roster)
    } else {
        rewrite_get_pid_info(abi, aux, &roster)
    };
    n.is_some()
}

fn own_profile(rules: &Rules, profile: Profile, aux: &mut Vec<u8>, cmd: u32)
    requires
        rules.wf(),
    ensures
        final(aux)@ == profile_answer(rules, profile, cmd, old(aux)@),
        final(aux)@.len() == old(aux)@.len(),
{
    let grid: bool = match profile.policy {
        Policy::Grid => true,
        _ => false,
    };
    if cmd == rules.abi.controls.gpu_get_virtualization_mode && grid && rules.mode {
        rewrite_virtualization_mode(rules.abi, aux);
    } else if cmd == rules.abi.controls.gpu_get_encoder_capacity && rules.enc {
        rewrite_encoder_capacity(rules.abi, aux, profile.encoder_capacity);
    }
}

/// The parameters with the sizes and the name of the guest's card.
pub open spec fn card_answer(rules: &Rules, led: LedgerView, plan: PlanView) -> Seq<u8> {
    let cmd = le32(plan.inline, 8);
    let b = sizes_answer(rules.abi, led, plan, cmd);
    if cmd == rules.abi.controls.gpu_get_name_string && !rules.name_raw {
        name_answer(b, led.profile)
    } else {
        b
    }
}

/// The parameters of a control as the guest gets them, and whether they may be sent at all.
pub open spec fn mediated(rules: &Rules, led: LedgerView, plan: PlanView, ret: i32) -> (Seq<u8>, bool) {
    let abi = rules.abi;
    let cmd = le32(plan.inline, 8);
    if !answered_control(rules, plan, ret) {
        (plan.aux, true)
    } else {
        let c = card_answer(rules, led, plan);
        let (d, fine) = if asks_for_processes(abi, cmd) {
            match process_answer(abi, cmd == abi.controls.gpu_get_pids, c, listing(led.roster)) {
                Some(x) => (x, true),
                None => (c, false),
            }
        } else {
            (c, true)
        };
        (profile_answer(rules, led.profile, cmd, d), fine)
    }
}

/// Rewrites the answer of a control: the guest sees its own card and its own processes. An
/// answer about the host's processes that is not of the known form may not be sent.
fn mediate_control(rules: &Rules, books: &Books, led: &Ledger, plan: &mut Plan, ret: i32) -> (fine:
    bool)
    requires
        rules.wf(),
        old(plan).wf(rules.abi),
    ensures
        final(plan).wf(rules.abi),
        (final(plan).aux@, fine) == mediated(rules, led@, old(plan)@, ret),
        *final(plan) == (Plan { aux: final(plan).aux, ..*old(plan) }),
{
    if plan.dev.is_uvm() || plan.nr != rules.abi.escapes.rm_control || plan.inline_len < 32
        || !has_succeeded(&plan.inline, ret, 28) {
        return true;
    }
    let cmd: u32 = get32(&plan.inline, 8);
    cap_sizes(rules.abi, led, plan, cmd);
    let profile: Profile = led.profile();
    if cmd == rules.abi.controls.gpu_get_name_string && !rules.name_raw {
        own_name(&mut plan.aux, profile);
    }
    let mut fine: bool = true;
    if cmd == rules.abi.controls.gpu_get_pids || cmd == rules.abi.controls.gpu_get_pid_info {
        fine = own_processes(
            rules.abi,
            books,
            led,
            &mut plan.aux,
            cmd == rules.abi.controls.gpu_get_pids,
        );
    }
    own_profile(rules, profile, &mut plan.aux, cmd);
    fine
}

/// The inline block of a heap query with the total and the free bytes capped.
pub open spec fn heap_info_answer(abi: &Abi, led: LedgerView, plan: PlanView, ret: i32) -> Seq<u8> {
    if led.limit() != 0 && plan.is(abi.escapes.rm_vid_heap_control) && succeeded(
        plan.inline,
        ret,
        V_STATUS_OFF as int,
    ) && heap_function(plan.inline) == Some(abi.heap.info) {
        overlay(
            overlay(plan.inline, V_TOTAL as int, bytes64(led.limit())),
            V_FREE as int,
            bytes64(remaining(led.limit(), led.used)),
        )
    } else {
        plan.inline
    }
}

fn mediate_heap(abi: &Abi, led: &Ledger, plan: &mut Plan, ret: i32)
    requires
        old(plan).wf(abi),
    ensures
        final(plan).wf(abi),
        final(plan).inline@ == heap_info_answer(abi, led@, old(plan)@, ret),
        *final(plan) == (Plan { inline: final(plan).inline, ..*old(plan) }),
{
    if !plan.dev.is_uvm() && plan.nr == abi.escapes.rm_vid_heap_control && has_succeeded(
        &plan.inline,
        ret,
        V_STATUS_OFF,
    ) {
        rewrite_vidheap_info(abi, &mut plan.inline, led.limit(), led.used());
    }
}

/// The attributes that came back, and the handle of the memory.
pub open spec fn placed(plan: PlanView) -> (u32, u32) {
    if plan.vram_vidheap {
        if plan.inline.len() >= V_LEN {
            (le32(plan.inline, VA_ATTR as int), le32(plan.inline, VA_HMEMORY as int))
        } else {
            (0, 0)
        }
    } else {
        (
            if plan.aux.len() >= 28 {
                le32(plan.aux, 24)
            } else {
                0
            },
            le32(plan.inline, 8),
        )
    }
}

/// The charge that a request leaves where the driver placed it in the card's memory.
pub open spec fn charge_of(plan: PlanView) -> Charge {
    Charge {
        token: plan.token,
        root: le32(plan.inline, 0),
        parent: le32(plan.inline, 4),
        handle: placed(plan).1,
        bytes: plan.vram_reserved,
    }
}

/// How a kind of request ended.
pub open spec fn ending(plan: PlanView, ret: i32) -> Option<Placement> {
    match plan.vram_ask {
        Some(ask) => {
            let (door, class, requested_location) = ask.kind_spec();
            let off = plan.vram_status_off as int;
            let outcome = if succeeded(plan.inline, ret, off) {
                Outcome::Placed(location(placed(plan).0))
            } else {
                Outcome::Failed(le32(plan.inline, off))
            };
            Some(Placement { door, class, requested_location, outcome })
        },
        None => None,
    }
}

/// The ledger that has seen how a kind of request ended.
pub open spec fn ending_seen(l: LedgerView, plan: PlanView, ret: i32) -> LedgerView {
    match ending(plan, ret) {
        Some(p) => LedgerView { seen: l.seen.insert(p), ..l },
        None => l,
    }
}

/// The books and the ledger once a reservation is settled: it is kept where the driver
/// succeeded and placed it in the card's memory, and given back otherwise.
pub open spec fn memory_settled(b: BooksView, l: LedgerView, plan: PlanView, ret: i32) -> (
    BooksView,
    LedgerView,
) {
    if plan.vram_reserved == 0 {
        (b, l)
    } else {
        settled(
            b,
            ending_seen(l, plan, ret),
            succeeded(plan.inline, ret, plan.vram_status_off as int),
            placed(plan).0,
            charge_of(plan),
        )
    }
}

fn settle_memory(abi: &Abi, books: &mut Books, led: &mut Ledger, plan: &Plan, ret: i32) -> (line:
    Option<(String, String)>)
    requires
        plan.wf(abi),
        old(books)@.balanced(),
        old(books)@.owed + plan.vram_reserved <= old(led)@.used,
    ensures
        (final(books)@, final(led)@) == memory_settled(old(books)@, old(led)@, plan@, ret),
        final(books)@.balanced(),
        final(led)@.used - final(books)@.owed == old(led)@.used - old(books)@.owed
            - plan.vram_reserved,
        rows_kept(old(books)@, old(led)@, final(books)@, final(led)@),
        old(led)@.capped() ==> final(led)@.capped(),
        line is Some <==> plan.vram_reserved != 0 && ending(plan@, ret) is Some
            && !old(led)@.seen.contains(ending(plan@, ret)->Some_0),
        line matches Some((a, b)) ==> (a@, b@) == Books::placement_line(
            plan.vram_ask->Some_0,
            succeeded(plan.inline@, ret, plan.vram_status_off as int),
            le32(plan.inline@, plan.vram_status_off as int),
            placed(plan@).0,
        ),
{
    if plan.vram_reserved == 0 {
        return None;
    }
    let off: usize = plan.vram_status_off;
    let status: u32 = get32(&plan.inline, off);
    let ok: bool = ret == 0 && status == NV_OK;
    let (attr, handle): (u32, u32) = if plan.vram_vidheap {
        (vidheap_attr_out(&plan.inline), vidheap_handle(&plan.inline))
    } else {
        let attr: u32 = if plan.aux.len() >= 28 {
            get32(&plan.aux, 24)
        } else {
            0
        };
        (attr, get32(&plan.inline, 8))
    };
    let line: Option<(String, String)> = match &plan.vram_ask {
        Some(ask) => books.placement(led, ask, ok, status, attr),
        None => None,
    };
    let c = Charge {
        token: plan.token,
        root: get32(&plan.inline, 0),
        parent: get32(&plan.inline, 4),
        handle,
        bytes: plan.vram_reserved,
    };
    proof {
        let k = key(c.root, c.handle);
        lemma_total_insert(books@.open, k, c);
        if books@.open.contains_key(k) {
            lemma_total(books@.open, k);
        }
    }
    books.settle(led, ok, attr, c);
    line
}

/// The books and the ledger after an object is gone.
pub open spec fn object_freed(b: BooksView, l: LedgerView, root: u32, handle: u32) -> (
    BooksView,
    LedgerView,
) {
    given_back(b, l, freed_with(root, handle))
}

/// Whether a heap call freed memory.
pub open spec fn heap_freed(abi: &Abi, plan: PlanView, ret: i32) -> bool {
    plan.is(abi.escapes.rm_vid_heap_control) && succeeded(plan.inline, ret, V_STATUS_OFF as int)
        && heap_function(plan.inline) == Some(abi.heap.free)
}

fn free_heap(abi: &Abi, books: &mut Books, led: &mut Ledger, plan: &Plan, ret: i32)
    requires
        plan.wf(abi),
        old(books)@.balanced(),
        old(books)@.owed <= old(led)@.used,
    ensures
        (final(books)@, final(led)@) == (if heap_freed(abi, plan@, ret) {
            object_freed(
                old(books)@,
                old(led)@,
                le32(plan.inline@, 0),
                le32(plan.inline@, VA_HMEMORY as int),
            )
        } else {
            (old(books)@, old(led)@)
        }),
        final(books)@.balanced(),
        final(led)@.used - final(books)@.owed == old(led)@.used - old(books)@.owed,
        rows_kept(old(books)@, old(led)@, final(books)@, final(led)@),
        old(led)@.capped() ==> final(led)@.capped(),
{
    if !plan.dev.is_uvm() && plan.nr == abi.escapes.rm_vid_heap_control && has_succeeded(
        &plan.inline,
        ret,
        V_STATUS_OFF,
    ) {
        let free: bool = match vidheap_function(&plan.inline) {
            Some(f) => f == abi.heap.free,
            None => false,
        };
        if free {
            let root: u32 = get32(&plan.inline, 0);
            let handle: u32 = vidheap_handle(&plan.inline);
            books.free_object(led, root, handle);
        }
    }
}

/// Whether the guest freed a UVM range, and where it was.
pub open spec fn range_freed(abi: &Abi, plan: PlanView, ret: i32) -> Option<u64> {
    if plan.dev.uvm() && plan.nr == abi.uvm.free && plan.inline.len() >= abi.uvm.free_len
        && succeeded(plan.inline, ret, abi.uvm.free_status as int) {
        Some(le64(plan.inline, abi.uvm.free_base as int))
    } else {
        None
    }
}

/// The registrations after the guest freed a UVM range.
pub open spec fn range_settled(pool: PoolView, token: u64, base: Option<u64>) -> PoolView {
    match base {
        Some(addr) => PoolView {
            pools: pool.pools.map_values(
                |p: crate::host_pool::Pool|
                    if p.token == token && p.addr == GuestAddr(addr) {
                        p.unmapped()
                    } else {
                        p
                    },
            ),
            ..pool
        },
        None => pool,
    }
}

fn free_range(abi: &Abi, pool: &mut PoolState, plan: &Plan, ret: i32) -> (r: Option<Deed>)
    requires
        plan.wf(abi),
        abi.wf(),
        old(pool)@.wf(),
    ensures
        final(pool)@.wf(),
        final(pool)@ == range_settled(old(pool)@, plan.token, range_freed(abi, plan@, ret)),
        final(pool)@.held() == old(pool)@.held(),
        r == (match range_freed(abi, plan@, ret) {
            Some(addr) => Some(Deed::SweepRange { token: plan.token, addr }),
            None => None,
        }),
{
    if plan.dev.is_uvm() && plan.nr == abi.uvm.free && plan.inline.len() >= abi.uvm.free_len
        && has_succeeded(&plan.inline, ret, abi.uvm.free_status) {
        let addr: u64 = get64(&plan.inline, abi.uvm.free_base);
        pool.release_uvm_range(plan.token, GuestAddr::new(addr));
        Some(Deed::SweepRange { token: plan.token, addr })
    } else {
        None
    }
}

/// The client that an allocation made, where it made one: it has no parent.
pub open spec fn client_made(abi: &Abi, plan: PlanView, ret: i32) -> Option<u32> {
    if plan.is(abi.escapes.rm_alloc) && plan.inline.len() >= 12 && allocated(plan, ret) && le32(
        plan.inline,
        4,
    ) == 0 && le32(plan.inline, 8) != 0 {
        Some(le32(plan.inline, 8))
    } else {
        None
    }
}

/// The events that know the descriptor a client was made on.
pub open spec fn client_noted(v: EventView, token: u64, client: Option<u32>) -> EventView {
    match client {
        Some(c) => EventView { client_token: v.client_token.insert(c as u64, token), ..v },
        None => v,
    }
}

fn note_client(abi: &Abi, events: &mut EventBook, plan: &Plan, ret: i32)
    requires
        plan.wf(abi),
    ensures
        final(events)@ == client_noted(old(events)@, plan.token, client_made(abi, plan@, ret)),
{
    if !plan.dev.is_uvm() && plan.nr == abi.escapes.rm_alloc && plan.inline_len >= 12
        && was_allocated(plan, ret) {
        let parent: u32 = get32(&plan.inline, 4);
        let client: u32 = get32(&plan.inline, 8);
        if parent == 0 && client != 0 {
            events.note_client(client, plan.token);
        }
    }
}

/// Whether the guest freed an object: its client and its handle.
pub open spec fn freed_object(abi: &Abi, plan: PlanView, ret: i32) -> Option<(u32, u32)> {
    if plan.is(abi.escapes.rm_free) && succeeded(plan.inline, ret, 12) {
        Some((le32(plan.inline, 0), le32(plan.inline, 8)))
    } else {
        None
    }
}

/// The events after an object is gone: those of its client where it is the client, else the
/// one under its handle.
pub open spec fn events_freed(v: EventView, root: u32, handle: u32) -> EventView {
    if handle == root {
        EventView {
            freed_by_free: v.freed_by_free.wrapping_add(v.release_count(root) as u64),
            ..v.released(root)
        }
    } else {
        EventView { events: v.events.remove(key(root, handle)), ..v }
    }
}

/// The OS event of a callback whose object is gone.
pub open spec fn freed_event_deed(v: EventView, root: u32, handle: u32) -> Option<Deed> {
    let k = key(root, handle);
    if handle != root && v.events.contains_key(k) && v.ctls.contains_key(
        v.events[k].h_client as u64,
    ) {
        let r = v.events[k];
        Some(
            Deed::FreeOsEvent { fd: v.ctls[r.h_client as u64], h_client: r.h_client, id: r.id },
        )
    } else {
        None
    }
}

/// The registrations after an object is gone: its arena stays registered for good, and so do
/// those of its client where it is the client.
pub open spec fn arenas_freed(pool: PoolView, root: u32, handle: u32) -> PoolView {
    let rest = pool.dropping(root, handle);
    if handle == root {
        PoolView { kept: crate::pool_state::kept_without(rest.kept, root), ..rest }
    } else {
        rest
    }
}

fn free_object(
    abi: &Abi,
    pool: &mut PoolState,
    budget: &mut PinBudget,
    books: &mut Books,
    led: &mut Ledger,
    events: &mut EventBook,
    plan: &Plan,
    ret: i32,
) -> (r: (Option<Deed>, bool))
    requires
        plan.wf(abi),
        old(pool)@.wf(),
        old(pool)@.covered(old(budget)@),
        old(books)@.balanced(),
        old(books)@.owed <= old(led)@.used,
    ensures
        final(pool)@.wf(),
        final(pool)@.covered(final(budget)@),
        final(books)@.balanced(),
        final(led)@.used - final(books)@.owed == old(led)@.used - old(books)@.owed,
        rows_kept(old(books)@, old(led)@, final(books)@, final(led)@),
        old(led)@.capped() ==> final(led)@.capped(),
        final(pool)@.held() <= old(pool)@.held(),
        final(budget)@.retained >= old(budget)@.retained,
        final(budget)@.leased() - final(pool)@.held() == old(budget)@.leased() - old(pool)@.held(),
        final(budget)@ == old(budget)@.retaining(
            (old(pool)@.held() - final(pool)@.held()) as u64,
        ),
        match freed_object(abi, plan@, ret) {
            Some((root, handle)) => {
                &&& final(pool)@ == arenas_freed(old(pool)@, root, handle)
                &&& (final(books)@, final(led)@) == object_freed(
                    old(books)@,
                    old(led)@,
                    root,
                    handle,
                )
                &&& final(events)@ == events_freed(old(events)@, root, handle)
                &&& r.0 == freed_event_deed(old(events)@, root, handle)
            },
            None => {
                &&& final(pool)@ == old(pool)@
                &&& final(books)@ == old(books)@
                &&& final(led)@ == old(led)@
                &&& final(events)@ == old(events)@
                &&& r.0 is None
            },
        },
        r.1 <==> old(budget)@.retained == 0 && final(budget)@.retained != 0,
{
    proof {
        assert(budget@.retaining(0) == budget@);
    }
    if plan.dev.is_uvm() || plan.nr != abi.escapes.rm_free || !has_succeeded(
        &plan.inline,
        ret,
        12,
    ) {
        return (None, false);
    }
    let root: u32 = get32(&plan.inline, 0);
    let handle: u32 = get32(&plan.inline, 8);
    let ghost start = budget@;
    let mut first: bool = pool.drop_osdesc_arena(budget, root, handle);
    books.free_object(led, root, handle);
    if handle == root {
        let freed: usize = events.release_client(root);
        if pool.drop_osdesc_client(budget, root) {
            first = true;
        }
        events.note_freed(freed);
        proof {
            assert(budget@ == start.retaining((old(pool)@.held() - pool@.held()) as u64));
        }
        (None, first)
    } else {
        let deed: Option<Deed> = match events.unfile(root, handle) {
            Some(reg) => match events.ctl_of(reg.h_client) {
                Some(fd) => Some(Deed::FreeOsEvent { fd, h_client: reg.h_client, id: reg.id }),
                None => None,
            },
            None => None,
        };
        (deed, first)
    }
}

/// The label that a fresh client of a known guest process gets.
pub open spec fn label_deed(abi: &Abi, sub_id: u32, plan: PlanView, ret: i32) -> Option<Deed> {
    if sub_id != 0 && plan.is(abi.escapes.rm_alloc) && succeeded(plan.inline, ret, 40) && le32(
        plan.inline,
        12,
    ) == abi.class_root_client {
        Some(Deed::SetSubProcessId { fd: plan.target_fd, h_client: le32(plan.inline, 8) })
    } else {
        None
    }
}

/// The grant that an object gets which UVM duplicates.
pub open spec fn grant_deed(rules: &Rules, plan: PlanView, ret: i32) -> Option<Deed> {
    if plan.is(rules.abi.escapes.rm_alloc) && plan.inline.len() >= 48 && succeeded(
        plan.inline,
        ret,
        40,
    ) && rules.layout.uvm_dupes_class {
        Some(
            Deed::GrantDup {
                fd: plan.target_fd,
                h_client: le32(plan.inline, 0),
                h_object: le32(plan.inline, 8),
            },
        )
    } else {
        None
    }
}

fn find_label(abi: &Abi, sub_id: u32, plan: &Plan, ret: i32) -> (r: Option<Deed>)
    requires
        plan.wf(abi),
    ensures
        r == label_deed(abi, sub_id, plan@, ret),
{
    if sub_id != 0 && !plan.dev.is_uvm() && plan.nr == abi.escapes.rm_alloc && has_succeeded(
        &plan.inline,
        ret,
        40,
    ) && get32(&plan.inline, 12) == abi.class_root_client {
        Some(Deed::SetSubProcessId { fd: plan.target_fd, h_client: get32(&plan.inline, 8) })
    } else {
        None
    }
}

fn find_grant(rules: &Rules, plan: &Plan, ret: i32) -> (r: Option<Deed>)
    requires
        plan.wf(rules.abi),
    ensures
        r == grant_deed(rules, plan@, ret),
{
    if !plan.dev.is_uvm() && plan.nr == rules.abi.escapes.rm_alloc && plan.inline.len() >= 48
        && has_succeeded(&plan.inline, ret, 40) && rules.layout.uvm_dupes_class {
        Some(
            Deed::GrantDup {
                fd: plan.target_fd,
                h_client: get32(&plan.inline, 0),
                h_object: get32(&plan.inline, 8),
            },
        )
    } else {
        None
    }
}

/// What a request is and what its answer says, for the log: the control or class, and the
/// status.
pub open spec fn reported(rules: &Rules, plan: PlanView) -> (u32, u32) {
    let e = rules.abi.escapes;
    let n = plan.inline.len();
    let control = plan.is(e.rm_control) && n >= 32;
    (
        if control {
            le32(plan.inline, 8)
        } else if plan.is(e.rm_alloc) && n >= 16 {
            le32(plan.inline, 12)
        } else {
            0
        },
        if control {
            le32(plan.inline, 28)
        } else if (plan.is(e.rm_alloc) || plan.is(e.rm_alloc_memory) || plan.is(e.rm_map_memory))
            && n >= 44 {
            le32(plan.inline, 40)
        } else if plan.dev.uvm() {
            match rules.layout.uvm_status {
                Some(off) => if off + 4 <= n {
                    le32(plan.inline, off as int)
                } else {
                    0
                },
                None => 0,
            }
        } else {
            0
        },
    )
}

fn report(rules: &Rules, plan: &Plan) -> (r: (u32, u32))
    ensures
        r == reported(rules, plan@),
{
    let n: usize = plan.inline.len();
    let nr: u32 = plan.nr;
    let e = rules.abi.escapes;
    if plan.dev.is_uvm() {
        let status: u32 = match rules.layout.uvm_status {
            Some(off) => if off <= n && n - off >= 4 {
                get32(&plan.inline, off)
            } else {
                0
            },
            None => 0,
        };
        return (0, status);
    }
    if nr == e.rm_control && n >= 32 {
        return (get32(&plan.inline, 8), get32(&plan.inline, 28));
    }
    let sub: u32 = if nr == e.rm_alloc && n >= 16 {
        get32(&plan.inline, 12)
    } else {
        0
    };
    let status: u32 = if (nr == e.rm_alloc || nr == e.rm_alloc_memory || nr == e.rm_map_memory)
        && n >= 44 {
        get32(&plan.inline, 40)
    } else {
        0
    };
    (sub, status)
}

/// What came of a request.
pub struct Completion {
    pub reply: Reply,
    /// What is left to do, in this order.
    pub deeds: Vec<Deed>,
    /// Where the driver put the first request of a kind, as two halves of a line.
    pub line: Option<(String, String)>,
    /// Whether pages are retained for the first time.
    pub retained: bool,
    /// The control or class, and the status.
    pub report: (u32, u32),
}

/// The request once the guest's UUID is back in it.
pub open spec fn returned(rules: &Rules, plan: PlanView) -> PlanView {
    let (inline, aux) = guested(rules, plan);
    PlanView { inline, aux, ..plan }
}

/// The request as the guest gets it back, and whether it may.
pub open spec fn answered(rules: &Rules, led: LedgerView, plan: PlanView, ret: i32) -> (
    PlanView,
    bool,
) {
    let back = returned(rules, plan);
    let whole = PlanView { inline: restored(back), ..back };
    let (aux, fine) = mediated(rules, led, whole, ret);
    let own = PlanView { aux, ..whole };
    (PlanView { inline: heap_info_answer(rules.abi, led, own, ret), ..own }, fine)
}

/// A deed, where there is one.
pub open spec fn maybe(d: Option<Deed>) -> Seq<Deed> {
    match d {
        Some(x) => seq![x],
        None => Seq::empty(),
    }
}

/// The registrations and the budget after a request.
pub open spec fn pool_completed(
    rules: &Rules,
    pool: PoolView,
    budget: PinView,
    plan: PlanView,
    last: PlanView,
    ret: i32,
) -> (PoolView, PinView) {
    let (a, b) = arena_settled(pool, budget, returned(rules, plan), ret);
    let c = range_settled(a, plan.token, range_freed(rules.abi, last, ret));
    match freed_object(rules.abi, last, ret) {
        Some((root, handle)) => {
            let d = arenas_freed(c, root, handle);
            (d, b.retaining((c.held() - d.held()) as u64))
        },
        None => (c, b),
    }
}

/// The books and the ledger after a request.
pub open spec fn books_completed(
    rules: &Rules,
    books: BooksView,
    led: LedgerView,
    last: PlanView,
    ret: i32,
) -> (BooksView, LedgerView) {
    let (a, b) = memory_settled(books, led, last, ret);
    let (c, d) = if heap_freed(rules.abi, last, ret) {
        object_freed(a, b, le32(last.inline, 0), le32(last.inline, VA_HMEMORY as int))
    } else {
        (a, b)
    };
    match freed_object(rules.abi, last, ret) {
        Some((root, handle)) => object_freed(c, d, root, handle),
        None => (c, d),
    }
}

/// The events before an object that the request freed goes.
pub open spec fn events_kept(
    rules: &Rules,
    v: EventView,
    plan: PlanView,
    last: PlanView,
    ret: i32,
) -> EventView {
    client_noted(
        events_settled(v, returned(rules, plan), ret),
        plan.token,
        client_made(rules.abi, last, ret),
    )
}

/// The events after a request.
pub open spec fn events_completed(
    rules: &Rules,
    v: EventView,
    plan: PlanView,
    last: PlanView,
    ret: i32,
) -> EventView {
    let w = events_kept(rules, v, plan, last, ret);
    match freed_object(rules.abi, last, ret) {
        Some((root, handle)) => events_freed(w, root, handle),
        None => w,
    }
}

/// What is left to do after a request, in order.
pub open spec fn deeds_after(
    rules: &Rules,
    sub_id: u32,
    v: EventView,
    plan: PlanView,
    last: PlanView,
    ret: i32,
) -> Seq<Deed> {
    let back = returned(rules, plan);
    maybe(arena_deed(back, ret)) + maybe(event_deed(v, back, ret)) + maybe(
        match range_freed(rules.abi, last, ret) {
            Some(addr) => Some(Deed::SweepRange { token: plan.token, addr }),
            None => None,
        },
    ) + maybe(
        match freed_object(rules.abi, last, ret) {
            Some((root, handle)) => freed_event_deed(
                events_kept(rules, v, plan, last, ret),
                root,
                handle,
            ),
            None => None,
        },
    ) + maybe(label_deed(rules.abi, sub_id, last, ret)) + maybe(grant_deed(rules, last, ret))
}

/// The response to a request: what the driver returned and both buffers, or nothing but an
/// error where the answer may not be sent.
pub open spec fn response(last: PlanView, fine: bool, ret: i32, errno: i32) -> (Rsp, Seq<u8>) {
    if fine {
        (
            Rsp {
                seq: last.seq,
                ret: if ret < 0 {
                    (-errno) as i32
                } else {
                    ret
                },
                token: 0,
                inline_len: last.inline.len() as u32,
                aux_len: last.aux.len() as u32,
                scm_fd_count: 0,
            },
            last.inline + last.aux,
        )
    } else {
        (Rsp::err_spec(last.seq, EINVAL), Seq::empty())
    }
}

fn push_deed(deeds: &mut Vec<Deed>, d: Option<Deed>)
    ensures
        final(deeds)@ == old(deeds)@ + maybe(d),
{
    match d {
        Some(x) => {
            deeds.push(x);
        },
        None => {},
    }
    assert(deeds@ =~= old(deeds)@ + maybe(d));
}

fn respond(abi: &Abi, plan: &Plan, fine: bool, ret: i32, errno: i32) -> (r: Reply)
    requires
        plan.wf(abi),
        errno > 0,
    ensures
        (r.rsp, r.bytes@) == response(plan@, fine, ret, errno),
{
    if !fine {
        return Reply::bare(Rsp::err(plan.seq, EINVAL));
    }
    let mut bytes: Vec<u8> = copy_range(&plan.inline, 0, plan.inline.len());
    let mut tail: Vec<u8> = copy_range(&plan.aux, 0, plan.aux.len());
    bytes.append(&mut tail);
    proof {
        assert(bytes@ =~= plan.inline@ + plan.aux@);
    }
    let out: i32 = if ret < 0 {
        -errno
    } else {
        ret
    };
    Reply {
        rsp: Rsp {
            seq: plan.seq,
            ret: out,
            token: 0,
            inline_len: plan.inline.len() as u32,
            aux_len: plan.aux.len() as u32,
            scm_fd_count: 0,
        },
        bytes,
    }
}

/// Settles a request that the driver answered, or that was answered in its place: keeps what
/// it confirmed, gives back what it did not, rewrites what the guest may not see, and says
/// what is left to do. An answer that may not be sent is refused only after the books agree
/// with what the driver did.
#[verifier::spinoff_prover]
#[verifier::rlimit(60)]
pub fn complete(
    rules: &Rules,
    sub_id: u32,
    pool: &mut PoolState,
    budget: &mut PinBudget,
    books: &mut Books,
    led: &mut Ledger,
    events: &mut EventBook,
    plan: Plan,
    ret: i32,
    errno: i32,
) -> (out: Completion)
    requires
        rules.wf(),
        plan.wf(rules.abi),
        errno > 0,
        old(pool)@.wf(),
        old(budget)@.wf(),
        old(pool)@.held() + arena_charge(plan@) <= old(budget)@.leased(),
        old(books)@.balanced(),
        old(books)@.owed + plan.vram_reserved <= old(led)@.used,
    ensures
        final(pool)@.wf(),
        final(pool)@.covered(final(budget)@),
        final(books)@.balanced(),
        final(led)@.used - final(books)@.owed == old(led)@.used - old(books)@.owed
            - plan.vram_reserved,
        final(budget)@.wf(),
        final(budget)@.leased() - final(pool)@.held() == old(budget)@.leased() - old(pool)@.held()
            - arena_charge(plan@),
        rows_kept(old(books)@, old(led)@, final(books)@, final(led)@),
        old(led)@.capped() ==> final(led)@.capped(),
        ({
            let (last, fine) = answered(rules, old(led)@, plan@, ret);
            &&& (final(pool)@, final(budget)@) == pool_completed(
                rules,
                old(pool)@,
                old(budget)@,
                plan@,
                last,
                ret,
            )
            &&& (final(books)@, final(led)@) == books_completed(
                rules,
                old(books)@,
                old(led)@,
                last,
                ret,
            )
            &&& final(events)@ == events_completed(rules, old(events)@, plan@, last, ret)
            &&& out.deeds@ == deeds_after(rules, sub_id, old(events)@, plan@, last, ret)
            &&& (out.reply.rsp, out.reply.bytes@) == response(last, fine, ret, errno)
            &&& out.report == reported(rules, last)
            &&& out.line is Some <==> last.vram_reserved != 0 && ending(last, ret) is Some && !old(
                led,
            )@.seen.contains(ending(last, ret)->Some_0)
            &&& out.line matches Some((a, b)) ==> (a@, b@) == Books::placement_line(
                last.vram_ask->Some_0,
                succeeded(last.inline, ret, last.vram_status_off as int),
                le32(last.inline, last.vram_status_off as int),
                placed(last).0,
            )
        }),
        out.retained <==> old(budget)@.retained == 0 && final(budget)@.retained != 0,
{
    let mut plan = plan;
    let ghost first_view = plan@;
    swap_uuid(rules, &mut plan, false);
    assert(plan@ =~= returned(rules, first_view));
    let mut deeds: Vec<Deed> = Vec::new();
    let (arena, kept_first) = settle_arena(rules.abi, pool, budget, &plan, ret);
    push_deed(&mut deeds, arena);
    let event: Option<Deed> = settle_events(rules.abi, events, &plan, ret);
    push_deed(&mut deeds, event);
    restore(rules.abi, &mut plan);
    let ghost whole = plan@;
    let fine: bool = mediate_control(rules, books, led, &mut plan, ret);
    let ghost own = plan@;
    mediate_heap(rules.abi, led, &mut plan, ret);
    proof {
        let (last, ok) = answered(rules, old(led)@, first_view, ret);
        assert(whole =~= PlanView {
            inline: restored(returned(rules, first_view)),
            ..returned(rules, first_view)
        });
        assert(own =~= PlanView { aux: own.aux, ..whole });
        assert(plan@ =~= last);
    }
    let line: Option<(String, String)> = settle_memory(rules.abi, books, led, &plan, ret);
    let sweep: Option<Deed> = free_range(rules.abi, pool, &plan, ret);
    push_deed(&mut deeds, sweep);
    free_heap(rules.abi, books, led, &plan, ret);
    note_client(rules.abi, events, &plan, ret);
    let (freed, freed_first) = free_object(
        rules.abi,
        pool,
        budget,
        books,
        led,
        events,
        &plan,
        ret,
    );
    push_deed(&mut deeds, freed);
    let label: Option<Deed> = find_label(rules.abi, sub_id, &plan, ret);
    push_deed(&mut deeds, label);
    let grant: Option<Deed> = find_grant(rules, &plan, ret);
    push_deed(&mut deeds, grant);
    let reply: Reply = respond(rules.abi, &plan, fine, ret, errno);
    let said: (u32, u32) = report(rules, &plan);
    proof {
        assert(deeds@ =~= deeds_after(rules, sub_id, old(events)@, first_view, plan@, ret));
        assert(budget@.retaining(0) == budget@);
    }
    Completion { reply, deeds, line, retained: kept_first || freed_first, report: said }
}

/// A free that the driver rejected, or that never ran, takes nothing from the books, the
/// events or the registrations.
pub proof fn law_a_rejected_free_keeps_everything(
    rules: &Rules,
    books: BooksView,
    led: LedgerView,
    last: PlanView,
    ret: i32,
)
    requires
        last.vram_reserved == 0,
        ret != 0 || (last.is(rules.abi.escapes.rm_free) && le32(last.inline, 12) != NV_OK) || (
        last.is(rules.abi.escapes.rm_vid_heap_control) && le32(last.inline, V_STATUS_OFF as int)
            != NV_OK),
        rules.abi.wf(),
    ensures
        freed_object(rules.abi, last, ret) is None,
        books_completed(rules, books, led, last, ret) == (books, led),
{
    let e = rules.abi.escapes;
    let s = seq![
        e.rm_alloc,
        e.rm_alloc_memory,
        e.rm_free,
        e.rm_control,
        e.rm_vid_heap_control,
        e.alloc_os_event,
    ];
    assert(s[2] != s[4]);
}

/// An allocation that the driver refused costs nothing: the reservation is given back.
pub proof fn law_a_refused_allocation_is_not_charged(
    books: BooksView,
    led: LedgerView,
    plan: PlanView,
    ret: i32,
)
    requires
        plan.vram_reserved != 0,
        !succeeded(plan.inline, ret, plan.vram_status_off as int),
        led.used >= plan.vram_reserved,
    ensures
        memory_settled(books, led, plan, ret).0 == books,
        memory_settled(books, led, plan, ret).1.used == led.used - plan.vram_reserved,
{
}

/// The host's processes never reach the guest: the answer is the machine's own list, or there
/// is none at all.
pub proof fn law_no_answer_shows_the_hosts_processes(
    rules: &Rules,
    led: LedgerView,
    plan: PlanView,
    ret: i32,
    errno: i32,
)
    requires
        answered_control(rules, plan, ret),
        asks_for_processes(rules.abi, le32(plan.inline, 8)),
        process_answer(
            rules.abi,
            le32(plan.inline, 8) == rules.abi.controls.gpu_get_pids,
            card_answer(rules, led, plan),
            listing(led.roster),
        ) is None,
    ensures
        !mediated(rules, led, plan, ret).1,
        response(plan, mediated(rules, led, plan, ret).1, ret, errno).1.len() == 0,
{
}

/// A waiter is armed only where the driver took it; else its slot is free again.
pub proof fn law_only_a_confirmed_waiter_is_armed(v: EventView, plan: PlanView, ret: i32)
    requires
        plan.waiter_reg is Some,
        plan.event_reg is None,
        plan.waiter_unreg is None,
    ensures
        ({
            let w = plan.waiter_reg->Some_0;
            let after = events_settled(v, plan, ret);
            if succeeded(plan.inline, ret, 28) {
                after.awaits(w.registration()) && after.pool == v.pool
            } else {
                after.waiters == v.waiters && after.pool.last().slot == w.slot
            }
        }),
{
}

/// The status word of a block that a hint about managed memory answers with, by the number of
/// the call.
pub open spec fn hint_status(nr: u32) -> Option<int> {
    if nr == 42 {
        Some(36)
    } else if nr == 43 || nr == 44 || nr == 45 {
        Some(16)
    } else if nr == 46 || nr == 47 {
        Some(32)
    } else if nr == 51 {
        Some(72)
    } else {
        None
    }
}

/// A hint about managed memory that is answered here succeeds: its status word is good, a
/// migration tells of no progress in user space, and no other byte changes. It is answered
/// exactly where its block has room for its status.
#[verifier::rlimit(50)]
pub proof fn law_an_answered_hint_succeeds(nr: u32, inline: Seq<u8>)
    ensures
        match managed_answer(nr, inline) {
            Some(out) => {
                &&& hint_status(nr) matches Some(off) && off + 4 <= inline.len() && le32(out, off)
                    == 0 && forall|i: int|
                    0 <= i < inline.len() && !(off <= i < off + 4) && !(nr == 51 && 56 <= i < 72)
                        ==> #[trigger] out[i] == inline[i]
                &&& nr == 51 ==> forall|i: int| 56 <= i < 72 ==> #[trigger] out[i] == 0
                &&& out.len() == inline.len()
            },
            None => match hint_status(nr) {
                Some(off) => inline.len() < (if nr == 51 {
                    80
                } else {
                    off + 4
                }),
                None => true,
            },
        },
{
    let mid = zeroed(inline, 56, 16);
    if nr == 42 && inline.len() >= 40 {
        law_word32_reads_back(inline, 36, NV_OK);
    } else if (nr == 43 || nr == 44 || nr == 45) && inline.len() >= 20 {
        law_word32_reads_back(inline, 16, NV_OK);
    } else if (nr == 46 || nr == 47) && inline.len() >= 36 {
        law_word32_reads_back(inline, 32, NV_OK);
    } else if nr == 51 && inline.len() >= 80 {
        law_word32_reads_back(mid, 72, NV_OK);
    }
}

/// A migration that names a semaphore signals it: the value of the request at the host address
/// behind the guest's.
pub proof fn law_a_migration_signals_its_semaphore(pool: PoolView, plan: PlanView)
    ensures
        match migrate_signal(pool, plan) {
            Some(w) => {
                &&& plan.nr == 51
                &&& w.va == le64(plan.inline, 40) && w.va != 0
                &&& w.value == le32(plan.inline, 48)
                &&& w.host == pool.word_at(plan.token, w.va, 0)
            },
            None => plan.nr != 51 || le64(plan.inline, 40) == 0,
        },
{
}

/// A request succeeded where the call went well and its status word, if it has the room for
/// one, is good.
pub proof fn law_success_needs_call_and_status(plan: PlanView, ret: i32, off: int)
    ensures
        succeeded(plan.inline, ret, off) <==> ret == 0 && off + 4 <= plan.inline.len() && le32(
            plan.inline,
            off,
        ) == 0,
        allocated(plan, ret) <==> ret == 0 && (plan.inline.len() >= 48 && le32(plan.inline, 40) == 0
            || plan.inline.len() == 32 && le32(plan.inline, 28) == 0),
{
}

/// The arena of an allocation is kept under the object that the driver made. Where it made
/// none, it is unmapped, and its charge goes back.
pub proof fn law_an_arena_is_kept_with_its_object(
    pool: PoolView,
    budget: PinView,
    plan: PlanView,
    a: Arena,
    ret: i32,
)
    requires
        plan.arena == Some(a),
        a.charge <= budget.used,
    ensures
        ({
            let made = ret == 0 && plan.inline.len() >= 44 && le32(plan.inline, 40) == 0;
            let (p, b) = arena_settled(pool, budget, plan, ret);
            &&& made ==> arena_deed(plan, ret) is None && b.used == budget.used
            &&& made ==> p == pool.keeping(le32(plan.inline, 0), le32(plan.inline, 8), a)
            &&& !made ==> arena_deed(plan, ret) == Some(Deed::UnmapArena(a)) && p == pool && b.used
                == budget.used - a.charge && b.retained == budget.retained
            &&& b.limit == budget.limit && b.quarantine == budget.quarantine && b.open
                == budget.open
            &&& arena_charge(plan) == a.charge
        }),
{
}

/// What a request leaves with the events: a callback that the driver took is filed under its
/// new handle, a waiter that it took is armed, one that it refused goes back to the pool of its
/// client, and a cancellation that it took disarms.
pub proof fn law_only_what_the_driver_took_is_filed(v: EventView, plan: PlanView, ret: i32)
    ensures
        ({
            let w = events_settled(v, plan, ret);
            let made = ret == 0 && (plan.inline.len() >= 48 && le32(plan.inline, 40) == 0
                || plan.inline.len() == 32 && le32(plan.inline, 28) == 0);
            let done = ret == 0 && plan.inline.len() >= 32 && le32(plan.inline, 28) == 0;
            &&& plan.event_reg is None && plan.waiter_reg is None && plan.waiter_unreg is None ==> w
                == v
            &&& plan.waiter_reg is None && plan.waiter_unreg is None ==> (plan.event_reg matches Some(
                r,
            ) ==> w == (if made {
                v.filed(
                    EventReg {
                        h_client: r.h_client,
                        h_event: le32(plan.inline, 8),
                        class: r.class,
                        notify_index: r.notify_index,
                        guest_data: r.guest_data,
                        token: r.token,
                        id: r.id,
                    },
                )
            } else {
                v
            }))
            &&& plan.event_reg is None && plan.waiter_unreg is None ==> (plan.waiter_reg matches Some(
                x,
            ) ==> w == (if done {
                v.armed(x)
            } else {
                v.pooling(x.h_client, x.slot)
            }))
            &&& plan.event_reg is None && plan.waiter_reg is None ==> (
            plan.waiter_unreg matches Some(id) ==> w == (if done {
                v.disarmed(id)
            } else {
                v
            }))
        }),
{
}

/// The event of a callback that the driver refused is freed on the client's own descriptor.
pub proof fn law_a_refused_callback_frees_its_event(v: EventView, plan: PlanView, ret: i32)
    ensures
        ({
            let made = ret == 0 && (plan.inline.len() >= 48 && le32(plan.inline, 40) == 0
                || plan.inline.len() == 32 && le32(plan.inline, 28) == 0);
            match event_deed(v, plan, ret) {
                Some(Deed::FreeOsEvent { fd, h_client, id }) => {
                    &&& !made
                    &&& plan.event_reg matches Some(r) && r.h_client == h_client && r.id == id
                    &&& v.ctls.contains_key(h_client as u64) && v.ctls[h_client as u64] == fd
                },
                Some(_) => false,
                None => match plan.event_reg {
                    Some(r) => made || !v.ctls.contains_key(r.h_client as u64),
                    None => true,
                },
            }
        }),
{
}

/// The guest gets back the words that it wrote in a form that was rewritten; the rest is what
/// the driver left. Where the driver changed nothing, the block is the guest's own.
#[verifier::rlimit(50)]
pub proof fn law_a_rewritten_form_comes_back(
    plan: PlanView,
    flags: u32,
    va: u64,
    limit: u64,
    guest: Seq<u8>,
)
    requires
        plan.tail matches Some(t) ==> t.len() == 24,
        guest.len() == 48,
    ensures
        plan.tail is None ==> restored(plan) == plan.inline,
        plan.tail matches Some(t) ==> {
            &&& restored(plan).len() == plan.inline.len()
            &&& forall|i: int|
                0 <= i < plan.inline.len() ==> #[trigger] restored(plan)[i] == (if 16 <= i < 40 {
                    t[i - 16]
                } else {
                    plan.inline[i]
                })
        },
        plan.tail == Some(guest.subrange(16, 40)) && plan.inline == crate::prepare::rewritten(
            guest,
            flags,
            va,
            limit,
        ) ==> restored(plan).take(48) == guest,
{
    if plan.tail == Some(guest.subrange(16, 40)) && plan.inline == crate::prepare::rewritten(
        guest,
        flags,
        va,
        limit,
    ) {
        crate::prepare::law_a_rewritten_allocation_reads_as_meant(guest, flags, va, limit);
        assert(restored(plan).take(48) =~= guest);
    }
}

/// An answer about anything but sizes, names, processes, the mode or the encoder reaches the
/// guest as the driver gave it, and so does one to a call that failed.
pub proof fn law_other_answers_pass(rules: &Rules, led: LedgerView, plan: PlanView, ret: i32)
    requires
        plan.fb_info_list is None,
        ({
            let cmd = le32(plan.inline, 8);
            let c = rules.abi.controls;
            cmd != c.fb_get_info_v2 && cmd != c.gpu_get_name_string && cmd != c.gpu_get_pids && cmd
                != c.gpu_get_pid_info && cmd != c.gpu_get_virtualization_mode && cmd
                != c.gpu_get_encoder_capacity
        }) || ret != 0 || plan.dev.uvm() || plan.nr != rules.abi.escapes.rm_control
            || plan.inline.len() < 32 || le32(plan.inline, 28) != 0,
    ensures
        mediated(rules, led, plan, ret) == (plan.aux, true),
{
}

/// A good answer about processes is about the guest's own, whatever the host's are; one that is
/// too short to be rewritten is not passed on.
pub proof fn law_process_answers_are_the_guests(
    rules: &Rules,
    led: LedgerView,
    plan: PlanView,
    ret: i32,
)
    requires
        plan.is(rules.abi.escapes.rm_control),
        plan.inline.len() >= 32,
        ret == 0,
        le32(plan.inline, 28) == 0,
        plan.fb_info_list is None,
        ({
            let cmd = le32(plan.inline, 8);
            let c = rules.abi.controls;
            &&& cmd == c.gpu_get_pids || cmd == c.gpu_get_pid_info
            &&& cmd != c.fb_get_info_v2 && cmd != c.gpu_get_name_string && cmd
                != c.gpu_get_virtualization_mode && cmd != c.gpu_get_encoder_capacity
            &&& c.gpu_get_pids != c.gpu_get_pid_info
        }),
    ensures
        ({
            let (out, fine) = mediated(rules, led, plan, ret);
            let rows = listing(led.roster);
            let n = info_count(plan.aux);
            if le32(plan.inline, 8) == rules.abi.controls.gpu_get_pids {
                &&& fine <==> plan.aux.len() >= 3812
                &&& fine ==> out == pids_answer(plan.aux, rows)
            } else {
                &&& fine <==> plan.aux.len() >= 80
                &&& fine ==> out == overlay(
                    info_entries(rules.abi, plan.aux, rows, n),
                    0,
                    bytes32(n as u32),
                )
            }
        }),
{
}

/// A capped VM is told of its own framebuffer: the sizes in the list of the second form, from its
/// fourth byte on, and in a list that the request carries, as many as it asks for. Without a cap
/// the sizes are the card's.
pub proof fn law_sizes_are_capped_where_they_are_told(
    abi: &Abi,
    led: LedgerView,
    plan: PlanView,
    cmd: u32,
)
    ensures
        led.profile.fb_length == 0 ==> sizes_answer(abi, led, plan, cmd) == plan.aux,
        cmd != abi.controls.fb_get_info_v2 && plan.fb_info_list is None ==> sizes_answer(
            abi,
            led,
            plan,
            cmd,
        ) == plan.aux,
        led.profile.fb_length != 0 && cmd == abi.controls.fb_get_info_v2 && plan.fb_info_list is None
            && plan.aux.len() >= 12 ==> sizes_answer(abi, led, plan, cmd) == fb_entries(
            abi,
            plan.aux,
            4,
            fb_count(le32(plan.aux, 0) as int, plan.aux.len() - 4),
            led.profile.fb_length,
            led.used,
        ),
        led.profile.fb_length != 0 && cmd != abi.controls.fb_get_info_v2 ==> (
        plan.fb_info_list matches Some((at, asked)) ==> (at + 8 <= plan.aux.len() ==> sizes_answer(
            abi,
            led,
            plan,
            cmd,
        ) == fb_entries(
            abi,
            plan.aux,
            at as int,
            fb_count(asked as int, plan.aux.len() - at),
            led.profile.fb_length,
            led.used,
        ))),
{
}

/// A VM with a type is told of the mode of a guest, and one with a share of the encoder of
/// that share; any other answer keeps its words.
#[verifier::rlimit(50)]
pub proof fn law_a_typed_vm_is_told_its_mode(
    rules: &Rules,
    profile: Profile,
    cmd: u32,
    aux: Seq<u8>,
)
    requires
        rules.abi.wf(),
    ensures
        ({
            let out = profile_answer(rules, profile, cmd, aux);
            let f = rules.abi.answers;
            let c = rules.abi.controls;
            let mode = cmd == c.gpu_get_virtualization_mode && profile.policy == Policy::Grid
                && rules.mode && aux.len() >= f.virtmode_len;
            let share = cmd == c.gpu_get_encoder_capacity && rules.enc && aux.len() >= f.enccap_len
                && 0 < profile.encoder_capacity < 100 && !(cmd == c.gpu_get_virtualization_mode
                && profile.policy == Policy::Grid && rules.mode);
            &&& out.len() == aux.len()
            &&& mode ==> le32(out, 0) == 2 && out[f.virtmode_gridbuild as int] == 1
            &&& share ==> le32(out, f.enccap_off as int) == profile.encoder_capacity
            &&& !mode && !share ==> out == aux
        }),
{
    let f = rules.abi.answers;
    let mid = overlay(aux, 0, bytes32(VIRTUALIZATION_MODE_VGX));
    if aux.len() >= f.virtmode_len {
        law_word32_reads_back(aux, 0, VIRTUALIZATION_MODE_VGX);
        crate::bytes::lemma_same_bytes_same_word(
            overlay(mid, f.virtmode_gridbuild as int, seq![1u8]),
            mid,
            0,
        );
    }
    if aux.len() >= f.enccap_len {
        law_word32_reads_back(aux, f.enccap_off as int, profile.encoder_capacity);
    }
}

/// A good answer of the heap tells a capped VM of its cap and of what is left of it; any other
/// answer is the driver's.
#[verifier::rlimit(50)]
pub proof fn law_the_heap_tells_of_the_cap(abi: &Abi, led: LedgerView, plan: PlanView, ret: i32)
    ensures
        ({
            let out = heap_info_answer(abi, led, plan, ret);
            let cap = led.profile.fb_length;
            let told = cap != 0 && !plan.dev.uvm() && plan.nr == abi.escapes.rm_vid_heap_control
                && ret == 0 && plan.inline.len() >= 184 && le32(plan.inline, 20) == 0 && le32(
                plan.inline,
                8,
            ) == abi.heap.info;
            &&& out.len() == plan.inline.len()
            &&& told ==> le64(out, 24) == cap && le64(out, 32) == (if led.used <= cap {
                cap - led.used
            } else {
                0
            })
            &&& told ==> forall|i: int|
                0 <= i < out.len() && !(24 <= i < 40) ==> #[trigger] out[i] == plan.inline[i]
            &&& !told ==> out == plan.inline
        }),
{
    if plan.inline.len() >= 184 {
        crate::mediate::law_a_heap_query_tells_of_the_cap(plan.inline, led.limit(), led.used);
    }
}

/// What an allocation is charged under: the descriptor that it rode on, its client and parent,
/// the handle that the driver settled on, and the bytes that were reserved for it.
pub proof fn law_a_charge_names_its_object(plan: PlanView)
    ensures
        ({
            let c = charge_of(plan);
            &&& c.token == plan.token && c.bytes == plan.vram_reserved
            &&& c.root == le32(plan.inline, 0) && c.parent == le32(plan.inline, 4)
            &&& !plan.vram_vidheap ==> c.handle == le32(plan.inline, 8)
            &&& plan.vram_vidheap && plan.inline.len() >= 184 ==> c.handle == le32(plan.inline, 44)
            &&& plan.vram_vidheap && plan.inline.len() >= 184 ==> placed(plan).0 == le32(
                plan.inline,
                56,
            )
            &&& !plan.vram_vidheap && plan.aux.len() >= 28 ==> placed(plan).0 == le32(plan.aux, 24)
        }),
{
}

/// How a request ended is remembered by its kind: where the driver placed it, or what it
/// refused it with.
pub proof fn law_an_ending_is_remembered_by_its_kind(plan: PlanView, ret: i32)
    ensures
        match ending(plan, ret) {
            Some(e) => {
                let off = plan.vram_status_off as int;
                let good = ret == 0 && off + 4 <= plan.inline.len() && le32(plan.inline, off) == 0;
                &&& plan.vram_ask matches Some(a) && e.door == a.door && e.class == a.hclass
                    && e.requested_location == a.attr / 0x200_0000 % 4
                &&& good ==> e.outcome == Outcome::Placed(placed(plan).0 / 0x200_0000 % 4)
                &&& !good ==> e.outcome == Outcome::Failed(le32(plan.inline, off))
            },
            None => plan.vram_ask is None,
        },
{
}

/// A request without a reservation leaves the accounts alone; one with a reservation settles
/// exactly that.
#[verifier::rlimit(50)]
pub proof fn law_a_reservation_is_settled_once(
    b: BooksView,
    l: LedgerView,
    plan: PlanView,
    ret: i32,
)
    requires
        plan.vram_reserved <= l.used,
        b.owed + plan.vram_reserved <= u64::MAX,
        forall|k: u64| #[trigger]
            b.open.contains_key(k) ==> b.open[k].bytes <= b.owed && b.open[k].bytes <= l.used,
    ensures
        ({
            let (c, m) = memory_settled(b, l, plan, ret);
            let off = plan.vram_status_off as int;
            let good = ret == 0 && off + 4 <= plan.inline.len() && le32(plan.inline, off) == 0
                && placed(plan).0 / 0x200_0000 % 4 == 0;
            let k = (0x1_0000_0000 * le32(plan.inline, 0) + placed(plan).1) as u64;
            &&& plan.vram_reserved == 0 ==> c == b && m == l
            &&& plan.vram_reserved != 0 && !good ==> c == b && m.used == l.used
                - plan.vram_reserved
            &&& plan.vram_reserved != 0 && good ==> c.open.contains_key(k) && c.open[k].bytes
                == plan.vram_reserved && c.open[k].token == plan.token
            &&& plan.vram_reserved != 0 && good && !b.open.contains_key(k) ==> c.owed == b.owed
                + plan.vram_reserved && m.used == l.used
        }),
{
    crate::vram::law_a_settled_charge_is_written_down_once(
        b,
        ending_seen(l, plan, ret),
        succeeded(plan.inline, ret, plan.vram_status_off as int),
        placed(plan).0,
        charge_of(plan),
    );
}

/// Which requests free what, once the driver did them: a call on the heap its memory, a call of
/// UVM the range at its base, and a free of the front end its object.
pub proof fn law_only_a_good_free_frees(abi: &Abi, plan: PlanView, ret: i32)
    ensures
        heap_freed(abi, plan, ret) <==> !plan.dev.uvm() && plan.nr
            == abi.escapes.rm_vid_heap_control && ret == 0 && plan.inline.len() >= 184 && le32(
            plan.inline,
            20,
        ) == 0 && le32(plan.inline, 8) == abi.heap.free,
        match range_freed(abi, plan, ret) {
            Some(addr) => plan.dev.uvm() && plan.nr == abi.uvm.free && ret == 0 && le32(
                plan.inline,
                abi.uvm.free_status as int,
            ) == 0 && addr == le64(plan.inline, abi.uvm.free_base as int),
            None => !plan.dev.uvm() || plan.nr != abi.uvm.free || ret != 0 || plan.inline.len()
                < abi.uvm.free_len || abi.uvm.free_status + 4 > plan.inline.len() || le32(
                plan.inline,
                abi.uvm.free_status as int,
            ) != 0,
        },
        match freed_object(abi, plan, ret) {
            Some((root, handle)) => !plan.dev.uvm() && plan.nr == abi.escapes.rm_free && ret == 0
                && plan.inline.len() >= 16 && le32(plan.inline, 12) == 0 && root == le32(
                plan.inline,
                0,
            ) && handle == le32(plan.inline, 8),
            None => plan.dev.uvm() || plan.nr != abi.escapes.rm_free || ret != 0
                || plan.inline.len() < 16 || le32(plan.inline, 12) != 0,
        },
{
}

/// A client is one that an allocation made without a parent; it belongs to the descriptor
/// that the allocation rode on.
pub proof fn law_a_new_client_belongs_to_its_descriptor(
    abi: &Abi,
    v: EventView,
    plan: PlanView,
    ret: i32,
    k: u64,
)
    requires
        plan.inline.len() >= 12,
    ensures
        ({
            let made = !plan.dev.uvm() && plan.nr == abi.escapes.rm_alloc && ret == 0 && (
            plan.inline.len() >= 48 && le32(plan.inline, 40) == 0 || plan.inline.len() == 32
                && le32(plan.inline, 28) == 0) && le32(plan.inline, 4) == 0 && le32(
                plan.inline,
                8,
            ) != 0;
            let w = client_noted(v, plan.token, client_made(abi, plan, ret));
            &&& made ==> client_made(abi, plan, ret) == Some(le32(plan.inline, 8))
                && w.client_token.contains_key(le32(plan.inline, 8) as u64) && w.client_token[le32(
                plan.inline,
                8,
            ) as u64] == plan.token
            &&& !made ==> client_made(abi, plan, ret) is None && w == v
            &&& made && k != le32(plan.inline, 8) ==> w.client_token.contains_key(k)
                == v.client_token.contains_key(k) && w.client_token[k] == v.client_token[k]
            &&& w.events == v.events && w.waiters == v.waiters && w.ctls == v.ctls
        }),
{
}

/// A freed object takes its event with it, and a freed client everything that it had.
pub proof fn law_a_freed_object_takes_its_event(v: EventView, root: u32, handle: u32, k: u64)
    ensures
        ({
            let w = events_freed(v, root, handle);
            let own = (0x1_0000_0000 * root + handle) as u64;
            &&& handle != root ==> {
                &&& w.events.contains_key(k) <==> v.events.contains_key(k) && k != own
                &&& w.events.contains_key(k) ==> w.events[k] == v.events[k]
                &&& w.waiters == v.waiters && w.ctls == v.ctls && w.pool == v.pool
                &&& match freed_event_deed(v, root, handle) {
                    Some(Deed::FreeOsEvent { fd, h_client, id }) => v.events.contains_key(own)
                        && h_client == v.events[own].h_client && id == v.events[own].id
                        && v.ctls.contains_key(h_client as u64) && fd == v.ctls[h_client as u64],
                    Some(_) => false,
                    None => !v.events.contains_key(own) || !v.ctls.contains_key(
                        v.events[own].h_client as u64,
                    ),
                }
            }
            &&& handle == root ==> {
                &&& freed_event_deed(v, root, handle) is None
                &&& !w.ctls.contains_key(root as u64) && !w.client_token.contains_key(root as u64)
                &&& w.events.contains_key(k) <==> v.events.contains_key(k) && v.events[k].h_client
                    != root
                &&& w.waiters.contains_key(k) <==> v.waiters.contains_key(k)
                    && v.waiters[k].h_client != root
            }
        }),
{
}

/// A freed range is no longer live in the pools at its address, and every other pool stays.
pub proof fn law_a_freed_range_is_unmapped(pool: PoolView, token: u64, addr: u64, i: int)
    requires
        0 <= i < pool.pools.len(),
    ensures
        ({
            let w = range_settled(pool, token, Some(addr));
            let (p, q) = (pool.pools[i], w.pools[i]);
            &&& range_settled(pool, token, None) == pool
            &&& w.pools.len() == pool.pools.len() && w.kept == pool.kept
            &&& p.token == token && p.addr.0 == addr ==> !q.range_live && !q.active && q.token
                == p.token
                && q.base == p.base && q.charge == p.charge && q.osdesc == p.osdesc
            &&& p.token != token || p.addr.0 != addr ==> q == p
        }),
{
}

/// What is labelled and what is granted: a new client of a known process, on the descriptor
/// that made it, and a new object of a class that UVM duplicates.
pub proof fn law_only_new_objects_are_labelled_and_granted(
    rules: &Rules,
    sub_id: u32,
    plan: PlanView,
    ret: i32,
)
    ensures
        ({
            let made = !plan.dev.uvm() && plan.nr == rules.abi.escapes.rm_alloc && ret == 0
                && plan.inline.len() >= 44 && le32(plan.inline, 40) == 0;
            &&& match label_deed(rules.abi, sub_id, plan, ret) {
                Some(Deed::SetSubProcessId { fd, h_client }) => made && sub_id != 0 && le32(
                    plan.inline,
                    12,
                ) == rules.abi.class_root_client && fd == plan.target_fd && h_client == le32(
                    plan.inline,
                    8,
                ),
                Some(_) => false,
                None => !made || sub_id == 0 || le32(plan.inline, 12)
                    != rules.abi.class_root_client,
            }
            &&& match grant_deed(rules, plan, ret) {
                Some(Deed::GrantDup { fd, h_client, h_object }) => made && plan.inline.len() >= 48
                    && rules.layout.uvm_dupes_class && fd == plan.target_fd && h_client == le32(
                    plan.inline,
                    0,
                ) && h_object == le32(plan.inline, 8),
                Some(_) => false,
                None => !made || plan.inline.len() < 48 || !rules.layout.uvm_dupes_class,
            }
        }),
{
}

/// The reply carries what the driver left, the block before the parameters, under the number of
/// the request. A failed call returns its error negated; an answer that may not pass is refused.
pub proof fn law_a_reply_carries_the_answer(last: PlanView, fine: bool, ret: i32, errno: i32)
    requires
        errno > 0,
        last.inline.len() <= u32::MAX,
        last.aux.len() <= u32::MAX,
    ensures
        ({
            let (rsp, bytes) = response(last, fine, ret, errno);
            &&& rsp.seq == last.seq && rsp.token == 0 && rsp.scm_fd_count == 0
            &&& fine ==> rsp.inline_len == last.inline.len() && rsp.aux_len == last.aux.len()
            &&& fine ==> bytes.len() == rsp.inline_len + rsp.aux_len && bytes.take(
                rsp.inline_len as int,
            ) == last.inline && bytes.skip(rsp.inline_len as int) == last.aux
            &&& fine && ret < 0 ==> rsp.ret == -errno
            &&& fine && ret >= 0 ==> rsp.ret == ret
            &&& !fine ==> rsp.ret == -22 && rsp.inline_len == 0 && rsp.aux_len == 0 && bytes.len()
                == 0
        }),
{
    let (rsp, bytes) = response(last, fine, ret, errno);
    if fine {
        assert(bytes.take(last.inline.len() as int) =~= last.inline);
        assert(bytes.skip(last.inline.len() as int) =~= last.aux);
    }
}

/// What a request is reported as: its control or class, and the status in it.
pub proof fn law_a_report_names_call_and_status(rules: &Rules, plan: PlanView)
    requires
        rules.abi.wf(),
    ensures
        ({
            let e = rules.abi.escapes;
            let n = plan.inline.len();
            let (what, status) = reported(rules, plan);
            &&& !plan.dev.uvm() && plan.nr == e.rm_control && n >= 32 ==> what == le32(
                plan.inline,
                8,
            ) && status == le32(plan.inline, 28)
            &&& !plan.dev.uvm() && plan.nr == e.rm_alloc && n >= 44 ==> what == le32(plan.inline, 12)
                && status == le32(plan.inline, 40)
            &&& !plan.dev.uvm() && (plan.nr == e.rm_alloc_memory || plan.nr == e.rm_map_memory)
                && plan.nr != e.rm_control && plan.nr != e.rm_alloc && n >= 44 ==> what == 0
                && status == le32(plan.inline, 40)
            &&& !plan.dev.uvm() && plan.nr == e.rm_alloc && n >= 16 ==> what == le32(plan.inline, 12)
            &&& !plan.dev.uvm() && plan.nr == e.rm_alloc && n < 44 ==> status == 0
            &&& !plan.dev.uvm() && plan.nr != e.rm_control && plan.nr != e.rm_alloc ==> what == 0
            &&& !plan.dev.uvm() && plan.nr != e.rm_control && plan.nr != e.rm_alloc && plan.nr
                != e.rm_alloc_memory && plan.nr != e.rm_map_memory ==> status == 0
            &&& plan.dev.uvm() ==> what == 0 && status == (match rules.layout.uvm_status {
                Some(off) => if off + 4 <= n {
                    le32(plan.inline, off as int)
                } else {
                    0
                },
                None => 0,
            })
        }),
{
    let e = rules.abi.escapes;
    let s = seq![
        e.rm_alloc,
        e.rm_alloc_memory,
        e.rm_free,
        e.rm_control,
        e.rm_vid_heap_control,
        e.alloc_os_event,
    ];
    assert(s[0] != s[3]);
}

/// The UUID is swapped where a request carries it, and nowhere else: in the block of a call of
/// UVM, and in the parameters of the three controls that tell of it.
pub proof fn law_a_uuid_is_swapped_where_it_is_carried(rules: &Rules, plan: PlanView)
    ensures
        ({
            let c = rules.abi.controls;
            let cmd = le32(plan.inline, 8);
            let told = !plan.dev.uvm() && plan.nr == rules.abi.escapes.rm_control
                && plan.inline.len() >= 32 && (cmd == c.gpu_get_gid_info || cmd
                == c.gpu_get_uuid_info || cmd == c.gpu_get_uuid_from_gpu_id);
            match rules.card {
                None => hosted(rules, plan) == (plan.inline, plan.aux) && guested(rules, plan) == (
                    plan.inline,
                    plan.aux,
                ),
                Some(card) => {
                    &&& plan.dev.uvm() ==> hosted(rules, plan) == (
                        card.hosted(plan.inline),
                        plan.aux,
                    ) && guested(rules, plan) == (card.guested(plan.inline), plan.aux)
                    &&& told ==> hosted(rules, plan) == (plan.inline, card.hosted(plan.aux))
                        && guested(rules, plan) == (plan.inline, card.guested(plan.aux))
                    &&& !plan.dev.uvm() && !told ==> hosted(rules, plan) == (plan.inline, plan.aux)
                        && guested(rules, plan) == (plan.inline, plan.aux)
                },
            }
        }),
{
}

/// The card's name is replaced in an answer that has the whole field, and in no other.
pub proof fn law_a_name_is_replaced_in_a_whole_field(aux: Seq<u8>, profile: Profile)
    ensures
        aux.len() < 68 ==> name_answer(aux, profile) == aux,
        aux.len() >= 68 ==> name_answer(aux, profile) == named(
            aux,
            encode_utf8(
                card_name(lossy_text(until_zero(aux.subrange(4, 68))), profile.fb_length),
            ),
        ),
{
}

/// A good answer to the control that names the card carries the guest's name for it, unless the
/// card keeps its own.
pub proof fn law_the_guest_sees_its_own_name(
    rules: &Rules,
    led: LedgerView,
    plan: PlanView,
    ret: i32,
)
    requires
        plan.is(rules.abi.escapes.rm_control),
        plan.inline.len() >= 32,
        ret == 0,
        le32(plan.inline, 28) == 0,
        plan.fb_info_list is None,
        ({
            let cmd = le32(plan.inline, 8);
            let c = rules.abi.controls;
            cmd == c.gpu_get_name_string && cmd != c.fb_get_info_v2 && cmd != c.gpu_get_pids && cmd
                != c.gpu_get_pid_info && cmd != c.gpu_get_virtualization_mode && cmd
                != c.gpu_get_encoder_capacity
        }),
    ensures
        mediated(rules, led, plan, ret).1,
        mediated(rules, led, plan, ret).0 == (if rules.name_raw {
            plan.aux
        } else {
            name_answer(plan.aux, led.profile)
        }),
{
}

/// A freed object takes the arena behind it, and a freed client every arena of its own; all
/// others stay.
pub proof fn law_freed_objects_take_their_arenas(
    pool: PoolView,
    root: u32,
    handle: u32,
    k: crate::pool_state::Kept,
)
    requires
        pool.wf(),
    ensures
        arenas_freed(pool, root, handle).kept.contains(k) <==> pool.kept.contains(k) && !(k.root
            == root && (k.handle == handle || handle == root)),
        arenas_freed(pool, root, handle).pools == pool.pools,
        arenas_freed(pool, root, handle).driver == pool.driver,
{
    let any = Arena { base: 0, len: 0, charge: 0 };
    crate::pool_state::law_an_arena_is_kept_under_its_object(pool, root, handle, any, k);
    crate::pool_state::law_the_arenas_of_a_client_go(pool.dropping(root, handle).kept, root, k);
}

/// A request that brings no arena and frees nothing leaves the pages alone. One that brings an
/// arena settles it, one that frees a range unmaps it, and one that frees an object retains
/// exactly what its arenas held.
pub proof fn law_pages_follow_their_request(
    rules: &Rules,
    pool: PoolView,
    budget: PinView,
    plan: PlanView,
    last: PlanView,
    ret: i32,
)
    ensures
        ({
            let (p, b) = pool_completed(rules, pool, budget, plan, last, ret);
            let range = range_freed(rules.abi, last, ret);
            let object = freed_object(rules.abi, last, ret);
            &&& plan.arena is None && range is None && object is None ==> p == pool && b == budget
            &&& range is None && object is None ==> (p, b) == arena_settled(
                pool,
                budget,
                returned(rules, plan),
                ret,
            )
            &&& plan.arena is None && object is None ==> p == range_settled(pool, plan.token, range)
                && b == budget
            &&& plan.arena is None && range is None ==> (object matches Some((root, handle)) ==> p
                == arenas_freed(pool, root, handle) && b == budget.retaining(
                (pool.held() - p.held()) as u64,
            ))
        }),
{
}

/// A request settles its own reservation first; a free of the heap or of an object then
/// gives back what was charged under it, and nothing else moves the accounts.
pub proof fn law_accounts_follow_their_request(
    rules: &Rules,
    books: BooksView,
    led: LedgerView,
    last: PlanView,
    ret: i32,
)
    ensures
        ({
            let (b, l) = books_completed(rules, books, led, last, ret);
            let heap = heap_freed(rules.abi, last, ret);
            let object = freed_object(rules.abi, last, ret);
            &&& last.vram_reserved == 0 && !heap && object is None ==> b == books && l == led
            &&& !heap && object is None ==> (b, l) == memory_settled(books, led, last, ret)
            &&& last.vram_reserved == 0 && heap && object is None ==> (b, l) == given_back(
                books,
                led,
                freed_with(le32(last.inline, 0), le32(last.inline, 44)),
            )
            &&& last.vram_reserved == 0 && !heap ==> (object matches Some((root, handle)) ==> (b, l)
                == given_back(books, led, freed_with(root, handle)))
        }),
{
}

/// A request that registers nothing, makes no client and frees nothing leaves the events alone;
/// a free takes what was filed under its object.
pub proof fn law_events_follow_their_request(
    rules: &Rules,
    v: EventView,
    plan: PlanView,
    last: PlanView,
    ret: i32,
)
    ensures
        ({
            let w = events_completed(rules, v, plan, last, ret);
            let object = freed_object(rules.abi, last, ret);
            let client = client_made(rules.abi, last, ret);
            let idle = plan.event_reg is None && plan.waiter_reg is None && plan.waiter_unreg
                is None;
            &&& idle && client is None && object is None ==> w == v
            &&& client is None && object is None ==> w == events_settled(
                v,
                returned(rules, plan),
                ret,
            )
            &&& idle && object is None ==> w == client_noted(v, plan.token, client)
            &&& idle && client is None ==> (object matches Some((root, handle)) ==> w
                == events_freed(v, root, handle))
        }),
{
}

/// What is left to do after a request is exactly what its parts left, each once: an arena to
/// unmap, an event to free, a range to sweep, the event of a freed object, a label and a grant.
pub proof fn law_every_deed_is_left_once(
    rules: &Rules,
    sub_id: u32,
    v: EventView,
    plan: PlanView,
    last: PlanView,
    ret: i32,
    d: Deed,
)
    ensures
        ({
            let deeds = deeds_after(rules, sub_id, v, plan, last, ret);
            let back = returned(rules, plan);
            let range = range_freed(rules.abi, last, ret);
            let object = freed_object(rules.abi, last, ret);
            let w = events_kept(rules, v, plan, last, ret);
            deeds.contains(d) <==> {
                ||| arena_deed(back, ret) == Some(d)
                ||| event_deed(v, back, ret) == Some(d)
                ||| range matches Some(addr) && d == (Deed::SweepRange { token: plan.token, addr })
                ||| object matches Some((root, handle)) && freed_event_deed(w, root, handle)
                    == Some(d)
                ||| label_deed(rules.abi, sub_id, last, ret) == Some(d)
                ||| grant_deed(rules, last, ret) == Some(d)
            }
        }),
        deeds_after(rules, sub_id, v, plan, last, ret).len() <= 6,
{
    let back = returned(rules, plan);
    let a = maybe(arena_deed(back, ret));
    let b = maybe(event_deed(v, back, ret));
    let c = maybe(
        match range_freed(rules.abi, last, ret) {
            Some(addr) => Some(Deed::SweepRange { token: plan.token, addr }),
            None => None,
        },
    );
    let e = maybe(
        match freed_object(rules.abi, last, ret) {
            Some((root, handle)) => freed_event_deed(
                events_kept(rules, v, plan, last, ret),
                root,
                handle,
            ),
            None => None,
        },
    );
    let f = maybe(label_deed(rules.abi, sub_id, last, ret));
    let g = maybe(grant_deed(rules, last, ret));
    lemma_one_deed(arena_deed(back, ret), d);
    lemma_one_deed(event_deed(v, back, ret), d);
    lemma_one_deed(
        match range_freed(rules.abi, last, ret) {
            Some(addr) => Some(Deed::SweepRange { token: plan.token, addr }),
            None => None,
        },
        d,
    );
    lemma_one_deed(
        match freed_object(rules.abi, last, ret) {
            Some((root, handle)) => freed_event_deed(
                events_kept(rules, v, plan, last, ret),
                root,
                handle,
            ),
            None => None,
        },
        d,
    );
    lemma_one_deed(label_deed(rules.abi, sub_id, last, ret), d);
    lemma_one_deed(grant_deed(rules, last, ret), d);
    lemma_either_deed(a, b, d);
    lemma_either_deed(a + b, c, d);
    lemma_either_deed(a + b + c, e, d);
    lemma_either_deed(a + b + c + e, f, d);
    lemma_either_deed(a + b + c + e + f, g, d);
}

proof fn lemma_one_deed(o: Option<Deed>, d: Deed)
    ensures
        maybe(o).contains(d) <==> o == Some(d),
        maybe(o).len() <= 1,
{
    if o == Some(d) {
        assert(maybe(o)[0] == d);
    }
}

proof fn lemma_either_deed(a: Seq<Deed>, b: Seq<Deed>, d: Deed)
    ensures
        (a + b).contains(d) <==> a.contains(d) || b.contains(d),
{
    let s = a + b;
    if a.contains(d) {
        assert(s[a.index_of(d)] == d);
    }
    if b.contains(d) {
        assert(s[a.len() + b.index_of(d)] == d);
    }
    if s.contains(d) {
        let i = s.index_of(d);
        if i < a.len() {
            assert(a[i] == d);
        } else {
            assert(b[i - a.len()] == d);
        }
    }
}

/// What the guest gets back of a request that is neither a control nor a call on the heap is what
/// the driver left, with the guest's own UUID and the guest's own words in it.
pub proof fn law_other_requests_come_back_as_the_driver_left_them(
    rules: &Rules,
    led: LedgerView,
    plan: PlanView,
    ret: i32,
)
    ensures
        ({
            let (last, fine) = answered(rules, led, plan, ret);
            &&& last.seq == plan.seq && last.token == plan.token && last.nr == plan.nr && last.dev
                == plan.dev && last.vram_reserved == plan.vram_reserved && last.arena == plan.arena
                && last.event_reg == plan.event_reg
            &&& plan.dev.uvm() || (plan.nr != rules.abi.escapes.rm_control && plan.nr
                != rules.abi.escapes.rm_vid_heap_control) ==> {
                &&& fine
                &&& last.aux == guested(rules, plan).1
                &&& last.inline == restored(PlanView { inline: guested(rules, plan).0, ..plan })
            }
        }),
{
}

} // verus!
