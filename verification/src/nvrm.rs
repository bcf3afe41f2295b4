//! The device: which session a message is for, and what of it the device answers itself.

use crate::abi::Dev;
use crate::bytes::copy_range;
use crate::errno::{EINVAL, EIO, EMSGSIZE, ENOMEM, EPROTO};
use crate::host_pool::PinView;
use crate::events::{Drain, EventView, Fired};
use crate::polls::{
    callback_message, on_ready, wake_message, waiter_message, EventChannel, EventMsg, PollBook,
    PollKey, PollSrc, PollView, Ready,
};
use crate::waiters::Fired as WaiterFired;
use crate::prepare::Hosts;
use crate::session::Session;
use crate::table::Table;
use crate::vram::{rows_kept, LedgerView, RowView};
use crate::window::{apart, cache_for, slot_error, Unmap, Window, WindowMap};
use crate::wire::{Kind, Limits, Reply, Req, Rsp};
use vstd::prelude::*;

verus! {

/// The virtio type of the device.
pub const VIRTIO_ID_NVRM: u32 = 60;

/// `VIRTIO_F_VERSION_1`, `VHOST_USER_F_PROTOCOL_FEATURES` and `VIRTIO_RING_F_INDIRECT_DESC`.
pub const FEATURES: u64 = 0x1_5000_0000;

/// How many guest processes the device serves at once.
pub const MAX_SESSIONS: usize = 1024;

/// The part of the table stream that a request gets: from its offset on, at most as much as
/// it asks for and a message holds, and at least one byte where there is one.
pub open spec fn chunk_end(total: int, off: int, want: int, max: int) -> int {
    let w = if want > max {
        max
    } else {
        want
    };
    let n = if w < 1 {
        1
    } else {
        w
    };
    if off + n < total {
        off + n
    } else {
        total
    }
}

/// Answers a request for a part of the table stream. The token is the length of the whole.
pub fn on_get_tables(tables: &[u8], limits: &Limits, req: &Req) -> (r: Reply)
    requires
        tables@.len() <= u32::MAX,
    ensures
        ({
            let total = tables@.len();
            let end = chunk_end(
                total as int,
                req.addr as int,
                req.map_len as int,
                limits.max_payload as int,
            );
            if req.addr > total {
                r.rsp == Rsp::err_spec(req.seq, EINVAL) && r.bytes@ == Seq::<u8>::empty()
            } else {
                &&& r.bytes@ == tables@.subrange(req.addr as int, end)
                &&& r.rsp == (Rsp {
                    inline_len: (end - req.addr) as u32,
                    ..Rsp::ok_spec(req.seq, total as u64)
                })
            }
        }),
{
    let total: usize = tables.len();
    if req.addr > total as u64 {
        return Reply::bare(Rsp::err(req.seq, EINVAL));
    }
    let off: usize = req.addr as usize;
    let mut want: u64 = req.map_len;
    if want > limits.max_payload as u64 {
        want = limits.max_payload as u64;
    }
    if want < 1 {
        want = 1;
    }
    let left: usize = total - off;
    let end: usize = if want < left as u64 {
        off + want as usize
    } else {
        total
    };
    let bytes: Vec<u8> = copy_range(tables, off, end);
    Reply {
        rsp: Rsp {
            seq: req.seq,
            ret: 0,
            token: total as u64,
            inline_len: (end - off) as u32,
            aux_len: 0,
            scm_fd_count: 0,
        },
        bytes,
    }
}

/// What a guest has read that asks for the rest of the stream until there is none.
pub open spec fn read_from(tables: Seq<u8>, off: int, want: int, max: int) -> Seq<u8>
    decreases tables.len() - off,
{
    if off < 0 || off >= tables.len() {
        Seq::empty()
    } else {
        let end = chunk_end(tables.len() as int, off, want, max);
        tables.subrange(off, end) + read_from(tables, end, want, max)
    }
}

/// Reading the stream part by part gives the stream, whatever the guest asks for at a time.
pub proof fn law_pages_reassemble_the_stream(tables: Seq<u8>, want: int, max: int)
    ensures
        read_from(tables, 0, want, max) == tables,
{
    lemma_read_from(tables, 0, want, max);
    assert(tables.skip(0) =~= tables);
}

proof fn lemma_read_from(tables: Seq<u8>, off: int, want: int, max: int)
    requires
        0 <= off <= tables.len(),
    ensures
        read_from(tables, off, want, max) == tables.skip(off),
    decreases tables.len() - off,
{
    if off < tables.len() {
        let end = chunk_end(tables.len() as int, off, want, max);
        lemma_read_from(tables, end, want, max);
        assert(tables.subrange(off, end) + tables.skip(end) =~= tables.skip(off));
    } else {
        assert(tables.skip(off) =~= Seq::empty());
    }
}

/// What the sessions of a machine have of something, all together.
pub open spec fn together(m: Map<u64, Session>, what: spec_fn(Session) -> nat) -> nat
    decreases m.dom().len(),
{
    if m.dom().finite() && m.dom().len() > 0 {
        let k = m.dom().choose();
        what(m[k]) + together(m.remove(k), what)
    } else {
        0
    }
}

/// What a session owes.
pub open spec fn owed() -> spec_fn(Session) -> nat {
    |s: Session| s.books@.owed as nat
}

/// What a session holds of the guest's pages.
pub open spec fn held() -> spec_fn(Session) -> nat {
    |s: Session| s.pool@.held()
}

proof fn lemma_together(m: Map<u64, Session>, what: spec_fn(Session) -> nat, k: u64)
    requires
        m.dom().finite(),
        m.contains_key(k),
    ensures
        together(m, what) == what(m[k]) + together(m.remove(k), what),
    decreases m.dom().len(),
{
    let c = m.dom().choose();
    assert(m.dom().len() > 0) by {
        if m.dom().len() == 0 {
            assert(m.dom() =~= Set::empty());
        }
    }
    if c != k {
        lemma_together(m.remove(c), what, k);
        lemma_together(m.remove(k), what, c);
        assert(m.remove(c).remove(k) =~= m.remove(k).remove(c));
    }
}

/// The sessions of a machine are well-formed, each under its own number, and what they have
/// comes, to the byte, to what the machine's ledger and budget count: what they owe with
/// `unsettled` bytes that are reserved for requests under way, and what they hold with
/// `unplaced` bytes that are leased for arenas under way. Every session's row says what it owes,
/// and only sessions have rows.
pub open spec fn all_covered(
    m: Map<u64, Session>,
    led: LedgerView,
    unsettled: nat,
    budget: PinView,
    unplaced: nat,
) -> bool {
    &&& m.dom().finite()
    &&& forall|k: u64| #[trigger]
        m.contains_key(k) ==> m[k].wf() && m[k].sub_id == k && m[k].books@.shown(led)
    &&& forall|k: u64| #[trigger] led.roster.contains_key(k) ==> m.contains_key(k)
    &&& together(m, owed()) + unsettled == led.used
    &&& budget.wf()
    &&& together(m, held()) + unplaced == budget.leased()
}

/// A machine without sessions, whose ledger and budget count nothing.
pub proof fn law_a_machine_starts_covered(led: LedgerView, budget: PinView)
    requires
        led.used == 0,
        led.roster == Map::<u64, RowView>::empty(),
        budget.wf(),
        budget.leased() == 0,
    ensures
        all_covered(Map::empty(), led, 0, budget, 0),
{
    assert(Map::<u64, Session>::empty().dom() =~= Set::empty());
}

/// A session may work on the machine's ledger and budget while the others wait: what it has is
/// part of what they count. Where they change by as much as its own share and what is under
/// way change, and of the list of processes only its own row, all is counted again when it
/// comes back.
pub proof fn law_sessions_share_what_the_machine_counts(
    m: Map<u64, Session>,
    k: u64,
    after: Session,
    led: LedgerView,
    led_after: LedgerView,
    unsettled: nat,
    unsettled_after: nat,
    budget: PinView,
    budget_after: PinView,
    unplaced: nat,
    unplaced_after: nat,
)
    requires
        all_covered(m, led, unsettled, budget, unplaced),
        m.contains_key(k),
        after.wf(),
        after.sub_id == k,
        rows_kept(m[k].books@, led, after.books@, led_after),
        led_after.used - after.books@.owed - unsettled_after == led.used - m[k].books@.owed
            - unsettled,
        budget_after.wf(),
        budget_after.leased() - after.pool@.held() - unplaced_after == budget.leased()
            - m[k].pool@.held() - unplaced,
    ensures
        m[k].covered(led, budget),
        m[k].books@.owed + unsettled <= led.used,
        m[k].pool@.held() + unplaced <= budget.leased(),
        all_covered(m.insert(k, after), led_after, unsettled_after, budget_after, unplaced_after),
{
    let n = m.insert(k, after);
    lemma_together(m, owed(), k);
    lemma_together(m, held(), k);
    lemma_together(n, owed(), k);
    lemma_together(n, held(), k);
    assert(n.remove(k) =~= m.remove(k));
    assert forall|x: u64| #[trigger] led_after.roster.contains_key(x) implies n.contains_key(
        x,
    ) by {
        if x != k {
            assert(led_after.roster.remove(k).contains_key(x));
            assert(led.roster.contains_key(x));
        }
    }
    assert forall|x: u64| #[trigger] n.contains_key(x) implies n[x].wf() && n[x].sub_id == x
        && n[x].books@.shown(led_after) by {
        if x != k {
            assert(m.contains_key(x));
            assert(led_after.roster.remove(k).contains_key(x) == led.roster.remove(
                k,
            ).contains_key(x));
            assert(led_after.roster.remove(k)[x] == led.roster.remove(k)[x]);
        }
    }
}

/// A session that just began does not change what the others have.
pub proof fn law_sessions_come_for_free(
    m: Map<u64, Session>,
    s: Session,
    led: LedgerView,
    unsettled: nat,
    budget: PinView,
    unplaced: nat,
)
    requires
        all_covered(m, led, unsettled, budget, unplaced),
        !m.contains_key(s.sub_id as u64),
        s.wf(),
        s.books@.owed == 0,
        s.pool@.held() == 0,
    ensures
        all_covered(m.insert(s.sub_id as u64, s), led, unsettled, budget, unplaced),
        s.covered(led, budget),
{
    let k = s.sub_id as u64;
    let n = m.insert(k, s);
    lemma_together(n, owed(), k);
    lemma_together(n, held(), k);
    assert(n.remove(k) =~= m);
}

/// A session that ends pays what it owes and leaves the list, and the others are counted as
/// before.
pub proof fn law_an_ended_session_leaves_the_others_covered(
    m: Map<u64, Session>,
    k: u64,
    led: LedgerView,
    led_after: LedgerView,
    unsettled: nat,
    budget: PinView,
    budget_after: PinView,
    unplaced: nat,
)
    requires
        all_covered(m, led, unsettled, budget, unplaced),
        m.contains_key(k),
        led_after == led.released(m[k].books@.owed).without(m[k].sub_id),
        budget_after.wf(),
        budget_after.leased() == budget.leased() - m[k].pool@.held(),
    ensures
        all_covered(m.remove(k), led_after, unsettled, budget_after, unplaced),
{
    lemma_together(m, owed(), k);
    lemma_together(m, held(), k);
}

/// Who answers a message.
#[derive(Clone, Copy, Debug, PartialEq, Eq, Structural)]
pub enum Route {
    /// The device, at once.
    Refused(Rsp),
    /// The device, from the host's tables.
    Tables,
    /// The device: a mapping leaves the window.
    MapRelease,
    /// The device: a process ended.
    ProcGone,
    /// The session, and then the device, which puts the mapping in the window.
    MapPrepare,
    /// The session of the process.
    Session,
}

/// Which part of a session answers a message.
#[derive(Clone, Copy, Debug, PartialEq, Eq, Structural)]
pub enum Task {
    Hello,
    Open,
    Close,
    Ioctl,
    MapPrepare,
    PoolBack,
    Refused(Rsp),
}

/// Which part of a session answers a message.
pub fn task_of(req: &Req) -> (t: Task)
    ensures
        t == (match req.kind {
            Kind::Hello => Task::Hello,
            Kind::Open => Task::Open,
            Kind::Close => Task::Close,
            Kind::Ioctl => Task::Ioctl,
            Kind::MapPrepare => Task::MapPrepare,
            Kind::UvmPoolBack => Task::PoolBack,
            _ => Task::Refused(Rsp::err_spec(req.seq, EPROTO)),
        }),
{
    match req.kind {
        Kind::Hello => Task::Hello,
        Kind::Open => Task::Open,
        Kind::Close => Task::Close,
        Kind::Ioctl => Task::Ioctl,
        Kind::MapPrepare => Task::MapPrepare,
        Kind::UvmPoolBack => Task::PoolBack,
        _ => Task::Refused(Rsp::err(req.seq, EPROTO)),
    }
}

/// A descriptor field that names nothing the host has open.
#[derive(Clone, Copy, Debug, PartialEq, Eq, Structural)]
pub struct Miss {
    pub count: u64,
    /// Another process that has the token.
    pub owner: Option<u32>,
    /// Whether it is worth a line: the guest may ask very often.
    pub logged: bool,
}

/// The descriptor behind a token of a process, where both are named and known.
pub open spec fn resolved(m: Map<u64, Session>, proc: Option<u32>, token: Option<u64>) -> Option<
    i32,
> {
    match (proc, token) {
        (Some(p), Some(t)) => if m.contains_key(p as u64) {
            match m[p as u64].mirror@.at(t) {
                Some(e) => Some(e.fd),
                None => None,
            }
        } else {
            None
        },
        _ => None,
    }
}

/// The descriptors that a request names by their owners. An owner that is named has to have
/// the token itself.
pub open spec fn hosts_of(m: Map<u64, Session>, req: &Req) -> Hosts {
    Hosts {
        fd_field: resolved(m, req.fd_field_proc, req.fd_field_token),
        aux_fd: resolved(m, req.aux_fd_field_proc, req.aux_fd_field_token),
    }
}

/// Whether the descriptor field of a request names nothing that the host has open.
pub open spec fn misses(m: Map<u64, Session>, req: &Req) -> bool {
    &&& req.fd_field_token is Some
    &&& req.fd_field_off is Some
    &&& resolved(m, req.fd_field_proc, req.fd_field_token) is None
    &&& req.fd_field_proc is Some || resolved(m, Some(req.guest_proc), req.fd_field_token) is None
}

/// Whether a process other than the asking one has a token.
pub open spec fn has_token(m: Map<u64, Session>, asking: u32, token: u64, p: u64) -> bool {
    m.contains_key(p) && p != asking && m[p].mirror@.live.contains_key(token)
}

/// A mapping on its way into the window.
#[derive(Clone, Copy, Debug, PartialEq, Eq, Structural)]
pub struct Mapping {
    pub off: u64,
    pub len: u64,
    pub fd: i32,
    pub dev: Dev,
}

/// How the mapping went.
#[derive(Clone, Copy, Debug, PartialEq, Eq, Structural)]
pub enum Mapped {
    /// The driver does not map it; the VMM never hears of it.
    Unmappable(i32),
    /// The VMM refused.
    Refused,
    Done,
}

/// The numbers in front of the descriptors.
pub open spec fn numbers(s: Seq<(u64, i32)>) -> Seq<u64> {
    Seq::new(s.len(), |i: int| s[i].0)
}

/// The descriptor that leaves the watch with a source.
pub open spec fn leaving_fd(m: Map<u64, Session>, src: PollSrc) -> i32 {
    match src {
        PollSrc::Client { guest_proc, token, fd } => match resolved(
            m,
            Some(guest_proc),
            Some(token),
        ) {
            Some(now) => now,
            None => fd,
        },
        PollSrc::EventCtl { fd, .. } => fd,
        PollSrc::WaiterNotify => 0,
    }
}

/// The device of one machine.
pub struct NvrmDevice {
    pub sessions: Table<Session>,
    pub window: Window,
    pub polls: PollBook,
    pub channel: EventChannel,
    pub fd_field_misses: u64,
    /// The event path failed: no request is answered any more.
    pub failed: bool,
}

impl NvrmDevice {
    pub open spec fn wf(&self) -> bool {
        &&& self.polls@.wf()
        &&& apart(self.window@)
        &&& self.sessions@.dom().finite()
        &&& self.sessions@.len() <= MAX_SESSIONS
    }

    pub fn new() -> (d: NvrmDevice)
        ensures
            d.wf(),
            d.sessions@ == Map::<u64, Session>::empty(),
            d.window@ == Map::<u64, WindowMap>::empty(),
            d.polls@.srcs == Map::<u64, PollSrc>::empty(),
            d.polls@.next == 1,
            d.channel.delivered == 0 && d.channel.wakes == 0 && d.channel.seq == 0,
            d.channel.dropped_noslot == 0 && d.channel.dropped_noqueue == 0,
            !d.channel.announced,
            d.fd_field_misses == 0,
            !d.failed,
    {
        NvrmDevice {
            sessions: Table::new(),
            window: Window::new(),
            polls: PollBook::new(),
            channel: EventChannel::new(),
            fd_field_misses: 0,
            failed: false,
        }
    }

    /// Who answers a message. One that is shorter than a header names no number to answer to.
    pub fn route(&self, req: Option<&Req>) -> (r: Route)
        ensures
            r == (match req {
                None => Route::Refused(Rsp::err_spec(0, EPROTO)),
                Some(req) => if self.failed {
                    Route::Refused(Rsp::err_spec(req.seq, EIO))
                } else {
                    match req.kind {
                        Kind::GetTables => Route::Tables,
                        Kind::MapRelease => Route::MapRelease,
                        Kind::ProcGone => Route::ProcGone,
                        Kind::MapPrepare => Route::MapPrepare,
                        _ => Route::Session,
                    }
                },
            }),
    {
        match req {
            None => Route::Refused(Rsp::err(0, EPROTO)),
            Some(req) => {
                if self.failed {
                    return Route::Refused(Rsp::err(req.seq, EIO));
                }
                match req.kind {
                    Kind::GetTables => Route::Tables,
                    Kind::MapRelease => Route::MapRelease,
                    Kind::ProcGone => Route::ProcGone,
                    Kind::MapPrepare => Route::MapPrepare,
                    _ => Route::Session,
                }
            },
        }
    }

    /// The session of a process, taken out to work on: the one that is there, or a new one
    /// while there are not too many. Without one the guest is told that memory is short.
    pub fn session_for(&mut self, req: &Req) -> (r: Result<Session, Rsp>)
        requires
            old(self).wf(),
            forall|k: u64| #[trigger]
                old(self).sessions@.contains_key(k) ==> old(self).sessions@[k].wf()
                    && old(self).sessions@[k].sub_id == k,
        ensures
            final(self).wf(),
            *final(self) == (NvrmDevice { sessions: final(self).sessions, ..*old(self) }),
            final(self).sessions@ == old(self).sessions@.remove(req.guest_proc as u64),
            match r {
                Ok(s) => {
                    &&& s.wf()
                    &&& s.sub_id == req.guest_proc
                    &&& final(self).sessions@.len() < MAX_SESSIONS
                    &&& if old(self).sessions@.contains_key(req.guest_proc as u64) {
                        s == old(self).sessions@[req.guest_proc as u64]
                    } else {
                        s.fresh(req.guest_proc) && s.pool@.held() == 0 && s.proc.anonymous()
                    }
                },
                Err(rsp) => {
                    &&& rsp == Rsp::err_spec(req.seq, ENOMEM)
                    &&& !old(self).sessions@.contains_key(req.guest_proc as u64)
                    &&& old(self).sessions@.len() >= MAX_SESSIONS
                },
            },
    {
        let proc: u64 = req.guest_proc as u64;
        match self.sessions.remove(proc) {
            Some(s) => Ok(s),
            None => {
                proof {
                    assert(self.sessions@ =~= old(self).sessions@);
                }
                if self.sessions.len() >= MAX_SESSIONS {
                    return Err(Rsp::err(req.seq, ENOMEM));
                }
                Ok(Session::detached_proc(req.guest_proc))
            },
        }
    }

    /// Puts a session back.
    pub fn put(&mut self, s: Session)
        requires
            old(self).wf(),
            old(self).sessions@.len() < MAX_SESSIONS,
            !old(self).sessions@.contains_key(s.sub_id as u64),
        ensures
            final(self).wf(),
            *final(self) == (NvrmDevice { sessions: final(self).sessions, ..*old(self) }),
            final(self).sessions@ == old(self).sessions@.insert(s.sub_id as u64, s),
    {
        let proc: u64 = s.sub_id as u64;
        self.sessions.insert(proc, s);
    }

    /// The descriptor behind a token of a process. A process that is not known stays so.
    pub fn resolve_fd(&self, guest_proc: u32, token: u64) -> (r: Option<i32>)
        ensures
            r == resolved(self.sessions@, Some(guest_proc), Some(token)),
    {
        match self.sessions.get(guest_proc as u64) {
            Some(s) => s.mirror_raw(token),
            None => None,
        }
    }

    fn resolve(&self, guest_proc: Option<u32>, token: Option<u64>) -> (r: Option<i32>)
        ensures
            r == resolved(self.sessions@, guest_proc, token),
    {
        match (guest_proc, token) {
            (Some(p), Some(t)) => self.resolve_fd(p, t),
            _ => None,
        }
    }

    /// The first other process that has a token.
    fn find_owner(&self, asking: u32, token: u64) -> (r: Option<u64>)
        ensures
            match r {
                Some(p) => {
                    &&& has_token(self.sessions@, asking, token, p)
                    &&& forall|q: u64| #[trigger]
                        has_token(self.sessions@, asking, token, q) ==> p <= q
                },
                None => forall|q: u64| !#[trigger] has_token(self.sessions@, asking, token, q),
            },
    {
        let keys: Vec<u64> = self.sessions.keys();
        let mut i: usize = 0;
        while i < keys.len()
            invariant
                i <= keys@.len(),
                crate::table::rising(keys@),
                forall|k: u64| self.sessions@.contains_key(k) <==> #[trigger] keys@.contains(k),
                forall|j: int|
                    0 <= j < i ==> !has_token(self.sessions@, asking, token, #[trigger] keys@[j]),
            decreases keys@.len() - i,
        {
            let p: u64 = keys[i];
            proof {
                assert(keys@.contains(p));
            }
            if p != asking as u64 {
                if let Some(s) = self.sessions.get(p) {
                    if s.mirror_raw(token).is_some() {
                        proof {
                            assert forall|q: u64| #[trigger]
                                has_token(self.sessions@, asking, token, q) implies p <= q by {
                                assert(keys@.contains(q));
                                let j = choose|j: int| 0 <= j < keys@.len() && keys@[j] == q;
                            }
                        }
                        return Some(p);
                    }
                }
            }
            i += 1;
        }
        proof {
            assert forall|q: u64| !#[trigger] has_token(self.sessions@, asking, token, q) by {
                if self.sessions@.contains_key(q) {
                    assert(keys@.contains(q));
                    let j = choose|j: int| 0 <= j < keys@.len() && keys@[j] == q;
                }
            }
        }
        None
    }

    /// The descriptors that a request names, looked up where their owners are. A field that
    /// names nothing is counted; the first twenty are worth a line, and then every
    /// five-thousandth.
    pub fn find_hosts(&mut self, req: &Req) -> (r: (Hosts, Option<Miss>))
        requires
            forall|k: u64| #[trigger]
                old(self).sessions@.contains_key(k) ==> old(self).sessions@[k].sub_id == k,
        ensures
            r.0 == hosts_of(old(self).sessions@, req),
            *final(self) == (NvrmDevice {
                fd_field_misses: final(self).fd_field_misses,
                ..*old(self)
            }),
            match r.1 {
                None => !misses(old(self).sessions@, req) && final(self).fd_field_misses == old(
                    self,
                ).fd_field_misses,
                Some(m) => {
                    let t = req.fd_field_token->Some_0;
                    &&& misses(old(self).sessions@, req)
                    &&& m.count == old(self).fd_field_misses.wrapping_add(1)
                    &&& final(self).fd_field_misses == m.count
                    &&& m.logged == (m.count <= 20 || m.count % 5000 == 0)
                    &&& match m.owner {
                        Some(p) => {
                            &&& has_token(old(self).sessions@, req.guest_proc, t, p as u64)
                            &&& forall|q: u64| #[trigger]
                                has_token(old(self).sessions@, req.guest_proc, t, q) ==> p <= q
                        },
                        None => forall|q: u64|
                            !#[trigger] has_token(old(self).sessions@, req.guest_proc, t, q),
                    }
                },
            },
    {
        let fd_field: Option<i32> = self.resolve(req.fd_field_proc, req.fd_field_token);
        let aux_fd: Option<i32> = self.resolve(req.aux_fd_field_proc, req.aux_fd_field_token);
        let hosts: Hosts = Hosts { fd_field, aux_fd };
        let token: u64 = match req.fd_field_token {
            Some(t) => t,
            None => {
                return (hosts, None);
            },
        };
        if req.fd_field_off.is_none() || fd_field.is_some() {
            return (hosts, None);
        }
        if req.fd_field_proc.is_none() && self.resolve_fd(req.guest_proc, token).is_some() {
            return (hosts, None);
        }
        let owner: Option<u32> = match self.find_owner(req.guest_proc, token) {
            Some(p) => match self.sessions.get(p) {
                Some(s) => Some(s.sub_id),
                None => None,
            },
            None => None,
        };
        self.fd_field_misses = self.fd_field_misses.wrapping_add(1);
        let count: u64 = self.fd_field_misses;
        (hosts, Some(Miss { count, owner, logged: count <= 20 || count % 5000 == 0 }))
    }

    /// Takes a descriptor of the guest out of the watch, before it is closed. The answer is
    /// what the system has to forget.
    pub fn unregister_token(&mut self, guest_proc: u32, token: u64) -> (r: Option<(u64, i32)>)
        requires
            old(self).wf(),
        ensures
            final(self).wf(),
            *final(self) == (NvrmDevice { polls: final(self).polls, ..*old(self) }),
            ({
                let key = PollKey::Client { guest_proc, token };
                match r {
                    None => !old(self).polls@.watches(key) && final(self).polls@ == old(
                        self,
                    ).polls@,
                    Some((id, fd)) => {
                        &&& old(self).polls@.srcs.contains_key(id)
                        &&& old(self).polls@.srcs[id].key() == Some(key)
                        &&& fd == leaving_fd(old(self).sessions@, old(self).polls@.srcs[id])
                        &&& final(self).polls@.srcs == old(self).polls@.srcs.remove(id)
                        &&& final(self).polls@.next == old(self).polls@.next
                    },
                }
            }),
    {
        let id: u64 = match self.polls.find(PollKey::Client { guest_proc, token }) {
            Some(id) => id,
            None => {
                return None;
            },
        };
        let hint: Option<i32> = self.resolve_fd(guest_proc, token);
        match self.polls.unregister_id(id, hint) {
            Some((_, Some(fd))) => Some((id, fd)),
            _ => None,
        }
    }

    /// Takes the control descriptor of a freed client out of the watch, before it is closed.
    pub fn unregister_event_ctl(&mut self, guest_proc: u32, h_client: u32) -> (r: Option<
        (u64, i32),
    >)
        requires
            old(self).wf(),
        ensures
            final(self).wf(),
            *final(self) == (NvrmDevice { polls: final(self).polls, ..*old(self) }),
            ({
                let key = PollKey::EventCtl { guest_proc, h_client };
                match r {
                    None => !old(self).polls@.watches(key) && final(self).polls@ == old(
                        self,
                    ).polls@,
                    Some((id, fd)) => {
                        &&& old(self).polls@.srcs.contains_key(id)
                        &&& old(self).polls@.srcs[id] == (PollSrc::EventCtl {
                            guest_proc,
                            h_client,
                            fd,
                        })
                        &&& final(self).polls@.srcs == old(self).polls@.srcs.remove(id)
                        &&& final(self).polls@.next == old(self).polls@.next
                    },
                }
            }),
    {
        let id: u64 = match self.polls.find(PollKey::EventCtl { guest_proc, h_client }) {
            Some(id) => id,
            None => {
                return None;
            },
        };
        match self.polls.unregister_id(id, None) {
            Some((_, Some(fd))) => Some((id, fd)),
            _ => None,
        }
    }

    /// Takes everything of a process out of the watch, and no more. The answer is what the
    /// system has to forget, in the order of the numbers.
    pub fn unregister_proc(&mut self, guest_proc: u32) -> (out: Vec<(u64, i32)>)
        requires
            old(self).wf(),
        ensures
            final(self).wf(),
            *final(self) == (NvrmDevice { polls: final(self).polls, ..*old(self) }),
            final(self).polls@.next == old(self).polls@.next,
            forall|id: u64| #[trigger]
                final(self).polls@.srcs.contains_key(id) <==> old(self).polls@.srcs.contains_key(id)
                    && !old(self).polls@.srcs[id].of(guest_proc),
            forall|id: u64| #[trigger]
                final(self).polls@.srcs.contains_key(id) ==> final(self).polls@.srcs[id] == old(
                    self,
                ).polls@.srcs[id],
            crate::table::rising(numbers(out@)),
            forall|id: u64| #[trigger]
                numbers(out@).contains(id) <==> old(self).polls@.srcs.contains_key(id) && old(
                    self,
                ).polls@.srcs[id].of(guest_proc),
            forall|i: int|
                0 <= i < out@.len() ==> (#[trigger] out@[i]).1 == leaving_fd(
                    old(self).sessions@,
                    old(self).polls@.srcs[out@[i].0],
                ),
    {
        let ids: Vec<u64> = self.polls.of_proc(guest_proc);
        let mut out: Vec<(u64, i32)> = Vec::new();
        let mut i: usize = 0;
        while i < ids.len()
            invariant
                i <= ids@.len(),
                i == out@.len(),
                self.wf(),
                old(self).wf(),
                crate::table::rising(ids@),
                *self == (NvrmDevice { polls: self.polls, ..*old(self) }),
                self.polls@.next == old(self).polls@.next,
                forall|id: u64| #[trigger]
                    ids@.contains(id) <==> old(self).polls@.srcs.contains_key(id) && old(
                        self,
                    ).polls@.srcs[id].of(guest_proc),
                forall|id: u64| #[trigger]
                    self.polls@.srcs.contains_key(id) <==> old(self).polls@.srcs.contains_key(id)
                        && !ids@.take(i as int).contains(id),
                forall|id: u64| #[trigger]
                    self.polls@.srcs.contains_key(id) ==> self.polls@.srcs[id] == old(
                        self,
                    ).polls@.srcs[id],
                forall|j: int| 0 <= j < i ==> (#[trigger] out@[j]).0 == ids@[j],
                forall|j: int|
                    0 <= j < i ==> (#[trigger] out@[j]).1 == leaving_fd(
                        old(self).sessions@,
                        old(self).polls@.srcs[out@[j].0],
                    ),
            decreases ids@.len() - i,
        {
            let id: u64 = ids[i];
            proof {
                assert(ids@.contains(id));
                crate::seqs::lemma_take_contains(ids@, i as int);
                assert(!ids@.take(i as int).contains(id)) by {
                    if ids@.take(i as int).contains(id) {
                        let j = choose|j: int|
                            0 <= j < ids@.take(i as int).len() && ids@.take(i as int)[j] == id;
                        assert(ids@[j] < ids@[i as int]);
                    }
                }
                assert(self.polls@.srcs.contains_key(id));
            }
            let hint: Option<i32> = match self.polls.source(id) {
                Some(PollSrc::Client { token, .. }) => self.resolve_fd(guest_proc, token),
                _ => None,
            };
            let fd: i32 = match self.polls.unregister_id(id, hint) {
                Some((_, Some(fd))) => fd,
                _ => 0,
            };
            out.push((id, fd));
            i += 1;
        }
        proof {
            assert(ids@.take(i as int) =~= ids@);
            assert(numbers(out@) =~= ids@);
        }
        out
    }

    /// A process ended, and its waiters were cancelled, or could not be. The answer is what the
    /// system has to forget, and the places in the window that have to be freed.
    pub fn begin_gone(&mut self, req: &Req, cancelled: bool) -> (r: Result<
        (Vec<(u64, i32)>, Vec<u64>),
        Rsp,
    >)
        requires
            old(self).wf(),
        ensures
            final(self).wf(),
            *final(self) == (NvrmDevice {
                polls: final(self).polls,
                failed: final(self).failed,
                ..*old(self)
            }),
            match r {
                Err(rsp) => {
                    &&& req.guest_proc == 0 || !cancelled
                    &&& rsp == Rsp::err_spec(
                        req.seq,
                        if req.guest_proc == 0 {
                            EINVAL
                        } else {
                            EIO
                        },
                    )
                    &&& final(self).polls@ == old(self).polls@
                    &&& final(self).failed == (old(self).failed || req.guest_proc != 0)
                },
                Ok((watches, places)) => {
                    &&& req.guest_proc != 0 && cancelled
                    &&& final(self).failed == old(self).failed
                    &&& final(self).polls@.next == old(self).polls@.next
                    &&& forall|id: u64| #[trigger]
                        final(self).polls@.srcs.contains_key(id) <==> old(
                            self,
                        ).polls@.srcs.contains_key(id) && !old(self).polls@.srcs[id].of(
                            req.guest_proc,
                        )
                    &&& forall|id: u64| #[trigger]
                        final(self).polls@.srcs.contains_key(id) ==> final(self).polls@.srcs[id]
                            == old(self).polls@.srcs[id]
                    &&& crate::table::rising(numbers(watches@))
                    &&& forall|id: u64| #[trigger]
                        numbers(watches@).contains(id) <==> old(self).polls@.srcs.contains_key(id)
                            && old(self).polls@.srcs[id].of(req.guest_proc)
                    &&& forall|i: int|
                        0 <= i < watches@.len() ==> (#[trigger] watches@[i]).1 == leaving_fd(
                            old(self).sessions@,
                            old(self).polls@.srcs[watches@[i].0],
                        )
                    &&& crate::window::is_list_of(old(self).window@, req.guest_proc, places@)
                },
            },
    {
        if req.guest_proc == 0 {
            return Err(Rsp::err(req.seq, EINVAL));
        }
        if !cancelled {
            self.failed = true;
            return Err(Rsp::err(req.seq, EIO));
        }
        let watches: Vec<(u64, i32)> = self.unregister_proc(req.guest_proc);
        let places: Vec<u64> = self.window.window_of_proc(req.guest_proc);
        Ok((watches, places))
    }

    /// The places of a process that ended were freed, or some were not. A session whose
    /// mappings are still there stays, so that the guest can ask again; else it is handed out
    /// to be wound up.
    pub fn finish_gone(&mut self, req: &Req, unmapped: bool) -> (r: Result<Option<Session>, Rsp>)
        requires
            old(self).wf(),
        ensures
            final(self).wf(),
            *final(self) == (NvrmDevice { sessions: final(self).sessions, ..*old(self) }),
            match r {
                Err(rsp) => {
                    &&& !unmapped
                    &&& rsp == Rsp::err_spec(req.seq, EIO)
                    &&& *final(self) == *old(self)
                },
                Ok(s) => {
                    &&& unmapped
                    &&& final(self).sessions@ == old(self).sessions@.remove(req.guest_proc as u64)
                    &&& s == (if old(self).sessions@.contains_key(req.guest_proc as u64) {
                        Some(old(self).sessions@[req.guest_proc as u64])
                    } else {
                        None
                    })
                },
            },
    {
        if !unmapped {
            return Err(Rsp::err(req.seq, EIO));
        }
        Ok(self.sessions.remove(req.guest_proc as u64))
    }

    /// What releasing a mapping takes: a length to unmap, or the answer.
    pub fn begin_release(&self, req: &Req, connected: bool) -> (r: Result<u64, Rsp>)
        ensures
            r == (if !connected {
                Err(Rsp::err_spec(req.seq, EIO))
            } else if self.window@.contains_key(req.addr) {
                Ok(self.window@[req.addr].len)
            } else {
                Err(Rsp::ok_spec(req.seq, 0))
            }),
    {
        match self.window.begin_release(connected, req.addr) {
            Unmap::NoChannel => Err(Rsp::err(req.seq, EIO)),
            Unmap::Nothing => Err(Rsp::ok(req.seq, 0)),
            Unmap::Bytes(len) => Ok(len),
        }
    }

    /// The VMM took a mapping out, or refused. Only then its place is free again; the answer
    /// holds the descriptor that may be closed.
    pub fn on_map_release(&mut self, req: &Req, unmapped: bool) -> (r: (Rsp, Option<i32>))
        requires
            old(self).wf(),
        ensures
            final(self).wf(),
            *final(self) == (NvrmDevice { window: final(self).window, ..*old(self) }),
            if unmapped {
                &&& r.0 == Rsp::ok_spec(req.seq, 0)
                &&& final(self).window@ == old(self).window@.remove(req.addr)
                &&& r.1 == (if old(self).window@.contains_key(req.addr) {
                    Some(old(self).window@[req.addr].fd)
                } else {
                    None
                })
            } else {
                &&& r.0 == Rsp::err_spec(req.seq, EIO)
                &&& r.1 is None
                &&& final(self).window@ == old(self).window@
            },
    {
        if !unmapped {
            return (Rsp::err(req.seq, EIO), None);
        }
        let fd: Option<i32> = self.window.finish_release(req.addr);
        (Rsp::ok(req.seq, 0), fd)
    }

    /// The answer of a session to a mapping that it was asked to register, or the mapping with
    /// the place where the guest wants it.
    pub fn begin_map(&self, s: &mut Session, req: &Req, connected: bool) -> (r: Result<Mapping, Rsp>)
        requires
            self.wf(),
            old(s).wf(),
        ensures
            final(s).wf(),
            *final(s) == (Session {
                maps: final(s).maps,
                next_blob_id: final(s).next_blob_id,
                ..*old(s)
            }),
            match old(s).map_error(req) {
                Some(e) => r == Err::<Mapping, Rsp>(Rsp::err_spec(req.seq, e)) && *final(s) == *old(
                    s,
                ),
                None => {
                    let e = old(s).mirror@.at(req.target_token)->Some_0;
                    &&& final(s).next_blob_id == crate::session::next_blob(old(s).next_blob_id)
                    &&& final(s).maps@ == old(s).maps@.remove(old(s).next_blob_id)
                    &&& r == (if !connected {
                        Err(Rsp::err_spec(req.seq, EIO))
                    } else {
                        match slot_error(self.window@, req.addr, req.map_len) {
                            Some(no) => Err(Rsp::err_spec(req.seq, no)),
                            None => Ok(
                                Mapping {
                                    off: req.addr,
                                    len: req.map_len,
                                    fd: e.fd,
                                    dev: e.kind,
                                },
                            ),
                        }
                    })
                },
            },
            r matches Ok(m) ==> m.len > 0 && slot_error(self.window@, m.off, m.len) is None,
    {
        let ghost id = s.next_blob_id;
        let rsp: Rsp = s.on_map_prepare(req);
        if rsp.ret != 0 {
            return Err(rsp);
        }
        let ghost maps = s.maps@;
        let (fd, len, dev): (i32, u64, Dev) = match s.take_pending_map(rsp.token) {
            Some(m) => m,
            None => {
                return Err(Rsp::err(req.seq, EIO));
            },
        };
        proof {
            assert(maps.remove(id) =~= old(s).maps@.remove(id));
        }
        if !connected {
            return Err(Rsp::err(req.seq, EIO));
        }
        match self.window.check_slot(req.addr, len) {
            Some(no) => Err(Rsp::err(req.seq, no)),
            None => Ok(Mapping { off: req.addr, len, fd, dev }),
        }
    }

    /// The mapping is in the window, or it is not. The token of the answer says how the guest
    /// has to map it.
    pub fn on_map_prepare(&mut self, req: &Req, m: Mapping, how: Mapped) -> (r: Rsp)
        requires
            old(self).wf(),
            m.len > 0,
            slot_error(old(self).window@, m.off, m.len) is None,
            how matches Mapped::Unmappable(e) ==> e > 0,
        ensures
            final(self).wf(),
            *final(self) == (NvrmDevice { window: final(self).window, ..*old(self) }),
            match how {
                Mapped::Unmappable(e) => r == Rsp::err_spec(req.seq, e) && final(self).window@
                    == old(self).window@,
                Mapped::Refused => r == Rsp::err_spec(req.seq, EIO) && final(self).window@ == old(
                    self,
                ).window@,
                Mapped::Done => {
                    &&& r == Rsp::ok_spec(
                        req.seq,
                        if m.dev == Dev::Gpu {
                            crate::window::MAP_CACHE_UNCACHED as u64
                        } else {
                            crate::window::MAP_CACHE_CACHED as u64
                        },
                    )
                    &&& final(self).window@ == old(self).window@.insert(
                        m.off,
                        WindowMap { len: m.len, guest_proc: req.guest_proc, fd: m.fd },
                    )
                },
            },
    {
        match how {
            Mapped::Unmappable(e) => Rsp::err(req.seq, e),
            Mapped::Refused => Rsp::err(req.seq, EIO),
            Mapped::Done => {
                self.window.insert(
                    m.off,
                    WindowMap { len: m.len, guest_proc: req.guest_proc, fd: m.fd },
                );
                Rsp::ok(req.seq, cache_for(m.dev) as u64)
            },
        }
    }
}

/// What the device does when a number of the watch fires.
pub enum Poll {
    Nothing,
    /// The completions of waiters failed: no waiter would ever fire again.
    Fatal,
    /// The system has to forget a descriptor, where it still has one.
    Forget(Option<i32>),
    /// The guest gets this message.
    Send(EventMsg),
    /// The control descriptor of a client is drained.
    Drain { guest_proc: u32, fd: i32, drain: Drain },
    /// The poller of waiters is asked who fired.
    Waiters,
}

/// The events of every session.
pub open spec fn event_views(m: Map<u64, Session>) -> Map<u64, EventView> {
    m.map_values(|s: Session| s.events@)
}

/// The sessions are the same but for their events.
pub open spec fn same_but_events(a: Map<u64, Session>, b: Map<u64, Session>) -> bool {
    &&& a.dom() == b.dom()
    &&& forall|k: u64| #[trigger]
        b.contains_key(k) ==> b[k] == (Session { events: b[k].events, ..a[k] })
}

/// The messages for callbacks that fired, with numbers from `seq` on.
pub open spec fn callback_messages(seq: u32, guest_proc: u32, fired: Seq<Fired>) -> Seq<EventMsg>
    decreases fired.len(),
{
    if fired.len() == 0 {
        Seq::empty()
    } else {
        let rest = callback_messages(seq, guest_proc, fired.drop_last());
        rest.push(callback_message(numbered(seq, fired.len()), guest_proc, fired.last()))
    }
}

/// The number after so many messages.
pub open spec fn numbered(seq: u32, n: nat) -> u32
    decreases n,
{
    if n == 0 {
        seq
    } else {
        numbered(seq, (n - 1) as nat).wrapping_add(1)
    }
}

/// The state of the waiters' side: the events of the sessions, the channel, and the messages.
pub struct Woken {
    pub events: Map<u64, EventView>,
    pub channel: EventChannel,
    pub messages: Seq<EventMsg>,
}

/// The state after one waiter fired. One that no session awaits is dropped.
pub open spec fn after_waiter(w: Woken, f: WaiterFired) -> Woken {
    let p = f.guest_proc as u64;
    if w.events.contains_key(p) && w.events[p].awaits(f.registration) {
        let armed = w.events[p].waiters[f.registration.event_id as u64];
        let seq = w.channel.seq.wrapping_add(1);
        Woken {
            events: w.events.insert(p, w.events[p].woken(f.registration)),
            channel: EventChannel { seq, wakes: w.channel.wakes.wrapping_add(1), ..w.channel },
            messages: w.messages.push(
                waiter_message(
                    seq,
                    f.guest_proc,
                    f.registration,
                    (armed.h_client, armed.guest_kc, armed.token),
                ),
            ),
        }
    } else {
        w
    }
}

/// The state after waiters fired, one after the other.
pub open spec fn after_waiters(w: Woken, fired: Seq<WaiterFired>) -> Woken
    decreases fired.len(),
{
    if fired.len() == 0 {
        w
    } else {
        after_waiter(after_waiters(w, fired.drop_last()), fired.last())
    }
}

impl NvrmDevice {
    /// What to do when a number of the watch fires. One that failed, or whose session or
    /// control descriptor is gone, leaves the watch.
    pub fn on_poll(&mut self, id: u64, failed: bool) -> (r: Poll)
        requires
            old(self).wf(),
        ensures
            final(self).wf(),
            *final(self) == (NvrmDevice {
                polls: final(self).polls,
                channel: final(self).channel,
                ..*old(self)
            }),
            ({
                let known = old(self).polls@.srcs.contains_key(id);
                let src = old(self).polls@.srcs[id];
                let forgotten = PollView {
                    srcs: old(self).polls@.srcs.remove(id),
                    ..old(self).polls@
                };
                if !known {
                    &&& r == (if failed {
                        Poll::Forget(None)
                    } else {
                        Poll::Nothing
                    })
                    &&& final(self).polls@ == old(self).polls@
                    &&& final(self).channel == old(self).channel
                } else {
                    match src {
                        PollSrc::WaiterNotify => {
                            &&& r == (if failed {
                                Poll::Fatal
                            } else {
                                Poll::Waiters
                            })
                            &&& final(self).polls@ == old(self).polls@
                            &&& final(self).channel == old(self).channel
                        },
                        PollSrc::Client { guest_proc, token, fd } => if failed {
                            &&& r == Poll::Forget(Some(fd))
                            &&& final(self).polls@ == forgotten
                            &&& final(self).channel == old(self).channel
                        } else {
                            &&& r matches Poll::Send(m) && m == wake_message(
                                old(self).channel.seq.wrapping_add(1),
                                guest_proc,
                                token,
                            )
                            &&& final(self).polls@ == old(self).polls@
                            &&& final(self).channel == (EventChannel {
                                seq: old(self).channel.seq.wrapping_add(1),
                                wakes: old(self).channel.wakes.wrapping_add(1),
                                ..old(self).channel
                            })
                        },
                        PollSrc::EventCtl { guest_proc, h_client, fd } => {
                            let p = guest_proc as u64;
                            let ctls = old(self).sessions@[p].events@.ctls;
                            &&& final(self).channel == old(self).channel
                            &&& if failed || !old(self).sessions@.contains_key(p)
                                || !ctls.contains_key(h_client as u64) {
                                r == Poll::Forget(Some(fd)) && final(self).polls@ == forgotten
                            } else {
                                &&& final(self).polls@ == old(self).polls@
                                &&& r matches Poll::Drain { guest_proc: q, fd: on, drain }
                                &&& q == guest_proc
                                &&& on == ctls[h_client as u64]
                                &&& drain.h_client == h_client
                                &&& drain.left == crate::events::DRAIN_BOUND
                                &&& drain.out@ == Seq::<Fired>::empty()
                                &&& drain.close is None
                            }
                        },
                    }
                }
            }),
    {
        proof {
            assert(self.polls@.srcs.remove(id) =~= self.polls@.srcs || self.polls@.srcs.contains_key(
                id,
            ));
        }
        match on_ready(&self.polls, id, failed) {
            Ready::Stale => Poll::Nothing,
            Ready::Fatal => Poll::Fatal,
            Ready::Waiters => Poll::Waiters,
            Ready::HungUp => self.forget(id),
            Ready::Wake { guest_proc, token } => Poll::Send(self.channel.wake(guest_proc, token)),
            Ready::Drain { guest_proc, h_client } => {
                let ctl: Option<(i32, Drain)> = match self.sessions.get(guest_proc as u64) {
                    Some(s) => s.events.begin_drain(h_client),
                    None => None,
                };
                match ctl {
                    Some((fd, drain)) => Poll::Drain { guest_proc, fd, drain },
                    None => self.forget(id),
                }
            },
        }
    }

    fn forget(&mut self, id: u64) -> (r: Poll)
        requires
            old(self).wf(),
        ensures
            final(self).wf(),
            *final(self) == (NvrmDevice { polls: final(self).polls, ..*old(self) }),
            final(self).polls@ == (PollView {
                srcs: old(self).polls@.srcs.remove(id),
                ..old(self).polls@
            }),
            r == Poll::Forget(
                if old(self).polls@.srcs.contains_key(id) {
                    old(self).polls@.srcs[id].watched_fd()
                } else {
                    None
                },
            ),
    {
        match self.polls.unregister_id(id, None) {
            Some((_, fd)) => Poll::Forget(fd),
            None => Poll::Forget(None),
        }
    }

    /// A control descriptor was drained, and its session is back. A descriptor that went with
    /// the drain leaves the watch too, so that the next one of the client can be watched. The
    /// answer is what the guest gets, and what the system has to forget.
    pub fn drained(&mut self, id: u64, guest_proc: u32, h_client: u32, fired: &[Fired]) -> (r: (
        Vec<EventMsg>,
        Poll,
    ))
        requires
            old(self).wf(),
            old(self).polls@.srcs.contains_key(id),
        ensures
            final(self).wf(),
            *final(self) == (NvrmDevice {
                polls: final(self).polls,
                channel: final(self).channel,
                ..*old(self)
            }),
            r.0@ == callback_messages(old(self).channel.seq, guest_proc, fired@),
            final(self).channel == (EventChannel {
                seq: numbered(old(self).channel.seq, fired@.len()),
                ..old(self).channel
            }),
            ({
                let p = guest_proc as u64;
                let alive = old(self).sessions@.contains_key(p)
                    && old(self).sessions@[p].events@.ctls.contains_key(h_client as u64);
                if alive {
                    r.1 is Nothing && final(self).polls@ == old(self).polls@
                } else {
                    &&& r.1 == Poll::Forget(old(self).polls@.srcs[id].watched_fd())
                    &&& final(self).polls@ == (PollView {
                        srcs: old(self).polls@.srcs.remove(id),
                        ..old(self).polls@
                    })
                }
            }),
    {
        let alive: bool = match self.sessions.get(guest_proc as u64) {
            Some(s) => s.events.has_event_ctl(h_client),
            None => false,
        };
        let gone: Poll = if alive {
            Poll::Nothing
        } else {
            self.forget(id)
        };
        let mut out: Vec<EventMsg> = Vec::new();
        let mut i: usize = 0;
        let ghost polls = self.polls@;
        while i < fired.len()
            invariant
                i <= fired@.len(),
                self.wf(),
                self.polls@ == polls,
                *self == (NvrmDevice { polls: self.polls, channel: self.channel, ..*old(self) }),
                out@ == callback_messages(
                    old(self).channel.seq,
                    guest_proc,
                    fired@.take(i as int),
                ),
                self.channel == (EventChannel {
                    seq: numbered(old(self).channel.seq, i as nat),
                    ..old(self).channel
                }),
            decreases fired@.len() - i,
        {
            let m: EventMsg = self.channel.fired(guest_proc, &fired[i]);
            out.push(m);
            i += 1;
            proof {
                assert(fired@.take(i as int).drop_last() =~= fired@.take(i - 1));
                assert(fired@.take(i as int).last() == fired@[i - 1]);
            }
        }
        proof {
            assert(fired@.take(i as int) =~= fired@);
        }
        (out, gone)
    }

    /// Waiters fired: each is retired in its session, and the guest hears of it. One whose
    /// session is gone, or that was retired before, is dropped.
    pub fn waiters_fired(&mut self, fired: &[WaiterFired]) -> (out: Vec<EventMsg>)
        requires
            old(self).wf(),
        ensures
            final(self).wf(),
            *final(self) == (NvrmDevice {
                sessions: final(self).sessions,
                channel: final(self).channel,
                ..*old(self)
            }),
            same_but_events(old(self).sessions@, final(self).sessions@),
            ({
                let w = after_waiters(
                    Woken {
                        events: event_views(old(self).sessions@),
                        channel: old(self).channel,
                        messages: Seq::empty(),
                    },
                    fired@,
                );
                &&& event_views(final(self).sessions@) == w.events
                &&& final(self).channel == w.channel
                &&& out@ == w.messages
            }),
    {
        let mut out: Vec<EventMsg> = Vec::new();
        let mut i: usize = 0;
        let ghost start = Woken {
            events: event_views(self.sessions@),
            channel: self.channel,
            messages: Seq::empty(),
        };
        while i < fired.len()
            invariant
                i <= fired@.len(),
                self.wf(),
                *self == (NvrmDevice {
                    sessions: self.sessions,
                    channel: self.channel,
                    ..*old(self)
                }),
                same_but_events(old(self).sessions@, self.sessions@),
                start == (Woken {
                    events: event_views(old(self).sessions@),
                    channel: old(self).channel,
                    messages: Seq::empty(),
                }),
                event_views(self.sessions@) == after_waiters(start, fired@.take(i as int)).events,
                self.channel == after_waiters(start, fired@.take(i as int)).channel,
                out@ == after_waiters(start, fired@.take(i as int)).messages,
            decreases fired@.len() - i,
        {
            let f: WaiterFired = fired[i];
            proof {
                let t = fired@.take(i as int + 1);
                assert(t.drop_last() =~= fired@.take(i as int));
                assert(t.last() == f);
            }
            let ghost before = self.sessions@;
            let p: u64 = f.guest_proc as u64;
            match self.sessions.remove(p) {
                Some(mut s) => {
                    let woken: Option<(u32, u64, u64)> = s.events.semsurf_wake(f.registration);
                    self.sessions.insert(p, s);
                    proof {
                        assert(self.sessions@ =~= before.insert(p, s));
                        assert(event_views(self.sessions@) =~= event_views(before).insert(
                            p,
                            s.events@,
                        ));
                        assert(self.sessions@.dom() =~= before.dom());
                    }
                    if let Some(w) = woken {
                        let m: EventMsg = self.channel.waiter(f.guest_proc, f.registration, w);
                        out.push(m);
                    } else {
                        proof {
                            assert(event_views(self.sessions@) =~= event_views(before));
                        }
                    }
                },
                None => {
                    proof {
                        assert(self.sessions@ =~= before);
                    }
                },
            }
            i += 1;
        }
        proof {
            assert(fired@.take(i as int) =~= fired@);
        }
        out
    }
}

/// The guest hears of a waiter once, however often its completion comes.
pub proof fn law_a_waiter_is_heard_of_once(w: Woken, f: WaiterFired)
    ensures
        after_waiter(after_waiter(w, f), f) == after_waiter(w, f),
        after_waiter(w, f).messages.len() <= w.messages.len() + 1,
{
}

/// The answer to a message of a length that no request has.
pub fn refused_length(limits: &Limits, avail: usize) -> (r: Option<Rsp>)
    ensures
        r == (if limits.req_len <= avail <= limits.max_msg {
            None
        } else {
            Some(Rsp::err_spec(0, EMSGSIZE))
        }),
{
    if limits.req_len <= avail && avail <= limits.max_msg {
        None
    } else {
        Some(Rsp::err(0, EMSGSIZE))
    }
}

/// The answer that the guest gets where it left room for so many bytes: a whole one, or an
/// error under the same number.
pub fn fitted(limits: &Limits, reply: Reply, room: usize) -> (r: Reply)
    ensures
        if limits.rsp_len + reply.bytes@.len() <= room {
            r == reply
        } else {
            r.rsp == Rsp::err_spec(reply.rsp.seq, EMSGSIZE) && r.bytes@ == Seq::<u8>::empty()
        },
{
    if limits.rsp_len <= room && reply.bytes.len() <= room - limits.rsp_len {
        reply
    } else {
        Reply::bare(Rsp::err(reply.rsp.seq, EMSGSIZE))
    }
}

/// A part of the device that something happened to.
#[derive(Clone, Copy, Debug, PartialEq, Eq, Structural)]
pub enum Wakeup {
    /// The guest queued requests.
    Requests,
    /// Something that is watched fired.
    Events,
    /// Nothing that takes any work.
    Nothing,
}

/// The number under which the device's own watch is known to its driver loop.
pub const EVENT_LISTENER: u16 = 3;

/// What a number of the driver loop stands for. Buffers that the guest left for events are
/// taken when an event fires.
pub fn wakeup(device_event: u16, readable: bool, event_queue: bool) -> (r: Wakeup)
    ensures
        r == (if readable && device_event == 0 {
            Wakeup::Requests
        } else if readable && device_event == EVENT_LISTENER && event_queue {
            Wakeup::Events
        } else {
            Wakeup::Nothing
        }),
{
    if !readable {
        Wakeup::Nothing
    } else if device_event == 0 {
        Wakeup::Requests
    } else if device_event == EVENT_LISTENER && event_queue {
        Wakeup::Events
    } else {
        Wakeup::Nothing
    }
}

/// Counts of two sessions together, as far as a number holds them.
pub open spec fn capped_sum(a: int, b: int) -> int {
    if a + b > u64::MAX {
        u64::MAX as int
    } else {
        a + b
    }
}

/// The counts of the first `n` sessions together.
pub open spec fn tallied(counts: Seq<[u64; 7]>, n: int, at: int) -> int
    decreases n,
{
    if n <= 0 {
        0
    } else {
        capped_sum(tallied(counts, n - 1, at), counts[n - 1]@[at] as int)
    }
}

/// Adds up what the sessions hold.
pub fn tally(counts: &Vec<[u64; 7]>) -> (t: [u64; 7])
    ensures
        forall|k: int| 0 <= k < 7 ==> #[trigger] t@[k] == tallied(counts@, counts@.len() as int, k),
{
    let mut t: [u64; 7] = [0u64; 7];
    let mut i: usize = 0;
    while i < counts.len()
        invariant
            i <= counts@.len(),
            forall|k: int| 0 <= k < 7 ==> #[trigger] t@[k] == tallied(counts@, i as int, k),
        decreases counts@.len() - i,
    {
        let c: [u64; 7] = counts[i];
        let before: [u64; 7] = t;
        let mut j: usize = 0;
        while j < 7
            invariant
                j <= 7,
                i < counts@.len(),
                c == counts@[i as int],
                forall|k: int| 0 <= k < 7 ==> #[trigger] before@[k] == tallied(counts@, i as int, k),
                forall|k: int| 0 <= k < j ==> #[trigger] t@[k] == tallied(counts@, i + 1, k),
                forall|k: int| j <= k < 7 ==> #[trigger] t@[k] == before@[k],
            decreases 7 - j,
        {
            t[j] = before[j].saturating_add(c[j]);
            j += 1;
        }
        i += 1;
    }
    t
}

/// How many open descriptors belong to no session: all of them without the open tokens, the
/// control descriptors, the slots, the waiters, what waits to be let go of, and the
/// registered nodes. The number of tokens ever issued is no count of descriptors.
pub fn outside_sessions(open: u64, t: &[u64; 7]) -> (n: i128)
    ensures
        n == open - t@[0] - t@[2] - t@[3] - t@[4] - t@[5] - t@[6],
{
    open as i128 - t[0] as i128 - t[2] as i128 - t[3] as i128 - t[4] as i128 - t[5] as i128
        - t[6] as i128
}

/// One page of the tables: it starts where it is asked for, holds as much as is asked for and
/// may be sent, at least one byte, and ends with the tables at the latest.
pub proof fn law_a_page_holds_what_is_asked_for(total: int, off: int, want: int, max: int)
    requires
        0 <= off < total,
        0 <= want,
        1 <= max,
    ensures
        ({
            let n = chunk_end(total, off, want, max) - off;
            &&& 1 <= n <= max && off + n <= total
            &&& want >= 1 ==> n <= want
            &&& n == max || n == want || off + n == total || want == 0 && n == 1
        }),
        chunk_end(total, total, want, max) == total,
{
}

/// A descriptor is found in the session of its process under its token, and nowhere else.
pub proof fn law_a_descriptor_is_found_with_its_process(m: Map<u64, Session>, p: u32, t: u64)
    ensures
        match resolved(m, Some(p), Some(t)) {
            Some(fd) => m.contains_key(p as u64) && m[p as u64].mirror@.live.contains_key(t)
                && m[p as u64].mirror@.live[t].fd == fd,
            None => !m.contains_key(p as u64) || !m[p as u64].mirror@.live.contains_key(t),
        },
        resolved(m, None, Some(t)) is None,
        resolved(m, Some(p), None) is None,
{
}

/// Each of the two descriptor fields is looked up for its own process and token.
pub proof fn law_each_field_is_looked_up_for_itself(m: Map<u64, Session>, req: &Req)
    ensures
        hosts_of(m, req).fd_field == resolved(m, req.fd_field_proc, req.fd_field_token),
        hosts_of(m, req).aux_fd == resolved(m, req.aux_fd_field_proc, req.aux_fd_field_token),
        misses(m, req) ==> hosts_of(m, req).fd_field is None && req.fd_field_off is Some,
        req.fd_field_off is Some ==> (req.fd_field_token matches Some(t) ==> (req.fd_field_proc
            is None ==> (misses(m, req) <==> resolved(m, Some(req.guest_proc), Some(t))
            is None))),
        req.fd_field_off is Some ==> (req.fd_field_token matches Some(t) ==> (
        req.fd_field_proc matches Some(p) ==> (misses(m, req) <==> resolved(m, Some(p), Some(t))
            is None))),
{
}

/// The descriptor that leaves a watch is the one that its process has under the token now, and
/// the one that was watched where it has none.
pub proof fn law_the_watched_descriptor_leaves(m: Map<u64, Session>, src: PollSrc)
    ensures
        src matches PollSrc::EventCtl { fd, .. } ==> leaving_fd(m, src) == fd,
        src matches PollSrc::Client { guest_proc, token, fd } ==> {
            let p = guest_proc as u64;
            &&& m.contains_key(p) && m[p].mirror@.live.contains_key(token) ==> leaving_fd(m, src)
                == m[p].mirror@.live[token].fd
            &&& !(m.contains_key(p) && m[p].mirror@.live.contains_key(token)) ==> leaving_fd(m, src)
                == fd
        },
{
}

/// Messages are numbered one after the other, around the end of the counter.
pub proof fn law_messages_are_numbered_in_turn(seq: u32, n: nat)
    ensures
        numbered(seq, n) == (seq + n) % 0x1_0000_0000,
    decreases n,
{
    if n > 0 {
        law_messages_are_numbered_in_turn(seq, (n - 1) as nat);
    }
}

/// Every event that fired is told of once, in its turn, with the next number.
pub proof fn law_every_fired_event_is_told_in_turn(
    seq: u32,
    guest_proc: u32,
    fired: Seq<Fired>,
    i: int,
)
    requires
        0 <= i < fired.len(),
    ensures
        callback_messages(seq, guest_proc, fired).len() == fired.len(),
        ({
            let m = callback_messages(seq, guest_proc, fired)[i];
            &&& m.seq == (seq + i + 1) % 0x1_0000_0000
            &&& m.guest_proc == guest_proc
            &&& m.token == fired[i].reg.token && m.class == fired[i].reg.class
            &&& m.detail matches Some(d) && d.data == fired[i].reg.guest_data && d.h_client
                == fired[i].reg.h_client && d.h_event == fired[i].reg.h_event && d.info32
                == fired[i].info32 && d.notify_index == fired[i].reg.notify_index
        }),
    decreases fired.len(),
{
    law_messages_are_numbered_in_turn(seq, fired.len());
    let rest = fired.drop_last();
    if rest.len() > 0 {
        let k = if i < rest.len() {
            i
        } else {
            0
        };
        law_every_fired_event_is_told_in_turn(seq, guest_proc, rest, k);
        assert(rest[k] == fired[k]);
    } else {
        assert(callback_messages(seq, guest_proc, rest).len() == 0);
    }
}

/// A completion wakes exactly the waiter that it names: the guest is told of it with the pointer
/// that it registered, the waiter is spent, and no other process changes. A completion that
/// nothing waits for is dropped.
pub proof fn law_a_completion_wakes_the_waiter_it_names(w: Woken, f: WaiterFired, k: u64)
    ensures
        ({
            let n = after_waiter(w, f);
            let p = f.guest_proc as u64;
            let id = f.registration.event_id as u64;
            let waits = w.events.contains_key(p) && w.events[p].waiters.contains_key(id)
                && w.events[p].waiters[id].generation == f.registration.generation;
            &&& !waits ==> n == w
            &&& waits ==> {
                let x = w.events[p].waiters[id];
                &&& n.messages.len() == w.messages.len() + 1 && n.messages.drop_last() == w.messages
                &&& n.messages.last().guest_proc == f.guest_proc && n.messages.last().token
                    == x.token && n.messages.last().seq == (w.channel.seq + 1) % 0x1_0000_0000
                &&& n.messages.last().detail matches Some(d) && d.data == x.guest_kc && d.h_client
                    == x.h_client && d.id == f.registration.event_id
                &&& n.channel.seq == (w.channel.seq + 1) % 0x1_0000_0000
                &&& w.channel.wakes < u64::MAX ==> n.channel.wakes == w.channel.wakes + 1
                &&& n.channel.delivered == w.channel.delivered
                &&& !n.events[p].waiters.contains_key(id)
                &&& k != p ==> n.events.contains_key(k) == w.events.contains_key(k) && n.events[k]
                    == w.events[k]
            }
        }),
{
    let n = after_waiter(w, f);
    if n.messages.len() > w.messages.len() {
        assert(n.messages.drop_last() =~= w.messages);
    }
}

/// What sessions count is added up, and stays at the end of the counter where it would pass it.
pub proof fn law_counts_add_up(counts: Seq<[u64; 7]>, n: int, at: int)
    requires
        0 <= n < counts.len(),
        0 <= at < 7,
    ensures
        tallied(counts, 0, at) == 0,
        tallied(counts, n, at) + counts[n]@[at] <= u64::MAX ==> tallied(counts, n + 1, at)
            == tallied(counts, n, at) + counts[n]@[at],
        tallied(counts, n, at) + counts[n]@[at] > u64::MAX ==> tallied(counts, n + 1, at)
            == u64::MAX,
{
}

/// Completions are taken in their order, each on what the one before it left.
pub proof fn law_completions_are_taken_in_order(w: Woken, fired: Seq<WaiterFired>, f: WaiterFired)
    ensures
        after_waiters(w, Seq::empty()) == w,
        after_waiters(w, fired.push(f)) == after_waiter(after_waiters(w, fired), f),
{
    assert(fired.push(f).drop_last() =~= fired);
}

/// A token has another owner exactly where another process has it open.
pub proof fn law_another_owner_has_the_token_open(
    m: Map<u64, Session>,
    asking: u32,
    token: u64,
    p: u64,
)
    ensures
        has_token(m, asking, token, p) <==> p != asking && m.contains_key(p)
            && m[p].mirror@.at(token) is Some,
{
}

} // verus!
