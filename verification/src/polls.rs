//! What the device watches, and what the guest hears when it fires.

use crate::abi::{CLASS_KERNEL_CALLBACK_EX, CLASS_OS_EVENT};
use crate::events::{Fired, Pollable};
use crate::seqs::lemma_take_contains;
use crate::table::{rising, Table};
use crate::waiters::{RegistrationId, Watch};
use vstd::prelude::*;

verus! {

/// How many descriptors one round of events takes up.
pub const POLL_BATCH: usize = 64;

/// How many rounds there are before requests have their turn.
pub const POLL_ROUNDS: u32 = 8;

/// A descriptor that is watched.
#[derive(Clone, Copy, Debug, PartialEq, Eq, Structural)]
pub enum PollSrc {
    /// The control descriptor of a client: it is drained here.
    EventCtl { guest_proc: u32, h_client: u32, fd: i32 },
    /// A descriptor of the guest: the guest is woken and drains it.
    Client { guest_proc: u32, token: u64, fd: i32 },
    /// The completions of waiters.
    WaiterNotify,
}

/// What tells two watched descriptors apart.
#[derive(Clone, Copy, Debug, PartialEq, Eq, Structural)]
pub enum PollKey {
    EventCtl { guest_proc: u32, h_client: u32 },
    Client { guest_proc: u32, token: u64 },
}

impl PollSrc {
    pub open spec fn key(self) -> Option<PollKey> {
        match self {
            PollSrc::EventCtl { guest_proc, h_client, .. } => Some(
                PollKey::EventCtl { guest_proc, h_client },
            ),
            PollSrc::Client { guest_proc, token, .. } => Some(PollKey::Client { guest_proc, token }),
            PollSrc::WaiterNotify => None,
        }
    }

    /// The descriptor that it was watched as; the completions of waiters stay.
    pub open spec fn watched_fd(self) -> Option<i32> {
        match self {
            PollSrc::EventCtl { fd, .. } => Some(fd),
            PollSrc::Client { fd, .. } => Some(fd),
            PollSrc::WaiterNotify => None,
        }
    }

    /// Whether it belongs to a guest process.
    pub open spec fn of(self, proc: u32) -> bool {
        match self {
            PollSrc::EventCtl { guest_proc, .. } => guest_proc == proc,
            PollSrc::Client { guest_proc, .. } => guest_proc == proc,
            PollSrc::WaiterNotify => false,
        }
    }

    fn poll_key(&self) -> (k: Option<PollKey>)
        ensures
            k == self.key(),
    {
        match *self {
            PollSrc::EventCtl { guest_proc, h_client, .. } => Some(
                PollKey::EventCtl { guest_proc, h_client },
            ),
            PollSrc::Client { guest_proc, token, .. } => Some(PollKey::Client { guest_proc, token }),
            PollSrc::WaiterNotify => None,
        }
    }

    fn belongs_to(&self, proc: u32) -> (r: bool)
        ensures
            r == self.of(proc),
    {
        match *self {
            PollSrc::EventCtl { guest_proc, .. } => guest_proc == proc,
            PollSrc::Client { guest_proc, .. } => guest_proc == proc,
            PollSrc::WaiterNotify => false,
        }
    }
}

/// The state of the watch list.
pub struct PollView {
    /// What each number stands for.
    pub srcs: Map<u64, PollSrc>,
    pub next: u64,
}

impl PollView {
    /// Every number was given out, and no descriptor is watched twice.
    pub open spec fn wf(self) -> bool {
        &&& self.next >= 1
        &&& forall|id: u64| #[trigger] self.srcs.contains_key(id) ==> 0 < id < self.next
        &&& forall|i: u64, j: u64| #[trigger]
            self.srcs.contains_key(i) && #[trigger] self.srcs.contains_key(j) && i != j
                && self.srcs[i].key() is Some ==> self.srcs[i].key() != self.srcs[j].key()
    }

    /// Whether a descriptor is watched.
    pub open spec fn watches(self, k: PollKey) -> bool {
        exists|id: u64| #[trigger] self.srcs.contains_key(id) && self.srcs[id].key() == Some(k)
    }
}

/// The descriptor that a session reports, as it is watched: those of the guest by their
/// owner, as the guest looks the token up there.
pub open spec fn source_of(guest_proc: u32, p: Pollable) -> Option<PollSrc> {
    match p {
        Pollable::EventCtl { h_client, fd } => Some(PollSrc::EventCtl { guest_proc, h_client, fd }),
        Pollable::Client { token, fd, owner } => Some(
            PollSrc::Client {
                guest_proc: match owner {
                    Some(o) => o,
                    None => guest_proc,
                },
                token,
                fd,
            },
        ),
        Pollable::Waiter { .. } => None,
    }
}

/// What a reported descriptor takes.
#[derive(Clone, Copy, Debug, PartialEq, Eq, Structural)]
pub enum Watching {
    /// The poller of waiters watches it.
    Waiter(Watch),
    /// It is watched already.
    Known,
    /// It is to be watched under this number; those that the guest drains only on an edge.
    Add { id: u64, fd: i32, edge: bool, src: PollSrc },
}

/// What is watched.
pub struct PollBook {
    srcs: Table<PollSrc>,
    next: u64,
}

impl View for PollBook {
    type V = PollView;

    closed spec fn view(&self) -> PollView {
        PollView { srcs: self.srcs@, next: self.next }
    }
}

impl PollBook {
    pub fn new() -> (b: PollBook)
        ensures
            b@ == (PollView { srcs: Map::empty(), next: 1 }),
            b@.wf(),
    {
        PollBook { srcs: Table::new(), next: 1 }
    }

    /// Whether there are numbers left.
    pub fn can_add(&self) -> (r: bool)
        ensures
            r == (self@.next < u64::MAX),
    {
        self.next < u64::MAX
    }

    /// What a number stands for.
    pub fn source(&self, id: u64) -> (r: Option<PollSrc>)
        ensures
            r == (if self@.srcs.contains_key(id) {
                Some(self@.srcs[id])
            } else {
                None
            }),
    {
        match self.srcs.get(id) {
            Some(s) => Some(*s),
            None => None,
        }
    }

    /// The number of a watched descriptor.
    pub fn find(&self, key: PollKey) -> (r: Option<u64>)
        ensures
            match r {
                Some(id) => self@.srcs.contains_key(id) && self@.srcs[id].key() == Some(key),
                None => !self@.watches(key),
            },
    {
        let ids: Vec<u64> = self.srcs.keys();
        let mut i: usize = 0;
        while i < ids.len()
            invariant
                i <= ids@.len(),
                forall|k: u64| self@.srcs.contains_key(k) <==> #[trigger] ids@.contains(k),
                forall|j: int| 0 <= j < i ==> self@.srcs[#[trigger] ids@[j]].key() != Some(key),
            decreases ids@.len() - i,
        {
            let id: u64 = ids[i];
            proof {
                assert(ids@.contains(id));
            }
            if let Some(s) = self.srcs.get(id) {
                let hit: bool = match s.poll_key() {
                    Some(k) => k == key,
                    None => false,
                };
                if hit {
                    return Some(id);
                }
            }
            i += 1;
        }
        proof {
            assert forall|id: u64| #[trigger] self@.srcs.contains_key(id) implies self@.srcs[id].key()
                != Some(key) by {
                assert(ids@.contains(id));
                let j = choose|j: int| 0 <= j < ids@.len() && ids@[j] == id;
            }
        }
        None
    }

    /// Gives out the number of the descriptor that tells of waiters.
    pub fn begin_notify(&mut self) -> (id: u64)
        requires
            old(self)@.wf(),
            old(self)@.next < u64::MAX,
        ensures
            id == old(self)@.next,
            final(self)@ == (PollView { next: (id + 1) as u64, ..old(self)@ }),
            final(self)@.wf(),
    {
        let id: u64 = self.next;
        self.next = id + 1;
        id
    }

    /// Decides what a descriptor takes that a session reported. One that is to be watched has
    /// a number then that no other ever had.
    pub fn register(&mut self, guest_proc: u32, p: Pollable) -> (r: Watching)
        requires
            old(self)@.wf(),
            old(self)@.next < u64::MAX,
        ensures
            final(self)@.wf(),
            match p {
                Pollable::Waiter { registration, fd } => {
                    &&& r == Watching::Waiter(
                        Watch { fired: crate::waiters::Fired { guest_proc, registration }, fd },
                    )
                    &&& final(self)@ == old(self)@
                },
                _ => {
                    let src = source_of(guest_proc, p)->Some_0;
                    if old(self)@.watches(src.key()->Some_0) {
                        r is Known && final(self)@ == old(self)@
                    } else {
                        &&& r == (Watching::Add {
                            id: old(self)@.next,
                            fd: match src {
                                PollSrc::EventCtl { fd, .. } => fd,
                                PollSrc::Client { fd, .. } => fd,
                                PollSrc::WaiterNotify => 0,
                            },
                            edge: src is Client,
                            src,
                        })
                        &&& final(self)@ == (PollView {
                            next: (old(self)@.next + 1) as u64,
                            ..old(self)@
                        })
                    }
                },
            },
    {
        let (src, key, fd, edge): (PollSrc, PollKey, i32, bool) = match p {
            Pollable::Waiter { registration, fd } => {
                return Watching::Waiter(
                    Watch { fired: crate::waiters::Fired { guest_proc, registration }, fd },
                );
            },
            Pollable::EventCtl { h_client, fd } => (
                PollSrc::EventCtl { guest_proc, h_client, fd },
                PollKey::EventCtl { guest_proc, h_client },
                fd,
                false,
            ),
            Pollable::Client { token, fd, owner } => {
                let proc: u32 = match owner {
                    Some(o) => o,
                    None => guest_proc,
                };
                (
                    PollSrc::Client { guest_proc: proc, token, fd },
                    PollKey::Client { guest_proc: proc, token },
                    fd,
                    true,
                )
            },
        };
        let known: Option<u64> = self.find(key);
        if known.is_some() {
            return Watching::Known;
        }
        let id: u64 = self.next;
        self.next = id + 1;
        Watching::Add { id, fd, edge, src }
    }

    /// The system watches the descriptor now.
    pub fn added(&mut self, id: u64, src: PollSrc)
        requires
            old(self)@.wf(),
            0 < id < old(self)@.next,
            !old(self)@.srcs.contains_key(id),
            src.key() matches Some(k) ==> !old(self)@.watches(k),
        ensures
            final(self)@.wf(),
            final(self)@ == (PollView { srcs: old(self)@.srcs.insert(id, src), ..old(self)@ }),
    {
        proof {
            let (a, b) = (self@.srcs, self@.srcs.insert(id, src));
            assert forall|i: u64, j: u64| #[trigger]
                b.contains_key(i) && #[trigger] b.contains_key(j) && i != j
                    && b[i].key() is Some implies b[i].key() != b[j].key() by {
                if i == id {
                    assert(a.contains_key(j));
                } else if j == id {
                    assert(a.contains_key(i));
                }
            }
        }
        self.srcs.insert(id, src);
    }

    /// Forgets a number, and tells which descriptor leaves the watch: the one that its token
    /// has now, where that is known, else the one it was watched as.
    pub fn unregister_id(&mut self, id: u64, hint: Option<i32>) -> (r: Option<(PollSrc, Option<i32>)>)
        requires
            old(self)@.wf(),
        ensures
            final(self)@.wf(),
            final(self)@ == (PollView { srcs: old(self)@.srcs.remove(id), ..old(self)@ }),
            r == (if old(self)@.srcs.contains_key(id) {
                let src = old(self)@.srcs[id];
                Some(
                    (
                        src,
                        match (src.watched_fd(), hint) {
                            (Some(_), Some(now)) => Some(now),
                            (fd, _) => fd,
                        },
                    ),
                )
            } else {
                None
            }),
    {
        match self.srcs.remove(id) {
            Some(src) => {
                let fd: Option<i32> = match src {
                    PollSrc::WaiterNotify => None,
                    PollSrc::EventCtl { fd, .. } => match hint {
                        Some(h) => Some(h),
                        None => Some(fd),
                    },
                    PollSrc::Client { fd, .. } => match hint {
                        Some(h) => Some(h),
                        None => Some(fd),
                    },
                };
                Some((src, fd))
            },
            None => None,
        }
    }

    /// The numbers of a guest process's descriptors, in order.
    pub fn of_proc(&self, guest_proc: u32) -> (ids: Vec<u64>)
        ensures
            rising(ids@),
            forall|id: u64| #[trigger]
                ids@.contains(id) <==> self@.srcs.contains_key(id) && self@.srcs[id].of(guest_proc),
    {
        let keys: Vec<u64> = self.srcs.keys();
        let mut ids: Vec<u64> = Vec::new();
        let mut i: usize = 0;
        while i < keys.len()
            invariant
                i <= keys@.len(),
                rising(keys@),
                rising(ids@),
                forall|k: u64| self@.srcs.contains_key(k) <==> #[trigger] keys@.contains(k),
                forall|k: u64| #[trigger]
                    ids@.contains(k) <==> keys@.take(i as int).contains(k) && self@.srcs[k].of(
                        guest_proc,
                    ),
                forall|j: int|
                    0 <= j < ids@.len() && i < keys@.len() ==> #[trigger] ids@[j] < keys@[i as int],
            decreases keys@.len() - i,
        {
            let k: u64 = keys[i];
            proof {
                assert(keys@.contains(k));
                lemma_take_contains(keys@, i as int);
            }
            let ghost before = ids@;
            if let Some(s) = self.srcs.get(k) {
                if s.belongs_to(guest_proc) {
                    ids.push(k);
                }
            }
            i += 1;
            proof {
                assert forall|x: u64| #[trigger] ids@.contains(x) <==> keys@.take(
                    i as int,
                ).contains(x) && self@.srcs[x].of(guest_proc) by {
                    if before.contains(x) {
                        let j = choose|j: int| 0 <= j < before.len() && before[j] == x;
                        assert(ids@[j] == x);
                    }
                    if ids@.contains(x) {
                        let j = choose|j: int| 0 <= j < ids@.len() && ids@[j] == x;
                        if j < before.len() {
                            assert(before[j] == x);
                            assert(before.contains(x));
                        }
                    }
                    if x == k && self@.srcs[k].of(guest_proc) {
                        assert(ids@[ids@.len() - 1] == k);
                    }
                }
                assert forall|j: int|
                    0 <= j < ids@.len() && i < keys@.len() implies #[trigger] ids@[j]
                    < keys@[i as int] by {
                    assert(keys@[i - 1] < keys@[i as int]);
                    if j < before.len() {
                        assert(before[j] < keys@[i - 1]);
                    }
                }
            }
        }
        proof {
            assert(keys@.take(i as int) =~= keys@);
        }
        ids
    }
}

/// A number that was forgotten never stands for another descriptor: what is given out next is
/// above all that was given out.
pub proof fn law_numbers_of_watches_never_repeat(v: PollView, id: u64)
    requires
        v.wf(),
        v.next < u64::MAX,
        0 < id < v.next,
    ensures
        id != v.next,
        !v.srcs.contains_key(v.next),
        ({
            let w = PollView {
                srcs: v.srcs.remove(id),
                next: (v.next + 1) as u64,
            };
            !w.srcs.contains_key(id) && id < w.next
        }),
{
}

/// What a number that the system reports is about.
#[derive(Clone, Copy, Debug, PartialEq, Eq, Structural)]
pub enum Ready {
    /// Nothing that is watched any more.
    Stale,
    /// A descriptor that failed: it leaves the watch.
    HungUp,
    /// The completions of waiters failed: no waiter would ever fire again.
    Fatal,
    /// A descriptor of the guest: it is woken.
    Wake { guest_proc: u32, token: u64 },
    /// A control descriptor: it is drained.
    Drain { guest_proc: u32, h_client: u32 },
    /// Completions of waiters.
    Waiters,
}

/// Decides what a number that the system reports is about.
pub fn on_ready(polls: &PollBook, id: u64, failed: bool) -> (r: Ready)
    ensures
        r == (match (polls@.srcs.contains_key(id), polls@.srcs[id]) {
            (true, PollSrc::WaiterNotify) => if failed {
                Ready::Fatal
            } else {
                Ready::Waiters
            },
            (true, PollSrc::Client { guest_proc, token, .. }) => if failed {
                Ready::HungUp
            } else {
                Ready::Wake { guest_proc, token }
            },
            (true, PollSrc::EventCtl { guest_proc, h_client, .. }) => if failed {
                Ready::HungUp
            } else {
                Ready::Drain { guest_proc, h_client }
            },
            (false, _) => if failed {
                Ready::HungUp
            } else {
                Ready::Stale
            },
        }),
{
    match polls.source(id) {
        Some(PollSrc::WaiterNotify) => if failed {
            Ready::Fatal
        } else {
            Ready::Waiters
        },
        Some(PollSrc::Client { guest_proc, token, .. }) => if failed {
            Ready::HungUp
        } else {
            Ready::Wake { guest_proc, token }
        },
        Some(PollSrc::EventCtl { guest_proc, h_client, .. }) => if failed {
            Ready::HungUp
        } else {
            Ready::Drain { guest_proc, h_client }
        },
        None => if failed {
            Ready::HungUp
        } else {
            Ready::Stale
        },
    }
}

/// What a callback of the guest gets to hear.
#[derive(Clone, Copy, Debug, PartialEq, Eq, Structural)]
pub struct EventDetail {
    pub info32: u32,
    pub h_client: u32,
    pub id: u64,
    pub h_event: u32,
    pub notify_index: u32,
    pub data: u64,
}

/// A message to the guest that an event fired.
#[derive(Clone, Copy, Debug, PartialEq, Eq, Structural)]
pub struct EventMsg {
    pub seq: u32,
    pub class: u32,
    pub token: u64,
    pub guest_proc: u32,
    /// Nothing where a descriptor is woken that the guest drains itself.
    pub detail: Option<EventDetail>,
}

/// The message that wakes a descriptor of the guest.
pub open spec fn wake_message(seq: u32, guest_proc: u32, token: u64) -> EventMsg {
    EventMsg { seq, class: CLASS_OS_EVENT, token, guest_proc, detail: None }
}

/// The message for a callback that fired: what the guest registered, and what came.
pub open spec fn callback_message(seq: u32, guest_proc: u32, f: Fired) -> EventMsg {
    EventMsg {
        seq,
        class: f.reg.class,
        token: f.reg.token,
        guest_proc,
        detail: Some(
            EventDetail {
                info32: f.info32,
                h_client: f.reg.h_client,
                id: f.reg.id as u64,
                h_event: f.reg.h_event,
                notify_index: f.reg.notify_index,
                data: f.reg.guest_data,
            },
        ),
    }
}

/// The message for a waiter that fired, for its client, callback and token. It has no event
/// object, which tells it apart.
pub open spec fn waiter_message(
    seq: u32,
    guest_proc: u32,
    registration: RegistrationId,
    woken: (u32, u64, u64),
) -> EventMsg {
    EventMsg {
        seq,
        class: CLASS_KERNEL_CALLBACK_EX,
        token: woken.2,
        guest_proc,
        detail: Some(
            EventDetail {
                info32: 0,
                h_client: woken.0,
                id: registration.event_id as u64,
                h_event: 0,
                notify_index: 0,
                data: woken.1,
            },
        ),
    }
}

/// How a message to the guest went.
#[derive(Clone, Copy, Debug, PartialEq, Eq, Structural)]
pub enum Delivery {
    /// The queue is not there.
    NoQueue,
    /// The guest left no buffer, or none that is long enough.
    NoSlot,
    Delivered,
}

/// What was sent to the guest, and what was not.
#[derive(Clone, Copy, Debug, PartialEq, Eq, Structural)]
pub struct EventChannel {
    pub seq: u32,
    pub delivered: u64,
    pub wakes: u64,
    pub dropped_noslot: u64,
    pub dropped_noqueue: u64,
    pub announced: bool,
}

impl EventChannel {
    pub fn new() -> (c: EventChannel)
        ensures
            c == (EventChannel {
                seq: 0,
                delivered: 0,
                wakes: 0,
                dropped_noslot: 0,
                dropped_noqueue: 0,
                announced: false,
            }),
    {
        EventChannel {
            seq: 0,
            delivered: 0,
            wakes: 0,
            dropped_noslot: 0,
            dropped_noqueue: 0,
            announced: false,
        }
    }

    /// The number of the next message. It wraps: it only tells messages apart in a log.
    pub fn next_seq(&mut self) -> (s: u32)
        ensures
            s == old(self).seq.wrapping_add(1),
            *final(self) == (EventChannel { seq: s, ..*old(self) }),
    {
        self.seq = self.seq.wrapping_add(1);
        self.seq
    }

    /// The message that wakes a descriptor of the guest.
    pub fn wake(&mut self, guest_proc: u32, token: u64) -> (m: EventMsg)
        ensures
            m == wake_message(old(self).seq.wrapping_add(1), guest_proc, token),
            *final(self) == (EventChannel {
                seq: m.seq,
                wakes: old(self).wakes.wrapping_add(1),
                ..*old(self)
            }),
    {
        let seq: u32 = self.next_seq();
        self.wakes = self.wakes.wrapping_add(1);
        EventMsg { seq, class: CLASS_OS_EVENT, token, guest_proc, detail: None }
    }

    /// The message for a callback that fired.
    pub fn fired(&mut self, guest_proc: u32, f: &Fired) -> (m: EventMsg)
        ensures
            m == callback_message(old(self).seq.wrapping_add(1), guest_proc, *f),
            *final(self) == (EventChannel { seq: m.seq, ..*old(self) }),
    {
        let seq: u32 = self.next_seq();
        EventMsg {
            seq,
            class: f.reg.class,
            token: f.reg.token,
            guest_proc,
            detail: Some(
                EventDetail {
                    info32: f.info32,
                    h_client: f.reg.h_client,
                    id: f.reg.id as u64,
                    h_event: f.reg.h_event,
                    notify_index: f.reg.notify_index,
                    data: f.reg.guest_data,
                },
            ),
        }
    }

    /// The message for a waiter that fired, for its client, callback and token.
    pub fn waiter(
        &mut self,
        guest_proc: u32,
        registration: RegistrationId,
        woken: (u32, u64, u64),
    ) -> (m: EventMsg)
        ensures
            m == waiter_message(
                old(self).seq.wrapping_add(1),
                guest_proc,
                registration,
                woken,
            ),
            *final(self) == (EventChannel {
                seq: m.seq,
                wakes: old(self).wakes.wrapping_add(1),
                ..*old(self)
            }),
    {
        let seq: u32 = self.next_seq();
        self.wakes = self.wakes.wrapping_add(1);
        EventMsg {
            seq,
            class: CLASS_KERNEL_CALLBACK_EX,
            token: woken.2,
            guest_proc,
            detail: Some(
                EventDetail {
                    info32: 0,
                    h_client: woken.0,
                    id: registration.event_id as u64,
                    h_event: 0,
                    notify_index: 0,
                    data: woken.1,
                },
            ),
        }
    }

    /// Counts how a message went. The answer is whether the guest has it, and whether it is
    /// the first that it ever had.
    pub fn push_event(&mut self, how: Delivery) -> (r: (bool, bool))
        ensures
            r == (how is Delivered, how is Delivered && !old(self).announced),
            *final(self) == (match how {
                Delivery::NoQueue => EventChannel {
                    dropped_noqueue: old(self).dropped_noqueue.wrapping_add(1),
                    ..*old(self)
                },
                Delivery::NoSlot => EventChannel {
                    dropped_noslot: old(self).dropped_noslot.wrapping_add(1),
                    ..*old(self)
                },
                Delivery::Delivered => EventChannel {
                    delivered: old(self).delivered.wrapping_add(1),
                    announced: true,
                    ..*old(self)
                },
            }),
    {
        match how {
            Delivery::NoQueue => {
                self.dropped_noqueue = self.dropped_noqueue.wrapping_add(1);
                (false, false)
            },
            Delivery::NoSlot => {
                self.dropped_noslot = self.dropped_noslot.wrapping_add(1);
                (false, false)
            },
            Delivery::Delivered => {
                let first: bool = !self.announced;
                self.delivered = self.delivered.wrapping_add(1);
                self.announced = true;
                (true, first)
            },
        }
    }
}

/// Two sources are the same watch exactly where they are of one kind and name the same process
/// and the same client or token, whatever their descriptors are.
pub proof fn law_a_watch_is_known_by_what_it_names(a: PollSrc, b: PollSrc)
    ensures
        a.key() is None <==> a is WaiterNotify,
        a.key() is Some && a.key() == b.key() <==> match (a, b) {
            (
                PollSrc::EventCtl { guest_proc, h_client, .. },
                PollSrc::EventCtl { guest_proc: p, h_client: c, .. },
            ) => guest_proc == p && h_client == c,
            (
                PollSrc::Client { guest_proc, token, .. },
                PollSrc::Client { guest_proc: p, token: t, .. },
            ) => guest_proc == p && token == t,
            _ => false,
        },
        a.watched_fd() is None <==> a is WaiterNotify,
        a matches PollSrc::EventCtl { fd, .. } ==> a.watched_fd() == Some(fd),
        a matches PollSrc::Client { fd, .. } ==> a.watched_fd() == Some(fd),
{
}

/// A descriptor belongs to the process that it was given for: to its owner where one is named,
/// else to the process whose session found it.
pub proof fn law_a_source_belongs_to_its_owner(guest_proc: u32, p: Pollable, other: u32)
    ensures
        match source_of(guest_proc, p) {
            Some(src) => match p {
                Pollable::EventCtl { h_client, fd } => src == (PollSrc::EventCtl {
                    guest_proc,
                    h_client,
                    fd,
                }) && (src.of(other) <==> other == guest_proc),
                Pollable::Client { token, fd, owner: Some(o) } => src == (PollSrc::Client {
                    guest_proc: o,
                    token,
                    fd,
                }) && (src.of(other) <==> other == o),
                Pollable::Client { token, fd, owner: None } => src == (PollSrc::Client {
                    guest_proc,
                    token,
                    fd,
                }) && (src.of(other) <==> other == guest_proc),
                Pollable::Waiter { .. } => false,
            },
            None => p is Waiter,
        },
{
}

/// What the guest is told: a wake names its token and nothing else, a callback what was
/// registered and what the driver said, and a waiter the pointer that it was registered with.
pub proof fn law_a_message_tells_what_was_registered(
    seq: u32,
    guest_proc: u32,
    token: u64,
    f: Fired,
    registration: RegistrationId,
    woken: (u32, u64, u64),
)
    ensures
        ({
            let m = wake_message(seq, guest_proc, token);
            m.seq == seq && m.guest_proc == guest_proc && m.token == token && m.class == 0x79
                && m.detail is None
        }),
        ({
            let m = callback_message(seq, guest_proc, f);
            &&& m.seq == seq && m.guest_proc == guest_proc && m.token == f.reg.token && m.class
                == f.reg.class
            &&& m.detail matches Some(d) && d.info32 == f.info32 && d.h_client == f.reg.h_client
                && d.id == f.reg.id && d.h_event == f.reg.h_event && d.notify_index
                == f.reg.notify_index && d.data == f.reg.guest_data
        }),
        ({
            let m = waiter_message(seq, guest_proc, registration, woken);
            &&& m.seq == seq && m.guest_proc == guest_proc && m.token == woken.2 && m.class == 0x7e
            &&& m.detail matches Some(d) && d.h_client == woken.0 && d.data == woken.1 && d.id
                == registration.event_id && d.info32 == 0 && d.h_event == 0 && d.notify_index == 0
        }),
{
}

} // verus!
