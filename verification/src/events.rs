//! Guest callbacks that the host carries as OS events.
//!
//! The driver takes no kernel callback from user space. A callback of the guest becomes an OS
//! event on a private control descriptor, and what fires goes back to the guest with the
//! pointer it registered. A waiter on a semaphore surface fires once and carries no data, so
//! each one has a descriptor of its own, taken from a pool that its client keeps.

use crate::abi::{NV_ERR_OPERATING_SYSTEM, NV_OK};
use crate::bytes::{get32, get64, le32, le64};
use crate::seqs::{
    lemma_filter_from, lemma_filter_pairs, lemma_filter_step, lemma_take_contains,
};
use crate::table::{lemma_rising_lists_agree, rising, Table};
use crate::vram::{key, key_of};
use crate::waiters::RegistrationId;
use vstd::prelude::*;

verus! {

/// How many control descriptors a session holds before that is worth a line.
pub const CTL_WARN_AT: usize = 32;

/// How many events one drain takes from a descriptor.
pub const DRAIN_BOUND: u32 = 256;

/// A callback of the guest, as it asked for it.
#[derive(Clone, Copy, Debug, PartialEq, Eq, Structural)]
pub struct EventReg {
    pub h_client: u32,
    pub h_event: u32,
    pub class: u32,
    pub notify_index: u32,
    pub guest_data: u64,
    pub token: u64,
    /// The OS event that stands for it.
    pub id: u32,
}

/// A private control descriptor with one OS event.
#[derive(Clone, Copy, Debug, PartialEq, Eq, Structural)]
pub struct WaiterSlot {
    pub ctl: i32,
    pub id: u32,
}

/// A slot that waits for its client to arm it.
#[derive(Clone, Copy, Debug, PartialEq, Eq, Structural)]
pub struct Pooled {
    pub client: u32,
    pub slot: WaiterSlot,
}

/// A slot that is out of use until the poller has let go of it.
#[derive(Clone, Copy, Debug, PartialEq, Eq, Structural)]
pub struct WaiterRetirement {
    pub slot: WaiterSlot,
    /// The client it goes back to.
    pub reuse_for: Option<u32>,
}

impl WaiterRetirement {
    pub fn event_id(&self) -> (id: u32)
        ensures
            id == self.slot.id,
    {
        self.slot.id
    }
}

/// What a waiter waits for.
#[derive(Clone, Copy, Debug, PartialEq, Eq, Structural)]
pub struct WaiterTarget {
    pub surface: u32,
    pub index: u64,
    pub wait_value: u64,
}

impl WaiterTarget {
    /// The target that a request names.
    pub open spec fn named(inline: Seq<u8>, aux: Seq<u8>) -> WaiterTarget {
        WaiterTarget { surface: le32(inline, 4), index: le64(aux, 0), wait_value: le64(aux, 8) }
    }

    pub fn from_params(inline: &[u8], aux: &[u8]) -> (t: WaiterTarget)
        requires
            inline@.len() >= 8,
            aux@.len() >= 16,
        ensures
            t == WaiterTarget::named(inline@, aux@),
    {
        WaiterTarget { surface: get32(inline, 4), index: get64(aux, 0), wait_value: get64(aux, 8) }
    }
}

/// A waiter: the driver will post to its slot once.
#[derive(Clone, Copy, Debug, PartialEq, Eq, Structural)]
pub struct Waiter {
    pub slot: WaiterSlot,
    pub generation: u64,
    pub target: WaiterTarget,
    pub h_client: u32,
    /// The pointer of the guest.
    pub guest_kc: u64,
    pub token: u64,
}

impl Waiter {
    pub open spec fn registration(self) -> RegistrationId {
        RegistrationId { event_id: self.slot.id, generation: self.generation }
    }
}

/// A descriptor that the device is to watch.
#[derive(Clone, Copy, Debug, PartialEq, Eq, Structural)]
pub enum Pollable {
    /// The private control descriptor of a client.
    EventCtl { h_client: u32, fd: i32 },
    /// A descriptor of the guest, and its owner where that is another process.
    Client { token: u64, fd: i32, owner: Option<u32> },
    /// A waiter that fires once.
    Waiter { registration: RegistrationId, fd: i32 },
}

/// An event that fired.
#[derive(Clone, Copy, Debug, PartialEq, Eq, Structural)]
pub struct Fired {
    pub reg: EventReg,
    pub info32: u32,
}

/// What the driver said when asked for the next event.
#[derive(Clone, Copy, Debug, PartialEq, Eq, Structural)]
pub struct EventAnswer {
    pub ret: i32,
    pub status: u32,
    pub more: u32,
    pub h_object: u32,
    pub notify_index: u32,
    pub info32: u32,
}

/// The state of a session's events.
#[verifier::ext_equal]
pub struct EventView {
    /// The control descriptor of each client.
    pub ctls: Map<u64, i32>,
    pub next_id: u64,
    pub next_generation: u64,
    /// What each client registered, by client and handle.
    pub events: Map<u64, EventReg>,
    pub pool: Seq<Pooled>,
    /// Armed waiters by their OS event.
    pub waiters: Map<u64, Waiter>,
    pub unwatch: Seq<WaiterRetirement>,
    pub ctl_unwatch: Seq<(u32, i32)>,
    pub pollables: Seq<Pollable>,
    pub registered: u64,
    pub fired: u64,
    pub unmatched: u64,
    pub dataless: u64,
    pub taken: u64,
    pub freed_by_free: u64,
    pub freed_by_close: u64,
    /// The descriptor that each client was made on.
    pub client_token: Map<u64, u64>,
    pub warn_at: usize,
}

/// The last slot below `n` that the client keeps; nothing where it keeps none.
pub open spec fn pooled_below(pool: Seq<Pooled>, client: u32, n: int) -> Option<int>
    decreases n,
{
    if n <= 0 {
        None
    } else if pool[n - 1].client == client {
        Some(n - 1)
    } else {
        pooled_below(pool, client, n - 1)
    }
}

/// Slots that go for good.
pub open spec fn discarded(slots: Seq<WaiterSlot>) -> Seq<WaiterRetirement> {
    Seq::new(slots.len(), |i: int| WaiterRetirement { slot: slots[i], reuse_for: None })
}

/// The slots that a client keeps in the pool.
pub open spec fn pool_of(pool: Seq<Pooled>, client: u32) -> Seq<WaiterSlot> {
    let mine = pool.filter(|p: Pooled| p.client == client);
    Seq::new(mine.len(), |i: int| mine[i].slot)
}

/// The waiters of a client by their OS events, in rising order.
pub open spec fn is_armed_list(waiters: Map<u64, Waiter>, client: u32, ids: Seq<u64>) -> bool {
    &&& rising(ids)
    &&& forall|k: u64| #[trigger]
        ids.contains(k) <==> waiters.contains_key(k) && waiters[k].h_client == client
}

/// The waiters of a client by their OS events, in rising order.
pub open spec fn armed_by(waiters: Map<u64, Waiter>, client: u32) -> Seq<u64> {
    choose|ids: Seq<u64>| is_armed_list(waiters, client, ids)
}

/// The slots of some waiters.
pub open spec fn slots_of(waiters: Map<u64, Waiter>, ids: Seq<u64>) -> Seq<WaiterSlot> {
    Seq::new(ids.len(), |i: int| waiters[ids[i]].slot)
}

/// The clients that were made on a descriptor, in rising order.
pub open spec fn is_client_list(made: Map<u64, u64>, token: u64, ids: Seq<u64>) -> bool {
    &&& rising(ids)
    &&& forall|k: u64| #[trigger] ids.contains(k) <==> made.contains_key(k) && made[k] == token
}

/// The clients that were made on a descriptor, in rising order.
pub open spec fn clients_on(made: Map<u64, u64>, token: u64) -> Seq<u64> {
    choose|ids: Seq<u64>| is_client_list(made, token, ids)
}

impl EventView {
    /// Nothing, with the numbers that come next.
    pub open spec fn empty(next_id: u64, next_generation: u64) -> EventView {
        EventView {
            ctls: Map::empty(),
            next_id,
            next_generation,
            events: Map::empty(),
            pool: Seq::empty(),
            waiters: Map::empty(),
            unwatch: Seq::empty(),
            ctl_unwatch: Seq::empty(),
            pollables: Seq::empty(),
            registered: 0,
            fired: 0,
            unmatched: 0,
            dataless: 0,
            taken: 0,
            freed_by_free: 0,
            freed_by_close: 0,
            client_token: Map::empty(),
            warn_at: CTL_WARN_AT,
        }
    }

    /// The events of the other clients.
    pub open spec fn events_without(self, client: u32) -> Map<u64, EventReg> {
        Map::new(
            |k: u64| self.events.contains_key(k) && self.events[k].h_client != client,
            |k: u64| self.events[k],
        )
    }

    /// The waiters of the other clients.
    pub open spec fn waiters_without(self, client: u32) -> Map<u64, Waiter> {
        Map::new(
            |k: u64| self.waiters.contains_key(k) && self.waiters[k].h_client != client,
            |k: u64| self.waiters[k],
        )
    }

    /// How many descriptors are held for clients.
    pub open spec fn held(self) -> nat {
        self.ctls.len() + self.pool.len()
    }

    /// The number of descriptors that is worth a line.
    pub open spec fn warning(self) -> Option<usize> {
        if self.held() < self.warn_at {
            None
        } else if self.held() <= usize::MAX {
            Some(self.held() as usize)
        } else {
            Some(usize::MAX)
        }
    }

    /// One more descriptor was taken. A warning is due where too many are held, and the next
    /// one at twice their number.
    pub open spec fn counted(self) -> EventView {
        EventView {
            taken: self.taken.wrapping_add(1),
            warn_at: if self.held() < self.warn_at {
                self.warn_at
            } else if 2 * self.held() <= usize::MAX {
                (2 * self.held()) as usize
            } else {
                usize::MAX
            },
            ..self
        }
    }

    /// A control descriptor was opened for a client.
    pub open spec fn with_ctl(self, client: u32, fd: i32) -> EventView {
        EventView {
            ctls: self.ctls.insert(client as u64, fd),
            pollables: self.pollables.push(Pollable::EventCtl { h_client: client, fd }),
            ..self
        }.counted()
    }

    pub open spec fn pooling(self, client: u32, slot: WaiterSlot) -> EventView {
        EventView { pool: self.pool.push(Pooled { client, slot }), ..self }
    }

    /// The driver took the event: it is known by the handle it got.
    pub open spec fn filed(self, r: EventReg) -> EventView {
        EventView {
            events: self.events.insert(key(r.h_client, r.h_event), r),
            registered: self.registered.wrapping_add(1),
            ..self
        }
    }

    /// The driver took the waiter.
    pub open spec fn armed(self, w: Waiter) -> EventView {
        EventView {
            waiters: self.waiters.insert(w.slot.id as u64, w),
            pollables: self.pollables.push(
                Pollable::Waiter { registration: w.registration(), fd: w.slot.ctl },
            ),
            registered: self.registered.wrapping_add(1),
            ..self
        }
    }

    /// The driver dropped the waiter: its slot comes back once the poller let go of it.
    pub open spec fn disarmed(self, id: u32) -> EventView {
        if self.waiters.contains_key(id as u64) {
            let w = self.waiters[id as u64];
            EventView {
                waiters: self.waiters.remove(id as u64),
                unwatch: self.unwatch.push(
                    WaiterRetirement { slot: w.slot, reuse_for: Some(w.h_client) },
                ),
                ..self
            }
        } else {
            self
        }
    }

    /// Whether this use of the slot is armed.
    pub open spec fn awaits(self, r: RegistrationId) -> bool {
        self.waiters.contains_key(r.event_id as u64) && self.waiters[r.event_id as u64].generation
            == r.generation
    }

    /// A waiter fired: its slot is free again.
    pub open spec fn woken(self, r: RegistrationId) -> EventView {
        let w = self.waiters[r.event_id as u64];
        EventView {
            waiters: self.waiters.remove(r.event_id as u64),
            fired: self.fired.wrapping_add(1),
            ..self
        }.pooling(w.h_client, w.slot)
    }

    /// The client is gone, and with it all that was held for it.
    pub open spec fn released(self, client: u32) -> EventView {
        let ids = armed_by(self.waiters, client);
        EventView {
            events: self.events_without(client),
            client_token: self.client_token.remove(client as u64),
            ctls: self.ctls.remove(client as u64),
            ctl_unwatch: if self.ctls.contains_key(client as u64) {
                self.ctl_unwatch.push((client, self.ctls[client as u64]))
            } else {
                self.ctl_unwatch
            },
            pool: self.pool.filter(|p: Pooled| p.client != client),
            waiters: self.waiters_without(client),
            unwatch: self.unwatch + discarded(pool_of(self.pool, client)) + discarded(
                slots_of(self.waiters, ids),
            ),
            ..self
        }
    }

    /// How many descriptors go with a client.
    pub open spec fn release_count(self, client: u32) -> usize {
        let n = (if self.ctls.contains_key(client as u64) {
            1nat
        } else {
            0
        }) + pool_of(self.pool, client).len() + armed_by(self.waiters, client).len();
        if n <= usize::MAX {
            n as usize
        } else {
            usize::MAX
        }
    }

    /// The first `n` of the clients are gone because their descriptor was closed.
    pub open spec fn closed(self, clients: Seq<u64>, n: int) -> EventView
        decreases n,
    {
        if n <= 0 {
            self
        } else {
            let v = self.closed(clients, n - 1);
            let c = clients[n - 1] as u32;
            EventView {
                freed_by_close: v.freed_by_close.wrapping_add(v.release_count(c) as u64),
                ..v.released(c)
            }
        }
    }

    /// The control descriptor of a client fails: it goes, and its events are lost.
    pub open spec fn broken(self, client: u32) -> EventView {
        EventView {
            ctls: self.ctls.remove(client as u64),
            events: self.events_without(client),
            ..self
        }
    }
}

/// The events, waiters and control descriptors of one session.
pub struct EventBook {
    ctls: Table<i32>,
    next_id: u64,
    next_generation: u64,
    events: Table<EventReg>,
    pool: Vec<Pooled>,
    waiters: Table<Waiter>,
    unwatch: Vec<WaiterRetirement>,
    ctl_unwatch: Vec<(u32, i32)>,
    pollables: Vec<Pollable>,
    registered: u64,
    fired: u64,
    unmatched: u64,
    dataless: u64,
    taken: u64,
    freed_by_free: u64,
    freed_by_close: u64,
    client_token: Table<u64>,
    warn_at: usize,
}

impl View for EventBook {
    type V = EventView;

    closed spec fn view(&self) -> EventView {
        EventView {
            ctls: self.ctls@,
            next_id: self.next_id,
            next_generation: self.next_generation,
            events: self.events@,
            pool: self.pool@,
            waiters: self.waiters@,
            unwatch: self.unwatch@,
            ctl_unwatch: self.ctl_unwatch@,
            pollables: self.pollables@,
            registered: self.registered,
            fired: self.fired,
            unmatched: self.unmatched,
            dataless: self.dataless,
            taken: self.taken,
            freed_by_free: self.freed_by_free,
            freed_by_close: self.freed_by_close,
            client_token: self.client_token@,
            warn_at: self.warn_at,
        }
    }
}

impl EventBook {
    /// A session without events. Identifiers and generations count from one.
    pub fn new() -> (b: EventBook)
        ensures
            b@ == EventView::empty(1, 1),
    {
        EventBook::numbered_from(1, 1)
    }

    /// A session without events, whose identifiers and generations count from here.
    pub fn numbered_from(next_id: u64, next_generation: u64) -> (b: EventBook)
        ensures
            b@ == EventView::empty(next_id, next_generation),
    {
        EventBook {
            ctls: Table::new(),
            next_id,
            next_generation,
            events: Table::new(),
            pool: Vec::new(),
            waiters: Table::new(),
            unwatch: Vec::new(),
            ctl_unwatch: Vec::new(),
            pollables: Vec::new(),
            registered: 0,
            fired: 0,
            unmatched: 0,
            dataless: 0,
            taken: 0,
            freed_by_free: 0,
            freed_by_close: 0,
            client_token: Table::new(),
            warn_at: CTL_WARN_AT,
        }
    }

    /// The registration of an event object.
    pub fn event_of(&self, client: u32, handle: u32) -> (r: Option<EventReg>)
        ensures
            r == (if self@.events.contains_key(key(client, handle)) {
                Some(self@.events[key(client, handle)])
            } else {
                None
            }),
    {
        match self.events.get(key_of(client, handle)) {
            Some(reg) => Some(*reg),
            None => None,
        }
    }

    /// How many event objects are registered.
    pub fn event_count(&self) -> (n: usize)
        ensures
            n == self@.events.len(),
    {
        self.events.len()
    }

    /// The token that a client was made on; nothing for one that is not known.
    pub fn token_of(&self, client: u32) -> (r: Option<u64>)
        ensures
            r == (if self@.client_token.contains_key(client as u64) {
                Some(self@.client_token[client as u64])
            } else {
                None
            }),
    {
        match self.client_token.get(client as u64) {
            Some(token) => Some(*token),
            None => None,
        }
    }

    /// How many clients are known by the token that they were made on.
    pub fn client_count(&self) -> (n: usize)
        ensures
            n == self@.client_token.len(),
    {
        self.client_token.len()
    }

    /// A number that no event of the session had before; nothing once they are spent.
    pub fn take_event_id(&mut self) -> (r: Option<u32>)
        ensures
            match r {
                Some(id) => id == old(self)@.next_id && final(self)@ == (EventView {
                    next_id: (old(self)@.next_id + 1) as u64,
                    ..old(self)@
                }),
                None => old(self)@.next_id > u32::MAX && *final(self) == *old(self),
            },
    {
        if self.next_id > u32::MAX as u64 {
            return None;
        }
        let id: u32 = self.next_id as u32;
        self.next_id = self.next_id + 1;
        Some(id)
    }

    /// A generation that no use of a slot had before; nothing once they are spent.
    pub fn take_waiter_generation(&mut self) -> (r: Option<u64>)
        ensures
            match r {
                Some(g) => g == old(self)@.next_generation && final(self)@ == (EventView {
                    next_generation: (old(self)@.next_generation + 1) as u64,
                    ..old(self)@
                }) && g < u64::MAX,
                None => old(self)@.next_generation == u64::MAX && *final(self) == *old(self),
            },
    {
        let g: u64 = self.next_generation;
        match g.checked_add(1) {
            Some(next) => {
                self.next_generation = next;
                Some(g)
            },
            None => None,
        }
    }

    /// The control descriptor of a client.
    pub fn ctl_of(&self, client: u32) -> (r: Option<i32>)
        ensures
            r == (if self@.ctls.contains_key(client as u64) {
                Some(self@.ctls[client as u64])
            } else {
                None
            }),
    {
        match self.ctls.get(client as u64) {
            Some(fd) => Some(*fd),
            None => None,
        }
    }

    pub fn has_event_ctl(&self, client: u32) -> (r: bool)
        ensures
            r == self@.ctls.contains_key(client as u64),
    {
        self.ctls.contains_key(client as u64)
    }

    /// Counts a descriptor that was taken. Too many of them are worth a line.
    pub fn note_ctl_taken(&mut self) -> (warn: Option<usize>)
        ensures
            final(self)@ == old(self)@.counted(),
            warn == old(self)@.warning(),
    {
        self.taken = self.taken.wrapping_add(1);
        let n: usize = self.ctls.len();
        let held: usize = n.saturating_add(self.pool.len());
        if held >= self.warn_at {
            self.warn_at = held.saturating_add(held);
            Some(held)
        } else {
            None
        }
    }

    /// Takes up the control descriptor that was opened for a client.
    pub fn adopt_ctl(&mut self, client: u32, fd: i32) -> (warn: Option<usize>)
        ensures
            final(self)@ == old(self)@.with_ctl(client, fd),
            warn == (EventView {
                ctls: old(self)@.ctls.insert(client as u64, fd),
                ..old(self)@
            }).warning(),
    {
        self.ctls.insert(client as u64, fd);
        self.pollables.push(Pollable::EventCtl { h_client: client, fd });
        self.note_ctl_taken()
    }

    /// Takes the slot that the client put back last.
    pub fn pop_slot(&mut self, client: u32) -> (r: Option<WaiterSlot>)
        ensures
            match pooled_below(old(self)@.pool, client, old(self)@.pool.len() as int) {
                Some(i) => 0 <= i < old(self)@.pool.len() && r == Some(old(self)@.pool[i].slot)
                    && final(self)@ == (EventView { pool: old(self)@.pool.remove(i), ..old(self)@ }),
                None => r is None && *final(self) == *old(self),
            },
    {
        let mut n: usize = self.pool.len();
        while n > 0
            invariant
                n <= self.pool@.len(),
                *self == *old(self),
                pooled_below(self.pool@, client, n as int) == pooled_below(
                    self.pool@,
                    client,
                    self.pool@.len() as int,
                ),
            decreases n,
        {
            if self.pool[n - 1].client == client {
                let p: Pooled = self.pool.remove(n - 1);
                return Some(p.slot);
            }
            n -= 1;
        }
        None
    }

    /// Puts a slot back that its client did not arm.
    pub fn push_slot(&mut self, client: u32, slot: WaiterSlot)
        ensures
            final(self)@ == old(self)@.pooling(client, slot),
    {
        self.pool.push(Pooled { client, slot });
    }

    pub fn push_pollable(&mut self, p: Pollable)
        ensures
            final(self)@ == (EventView { pollables: old(self)@.pollables.push(p), ..old(self)@ }),
    {
        self.pollables.push(p);
    }

    /// Files an event under the handle that the driver gave it.
    pub fn file(&mut self, r: EventReg)
        ensures
            final(self)@ == old(self)@.filed(r),
    {
        self.events.insert(key_of(r.h_client, r.h_event), r);
        self.registered = self.registered.wrapping_add(1);
    }

    /// Takes out the event of a handle.
    pub fn unfile(&mut self, client: u32, handle: u32) -> (r: Option<EventReg>)
        ensures
            r == (if old(self)@.events.contains_key(key(client, handle)) {
                Some(old(self)@.events[key(client, handle)])
            } else {
                None
            }),
            final(self)@ == (EventView {
                events: old(self)@.events.remove(key(client, handle)),
                ..old(self)@
            }),
    {
        self.events.remove(key_of(client, handle))
    }

    /// Arms a waiter.
    pub fn arm(&mut self, w: Waiter)
        ensures
            final(self)@ == old(self)@.armed(w),
    {
        self.pollables.push(
            Pollable::Waiter {
                registration: RegistrationId { event_id: w.slot.id, generation: w.generation },
                fd: w.slot.ctl,
            },
        );
        self.waiters.insert(w.slot.id as u64, w);
        self.registered = self.registered.wrapping_add(1);
    }

    /// Retires a waiter that the driver dropped before it fired.
    pub fn disarm(&mut self, id: u32)
        ensures
            final(self)@ == old(self)@.disarmed(id),
    {
        if let Some(w) = self.waiters.remove(id as u64) {
            self.unwatch.push(WaiterRetirement { slot: w.slot, reuse_for: Some(w.h_client) });
        } else {
            assert(self@.waiters =~= old(self)@.waiters);
        }
    }

    /// The armed waiter of a client with this pointer and target; the one with the lowest
    /// number where there are several.
    pub fn find_waiter(&self, client: u32, kc: u64, target: WaiterTarget) -> (r: Option<u32>)
        ensures
            r == found(self@.waiters, client, kc, target),
            r matches Some(id) ==> is_lowest(self@.waiters, client, kc, target, id),
    {
        let keys: Vec<u64> = self.waiters.keys();
        let mut i: usize = 0;
        while i < keys.len()
            invariant
                i <= keys@.len(),
                rising(keys@),
                forall|k: u64| self@.waiters.contains_key(k) <==> #[trigger] keys@.contains(k),
                forall|j: int|
                    0 <= j < i && keys@[j] <= u32::MAX ==> !matching(
                        self@.waiters[#[trigger] keys@[j]],
                        client,
                        kc,
                        target,
                    ),
            decreases keys@.len() - i,
        {
            let k: u64 = keys[i];
            proof {
                assert(keys@.contains(k));
            }
            if k <= u32::MAX as u64 {
                if let Some(w) = self.waiters.get(k) {
                    if w.h_client == client && w.guest_kc == kc && w.target == target {
                        proof {
                            assert forall|x: u64|
                                #![trigger self@.waiters.contains_key(x)]
                                x < k && self@.waiters.contains_key(x) implies !matching(
                                self@.waiters[x],
                                client,
                                kc,
                                target,
                            ) by {
                                assert(keys@.contains(x));
                                let j = choose|j: int| 0 <= j < keys@.len() && keys@[j] == x;
                                if i < j {
                                    assert(keys@[i as int] < keys@[j]);
                                }
                            }
                            let id = k as u32;
                            assert(is_lowest(self@.waiters, client, kc, target, id));
                            let other = choose|x: u32|
                                is_lowest(self@.waiters, client, kc, target, x);
                            assert(is_lowest(self@.waiters, client, kc, target, other));
                            if other < id {
                                assert(self@.waiters.contains_key(other as u64));
                            }
                            if id < other {
                                assert(self@.waiters.contains_key(id as u64));
                            }
                        }
                        return Some(k as u32);
                    }
                }
            }
            i += 1;
        }
        proof {
            assert forall|x: u64|
                #![trigger self@.waiters.contains_key(x)]
                self@.waiters.contains_key(x) && x <= u32::MAX implies !matching(
                self@.waiters[x],
                client,
                kc,
                target,
            ) by {
                assert(keys@.contains(x));
                let j = choose|j: int| 0 <= j < keys@.len() && keys@[j] == x;
            }
            assert forall|id: u32| !is_lowest(self@.waiters, client, kc, target, id) by {
                if is_lowest(self@.waiters, client, kc, target, id) {
                    assert(self@.waiters.contains_key(id as u64));
                }
            }
        }
        None
    }

    /// A waiter fired. Only the use that is armed is answered; its slot is free again.
    pub fn semsurf_wake(&mut self, r: RegistrationId) -> (out: Option<(u32, u64, u64)>)
        ensures
            if old(self)@.awaits(r) {
                let w = old(self)@.waiters[r.event_id as u64];
                out == Some((w.h_client, w.guest_kc, w.token)) && final(self)@ == old(self)@.woken(r)
            } else {
                out is None && *final(self) == *old(self)
            },
    {
        match self.waiters.get(r.event_id as u64) {
            Some(w) => {
                if w.generation != r.generation {
                    return None;
                }
            },
            None => {
                return None;
            },
        }
        if let Some(w) = self.waiters.remove(r.event_id as u64) {
            self.pool.push(Pooled { client: w.h_client, slot: w.slot });
            self.fired = self.fired.wrapping_add(1);
            Some((w.h_client, w.guest_kc, w.token))
        } else {
            None
        }
    }

    /// Hands over the slots that the poller has to let go of.
    pub fn take_unwatch(&mut self) -> (r: Vec<WaiterRetirement>)
        ensures
            r@ == old(self)@.unwatch,
            final(self)@ == (EventView { unwatch: Seq::empty(), ..old(self)@ }),
    {
        let mut out: Vec<WaiterRetirement> = Vec::new();
        std::mem::swap(&mut out, &mut self.unwatch);
        out
    }

    /// The poller let go of the slots: those that may be used again go back to their clients.
    pub fn finish_unwatch(&mut self, retired: Vec<WaiterRetirement>)
        ensures
            final(self)@ == (EventView {
                pool: old(self)@.pool + returned(retired@, retired@.len() as int),
                ..old(self)@
            }),
    {
        let mut i: usize = 0;
        let ghost start = self.pool@;
        proof {
            assert(start + returned(retired@, 0) =~= start);
        }
        while i < retired.len()
            invariant
                i <= retired@.len(),
                start == old(self)@.pool,
                self.pool@ == start + returned(retired@, i as int),
                self@ == (EventView { pool: self.pool@, ..old(self)@ }),
            decreases retired@.len() - i,
        {
            let r: WaiterRetirement = retired[i];
            if let Some(client) = r.reuse_for {
                self.pool.push(Pooled { client, slot: r.slot });
            }
            i += 1;
            proof {
                assert(self.pool@ =~= start + returned(retired@, i as int));
            }
        }
    }

    /// Hands over the control descriptors that nothing watches any more.
    pub fn take_ctl_unwatch(&mut self) -> (r: Vec<(u32, i32)>)
        ensures
            r@ == old(self)@.ctl_unwatch,
            final(self)@ == (EventView { ctl_unwatch: Seq::empty(), ..old(self)@ }),
    {
        let mut out: Vec<(u32, i32)> = Vec::new();
        std::mem::swap(&mut out, &mut self.ctl_unwatch);
        out
    }

    /// Hands over the descriptors that the device has to watch.
    pub fn take_pollables(&mut self) -> (r: Vec<Pollable>)
        ensures
            r@ == old(self)@.pollables,
            final(self)@ == (EventView { pollables: Seq::empty(), ..old(self)@ }),
    {
        let mut out: Vec<Pollable> = Vec::new();
        std::mem::swap(&mut out, &mut self.pollables);
        out
    }

    /// How many events were registered, fired, met no registration, and came without data.
    pub fn event_stats(&self) -> (r: (u64, u64, u64, u64))
        ensures
            r == (self@.registered, self@.fired, self@.unmatched, self@.dataless),
    {
        (self.registered, self.fired, self.unmatched, self.dataless)
    }

    /// How many descriptors were taken, and freed with their clients by either way.
    pub fn ctl_stats(&self) -> (r: (u64, u64, u64))
        ensures
            r == (self@.taken, self@.freed_by_free, self@.freed_by_close),
    {
        (self.taken, self.freed_by_free, self.freed_by_close)
    }

    /// Control descriptors, pooled slots, armed waiters, and what waits to be let go of.
    pub fn census(&self) -> (r: [usize; 4])
        ensures
            r@[0] == self@.ctls.len(),
            r@[1] == self@.pool.len(),
            r@[2] == self@.waiters.len(),
            r@[3] == (if self@.unwatch.len() + self@.ctl_unwatch.len() <= usize::MAX {
                self@.unwatch.len() + self@.ctl_unwatch.len()
            } else {
                usize::MAX as nat
            }),
    {
        [
            self.ctls.len(),
            self.pool.len(),
            self.waiters.len(),
            self.unwatch.len().saturating_add(self.ctl_unwatch.len()),
        ]
    }

    /// Notes the descriptor that a client was made on.
    pub fn note_client(&mut self, client: u32, token: u64)
        ensures
            final(self)@ == (EventView {
                client_token: old(self)@.client_token.insert(client as u64, token),
                ..old(self)@
            }),
    {
        self.client_token.insert(client as u64, token);
    }

    /// Counts descriptors that went with a client the guest freed.
    pub fn note_freed(&mut self, n: usize)
        ensures
            final(self)@ == (EventView {
                freed_by_free: old(self)@.freed_by_free.wrapping_add(n as u64),
                ..old(self)@
            }),
    {
        self.freed_by_free = self.freed_by_free.wrapping_add(n as u64);
    }
}

impl EventBook {
    fn drop_events(&mut self, client: u32)
        ensures
            final(self)@ == (EventView { events: old(self)@.events_without(client), ..old(self)@ }),
    {
        let keys: Vec<u64> = self.events.keys();
        let ghost all = self.events@;
        let mut i: usize = 0;
        while i < keys.len()
            invariant
                i <= keys@.len(),
                all == old(self)@.events,
                forall|k: u64| all.contains_key(k) <==> #[trigger] keys@.contains(k),
                self@ == (EventView { events: self.events@, ..old(self)@ }),
                forall|k: u64| #[trigger]
                    self.events@.contains_key(k) <==> all.contains_key(k) && !(all[k].h_client
                        == client && keys@.take(i as int).contains(k)),
                forall|k: u64| #[trigger]
                    self.events@.contains_key(k) ==> self.events@[k] == all[k],
            decreases keys@.len() - i,
        {
            let k: u64 = keys[i];
            proof {
                assert(keys@.contains(k));
                lemma_take_contains(keys@, i as int);
            }
            if let Some(r) = self.events.get(k) {
                if r.h_client == client {
                    self.events.remove(k);
                }
            }
            i += 1;
        }
        proof {
            assert(keys@.take(i as int) =~= keys@);
            assert(self.events@ =~= old(self)@.events_without(client));
        }
    }

    fn list_waiters(&self, client: u32) -> (ids: Vec<u64>)
        ensures
            is_armed_list(self@.waiters, client, ids@),
            ids@ == armed_by(self@.waiters, client),
    {
        let keys: Vec<u64> = self.waiters.keys();
        let mut ids: Vec<u64> = Vec::new();
        let mut i: usize = 0;
        while i < keys.len()
            invariant
                i <= keys@.len(),
                rising(keys@),
                rising(ids@),
                forall|k: u64| self@.waiters.contains_key(k) <==> #[trigger] keys@.contains(k),
                forall|k: u64| #[trigger]
                    ids@.contains(k) <==> keys@.take(i as int).contains(k)
                        && self@.waiters[k].h_client == client,
                forall|j: int|
                    0 <= j < ids@.len() && i < keys@.len() ==> #[trigger] ids@[j] < keys@[i as int],
            decreases keys@.len() - i,
        {
            let k: u64 = keys[i];
            proof {
                assert(keys@.contains(k));
                lemma_take_contains(keys@, i as int);
            }
            let ghost before = ids@;
            if let Some(w) = self.waiters.get(k) {
                if w.h_client == client {
                    ids.push(k);
                }
            }
            i += 1;
            proof {
                assert forall|x: u64| #[trigger] ids@.contains(x) <==> keys@.take(
                    i as int,
                ).contains(x) && self@.waiters[x].h_client == client by {
                    if before.contains(x) {
                        let j = choose|j: int| 0 <= j < before.len() && before[j] == x;
                        assert(ids@[j] == x);
                    }
                    if ids@.contains(x) {
                        let j = choose|j: int| 0 <= j < ids@.len() && ids@[j] == x;
                        if j < before.len() {
                            assert(before[j] == x);
                            assert(before.contains(x));
                        }
                    }
                    if x == k && self@.waiters[k].h_client == client {
                        assert(ids@[ids@.len() - 1] == k);
                    }
                }
                assert forall|j: int|
                    0 <= j < ids@.len() && i < keys@.len() implies #[trigger] ids@[j]
                    < keys@[i as int] by {
                    assert(keys@[i - 1] < keys@[i as int]);
                    if j < before.len() {
                        assert(before[j] < keys@[i - 1]);
                    }
                }
            }
        }
        proof {
            assert(keys@.take(i as int) =~= keys@);
            let want = armed_by(self@.waiters, client);
            assert(is_armed_list(self@.waiters, client, ids@));
            lemma_rising_lists_agree(ids@, want);
        }
        ids
    }

    fn list_clients(&self, token: u64) -> (ids: Vec<u64>)
        ensures
            is_client_list(self@.client_token, token, ids@),
            ids@ == clients_on(self@.client_token, token),
    {
        let keys: Vec<u64> = self.client_token.keys();
        let mut ids: Vec<u64> = Vec::new();
        let mut i: usize = 0;
        while i < keys.len()
            invariant
                i <= keys@.len(),
                rising(keys@),
                rising(ids@),
                forall|k: u64| self@.client_token.contains_key(k) <==> #[trigger] keys@.contains(k),
                forall|k: u64| #[trigger]
                    ids@.contains(k) <==> keys@.take(i as int).contains(k) && self@.client_token[k]
                        == token,
                forall|j: int|
                    0 <= j < ids@.len() && i < keys@.len() ==> #[trigger] ids@[j] < keys@[i as int],
            decreases keys@.len() - i,
        {
            let k: u64 = keys[i];
            proof {
                assert(keys@.contains(k));
                lemma_take_contains(keys@, i as int);
            }
            let ghost before = ids@;
            if let Some(t) = self.client_token.get(k) {
                if *t == token {
                    ids.push(k);
                }
            }
            i += 1;
            proof {
                assert forall|x: u64| #[trigger] ids@.contains(x) <==> keys@.take(
                    i as int,
                ).contains(x) && self@.client_token[x] == token by {
                    if before.contains(x) {
                        let j = choose|j: int| 0 <= j < before.len() && before[j] == x;
                        assert(ids@[j] == x);
                    }
                    if ids@.contains(x) {
                        let j = choose|j: int| 0 <= j < ids@.len() && ids@[j] == x;
                        if j < before.len() {
                            assert(before[j] == x);
                            assert(before.contains(x));
                        }
                    }
                    if x == k && self@.client_token[k] == token {
                        assert(ids@[ids@.len() - 1] == k);
                    }
                }
                assert forall|j: int|
                    0 <= j < ids@.len() && i < keys@.len() implies #[trigger] ids@[j]
                    < keys@[i as int] by {
                    assert(keys@[i - 1] < keys@[i as int]);
                    if j < before.len() {
                        assert(before[j] < keys@[i - 1]);
                    }
                }
            }
        }
        proof {
            assert(keys@.take(i as int) =~= keys@);
            let want = clients_on(self@.client_token, token);
            assert(is_client_list(self@.client_token, token, ids@));
            lemma_rising_lists_agree(ids@, want);
        }
        ids
    }

    fn drop_pool(&mut self, client: u32)
        ensures
            final(self)@ == (EventView {
                pool: old(self)@.pool.filter(|p: Pooled| p.client != client),
                unwatch: old(self)@.unwatch + discarded(pool_of(old(self)@.pool, client)),
                ..old(self)@
            }),
    {
        let ghost all = self.pool@;
        let ghost theirs = |p: Pooled| p.client != client;
        let ghost mine = |p: Pooled| p.client == client;
        let ghost start = self.unwatch@;
        let mut rest: Vec<Pooled> = Vec::new();
        let mut i: usize = 0;
        proof {
            reveal(Seq::filter);
            assert(all.take(0).filter(theirs) =~= Seq::<Pooled>::empty());
            assert(start + discarded(pool_of(all.take(0), client)) =~= start);
        }
        while i < self.pool.len()
            invariant
                i <= all.len(),
                all == old(self)@.pool,
                start == old(self)@.unwatch,
                self.pool@ == all,
                theirs == (|p: Pooled| p.client != client),
                mine == (|p: Pooled| p.client == client),
                rest@ == all.take(i as int).filter(theirs),
                self.unwatch@ == start + discarded(pool_of(all.take(i as int), client)),
                self@ == (EventView { unwatch: self.unwatch@, ..old(self)@ }),
            decreases all.len() - i,
        {
            let p: Pooled = self.pool[i];
            proof {
                lemma_filter_step(all, i as int, theirs);
                lemma_filter_step(all, i as int, mine);
            }
            if p.client == client {
                self.unwatch.push(WaiterRetirement { slot: p.slot, reuse_for: None });
            } else {
                rest.push(p);
            }
            i += 1;
            proof {
                assert(self.unwatch@ =~= start + discarded(pool_of(all.take(i as int), client)));
            }
        }
        proof {
            assert(all.take(i as int) =~= all);
        }
        self.pool = rest;
    }

    /// Lets go of all that is held for a client, and counts the descriptors.
    pub fn release_client(&mut self, client: u32) -> (freed: usize)
        ensures
            final(self)@ == old(self)@.released(client),
            freed == old(self)@.release_count(client),
    {
        let ghost given = self@;
        self.drop_events(client);
        self.client_token.remove(client as u64);
        let mut freed: usize = 0;
        if let Some(fd) = self.ctls.remove(client as u64) {
            freed = 1;
            self.ctl_unwatch.push((client, fd));
        } else {
            assert(self@.ctls =~= given.ctls);
        }
        let before: usize = self.pool.len();
        proof {
            lemma_parts(self.pool@, client);
        }
        self.drop_pool(client);
        freed = freed.saturating_add(before - self.pool.len());
        let ids: Vec<u64> = self.list_waiters(client);
        let ghost all = self.waiters@;
        let ghost start = self.unwatch@;
        let ghost middle = self@;
        let mut i: usize = 0;
        proof {
            assert(start + discarded(slots_of(all, ids@.take(0))) =~= start);
        }
        while i < ids.len()
            invariant
                i <= ids@.len(),
                all == middle.waiters,
                start == middle.unwatch,
                is_armed_list(all, client, ids@),
                self@ == (EventView {
                    waiters: self.waiters@,
                    unwatch: self.unwatch@,
                    ..middle
                }),
                self.unwatch@ == start + discarded(slots_of(all, ids@.take(i as int))),
                forall|k: u64| #[trigger]
                    self.waiters@.contains_key(k) <==> all.contains_key(k) && !ids@.take(
                        i as int,
                    ).contains(k),
                forall|k: u64| #[trigger]
                    self.waiters@.contains_key(k) ==> self.waiters@[k] == all[k],
            decreases ids@.len() - i,
        {
            let k: u64 = ids[i];
            proof {
                assert(ids@.contains(k));
                lemma_take_contains(ids@, i as int);
                if ids@.take(i as int).contains(k) {
                    let j = choose|j: int| 0 <= j < i && ids@.take(i as int)[j] == k;
                    assert(ids@[j] < ids@[i as int]);
                }
            }
            if let Some(w) = self.waiters.remove(k) {
                self.unwatch.push(WaiterRetirement { slot: w.slot, reuse_for: None });
            }
            i += 1;
            proof {
                assert(self.unwatch@ =~= start + discarded(slots_of(all, ids@.take(i as int))));
            }
        }
        proof {
            assert(ids@.take(i as int) =~= ids@);
            assert(self.waiters@ =~= middle.waiters_without(client));
            assert(self@ =~= given.released(client));
        }
        freed.saturating_add(ids.len())
    }

    /// Lets go of the clients that were made on a descriptor: closing it ends them.
    pub fn close_clients_of_token(&mut self, token: u64) -> (closed: Vec<u64>)
        ensures
            closed@ == clients_on(old(self)@.client_token, token),
            is_client_list(old(self)@.client_token, token, closed@),
            final(self)@ == old(self)@.closed(closed@, closed@.len() as int),
    {
        let dying: Vec<u64> = self.list_clients(token);
        let mut i: usize = 0;
        while i < dying.len()
            invariant
                i <= dying@.len(),
                self@ == old(self)@.closed(dying@, i as int),
            decreases dying@.len() - i,
        {
            let c: u32 = dying[i] as u32;
            let n: usize = self.release_client(c);
            self.freed_by_close = self.freed_by_close.wrapping_add(n as u64);
            i += 1;
        }
        dying
    }
}

/// A walk over the events that wait on one control descriptor.
pub struct Drain {
    pub h_client: u32,
    /// How many more may be asked for.
    pub left: u32,
    pub out: Vec<Fired>,
    /// The control descriptor to close.
    pub close: Option<i32>,
}

/// The events, and what a drain has found, after an answer of the driver: whether to ask
/// again, the event that fired, and the descriptor that has to go.
pub open spec fn drain_answer(v: EventView, client: u32, left: u32, a: EventAnswer) -> (
    EventView,
    Option<Fired>,
    Option<i32>,
    bool,
) {
    let ctl = if v.ctls.contains_key(client as u64) {
        Some(v.ctls[client as u64])
    } else {
        None
    };
    if a.ret != 0 || (a.status != NV_OK && a.status != NV_ERR_OPERATING_SYSTEM) {
        (v.broken(client), None, ctl, false)
    } else if a.status == NV_ERR_OPERATING_SYSTEM {
        (EventView { dataless: v.dataless.wrapping_add(1), ..v }, None, None, false)
    } else {
        let k = key(client, a.h_object);
        let again = a.more != 0 && left > 1;
        if v.events.contains_key(k) {
            (
                EventView { fired: v.fired.wrapping_add(1), ..v },
                Some(Fired { reg: v.events[k], info32: a.info32 }),
                None,
                again,
            )
        } else {
            (
                EventView {
                    fired: v.fired.wrapping_add(1),
                    unmatched: v.unmatched.wrapping_add(1),
                    ..v
                },
                None,
                None,
                again,
            )
        }
    }
}

impl EventBook {
    /// Starts to drain the control descriptor of a client, where it has one.
    pub fn begin_drain(&self, client: u32) -> (r: Option<(i32, Drain)>)
        ensures
            match r {
                Some((fd, d)) => self@.ctls.contains_key(client as u64) && fd
                    == self@.ctls[client as u64] && d.h_client == client && d.left == DRAIN_BOUND
                    && d.out@ == Seq::<Fired>::empty() && d.close is None,
                None => !self@.ctls.contains_key(client as u64),
            },
    {
        match self.ctls.get(client as u64) {
            Some(fd) => Some(
                (
                    *fd,
                    Drain { h_client: client, left: DRAIN_BOUND, out: Vec::new(), close: None },
                ),
            ),
            None => None,
        }
    }

    /// Takes in an answer of the driver, and tells whether to ask it again. A descriptor that
    /// fails otherwise than by being empty would stay readable, so it goes.
    pub fn drain_os_events(&mut self, d: &mut Drain, a: EventAnswer) -> (again: bool)
        requires
            old(d).left > 0,
            old(d).close is None,
        ensures
            ({
                let (v, fired, close, ask) = drain_answer(
                    old(self)@,
                    old(d).h_client,
                    old(d).left,
                    a,
                );
                &&& final(self)@ == v
                &&& again == ask
                &&& final(d).h_client == old(d).h_client
                &&& final(d).left == old(d).left - 1
                &&& final(d).close == close
                &&& final(d).out@ == (match fired {
                    Some(f) => old(d).out@.push(f),
                    None => old(d).out@,
                })
                &&& again ==> final(d).left > 0 && final(d).close is None
            }),
    {
        d.left = d.left - 1;
        let client: u32 = d.h_client;
        if a.ret != 0 || (a.status != NV_OK && a.status != NV_ERR_OPERATING_SYSTEM) {
            d.close = self.ctls.remove(client as u64);
            self.drop_events(client);
            return false;
        }
        if a.status == NV_ERR_OPERATING_SYSTEM {
            self.dataless = self.dataless.wrapping_add(1);
            return false;
        }
        self.fired = self.fired.wrapping_add(1);
        match self.event_of(client, a.h_object) {
            Some(reg) => {
                d.out.push(Fired { reg, info32: a.info32 });
            },
            None => {
                self.unmatched = self.unmatched.wrapping_add(1);
            },
        }
        a.more != 0 && d.left > 0
    }
}

/// Every slot is in one place: in the pool, armed, or out of use; and its number was given out.
pub open spec fn slots_apart(v: EventView) -> bool {
    &&& forall|i: int| 0 <= i < v.pool.len() ==> (#[trigger] v.pool[i]).slot.id < v.next_id
    &&& forall|i: int|
        0 <= i < v.unwatch.len() ==> (#[trigger] v.unwatch[i]).slot.id < v.next_id
    &&& forall|k: u64| #[trigger]
        v.waiters.contains_key(k) ==> v.waiters[k].slot.id == k && k < v.next_id
    &&& forall|i: int, j: int|
        0 <= i < j < v.pool.len() ==> (#[trigger] v.pool[i]).slot.id != (
        #[trigger] v.pool[j]).slot.id
    &&& forall|i: int, j: int|
        0 <= i < j < v.unwatch.len() ==> (#[trigger] v.unwatch[i]).slot.id != (
        #[trigger] v.unwatch[j]).slot.id
    &&& forall|i: int, j: int|
        0 <= i < v.pool.len() && 0 <= j < v.unwatch.len() ==> (#[trigger] v.pool[i]).slot.id != (
        #[trigger] v.unwatch[j]).slot.id
    &&& forall|i: int|
        0 <= i < v.pool.len() ==> !v.waiters.contains_key(
            (#[trigger] v.pool[i]).slot.id as u64,
        )
    &&& forall|i: int|
        0 <= i < v.unwatch.len() ==> !v.waiters.contains_key(
            (#[trigger] v.unwatch[i]).slot.id as u64,
        )
}

/// Whether a slot is in none of the places.
pub open spec fn nowhere(v: EventView, id: u32) -> bool {
    &&& id < v.next_id
    &&& !v.waiters.contains_key(id as u64)
    &&& forall|i: int| 0 <= i < v.pool.len() ==> (#[trigger] v.pool[i]).slot.id != id
    &&& forall|i: int| 0 <= i < v.unwatch.len() ==> (#[trigger] v.unwatch[i]).slot.id != id
}

/// A fresh number is in none of the places, and no number is ever given out twice: what is
/// given out next is above all that was given out, whether or not the driver took it.
pub proof fn law_event_numbers_never_repeat(v: EventView, earlier: u32)
    requires
        slots_apart(v),
        v.next_id <= u32::MAX,
        earlier < v.next_id,
    ensures
        ({
            let w = EventView { next_id: (v.next_id + 1) as u64, ..v };
            &&& slots_apart(w)
            &&& nowhere(w, v.next_id as u32)
            &&& earlier < v.next_id < w.next_id
        }),
{
}

/// A slot is never in two places: neither arming one that is nowhere, nor a waiter that fires
/// or is cancelled, nor handing slots to the poller puts one where it is already.
pub proof fn law_a_slot_is_in_one_place(
    v: EventView,
    w: Waiter,
    client: u32,
    slot: WaiterSlot,
    r: RegistrationId,
    id: u32,
)
    requires
        slots_apart(v),
    ensures
        slots_apart(EventView::empty(v.next_id, v.next_generation)),
        nowhere(v, w.slot.id) ==> slots_apart(v.armed(w)),
        nowhere(v, slot.id) ==> slots_apart(v.pooling(client, slot)),
        v.awaits(r) ==> slots_apart(v.woken(r)),
        slots_apart(v.disarmed(id)),
        slots_apart(EventView { unwatch: Seq::empty(), ..v }),
{
}

/// A slot that is popped from the pool is nowhere until it is armed or put back.
pub proof fn law_a_popped_slot_is_nowhere(v: EventView, i: int)
    requires
        slots_apart(v),
        0 <= i < v.pool.len(),
    ensures
        ({
            let w = EventView { pool: v.pool.remove(i), ..v };
            slots_apart(w) && nowhere(w, v.pool[i].slot.id)
        }),
{
    let w = EventView { pool: v.pool.remove(i), ..v };
    assert forall|a: int| 0 <= a < w.pool.len() implies {
        let p = #[trigger] w.pool[a];
        p.slot.id < v.next_id && p.slot.id != v.pool[i].slot.id && !v.waiters.contains_key(
            p.slot.id as u64,
        )
    } by {
        let b = if a < i {
            a
        } else {
            a + 1
        };
        assert(w.pool[a] == v.pool[b]);
    }
    assert forall|a: int, b: int| 0 <= a < b < w.pool.len() implies (
    #[trigger] w.pool[a]).slot.id != (#[trigger] w.pool[b]).slot.id by {
        let (x, y) = (
            if a < i {
                a
            } else {
                a + 1
            },
            if b < i {
                b
            } else {
                b + 1
            },
        );
        assert(w.pool[a] == v.pool[x] && w.pool[b] == v.pool[y]);
    }
    assert forall|a: int, j: int|
        0 <= a < w.pool.len() && 0 <= j < w.unwatch.len() implies (#[trigger] w.pool[a]).slot.id
        != (#[trigger] w.unwatch[j]).slot.id by {
        let x = if a < i {
            a
        } else {
            a + 1
        };
        assert(w.pool[a] == v.pool[x]);
    }
}

/// Releasing a client takes its slots out of use, each of them once.
pub proof fn law_a_released_client_keeps_slots_apart(v: EventView, client: u32)
    requires
        slots_apart(v),
        exists|ids: Seq<u64>| is_armed_list(v.waiters, client, ids),
    ensures
        slots_apart(v.released(client)),
{
    let w = v.released(client);
    let ids = armed_by(v.waiters, client);
    let theirs = |p: Pooled| p.client != client;
    let mine = |p: Pooled| p.client == client;
    let n = v.unwatch.len() as int;
    let m = pool_of(v.pool, client).len() as int;
    assert(w.pool == v.pool.filter(theirs));
    assert(pool_of(v.pool, client).len() == v.pool.filter(mine).len());
    // Where the slots that are out of use now were before.
    assert forall|j: int| n <= j < n + m implies exists|x: int|
        0 <= x < v.pool.len() && v.pool[x].client == client && (#[trigger] w.unwatch[j]).slot
            == (#[trigger] v.pool[x]).slot by {
        let x = lemma_filter_from(v.pool, mine, j - n);
        assert(w.unwatch[j].slot == v.pool.filter(mine)[j - n].slot);
    }
    assert forall|j: int| n + m <= j < w.unwatch.len() implies {
        let k = ids[j - n - m];
        (#[trigger] w.unwatch[j]).slot.id == k && v.waiters.contains_key(k)
            && v.waiters[k].h_client == client
    } by {
        assert(ids.contains(ids[j - n - m]));
        assert(w.unwatch[j].slot == v.waiters[ids[j - n - m]].slot);
    }
    assert forall|a: int| 0 <= a < w.pool.len() implies exists|x: int|
        0 <= x < v.pool.len() && v.pool[x].client != client && (#[trigger] w.pool[a])
            == #[trigger] v.pool[x] by {
        let x = lemma_filter_from(v.pool, theirs, a);
    }
    assert forall|a: int, b: int| 0 <= a < b < w.pool.len() implies (
    #[trigger] w.pool[a]).slot.id != (#[trigger] w.pool[b]).slot.id by {
        let r = lemma_filter_pairs(v.pool, theirs, a, b);
        assert(v.pool[r.0].slot.id != v.pool[r.1].slot.id);
    }
    assert forall|a: int, b: int| 0 <= a < b < w.unwatch.len() implies (
    #[trigger] w.unwatch[a]).slot.id != (#[trigger] w.unwatch[b]).slot.id by {
        if b < n {
            assert(w.unwatch[a] == v.unwatch[a] && w.unwatch[b] == v.unwatch[b]);
        } else if b < n + m {
            if a < n {
                assert(w.unwatch[a] == v.unwatch[a]);
            } else {
                let r = lemma_filter_pairs(v.pool, mine, a - n, b - n);
                assert(w.unwatch[a].slot == v.pool[r.0].slot);
                assert(w.unwatch[b].slot == v.pool[r.1].slot);
            }
        } else if a < n {
            assert(w.unwatch[a] == v.unwatch[a]);
        } else if a >= n + m {
            assert(ids[a - n - m] < ids[b - n - m]);
        }
    }
    assert forall|a: int, j: int|
        0 <= a < w.pool.len() && 0 <= j < w.unwatch.len() implies (#[trigger] w.pool[a]).slot.id
        != (#[trigger] w.unwatch[j]).slot.id by {
        let x = choose|x: int|
            0 <= x < v.pool.len() && v.pool[x].client != client && w.pool[a] == #[trigger] v.pool[x];
        if j < n {
            assert(w.unwatch[j] == v.unwatch[j]);
        } else if j < n + m {
            let y = choose|y: int|
                0 <= y < v.pool.len() && v.pool[y].client == client && w.unwatch[j].slot == (
                #[trigger] v.pool[y]).slot;
            if x < y {
                assert(v.pool[x].slot.id != v.pool[y].slot.id);
            } else {
                assert(v.pool[y].slot.id != v.pool[x].slot.id);
            }
        }
    }
    assert forall|j: int| 0 <= j < w.unwatch.len() implies (#[trigger] w.unwatch[j]).slot.id
        < v.next_id && !w.waiters.contains_key(w.unwatch[j].slot.id as u64) by {
        if j < n {
            assert(w.unwatch[j] == v.unwatch[j]);
        }
    }
}

/// Slots that the poller let go of come back to the pool of their client, each of them once.
pub proof fn law_slots_come_back_from_the_poller(v: EventView, n: int)
    requires
        slots_apart(v),
        0 <= n <= v.unwatch.len(),
    ensures
        slots_apart(
            EventView {
                unwatch: v.unwatch.skip(n),
                pool: v.pool + returned(v.unwatch, n),
                ..v
            },
        ),
    decreases n,
{
    if n == 0 {
        assert(v.unwatch.skip(0) =~= v.unwatch);
        assert(v.pool + returned(v.unwatch, 0) =~= v.pool);
    } else {
        law_slots_come_back_from_the_poller(v, n - 1);
        let a = EventView {
            unwatch: v.unwatch.skip(n - 1),
            pool: v.pool + returned(v.unwatch, n - 1),
            ..v
        };
        let b = EventView {
            unwatch: v.unwatch.skip(n),
            pool: v.pool + returned(v.unwatch, n),
            ..v
        };
        let r = v.unwatch[n - 1];
        assert(a.unwatch[0] == r);
        assert forall|i: int| 0 <= i < b.unwatch.len() implies #[trigger] b.unwatch[i]
            == a.unwatch[i + 1] by {}
        match r.reuse_for {
            Some(client) => {
                assert(b.pool =~= a.pool.push(Pooled { client, slot: r.slot }));
            },
            None => {
                assert(b.pool =~= a.pool);
            },
        }
        assert forall|i: int, j: int| 0 <= i < j < b.unwatch.len() implies (
        #[trigger] b.unwatch[i]).slot.id != (#[trigger] b.unwatch[j]).slot.id by {
            assert(a.unwatch[i + 1].slot.id != a.unwatch[j + 1].slot.id);
        }
        assert forall|i: int, j: int|
            0 <= i < b.pool.len() && 0 <= j < b.unwatch.len() implies (
        #[trigger] b.pool[i]).slot.id != (#[trigger] b.unwatch[j]).slot.id by {
            assert(a.unwatch[0].slot.id != a.unwatch[j + 1].slot.id);
            if i < a.pool.len() {
                assert(a.pool[i].slot.id != a.unwatch[j + 1].slot.id);
            }
        }
        assert forall|i: int, j: int| 0 <= i < j < b.pool.len() implies (
        #[trigger] b.pool[i]).slot.id != (#[trigger] b.pool[j]).slot.id by {
            if j == a.pool.len() {
                assert(a.pool[i].slot.id != a.unwatch[0].slot.id);
            } else {
                assert(a.pool[i].slot.id != a.pool[j].slot.id);
            }
        }
    }
}

/// A completion of an earlier use of a slot does nothing to a later use of it.
pub proof fn law_a_stale_completion_retires_nothing(v: EventView, w: Waiter, stale: u64)
    requires
        stale != w.generation,
    ensures
        !v.armed(w).awaits(RegistrationId { event_id: w.slot.id, generation: stale }),
        v.armed(w).awaits(w.registration()),
{
}

/// A waiter that fired is free to be armed again, and fires no second time.
pub proof fn law_a_woken_waiter_is_spent(v: EventView, r: RegistrationId)
    requires
        v.awaits(r),
    ensures
        !v.woken(r).awaits(r),
        v.woken(r).pool.last() == (Pooled {
            client: v.waiters[r.event_id as u64].h_client,
            slot: v.waiters[r.event_id as u64].slot,
        }),
{
}

/// A waiter that was cancelled does not go back to the pool before the poller let go of it.
pub proof fn law_a_cancelled_slot_waits_for_the_poller(v: EventView, id: u32)
    requires
        v.waiters.contains_key(id as u64),
    ensures
        v.disarmed(id).pool == v.pool,
        v.disarmed(id).unwatch.last().slot == v.waiters[id as u64].slot,
        v.disarmed(id).unwatch.last().reuse_for == Some(v.waiters[id as u64].h_client),
{
}

/// Releasing a client leaves nothing of it, and leaves the other clients alone.
pub proof fn law_a_released_client_leaves_nothing(v: EventView, client: u32, k: u64)
    ensures
        ({
            let w = v.released(client);
            &&& !w.ctls.contains_key(client as u64)
            &&& !w.client_token.contains_key(client as u64)
            &&& w.events.contains_key(k) <==> v.events.contains_key(k) && v.events[k].h_client
                != client
            &&& w.events.contains_key(k) ==> w.events[k] == v.events[k]
            &&& w.waiters.contains_key(k) <==> v.waiters.contains_key(k) && v.waiters[k].h_client
                != client
            &&& w.waiters.contains_key(k) ==> w.waiters[k] == v.waiters[k]
            &&& k != client as u64 ==> (w.ctls.contains_key(k) <==> v.ctls.contains_key(k))
        }),
{
}

proof fn lemma_parts(pool: Seq<Pooled>, client: u32)
    ensures
        pool.filter(|p: Pooled| p.client != client).len() + pool_of(pool, client).len()
            == pool.len(),
    decreases pool.len(),
{
    reveal(Seq::filter);
    if pool.len() > 0 {
        lemma_parts(pool.drop_last(), client);
    }
}

/// Whether a waiter is the one that a request means.
pub open spec fn matching(w: Waiter, client: u32, kc: u64, target: WaiterTarget) -> bool {
    w.h_client == client && w.guest_kc == kc && w.target == target
}

/// Whether this is the waiter with the lowest number that a request means.
pub open spec fn is_lowest(
    waiters: Map<u64, Waiter>,
    client: u32,
    kc: u64,
    target: WaiterTarget,
    id: u32,
) -> bool {
    &&& waiters.contains_key(id as u64)
    &&& matching(waiters[id as u64], client, kc, target)
    &&& forall|k: u64|
        #![trigger waiters.contains_key(k)]
        k < id && waiters.contains_key(k) ==> !matching(waiters[k], client, kc, target)
}

/// The waiter that a request means.
pub open spec fn found(
    waiters: Map<u64, Waiter>,
    client: u32,
    kc: u64,
    target: WaiterTarget,
) -> Option<u32> {
    if exists|id: u32| is_lowest(waiters, client, kc, target, id) {
        Some(choose|id: u32| is_lowest(waiters, client, kc, target, id))
    } else {
        None
    }
}

/// The slots among the first `n` that go back to their clients.
pub open spec fn returned(retired: Seq<WaiterRetirement>, n: int) -> Seq<Pooled>
    decreases n,
{
    if n <= 0 {
        Seq::empty()
    } else {
        let r = retired[n - 1];
        match r.reuse_for {
            Some(client) => returned(retired, n - 1).push(Pooled { client, slot: r.slot }),
            None => returned(retired, n - 1),
        }
    }
}

/// The slot that a client gets out of the pool is the one of its own that came in last; it gets
/// none exactly where the pool holds none of its own.
pub proof fn law_a_client_gets_its_own_last_slot(pool: Seq<Pooled>, client: u32, n: int)
    requires
        0 <= n <= pool.len(),
    ensures
        match pooled_below(pool, client, n) {
            Some(i) => {
                &&& 0 <= i < n
                &&& pool[i].client == client
                &&& forall|j: int| i < j < n ==> (#[trigger] pool[j]).client != client
            },
            None => forall|j: int| 0 <= j < n ==> (#[trigger] pool[j]).client != client,
        },
    decreases n,
{
    if n > 0 && pool[n - 1].client != client {
        law_a_client_gets_its_own_last_slot(pool, client, n - 1);
    }
}

/// An event is filed under its client and handle, and every other registration stays.
pub proof fn law_an_event_is_filed_under_its_handle(v: EventView, r: EventReg, k: u64)
    ensures
        ({
            let w = v.filed(r);
            let own = (0x1_0000_0000 * r.h_client + r.h_event) as u64;
            &&& w.events.contains_key(own) && w.events[own] == r
            &&& k != own ==> w.events.contains_key(k) == v.events.contains_key(k) && w.events[k]
                == v.events[k]
            &&& v.registered < u64::MAX ==> w.registered == v.registered + 1
            &&& w.waiters == v.waiters && w.pool == v.pool && w.ctls == v.ctls && w.pollables
                == v.pollables && w.next_id == v.next_id
        }),
{
}

/// An armed waiter is watched on its own descriptor, under its event and its generation, and
/// nothing else that is armed or watched changes.
pub proof fn law_an_armed_waiter_is_watched(v: EventView, x: Waiter, k: u64)
    ensures
        ({
            let w = v.armed(x);
            &&& w.waiters.contains_key(x.slot.id as u64) && w.waiters[x.slot.id as u64] == x
            &&& k != x.slot.id ==> w.waiters.contains_key(k) == v.waiters.contains_key(k)
                && w.waiters[k] == v.waiters[k]
            &&& w.pollables.len() == v.pollables.len() + 1
            &&& w.pollables.drop_last() == v.pollables
            &&& w.pollables.last() == (Pollable::Waiter {
                registration: RegistrationId { event_id: x.slot.id, generation: x.generation },
                fd: x.slot.ctl,
            })
            &&& v.registered < u64::MAX ==> w.registered == v.registered + 1
            &&& w.pool == v.pool && w.events == v.events && w.ctls == v.ctls
        }),
{
    assert(v.armed(x).pollables.drop_last() =~= v.pollables);
}

/// A woken waiter leaves the armed ones and nothing else does; its wake is counted.
pub proof fn law_a_wake_takes_one_waiter(v: EventView, r: RegistrationId, k: u64)
    requires
        v.awaits(r),
    ensures
        ({
            let w = v.woken(r);
            &&& w.waiters.contains_key(k) <==> v.waiters.contains_key(k) && k != r.event_id
            &&& w.waiters.contains_key(k) ==> w.waiters[k] == v.waiters[k]
            &&& w.pool.len() == v.pool.len() + 1 && w.pool.drop_last() == v.pool
            &&& v.fired < u64::MAX ==> w.fired == v.fired + 1
            &&& w.events == v.events && w.ctls == v.ctls && w.unwatch == v.unwatch
        }),
        v.waiters[r.event_id as u64].generation == r.generation,
{
    assert(v.woken(r).pool.drop_last() =~= v.pool);
}

/// A cancelled waiter leaves the armed ones and nothing else does; a number that nothing waits
/// under cancels nothing.
pub proof fn law_a_cancellation_takes_one_waiter(v: EventView, id: u32, k: u64)
    ensures
        ({
            let w = v.disarmed(id);
            &&& w.waiters.contains_key(k) <==> v.waiters.contains_key(k) && k != id
            &&& w.waiters.contains_key(k) ==> w.waiters[k] == v.waiters[k]
            &&& v.waiters.contains_key(id as u64) ==> w.unwatch.len() == v.unwatch.len() + 1
                && w.unwatch.drop_last() == v.unwatch
            &&& !v.waiters.contains_key(id as u64) ==> w == v
            &&& w.events == v.events && w.ctls == v.ctls && w.fired == v.fired
        }),
{
    if v.waiters.contains_key(id as u64) {
        assert(v.disarmed(id).unwatch.drop_last() =~= v.unwatch);
    }
}

/// A cancellation finds the lowest event that waits for the same client, pointer and target,
/// and none only where none does.
pub proof fn law_a_cancellation_finds_what_it_names(
    waiters: Map<u64, Waiter>,
    client: u32,
    kc: u64,
    target: WaiterTarget,
    k: u32,
)
    ensures
        ({
            let named = waiters.contains_key(k as u64) && waiters[k as u64].h_client == client
                && waiters[k as u64].guest_kc == kc && waiters[k as u64].target.surface
                == target.surface && waiters[k as u64].target.index == target.index
                && waiters[k as u64].target.wait_value == target.wait_value;
            match found(waiters, client, kc, target) {
                Some(id) => {
                    &&& waiters.contains_key(id as u64)
                    &&& waiters[id as u64].h_client == client
                    &&& waiters[id as u64].guest_kc == kc
                    &&& waiters[id as u64].target == target
                    &&& named ==> id <= k
                },
                None => !named,
            }
        }),
{
    if waiters.contains_key(k as u64) && matching(waiters[k as u64], client, kc, target) {
        lemma_some_lowest(waiters, client, kc, target, k);
    }
    if let Some(id) = found(waiters, client, kc, target) {
        assert(is_lowest(waiters, client, kc, target, id));
        if k < id {
            assert(!(waiters.contains_key(k as u64) && matching(
                waiters[k as u64],
                client,
                kc,
                target,
            )));
        }
    }
}

proof fn lemma_some_lowest(
    waiters: Map<u64, Waiter>,
    client: u32,
    kc: u64,
    target: WaiterTarget,
    k: u32,
)
    requires
        waiters.contains_key(k as u64),
        matching(waiters[k as u64], client, kc, target),
    ensures
        exists|id: u32| is_lowest(waiters, client, kc, target, id),
    decreases k,
{
    if !is_lowest(waiters, client, kc, target, k) {
        let j = choose|j: u64|
            #![trigger waiters.contains_key(j)]
            j < k && waiters.contains_key(j) && matching(waiters[j], client, kc, target);
        lemma_some_lowest(waiters, client, kc, target, j as u32);
    }
}

/// A target is what the request names: the surface behind the client, the index and the value
/// in front of the parameters.
pub proof fn law_a_target_is_read_where_it_stands(inline: Seq<u8>, aux: Seq<u8>)
    ensures
        WaiterTarget::named(inline, aux).surface == le32(inline, 4),
        WaiterTarget::named(inline, aux).index == le64(aux, 0),
        WaiterTarget::named(inline, aux).wait_value == le64(aux, 8),
{
}

/// Too many descriptors are warned of once, and again only where there are twice as many.
pub proof fn law_a_warning_comes_at_every_doubling(v: EventView)
    requires
        2 * (v.ctls.len() + v.pool.len()) <= usize::MAX,
    ensures
        ({
            let n = v.ctls.len() + v.pool.len();
            &&& n < v.warn_at ==> v.warning() is None && v.counted().warn_at == v.warn_at
            &&& n >= v.warn_at ==> v.warning() == Some(n as usize) && v.counted().warn_at == 2 * n
            &&& n > 0 ==> v.counted().warning() is None
            &&& v.taken < u64::MAX ==> v.counted().taken == v.taken + 1
            &&& v.counted().ctls == v.ctls && v.counted().pool == v.pool && v.counted().waiters
                == v.waiters
        }),
{
}

/// A control descriptor is kept for its client and watched.
pub proof fn law_a_control_descriptor_is_watched(v: EventView, client: u32, fd: i32, k: u64)
    ensures
        ({
            let w = v.with_ctl(client, fd);
            &&& w.ctls.contains_key(client as u64) && w.ctls[client as u64] == fd
            &&& k != client ==> w.ctls.contains_key(k) == v.ctls.contains_key(k) && w.ctls[k]
                == v.ctls[k]
            &&& w.pollables.len() == v.pollables.len() + 1
            &&& w.pollables.drop_last() == v.pollables
            &&& w.pollables.last() == (Pollable::EventCtl { h_client: client, fd })
            &&& w.waiters == v.waiters && w.events == v.events && w.pool == v.pool
        }),
{
    assert(v.with_ctl(client, fd).pollables.drop_last() =~= v.pollables);
}

/// One answer about a client's events. Where the call failed, the client loses its control
/// descriptor, which is to be closed, and its events. Where it had no data, only that is
/// counted. Else the event of that object fired, if it is known, with what the driver said of
/// it, and there is more to ask for as long as the driver says so and the bound is not met.
pub proof fn law_an_answer_fires_the_event_it_names(
    v: EventView,
    client: u32,
    left: u32,
    a: EventAnswer,
    k: u64,
)
    ensures
        ({
            let (w, fired, close, again) = drain_answer(v, client, left, a);
            let own = (0x1_0000_0000 * client + a.h_object) as u64;
            &&& w.waiters == v.waiters && w.pool == v.pool && w.next_id == v.next_id && w.unwatch
                == v.unwatch && w.pollables == v.pollables && w.client_token == v.client_token
            &&& a.ret != 0 || (a.status != 0 && a.status != 0x59) ==> {
                &&& fired is None && !again
                &&& !w.ctls.contains_key(client as u64)
                &&& v.ctls.contains_key(client as u64) ==> close == Some(v.ctls[client as u64])
                &&& !v.ctls.contains_key(client as u64) ==> close is None
                &&& k != client ==> w.ctls.contains_key(k) == v.ctls.contains_key(k)
                &&& w.events.contains_key(k) <==> v.events.contains_key(k) && v.events[k].h_client
                    != client
                &&& w.events.contains_key(k) ==> w.events[k] == v.events[k]
                &&& w.fired == v.fired && w.unmatched == v.unmatched && w.dataless == v.dataless
            }
            &&& a.ret == 0 && a.status == 0x59 ==> {
                &&& fired is None && close is None && !again
                &&& w.ctls == v.ctls && w.events == v.events
                &&& w.fired == v.fired && w.unmatched == v.unmatched
                &&& v.dataless < u64::MAX ==> w.dataless == v.dataless + 1
            }
            &&& a.ret == 0 && a.status == 0 ==> {
                &&& close is None
                &&& again <==> a.more != 0 && left > 1
                &&& v.events.contains_key(own) ==> fired == Some(
                    Fired { reg: v.events[own], info32: a.info32 },
                ) && w.unmatched == v.unmatched
                &&& !v.events.contains_key(own) ==> fired is None && (v.unmatched < u64::MAX
                    ==> w.unmatched == v.unmatched + 1)
                &&& v.fired < u64::MAX ==> w.fired == v.fired + 1
                &&& w.ctls == v.ctls && w.events == v.events && w.dataless == v.dataless
            }
        }),
{
}

/// What a poller gives back: every slot that is to be used again comes back to its client, in
/// order, and no other does.
pub proof fn law_only_reusable_slots_come_back(retired: Seq<WaiterRetirement>, n: int, i: int)
    requires
        0 <= n <= retired.len(),
    ensures
        0 <= i < n ==> (retired[i].reuse_for matches Some(client) ==> returned(
            retired,
            n,
        ).contains(Pooled { client, slot: retired[i].slot })),
        0 <= i < returned(retired, n).len() ==> exists|j: int|
            0 <= j < n && (#[trigger] retired[j]).reuse_for == Some(returned(retired, n)[i].client)
                && retired[j].slot == returned(retired, n)[i].slot,
        returned(retired, n).len() <= n,
        (forall|j: int| 0 <= j < n ==> (#[trigger] retired[j]).reuse_for is Some) ==> returned(
            retired,
            n,
        ).len() == n,
    decreases n,
{
    if n > 0 {
        law_only_reusable_slots_come_back(retired, n - 1, i);
        let before = returned(retired, n - 1);
        let after = returned(retired, n);
        if 0 <= i < n {
            if let Some(client) = retired[i].reuse_for {
                let p = Pooled { client, slot: retired[i].slot };
                if i == n - 1 {
                    assert(after[before.len() as int] == p);
                } else {
                    let j = before.index_of(p);
                    assert(after[j] == p);
                }
            }
        }
        if 0 <= i < after.len() && i >= before.len() {
            assert(retired[n - 1].reuse_for == Some(after[i].client));
        }
    }
}

/// A released client: its control descriptor is to be closed, every slot of its own, pooled
/// or armed, is to be discarded, and as many descriptors are counted. The slots of others stay.
pub proof fn law_a_released_client_gives_up_its_slots(v: EventView, client: u32, p: Pooled, k: u64)
    requires
        exists|ids: Seq<u64>| is_armed_list(v.waiters, client, ids),
    ensures
        ({
            let w = v.released(client);
            let had = v.ctls.contains_key(client as u64);
            &&& w.pool.contains(p) <==> v.pool.contains(p) && p.client != client
            &&& v.pool.contains(p) && p.client == client ==> w.unwatch.contains(
                WaiterRetirement { slot: p.slot, reuse_for: None },
            )
            &&& v.waiters.contains_key(k) && v.waiters[k].h_client == client ==> w.unwatch.contains(
                WaiterRetirement { slot: v.waiters[k].slot, reuse_for: None },
            )
            &&& w.unwatch.len() >= v.unwatch.len() && w.unwatch.take(v.unwatch.len() as int)
                == v.unwatch
            &&& had ==> w.ctl_unwatch == v.ctl_unwatch.push((client, v.ctls[client as u64]))
            &&& !had ==> w.ctl_unwatch == v.ctl_unwatch
            &&& w.unwatch.len() - v.unwatch.len() + (if had {
                1int
            } else {
                0
            }) <= usize::MAX ==> v.release_count(client) == w.unwatch.len() - v.unwatch.len() + (
            if had {
                1int
            } else {
                0
            })
            &&& w.next_id == v.next_id && w.next_generation == v.next_generation
            &&& k != client ==> w.client_token.contains_key(k) == v.client_token.contains_key(k)
        }),
{
    let w = v.released(client);
    let ids = armed_by(v.waiters, client);
    assert(is_armed_list(v.waiters, client, ids));
    let a = discarded(pool_of(v.pool, client));
    let b = discarded(slots_of(v.waiters, ids));
    assert(w.unwatch == v.unwatch + a + b);
    assert(w.unwatch.take(v.unwatch.len() as int) =~= v.unwatch);
    let mine = v.pool.filter(|q: Pooled| q.client == client);
    lemma_filtered(v.pool, |q: Pooled| q.client != client, p);
    lemma_filtered(v.pool, |q: Pooled| q.client == client, p);
    if v.pool.contains(p) && p.client == client {
        let i = mine.index_of(p);
        assert(a[i] == (WaiterRetirement { slot: p.slot, reuse_for: None }));
        assert(w.unwatch[v.unwatch.len() + i] == a[i]);
    }
    if v.waiters.contains_key(k) && v.waiters[k].h_client == client {
        assert(ids.contains(k));
        let i = ids.index_of(k);
        assert(b[i] == (WaiterRetirement { slot: v.waiters[k].slot, reuse_for: None }));
        assert(w.unwatch[v.unwatch.len() + a.len() + i] == b[i]);
    }
}

proof fn lemma_filtered(pool: Seq<Pooled>, keep: spec_fn(Pooled) -> bool, p: Pooled)
    ensures
        pool.filter(keep).contains(p) <==> pool.contains(p) && keep(p),
    decreases pool.len(),
{
    reveal(Seq::filter);
    if pool.len() > 0 {
        let (rest, last) = (pool.drop_last(), pool.last());
        lemma_filtered(rest, keep, p);
        lemma_pushed(rest, last, p);
        lemma_pushed(rest.filter(keep), last, p);
        assert(pool =~= rest.push(last));
    }
}

proof fn lemma_pushed(s: Seq<Pooled>, last: Pooled, p: Pooled)
    ensures
        s.push(last).contains(p) <==> s.contains(p) || p == last,
{
    if s.contains(p) {
        assert(s.push(last)[s.index_of(p)] == p);
    }
    assert(s.push(last)[s.len() as int] == last);
    if s.push(last).contains(p) {
        let i = s.push(last).index_of(p);
        if i < s.len() {
            assert(s[i] == p);
        }
    }
}

/// Closing clients leaves nothing of any of them, and every other client keeps what it has.
pub proof fn law_closed_clients_leave_nothing(
    v: EventView,
    clients: Seq<u64>,
    n: int,
    c: u32,
    k: u64,
)
    requires
        0 <= n <= clients.len(),
        forall|i: int| 0 <= i < n ==> #[trigger] clients[i] <= u32::MAX,
    ensures
        ({
            let w = v.closed(clients, n);
            let goes = exists|i: int| 0 <= i < n && #[trigger] clients[i] == c;
            &&& goes ==> !w.ctls.contains_key(c as u64) && !w.client_token.contains_key(c as u64)
            &&& !goes ==> w.ctls.contains_key(c as u64) == v.ctls.contains_key(c as u64)
                && w.client_token.contains_key(c as u64) == v.client_token.contains_key(c as u64)
            &&& goes && w.events.contains_key(k) ==> w.events[k].h_client != c
            &&& !goes && v.events.contains_key(k) && v.events[k].h_client == c
                ==> w.events.contains_key(k) && w.events[k] == v.events[k]
            &&& goes && w.waiters.contains_key(k) ==> w.waiters[k].h_client != c
            &&& !goes && v.waiters.contains_key(k) && v.waiters[k].h_client == c
                ==> w.waiters.contains_key(k) && w.waiters[k] == v.waiters[k]
            &&& w.next_id == v.next_id && w.next_generation == v.next_generation
        }),
    decreases n,
{
    if n > 0 {
        law_closed_clients_leave_nothing(v, clients, n - 1, c, k);
        let u = v.closed(clients, n - 1);
        let last = clients[n - 1] as u32;
        law_a_released_client_leaves_nothing(u, last, k);
        law_a_released_client_leaves_nothing(u, last, c as u64);
        let before = exists|i: int| 0 <= i < n - 1 && #[trigger] clients[i] == c;
        let goes = exists|i: int| 0 <= i < n && #[trigger] clients[i] == c;
        assert(clients[n - 1] == last);
        if before {
            let i = choose|i: int| 0 <= i < n - 1 && #[trigger] clients[i] == c;
            assert(0 <= i < n && clients[i] == c);
        }
        if goes && last != c {
            let i = choose|i: int| 0 <= i < n && #[trigger] clients[i] == c;
            assert(i < n - 1);
        }
    }
}

} // verus!
