//! One-shot notifications of semaphore-surface waiters.
//!
//! Polling a waiter's descriptor consumes its one pending wake, so a single poller owns
//! all of them. Commands run between polls only: when one is acknowledged, no earlier
//! poll can still consume the wake of a slot that is used again. Every use of a slot
//! carries a generation, so a completion that comes late cannot retire a newer use.

use crate::table::Table;
use crate::seqs::{
    lemma_filter_from, lemma_filter_keeps, lemma_filter_pairs, lemma_filter_step,
    lemma_take_contains,
};
use vstd::prelude::*;

verus! {

/// The bit that `poll` sets for a descriptor that is not open.
pub const POLLNVAL: u16 = 0x20;

/// One use of a pooled OS event. Generations never repeat within a session.
#[derive(Clone, Copy, Debug, PartialEq, Eq, Hash, Structural)]
pub struct RegistrationId {
    pub event_id: u32,
    pub generation: u64,
}

/// A waiter that fired.
#[derive(Clone, Copy, Debug, PartialEq, Eq, Structural)]
pub struct Fired {
    pub guest_proc: u32,
    pub registration: RegistrationId,
}

/// A waiter that is armed, and the descriptor it fires on.
#[derive(Clone, Copy, Debug, PartialEq, Eq, Structural)]
pub struct Watch {
    pub fired: Fired,
    pub fd: i32,
}

/// What the poller is told between polls.
pub enum Operation {
    Watch(Watch),
    CancelSlots { guest_proc: u32, ids: Vec<u32> },
    CancelProcess(u32),
    Shutdown,
}

/// What came of a command.
#[derive(Clone, Copy, Debug, PartialEq, Eq, Structural)]
pub enum Outcome {
    Done,
    /// The slot or its descriptor is armed already.
    AlreadyArmed,
    /// The poller is to end.
    Stop,
}

/// What to poll, and until when.
pub struct Round {
    /// The waiters to poll, in the order in which they were armed.
    pub snapshot: Vec<Watch>,
    /// The first moment at which a waiter that is held back may be polled.
    pub soonest: Option<u64>,
}

/// The state of a poller. Moments and periods are in nanoseconds.
pub struct PollerView {
    pub watches: Seq<Watch>,
    /// Completions that nobody has taken yet.
    pub fired: Seq<Fired>,
    /// The moment before which a guest process is held back.
    pub next_at: Map<u64, u64>,
    pub pace: Option<u64>,
}

/// Two waiters use the same slot, or the same descriptor.
pub open spec fn conflicts(a: Watch, b: Watch) -> bool {
    a.fd == b.fd || (a.fired.guest_proc == b.fired.guest_proc && a.fired.registration.event_id
        == b.fired.registration.event_id)
}

/// A waiter that is not among the slots of a process.
pub open spec fn outside(guest_proc: u32, ids: Seq<u32>) -> spec_fn(Fired) -> bool {
    |f: Fired| f.guest_proc != guest_proc || !ids.contains(f.registration.event_id)
}

/// A waiter of another process.
pub open spec fn of_others(guest_proc: u32) -> spec_fn(Fired) -> bool {
    |f: Fired| f.guest_proc != guest_proc
}

/// The armed waiters that a rule keeps.
pub open spec fn kept(watches: Seq<Watch>, keep: spec_fn(Fired) -> bool) -> Seq<Watch> {
    watches.filter(|w: Watch| keep(w.fired))
}

/// The processes that are still held back.
pub open spec fn pending(next_at: Map<u64, u64>, now: u64) -> Map<u64, u64> {
    Map::new(|p: u64| next_at.contains_key(p) && next_at[p] > now, |p: u64| next_at[p])
}

impl PollerView {
    /// No slot and no descriptor is armed twice.
    pub open spec fn distinct(self) -> bool {
        forall|i: int, j: int|
            0 <= i < j < self.watches.len() ==> !conflicts(
                #[trigger] self.watches[i],
                #[trigger] self.watches[j],
            )
    }

    /// Whether a waiter's process is held back.
    pub open spec fn held(self, w: Watch) -> bool {
        self.next_at.contains_key(w.fired.guest_proc as u64)
    }

    /// The state after a command.
    pub open spec fn after(self, op: Operation) -> PollerView {
        match op {
            Operation::Watch(w) => if exists|i: int|
                0 <= i < self.watches.len() && conflicts(#[trigger] self.watches[i], w) {
                self
            } else {
                PollerView { watches: self.watches.push(w), ..self }
            },
            Operation::CancelSlots { guest_proc, ids } => PollerView {
                watches: kept(self.watches, outside(guest_proc, ids@)),
                fired: self.fired.filter(outside(guest_proc, ids@)),
                ..self
            },
            Operation::CancelProcess(guest_proc) => PollerView {
                watches: kept(self.watches, of_others(guest_proc)),
                fired: self.fired.filter(of_others(guest_proc)),
                next_at: self.next_at.remove(guest_proc as u64),
                ..self
            },
            Operation::Shutdown => self,
        }
    }

    /// What comes of a command.
    pub open spec fn outcome(self, op: Operation) -> Outcome {
        match op {
            Operation::Watch(w) => if exists|i: int|
                0 <= i < self.watches.len() && conflicts(#[trigger] self.watches[i], w) {
                Outcome::AlreadyArmed
            } else {
                Outcome::Done
            },
            Operation::Shutdown => Outcome::Stop,
            _ => Outcome::Done,
        }
    }

    /// The state after a round in which these waiters fired.
    pub open spec fn completed(self, done: Seq<Fired>, now: u64) -> PollerView {
        PollerView {
            watches: self.watches.filter(|w: Watch| !done.contains(w.fired)),
            fired: self.fired + done,
            next_at: delayed(self.next_at, done, self.pace, now),
            ..self
        }
    }
}

/// Whether a waiter of this process is among these.
pub open spec fn of_process(done: Seq<Fired>, g: u64) -> bool {
    exists|i: int| 0 <= i < done.len() && (#[trigger] done[i]).guest_proc as u64 == g
}

/// The processes that are held back after these waiters fired.
pub open spec fn delayed(
    next_at: Map<u64, u64>,
    done: Seq<Fired>,
    pace: Option<u64>,
    now: u64,
) -> Map<u64, u64> {
    match pace {
        Some(p) if now + p <= u64::MAX => Map::new(
            |g: u64| next_at.contains_key(g) || of_process(done, g),
            |g: u64|
                if of_process(done, g) {
                    (now + p) as u64
                } else {
                    next_at[g]
                },
        ),
        _ => next_at,
    }
}

/// The waiters of a snapshot that a poll found ready, in order.
pub open spec fn ready(snapshot: Seq<Watch>, revents: Seq<u16>) -> Seq<Fired>
    decreases snapshot.len(),
{
    if snapshot.len() == 0 || snapshot.len() != revents.len() {
        Seq::empty()
    } else {
        let rest = ready(snapshot.drop_last(), revents.drop_last());
        if revents.last() != 0 {
            rest.push(snapshot.last().fired)
        } else {
            rest
        }
    }
}

/// Whether a poll found a descriptor that is not open.
pub open spec fn invalid(revents: Seq<u16>) -> bool {
    exists|i: int| 0 <= i < revents.len() && #[trigger] revents[i] & POLLNVAL != 0
}

/// The earliest moment at which one of the held-back waiters may be polled.
pub open spec fn is_soonest(v: PollerView, soonest: Option<u64>) -> bool {
    match soonest {
        None => forall|i: int| 0 <= i < v.watches.len() ==> !v.held(#[trigger] v.watches[i]),
        Some(t) => {
            &&& exists|i: int|
                0 <= i < v.watches.len() && v.held(#[trigger] v.watches[i])
                    && v.next_at[v.watches[i].fired.guest_proc as u64] == t
            &&& forall|i: int|
                0 <= i < v.watches.len() && v.held(#[trigger] v.watches[i])
                    ==> t <= v.next_at[v.watches[i].fired.guest_proc as u64]
        },
    }
}

/// How long to poll, in milliseconds: without end where nobody is held back, else until
/// the moment comes, rounded up, and at least one.
pub open spec fn wait_ms(soonest: Option<u64>, now: u64) -> int {
    match soonest {
        None => -1,
        Some(t) => {
            let us = if now <= t {
                (t - now) / 1000
            } else {
                0
            };
            let ms = (us + 999) / 1000;
            if ms < 1 {
                1
            } else if ms > i32::MAX {
                i32::MAX as int
            } else {
                ms
            }
        },
    }
}

/// How long to poll, in milliseconds.
pub fn timeout(soonest: Option<u64>, now: u64) -> (ms: i32)
    ensures
        ms == wait_ms(soonest, now),
        soonest is Some ==> ms >= 1,
{
    match soonest {
        None => -1,
        Some(t) => {
            let us: u64 = t.saturating_sub(now) / 1000;
            let ms: u64 = us / 1000 + (if us % 1000 != 0 {
                1u64
            } else {
                0u64
            });
            if ms < 1 {
                1
            } else if ms > i32::MAX as u64 {
                i32::MAX
            } else {
                ms as i32
            }
        },
    }
}

/// The armed waiters, the completions that nobody has taken, and who is held back.
pub struct Poller {
    watches: Vec<Watch>,
    fired: Vec<Fired>,
    next_at: Table<u64>,
    pace: Option<u64>,
}

impl View for Poller {
    type V = PollerView;

    closed spec fn view(&self) -> PollerView {
        PollerView {
            watches: self.watches@,
            fired: self.fired@,
            next_at: self.next_at@,
            pace: self.pace,
        }
    }
}

fn contains_id(ids: &[u32], id: u32) -> (r: bool)
    ensures
        r == ids@.contains(id),
{
    let mut i: usize = 0;
    while i < ids.len()
        invariant
            i <= ids@.len(),
            forall|k: int| 0 <= k < i ==> ids@[k] != id,
        decreases ids@.len() - i,
    {
        if ids[i] == id {
            return true;
        }
        i = i + 1;
    }
    false
}

fn contains_fired(list: &[Fired], f: Fired) -> (r: bool)
    ensures
        r == list@.contains(f),
{
    let mut i: usize = 0;
    while i < list.len()
        invariant
            i <= list@.len(),
            forall|k: int| 0 <= k < i ==> list@[k] != f,
        decreases list@.len() - i,
    {
        if list[i] == f {
            return true;
        }
        i = i + 1;
    }
    false
}

proof fn lemma_filtered_stay_distinct(v: PollerView, p: spec_fn(Watch) -> bool, w: PollerView)
    requires
        v.distinct(),
        w.watches == v.watches.filter(p),
    ensures
        w.distinct(),
{
    assert forall|i: int, j: int| 0 <= i < j < w.watches.len() implies !conflicts(
        #[trigger] w.watches[i],
        #[trigger] w.watches[j],
    ) by {
        let r = lemma_filter_pairs(v.watches, p, i, j);
        assert(!conflicts(v.watches[r.0], v.watches[r.1]));
    }
}

impl Poller {
    /// A poller without waiters. The pace, where there is one, is the least time between
    /// two completions of one guest process.
    pub fn new(pace: Option<u64>) -> (p: Poller)
        ensures
            p@ == (PollerView {
                watches: Seq::empty(),
                fired: Seq::empty(),
                next_at: Map::empty(),
                pace,
            }),
            p@.distinct(),
    {
        Poller { watches: Vec::new(), fired: Vec::new(), next_at: Table::new(), pace }
    }

    /// Carries out a command. An armed slot is not replaced; a cancelled one leaves no
    /// waiter and no completion behind.
    pub fn apply(&mut self, op: Operation) -> (r: Outcome)
        ensures
            r == old(self)@.outcome(op),
            final(self)@ == old(self)@.after(op),
            old(self)@.distinct() ==> final(self)@.distinct(),
    {
        match op {
            Operation::Shutdown => Outcome::Stop,
            Operation::Watch(w) => {
                let mut i: usize = 0;
                while i < self.watches.len()
                    invariant
                        i <= self.watches@.len(),
                        *self == *old(self),
                        op == Operation::Watch(w),
                        forall|k: int|
                            0 <= k < i ==> !conflicts(#[trigger] self.watches@[k], w),
                    decreases self.watches@.len() - i,
                {
                    let o: Watch = self.watches[i];
                    if o.fd == w.fd || (o.fired.guest_proc == w.fired.guest_proc
                        && o.fired.registration.event_id == w.fired.registration.event_id) {
                        assert(conflicts(self.watches@[i as int], w));
                        return Outcome::AlreadyArmed;
                    }
                    i = i + 1;
                }
                self.watches.push(w);
                Outcome::Done
            },
            Operation::CancelSlots { guest_proc, ids } => {
                let ghost keep = outside(guest_proc, ids@);
                let ghost keep_watch = |w: Watch| keep(w.fired);
                let mut watches: Vec<Watch> = Vec::new();
                let mut i: usize = 0;
                while i < self.watches.len()
                    invariant
                        i <= self.watches@.len(),
                        *self == *old(self),
                        keep == outside(guest_proc, ids@),
                        keep_watch == (|w: Watch| keep(w.fired)),
                        watches@ == self.watches@.take(i as int).filter(keep_watch),
                    decreases self.watches@.len() - i,
                {
                    let w: Watch = self.watches[i];
                    proof {
                        lemma_filter_step(self.watches@, i as int, keep_watch);
                    }
                    if w.fired.guest_proc != guest_proc || !contains_id(
                        &ids,
                        w.fired.registration.event_id,
                    ) {
                        watches.push(w);
                    }
                    i = i + 1;
                }
                assert(self.watches@.take(i as int) =~= self.watches@);
                let mut fired: Vec<Fired> = Vec::new();
                let mut j: usize = 0;
                while j < self.fired.len()
                    invariant
                        j <= self.fired@.len(),
                        *self == *old(self),
                        keep == outside(guest_proc, ids@),
                        fired@ == self.fired@.take(j as int).filter(keep),
                    decreases self.fired@.len() - j,
                {
                    let f: Fired = self.fired[j];
                    proof {
                        lemma_filter_step(self.fired@, j as int, keep);
                    }
                    if f.guest_proc != guest_proc || !contains_id(&ids, f.registration.event_id) {
                        fired.push(f);
                    }
                    j = j + 1;
                }
                assert(self.fired@.take(j as int) =~= self.fired@);
                self.watches = watches;
                self.fired = fired;
                proof {
                    if old(self)@.distinct() {
                        lemma_filtered_stay_distinct(old(self)@, keep_watch, self@);
                    }
                }
                Outcome::Done
            },
            Operation::CancelProcess(guest_proc) => {
                let ghost keep = of_others(guest_proc);
                let ghost keep_watch = |w: Watch| keep(w.fired);
                let mut watches: Vec<Watch> = Vec::new();
                let mut i: usize = 0;
                while i < self.watches.len()
                    invariant
                        i <= self.watches@.len(),
                        *self == *old(self),
                        keep == of_others(guest_proc),
                        keep_watch == (|w: Watch| keep(w.fired)),
                        watches@ == self.watches@.take(i as int).filter(keep_watch),
                    decreases self.watches@.len() - i,
                {
                    let w: Watch = self.watches[i];
                    proof {
                        lemma_filter_step(self.watches@, i as int, keep_watch);
                    }
                    if w.fired.guest_proc != guest_proc {
                        watches.push(w);
                    }
                    i = i + 1;
                }
                assert(self.watches@.take(i as int) =~= self.watches@);
                let mut fired: Vec<Fired> = Vec::new();
                let mut j: usize = 0;
                while j < self.fired.len()
                    invariant
                        j <= self.fired@.len(),
                        *self == *old(self),
                        keep == of_others(guest_proc),
                        fired@ == self.fired@.take(j as int).filter(keep),
                    decreases self.fired@.len() - j,
                {
                    let f: Fired = self.fired[j];
                    proof {
                        lemma_filter_step(self.fired@, j as int, keep);
                    }
                    if f.guest_proc != guest_proc {
                        fired.push(f);
                    }
                    j = j + 1;
                }
                assert(self.fired@.take(j as int) =~= self.fired@);
                self.watches = watches;
                self.fired = fired;
                self.next_at.remove(guest_proc as u64);
                proof {
                    if old(self)@.distinct() {
                        lemma_filtered_stay_distinct(old(self)@, keep_watch, self@);
                    }
                }
                Outcome::Done
            },
        }
    }

    /// Plans a round at the moment `now`: who may be polled, and until when. A process
    /// that is held back is not polled, so that none of its wakes is consumed.
    pub fn plan(&mut self, now: u64) -> (r: Round)
        ensures
            final(self)@ == old(self)@.planned(now),
            r.snapshot@ == final(self)@.free(),
            is_soonest(final(self)@, r.soonest),
    {
        let keys: Vec<u64> = self.next_at.keys();
        let ghost all = self.next_at@;
        let mut k: usize = 0;
        while k < keys.len()
            invariant
                k <= keys@.len(),
                all == old(self)@.next_at,
                self.watches == old(self).watches,
                self.fired == old(self).fired,
                self.pace == old(self).pace,
                crate::table::rising(keys@),
                forall|g: u64| all.contains_key(g) <==> #[trigger] keys@.contains(g),
                forall|g: u64| #[trigger]
                    self.next_at@.contains_key(g) <==> all.contains_key(g) && !(all[g] <= now
                        && keys@.take(k as int).contains(g)),
                forall|g: u64| #[trigger] self.next_at@.contains_key(g) ==> self.next_at@[g] == all[g],
            decreases keys@.len() - k,
        {
            let g: u64 = keys[k];
            proof {
                assert(keys@.contains(g));
                lemma_take_contains(keys@, k as int);
            }
            if let Some(t) = self.next_at.get(g) {
                if *t <= now {
                    self.next_at.remove(g);
                }
            }
            k = k + 1;
        }
        proof {
            assert(keys@.take(k as int) =~= keys@);
            assert(self.next_at@ =~= pending(all, now));
        }
        let ghost free = |w: Watch| !self@.held(w);
        let mut snapshot: Vec<Watch> = Vec::new();
        let mut soonest: Option<u64> = None;
        let mut i: usize = 0;
        while i < self.watches.len()
            invariant
                i <= self.watches@.len(),
                self@ == (PollerView { next_at: pending(old(self)@.next_at, now), ..old(self)@ }),
                free == (|w: Watch| !self@.held(w)),
                snapshot@ == self.watches@.take(i as int).filter(free),
                match soonest {
                    None => forall|j: int|
                        0 <= j < i ==> !self@.held(#[trigger] self.watches@[j]),
                    Some(t) => {
                        &&& exists|j: int|
                            0 <= j < i && self@.held(#[trigger] self.watches@[j])
                                && self@.next_at[self.watches@[j].fired.guest_proc as u64] == t
                        &&& forall|j: int|
                            0 <= j < i && self@.held(#[trigger] self.watches@[j])
                                ==> t <= self@.next_at[self.watches@[j].fired.guest_proc as u64]
                    },
                },
            decreases self.watches@.len() - i,
        {
            let w: Watch = self.watches[i];
            proof {
                lemma_filter_step(self.watches@, i as int, free);
            }
            match self.next_at.get(w.fired.guest_proc as u64) {
                Some(t) => {
                    let t: u64 = *t;
                    assert(self@.held(self.watches@[i as int]));
                    soonest = match soonest {
                        None => Some(t),
                        Some(s) => if t < s {
                            Some(t)
                        } else {
                            Some(s)
                        },
                    };
                },
                None => {
                    snapshot.push(w);
                },
            }
            i = i + 1;
        }
        proof {
            let v = self@;
            assert(self.watches@.take(i as int) =~= self.watches@);
            assert(v.watches == self.watches@);
            if let Some(t) = soonest {
                let j = choose|j: int|
                    0 <= j < i && v.held(#[trigger] self.watches@[j])
                        && v.next_at[self.watches@[j].fired.guest_proc as u64] == t;
                assert(v.held(v.watches[j]));
            }
            assert(is_soonest(v, soonest));
        }
        Round { snapshot, soonest }
    }

    /// Takes in what a poll of a snapshot found, at the moment `now`. Every waiter that is
    /// ready fires once and is armed no more. Whether anybody fired; nothing where a
    /// descriptor was not open, which ends the poller.
    pub fn complete(&mut self, snapshot: &[Watch], revents: &[u16], now: u64) -> (r: Option<bool>)
        requires
            snapshot@.len() == revents@.len(),
        ensures
            r is None <==> invalid(revents@),
            r is None ==> final(self)@ == old(self)@,
            r matches Some(any) ==> {
                let done = ready(snapshot@, revents@);
                &&& any == (done.len() > 0)
                &&& final(self)@ == old(self)@.completed(done, now)
            },
            old(self)@.distinct() ==> final(self)@.distinct(),
    {
        let mut i: usize = 0;
        while i < revents.len()
            invariant
                i <= revents@.len(),
                *self == *old(self),
                forall|k: int| 0 <= k < i ==> #[trigger] revents@[k] & POLLNVAL == 0,
            decreases revents@.len() - i,
        {
            if revents[i] & POLLNVAL != 0 {
                assert(revents@[i as int] & POLLNVAL != 0);
                return None;
            }
            i = i + 1;
        }
        let mut done: Vec<Fired> = Vec::new();
        let mut j: usize = 0;
        while j < snapshot.len()
            invariant
                j <= snapshot@.len(),
                snapshot@.len() == revents@.len(),
                *self == *old(self),
                done@ == ready(snapshot@.take(j as int), revents@.take(j as int)),
            decreases snapshot@.len() - j,
        {
            proof {
                assert(snapshot@.take(j + 1).drop_last() =~= snapshot@.take(j as int));
                assert(revents@.take(j + 1).drop_last() =~= revents@.take(j as int));
            }
            if revents[j] != 0 {
                done.push(snapshot[j].fired);
            }
            j = j + 1;
        }
        proof {
            assert(snapshot@.take(j as int) =~= snapshot@);
            assert(revents@.take(j as int) =~= revents@);
        }
        let ghost live = |w: Watch| !done@.contains(w.fired);
        let mut watches: Vec<Watch> = Vec::new();
        let mut k: usize = 0;
        while k < self.watches.len()
            invariant
                k <= self.watches@.len(),
                *self == *old(self),
                live == (|w: Watch| !done@.contains(w.fired)),
                watches@ == self.watches@.take(k as int).filter(live),
            decreases self.watches@.len() - k,
        {
            let w: Watch = self.watches[k];
            proof {
                lemma_filter_step(self.watches@, k as int, live);
            }
            if !contains_fired(&done, w.fired) {
                watches.push(w);
            }
            k = k + 1;
        }
        assert(self.watches@.take(k as int) =~= self.watches@);
        let any: bool = done.len() > 0;
        self.watches = watches;
        let mut n: usize = 0;
        if let Some(p) = self.pace {
            if let Some(deadline) = now.checked_add(p) {
                proof {
                    assert(self.next_at@ =~= delayed(
                        old(self)@.next_at,
                        done@.take(0),
                        Some(p),
                        now,
                    ));
                }
                while n < done.len()
                    invariant
                        n <= done@.len(),
                        deadline == now + p,
                        self.watches == watches,
                        self.fired == old(self).fired,
                        self.pace == old(self).pace,
                        self.next_at@ == delayed(
                            old(self)@.next_at,
                            done@.take(n as int),
                            Some(p),
                            now,
                        ),
                    decreases done@.len() - n,
                {
                    let g: u64 = done[n].guest_proc as u64;
                    self.next_at.insert(g, deadline);
                    proof {
                        let (was, next) = (done@.take(n as int), done@.take(n + 1));
                        assert(next =~= was.push(done@[n as int]));
                        assert(next[n as int].guest_proc as u64 == g);
                        assert forall|x: u64| #[trigger]
                            of_process(next, x) <==> (x == g || of_process(was, x)) by {
                            if of_process(was, x) {
                                let a = choose|a: int|
                                    0 <= a < was.len() && (#[trigger] was[a]).guest_proc as u64
                                        == x;
                                assert(next[a].guest_proc as u64 == x);
                            }
                            if of_process(next, x) {
                                let a = choose|a: int|
                                    0 <= a < next.len() && (#[trigger] next[a]).guest_proc as u64
                                        == x;
                                if a < was.len() {
                                    assert(was[a].guest_proc as u64 == x);
                                }
                            }
                        }
                        assert(self.next_at@ =~= delayed(
                            old(self)@.next_at,
                            next,
                            Some(p),
                            now,
                        ));
                    }
                    n = n + 1;
                }
                assert(done@.take(n as int) =~= done@);
            }
        }
        assert(self.next_at@ == delayed(old(self)@.next_at, done@, old(self)@.pace, now));
        self.fired.append(&mut done);
        proof {
            if old(self)@.distinct() {
                lemma_filtered_stay_distinct(old(self)@, live, self@);
            }
        }
        Some(any)
    }

    /// Takes the completions that nobody has taken yet.
    pub fn take_fired(&mut self) -> (r: Vec<Fired>)
        ensures
            r@ == old(self)@.fired,
            final(self)@ == (PollerView { fired: Seq::empty(), ..old(self)@ }),
    {
        let mut out: Vec<Fired> = Vec::new();
        std::mem::swap(&mut out, &mut self.fired);
        out
    }
}

/// After slots are cancelled, no armed waiter and no completion of theirs is left.
pub proof fn law_cancelled_slots_leave_nothing(v: PollerView, guest_proc: u32, ids: Vec<u32>)
    ensures
        v.after(Operation::CancelSlots { guest_proc, ids }).rid_of(guest_proc, ids@),
{
    let w = v.after(Operation::CancelSlots { guest_proc, ids });
    let keep = outside(guest_proc, ids@);
    assert forall|i: int| 0 <= i < w.watches.len() implies keep((#[trigger] w.watches[i]).fired) by {
        let j = lemma_filter_from(v.watches, |x: Watch| keep(x.fired), i);
    }
    assert forall|i: int| 0 <= i < w.fired.len() implies keep(#[trigger] w.fired[i]) by {
        let j = lemma_filter_from(v.fired, keep, i);
    }
}

/// Cancelling slots keeps every armed waiter and every completion of every other slot.
pub proof fn law_other_slots_keep_everything(v: PollerView, guest_proc: u32, ids: Vec<u32>, i: int)
    ensures
        ({
            let w = v.after(Operation::CancelSlots { guest_proc, ids });
            &&& 0 <= i < v.watches.len() && outside(guest_proc, ids@)(v.watches[i].fired)
                ==> w.watches.contains(v.watches[i])
            &&& 0 <= i < v.fired.len() && outside(guest_proc, ids@)(v.fired[i])
                ==> w.fired.contains(v.fired[i])
            &&& w.next_at == v.next_at && w.pace == v.pace
        }),
{
    let keep = outside(guest_proc, ids@);
    if 0 <= i < v.watches.len() && keep(v.watches[i].fired) {
        lemma_filter_keeps(v.watches, |x: Watch| keep(x.fired), i);
    }
    if 0 <= i < v.fired.len() && keep(v.fired[i]) {
        lemma_filter_keeps(v.fired, keep, i);
    }
}

/// What happens to a poller.
pub enum Happening {
    /// `Poller::apply`.
    Command(Operation),
    /// `Poller::plan` at the moment `from`, and `Poller::complete` of its snapshot at the moment
    /// `to` with what the poll found. A poll answers for each waiter of the snapshot.
    Round { from: u64, revents: Seq<u16>, to: u64 },
    /// `Poller::take_fired`.
    Taken,
}

impl PollerView {
    /// The state after a round was planned.
    pub open spec fn planned(self, now: u64) -> PollerView {
        PollerView { next_at: pending(self.next_at, now), ..self }
    }

    /// The waiters that may be polled.
    pub open spec fn free(self) -> Seq<Watch> {
        self.watches.filter(|w: Watch| !self.held(w))
    }

    /// The state after something happened.
    pub open spec fn upon(self, h: Happening) -> PollerView {
        match h {
            Happening::Command(op) => self.after(op),
            Happening::Round { from, revents, to } => {
                let p = self.planned(from);
                if invalid(revents) {
                    p
                } else {
                    p.completed(ready(p.free(), revents), to)
                }
            },
            Happening::Taken => PollerView { fired: Seq::empty(), ..self },
        }
    }

    /// The state after several things happened, one after the other.
    pub open spec fn since(self, hs: Seq<Happening>) -> PollerView
        decreases hs.len(),
    {
        if hs.len() == 0 {
            self
        } else {
            self.since(hs.drop_last()).upon(hs.last())
        }
    }

    /// No armed waiter and no completion is of these slots.
    pub open spec fn rid_of(self, guest_proc: u32, ids: Seq<u32>) -> bool {
        &&& forall|i: int|
            0 <= i < self.watches.len() ==> outside(guest_proc, ids)(
                (#[trigger] self.watches[i]).fired,
            )
        &&& forall|i: int|
            0 <= i < self.fired.len() ==> outside(guest_proc, ids)(#[trigger] self.fired[i])
    }
}

/// Whether something arms one of these slots.
pub open spec fn arms(h: Happening, guest_proc: u32, ids: Seq<u32>) -> bool {
    h matches Happening::Command(Operation::Watch(w)) && !outside(guest_proc, ids)(w.fired)
}

proof fn lemma_ready_from(snapshot: Seq<Watch>, revents: Seq<u16>, i: int) -> (j: int)
    requires
        0 <= i < ready(snapshot, revents).len(),
    ensures
        0 <= j < snapshot.len(),
        snapshot[j].fired == ready(snapshot, revents)[i],
    decreases snapshot.len(),
{
    let rest = ready(snapshot.drop_last(), revents.drop_last());
    if i < rest.len() {
        lemma_ready_from(snapshot.drop_last(), revents.drop_last(), i)
    } else {
        snapshot.len() - 1
    }
}

proof fn lemma_stays_away(v: PollerView, guest_proc: u32, ids: Seq<u32>, h: Happening)
    requires
        v.rid_of(guest_proc, ids),
        !arms(h, guest_proc, ids),
    ensures
        v.upon(h).rid_of(guest_proc, ids),
{
    let w = v.upon(h);
    let keep = outside(guest_proc, ids);
    match h {
        Happening::Command(op) => match op {
            Operation::Watch(x) => {},
            Operation::CancelSlots { guest_proc: g, ids: list } => {
                let rule = outside(g, list@);
                assert forall|i: int| 0 <= i < w.watches.len() implies keep(
                    (#[trigger] w.watches[i]).fired,
                ) by {
                    let j = lemma_filter_from(v.watches, |x: Watch| rule(x.fired), i);
                }
                assert forall|i: int| 0 <= i < w.fired.len() implies keep(
                    #[trigger] w.fired[i],
                ) by {
                    let j = lemma_filter_from(v.fired, rule, i);
                }
            },
            Operation::CancelProcess(g) => {
                let rule = of_others(g);
                assert forall|i: int| 0 <= i < w.watches.len() implies keep(
                    (#[trigger] w.watches[i]).fired,
                ) by {
                    let j = lemma_filter_from(v.watches, |x: Watch| rule(x.fired), i);
                }
                assert forall|i: int| 0 <= i < w.fired.len() implies keep(
                    #[trigger] w.fired[i],
                ) by {
                    let j = lemma_filter_from(v.fired, rule, i);
                }
            },
            Operation::Shutdown => {},
        },
        Happening::Round { from, revents, to } => {
            let p = v.planned(from);
            if !invalid(revents) {
                let done = ready(p.free(), revents);
                assert forall|i: int| 0 <= i < w.watches.len() implies keep(
                    (#[trigger] w.watches[i]).fired,
                ) by {
                    let j = lemma_filter_from(p.watches, |x: Watch| !done.contains(x.fired), i);
                }
                assert forall|i: int| 0 <= i < w.fired.len() implies keep(
                    #[trigger] w.fired[i],
                ) by {
                    if i >= v.fired.len() {
                        let j = lemma_ready_from(p.free(), revents, i - v.fired.len());
                        let m = lemma_filter_from(p.watches, |x: Watch| !p.held(x), j);
                        assert(v.watches[m].fired == w.fired[i]);
                    }
                }
            }
        },
        Happening::Taken => {},
    }
}

/// A slot that was cancelled stays away: whatever happens afterwards, no waiter of it is armed
/// and no completion of it is handed out until it is armed again.
pub proof fn law_a_cancelled_slot_stays_away(
    v: PollerView,
    guest_proc: u32,
    ids: Vec<u32>,
    hs: Seq<Happening>,
)
    requires
        forall|i: int| 0 <= i < hs.len() ==> !arms(#[trigger] hs[i], guest_proc, ids@),
    ensures
        v.after(Operation::CancelSlots { guest_proc, ids }).since(hs).rid_of(guest_proc, ids@),
    decreases hs.len(),
{
    if hs.len() == 0 {
        law_cancelled_slots_leave_nothing(v, guest_proc, ids);
    } else {
        assert forall|i: int| 0 <= i < hs.drop_last().len() implies !arms(
            #[trigger] hs.drop_last()[i],
            guest_proc,
            ids@,
        ) by {
            assert(hs.drop_last()[i] == hs[i]);
        }
        law_a_cancelled_slot_stays_away(v, guest_proc, ids, hs.drop_last());
        let w = v.after(Operation::CancelSlots { guest_proc, ids }).since(hs.drop_last());
        lemma_stays_away(w, guest_proc, ids@, hs[hs.len() - 1]);
    }
}

/// A waiter that fired is armed no more: it fires once.
pub proof fn law_a_waiter_fires_once(v: PollerView, done: Seq<Fired>, now: u64, i: int)
    requires
        0 <= i < v.completed(done, now).watches.len(),
    ensures
        !done.contains(v.completed(done, now).watches[i].fired),
{
    let j = lemma_filter_from(v.watches, |w: Watch| !done.contains(w.fired), i);
}

/// Cancelling one process leaves every waiter of every other process armed.
pub proof fn law_other_processes_stay_armed(v: PollerView, guest_proc: u32, i: int)
    requires
        0 <= i < v.watches.len(),
        v.watches[i].fired.guest_proc != guest_proc,
    ensures
        v.after(Operation::CancelProcess(guest_proc)).watches.contains(v.watches[i]),
{
    let keep = of_others(guest_proc);
    lemma_filter_keeps(v.watches, |w: Watch| keep(w.fired), i);
}

/// A waiter is armed unless its descriptor, or its event of the same process, is armed already;
/// it comes behind the others, which stay.
pub proof fn law_a_slot_is_armed_once(v: PollerView, w: Watch)
    ensures
        ({
            let busy = exists|i: int|
                0 <= i < v.watches.len() && ((#[trigger] v.watches[i]).fd == w.fd || (
                v.watches[i].fired.guest_proc == w.fired.guest_proc
                    && v.watches[i].fired.registration.event_id
                    == w.fired.registration.event_id));
            let n = v.after(Operation::Watch(w));
            &&& busy ==> v.outcome(Operation::Watch(w)) is AlreadyArmed && n == v
            &&& !busy ==> v.outcome(Operation::Watch(w)) is Done && n.watches.len()
                == v.watches.len() + 1 && n.watches.last() == w && n.watches.drop_last()
                == v.watches
            &&& n.fired == v.fired && n.next_at == v.next_at && n.pace == v.pace
            &&& v.outcome(Operation::Shutdown) is Stop && v.after(Operation::Shutdown) == v
        }),
{
    let clash = exists|i: int|
        0 <= i < v.watches.len() && conflicts(#[trigger] v.watches[i], w);
    if clash {
        let i = choose|i: int| 0 <= i < v.watches.len() && conflicts(#[trigger] v.watches[i], w);
        assert(v.watches[i].fd == w.fd || (v.watches[i].fired.guest_proc == w.fired.guest_proc
            && v.watches[i].fired.registration.event_id == w.fired.registration.event_id));
    } else {
        assert forall|i: int| 0 <= i < v.watches.len() implies !((#[trigger] v.watches[i]).fd
            == w.fd || (v.watches[i].fired.guest_proc == w.fired.guest_proc
            && v.watches[i].fired.registration.event_id
            == w.fired.registration.event_id)) by {
            assert(!conflicts(v.watches[i], w));
        }
        assert(v.after(Operation::Watch(w)).watches.drop_last() =~= v.watches);
    }
}

/// A process that goes takes its waiters, its completions and its pace with it.
pub proof fn law_a_process_that_goes_leaves_nothing(v: PollerView, guest_proc: u32, i: int, g: u64)
    ensures
        ({
            let n = v.after(Operation::CancelProcess(guest_proc));
            &&& 0 <= i < n.watches.len() ==> n.watches[i].fired.guest_proc != guest_proc
            &&& 0 <= i < n.fired.len() ==> n.fired[i].guest_proc != guest_proc
            &&& !n.next_at.contains_key(guest_proc as u64)
            &&& g != guest_proc ==> n.next_at.contains_key(g) == v.next_at.contains_key(g) && (
            v.next_at.contains_key(g) ==> n.next_at[g] == v.next_at[g])
            &&& 0 <= i < v.fired.len() && v.fired[i].guest_proc != guest_proc ==> n.fired.contains(
                v.fired[i],
            )
        }),
{
    broadcast use vstd::seq_lib::group_filter_ensures;

    let keep = of_others(guest_proc);
    let n = v.after(Operation::CancelProcess(guest_proc));
    if 0 <= i < n.watches.len() {
        assert(keep(n.watches[i].fired));
    }
    if 0 <= i < n.fired.len() {
        assert(keep(n.fired[i]));
    }
    if 0 <= i < v.fired.len() && v.fired[i].guest_proc != guest_proc {
        assert(keep(v.fired[i]));
    }
}

/// What a poll found: exactly the waiters whose descriptor reported something, in their order.
pub proof fn law_every_waiter_that_reported_is_ready(
    snapshot: Seq<Watch>,
    revents: Seq<u16>,
    f: Fired,
)
    requires
        snapshot.len() == revents.len(),
    ensures
        ready(snapshot, revents).contains(f) <==> exists|i: int|
            0 <= i < snapshot.len() && #[trigger] revents[i] != 0 && snapshot[i].fired == f,
        ready(snapshot, revents).len() <= snapshot.len(),
        (forall|i: int| 0 <= i < revents.len() ==> #[trigger] revents[i] != 0) ==> ready(
            snapshot,
            revents,
        ) == snapshot.map_values(|w: Watch| w.fired),
    decreases snapshot.len(),
{
    let r = ready(snapshot, revents);
    if snapshot.len() > 0 {
        let (s, e) = (snapshot.drop_last(), revents.drop_last());
        let rest = ready(s, e);
        let last = snapshot.len() - 1;
        law_every_waiter_that_reported_is_ready(s, e, f);
        if rest.contains(f) {
            let i = choose|i: int|
                0 <= i < s.len() && #[trigger] e[i] != 0 && s[i].fired == f;
            assert(revents[i] == e[i] && snapshot[i] == s[i]);
            assert(r[rest.index_of(f)] == f);
        }
        if revents[last] != 0 {
            assert(r[rest.len() as int] == snapshot[last].fired);
        }
        if r.contains(f) && !rest.contains(f) {
            let j = r.index_of(f);
            if j < rest.len() {
                assert(rest[j] == f);
            }
            assert(revents[last] != 0 && snapshot[last].fired == f);
        }
        if exists|i: int|
            0 <= i < snapshot.len() && #[trigger] revents[i] != 0 && snapshot[i].fired == f {
            let i = choose|i: int|
                0 <= i < snapshot.len() && #[trigger] revents[i] != 0 && snapshot[i].fired == f;
            if i < last {
                assert(e[i] == revents[i] && s[i] == snapshot[i]);
                assert(rest.contains(f));
            }
        }
        if forall|i: int| 0 <= i < revents.len() ==> #[trigger] revents[i] != 0 {
            assert forall|i: int| 0 <= i < e.len() implies #[trigger] e[i] != 0 by {
                assert(e[i] == revents[i]);
            }
            assert(revents[last] != 0);
            assert(r =~= snapshot.map_values(|w: Watch| w.fired));
        }
    } else {
        assert(r =~= snapshot.map_values(|w: Watch| w.fired));
    }
}

/// What completed is kept for whoever takes it, behind what is there, and its process is held
/// back by the pace from now on. Waiters that did not complete stay armed, and other processes
/// are not held back for it.
pub proof fn law_a_completion_is_kept_and_paced(
    v: PollerView,
    done: Seq<Fired>,
    now: u64,
    w: Watch,
    g: u32,
)
    ensures
        ({
            let n = v.completed(done, now);
            let done_by = exists|i: int| 0 <= i < done.len() && (#[trigger] done[i]).guest_proc == g;
            &&& n.fired == v.fired + done
            &&& v.watches.contains(w) && !done.contains(w.fired) ==> n.watches.contains(w)
            &&& n.watches.contains(w) ==> v.watches.contains(w) && !done.contains(w.fired)
            &&& v.pace is None ==> n.next_at == v.next_at
            &&& (v.pace matches Some(p) && now + p > u64::MAX) ==> n.next_at == v.next_at
            &&& v.pace matches Some(p) ==> now + p <= u64::MAX ==> {
                &&& done_by ==> n.next_at.contains_key(g as u64) && n.next_at[g as u64] == now + p
                &&& !done_by ==> n.next_at.contains_key(g as u64) == v.next_at.contains_key(
                    g as u64,
                ) && (v.next_at.contains_key(g as u64) ==> n.next_at[g as u64]
                    == v.next_at[g as u64])
            }
        }),
{
    let keep = |x: Watch| !done.contains(x.fired);
    lemma_kept_watch(v.watches, keep, w);
    let done_by = exists|i: int| 0 <= i < done.len() && (#[trigger] done[i]).guest_proc == g;
    if done_by {
        let i = choose|i: int| 0 <= i < done.len() && (#[trigger] done[i]).guest_proc == g;
        assert(done[i].guest_proc as u64 == g as u64);
        assert(of_process(done, g as u64));
    } else if of_process(done, g as u64) {
        let i = choose|i: int|
            0 <= i < done.len() && (#[trigger] done[i]).guest_proc as u64 == g as u64;
        assert(done[i].guest_proc == g);
    }
}

proof fn lemma_kept_watch(watches: Seq<Watch>, keep: spec_fn(Watch) -> bool, w: Watch)
    ensures
        watches.filter(keep).contains(w) <==> watches.contains(w) && keep(w),
    decreases watches.len(),
{
    reveal(Seq::filter);
    if watches.len() > 0 {
        let (rest, last) = (watches.drop_last(), watches.last());
        lemma_kept_watch(rest, keep, w);
        assert(watches =~= rest.push(last));
        lemma_watch_pushed(rest, last, w);
        lemma_watch_pushed(rest.filter(keep), last, w);
    }
}

proof fn lemma_watch_pushed(s: Seq<Watch>, last: Watch, w: Watch)
    ensures
        s.push(last).contains(w) <==> s.contains(w) || w == last,
{
    if s.contains(w) {
        assert(s.push(last)[s.index_of(w)] == w);
    }
    assert(s.push(last)[s.len() as int] == last);
    if s.push(last).contains(w) {
        let i = s.push(last).index_of(w);
        if i < s.len() {
            assert(s[i] == w);
        }
    }
}

/// A process is held back until its moment has come, and a waiter is polled exactly where its
/// process is not.
pub proof fn law_a_process_is_polled_when_its_moment_comes(v: PollerView, now: u64, w: Watch)
    ensures
        ({
            let n = v.planned(now);
            let g = w.fired.guest_proc as u64;
            &&& n.held(w) <==> v.next_at.contains_key(g) && v.next_at[g] > now
            &&& n.held(w) ==> n.next_at[g] == v.next_at[g]
            &&& n.watches == v.watches && n.fired == v.fired && n.pace == v.pace
            &&& n.free().contains(w) <==> v.watches.contains(w) && !n.held(w)
        }),
{
    let n = v.planned(now);
    lemma_kept_watch(n.watches, |x: Watch| !n.held(x), w);
}

/// A poll waits without end where nobody is held back. Else it waits whole milliseconds, at least
/// one, that reach the moment to the microsecond and pass it by less than one of them.
pub proof fn law_a_poll_waits_for_the_next_moment(t: u64, now: u64)
    ensures
        wait_ms(None, now) == -1,
        wait_ms(Some(t), now) >= 1,
        t <= now ==> wait_ms(Some(t), now) == 1,
        wait_ms(Some(t), now) < i32::MAX ==> 1_000_000 * wait_ms(Some(t), now) > t - now - 1_000,
        1 < wait_ms(Some(t), now) < i32::MAX ==> 1_000_000 * (wait_ms(Some(t), now) - 1) < t - now,
        wait_ms(Some(t), now) <= i32::MAX,
{
}

/// The events that a poll reports as invalid are those with the bit for it.
pub proof fn law_a_bad_descriptor_spoils_the_poll(revents: Seq<u16>, i: int)
    ensures
        0 <= i < revents.len() && revents[i] & 0x20 != 0 ==> invalid(revents),
        (forall|k: int| 0 <= k < revents.len() ==> #[trigger] revents[k] & 0x20 == 0) ==> !invalid(
            revents,
        ),
{
}

/// The next moment is the first at which a waiter that is held back may be polled, and there is
/// none exactly where nobody is held back.
pub proof fn law_the_next_moment_is_the_first(v: PollerView, soonest: Option<u64>, i: int)
    requires
        is_soonest(v, soonest),
        0 <= i < v.watches.len(),
    ensures
        ({
            let g = v.watches[i].fired.guest_proc as u64;
            &&& soonest is None ==> !v.next_at.contains_key(g)
            &&& soonest matches Some(t) ==> v.next_at.contains_key(g) ==> t <= v.next_at[g]
            &&& soonest matches Some(t) ==> exists|k: int|
                0 <= k < v.watches.len() && v.next_at.contains_key(
                    (#[trigger] v.watches[k]).fired.guest_proc as u64,
                ) && v.next_at[v.watches[k].fired.guest_proc as u64] == t
        }),
{
    assert(v.held(v.watches[i]) <==> v.next_at.contains_key(
        v.watches[i].fired.guest_proc as u64,
    ));
    if let Some(t) = soonest {
        let k = choose|k: int|
            0 <= k < v.watches.len() && v.held(#[trigger] v.watches[k])
                && v.next_at[v.watches[k].fired.guest_proc as u64] == t;
        assert(v.next_at.contains_key(v.watches[k].fired.guest_proc as u64));
    }
}

/// A cancellation takes exactly the waiters and the completions of its process under the events
/// that it lists; all others stay.
pub proof fn law_a_cancellation_takes_what_it_lists(
    v: PollerView,
    guest_proc: u32,
    ids: Vec<u32>,
    w: Watch,
    f: Fired,
)
    ensures
        ({
            let n = v.after(Operation::CancelSlots { guest_proc, ids });
            &&& n.watches.contains(w) <==> v.watches.contains(w) && !(w.fired.guest_proc
                == guest_proc && ids@.contains(w.fired.registration.event_id))
            &&& n.fired.contains(f) <==> v.fired.contains(f) && !(f.guest_proc == guest_proc
                && ids@.contains(f.registration.event_id))
            &&& v.outcome(Operation::CancelSlots { guest_proc, ids }) is Done
        }),
{
    let keep = outside(guest_proc, ids@);
    lemma_kept_watch(v.watches, |x: Watch| keep(x.fired), w);
    lemma_kept_fired(v.fired, keep, f);
}

proof fn lemma_kept_fired(list: Seq<Fired>, keep: spec_fn(Fired) -> bool, f: Fired)
    ensures
        list.filter(keep).contains(f) <==> list.contains(f) && keep(f),
    decreases list.len(),
{
    reveal(Seq::filter);
    if list.len() > 0 {
        let (rest, last) = (list.drop_last(), list.last());
        lemma_kept_fired(rest, keep, f);
        assert(list =~= rest.push(last));
        lemma_fired_pushed(rest, last, f);
        lemma_fired_pushed(rest.filter(keep), last, f);
    }
}

proof fn lemma_fired_pushed(s: Seq<Fired>, last: Fired, f: Fired)
    ensures
        s.push(last).contains(f) <==> s.contains(f) || f == last,
{
    if s.contains(f) {
        assert(s.push(last)[s.index_of(f)] == f);
    }
    assert(s.push(last)[s.len() as int] == last);
    if s.push(last).contains(f) {
        let i = s.push(last).index_of(f);
        if i < s.len() {
            assert(s[i] == f);
        }
    }
}

} // verus!
