//! The guest pages that one session has registered.

use crate::guest_words::{GuestAddr, GuestLen};
use crate::host_pool::{
    answered, arena_layout, charges, closed_client, lemma_next_selected, lemma_sum_add, lemma_sum_push,
    lemma_sum_remove, lemma_swept_charges, next_selected, registered, registration_bytes, sum,
    sweep_answer, sweep_step, swept, Arena, Chore, GpaRun, Piece, PinBudget, PinView, Pool,
    PoolError, Region, Release, Sweep, POOL_PAGE,
};
use crate::seqs::lemma_filter_step;
use vstd::prelude::*;

verus! {

/// An arena behind an object that the guest described.
#[derive(Clone, Copy, Debug, PartialEq, Eq, Structural)]
pub struct Kept {
    pub root: u32,
    pub handle: u32,
    pub arena: Arena,
}

/// The charges of the kept arenas.
pub open spec fn kept_charges(kept: Seq<Kept>) -> Seq<u64> {
    Seq::new(kept.len(), |i: int| kept[i].arena.charge)
}

/// Where the arena of an object stands; the end where there is none.
pub open spec fn kept_at(kept: Seq<Kept>, root: u32, handle: u32, i: int) -> int
    decreases kept.len() - i,
{
    if i < 0 || i >= kept.len() {
        i
    } else if kept[i].root == root && kept[i].handle == handle {
        i
    } else {
        kept_at(kept, root, handle, i + 1)
    }
}

/// The arenas of the other clients.
pub open spec fn kept_without(kept: Seq<Kept>, root: u32) -> Seq<Kept> {
    kept.filter(|k: Kept| k.root != root)
}

/// The state of a session's registrations.
pub struct PoolView {
    pub pools: Seq<Pool>,
    pub kept: Seq<Kept>,
    /// The private client of the session.
    pub driver: Option<u32>,
}

/// Two pools of one address space that share an address.
pub open spec fn clash(a: Pool, b: Pool) -> bool {
    a.meets(b.token, b.addr.0, b.len.0)
}

impl PoolView {
    pub open spec fn wf(self) -> bool {
        &&& forall|i: int|
            0 <= i < self.pools.len() ==> {
                let p = #[trigger] self.pools[i];
                p.addr.0 + p.len.0 <= u64::MAX && p.base + p.len.0 <= u64::MAX && p.len.0 > 0
            }
        &&& forall|i: int, j: int|
            0 <= i < self.pools.len() && 0 <= j < self.pools.len() && i != j ==> !clash(
                #[trigger] self.pools[i],
                #[trigger] self.pools[j],
            )
        &&& forall|i: int, j: int|
            0 <= i < self.kept.len() && 0 <= j < self.kept.len() && i != j ==> ((
            #[trigger] self.kept[i]).root != (#[trigger] self.kept[j]).root || self.kept[i].handle
                != self.kept[j].handle)
    }

    /// What the session holds of the budget.
    pub open spec fn held(self) -> nat {
        sum(charges(self.pools)) + sum(kept_charges(self.kept))
    }

    /// Whether the budget knows of everything that the session holds.
    pub open spec fn covered(self, b: PinView) -> bool {
        b.wf() && self.held() <= b.leased()
    }

    /// Whether a range shares an address with a pool of the same address space.
    pub open spec fn overlaps(self, token: u64, addr: u64, len: u64) -> bool {
        exists|i: int| 0 <= i < self.pools.len() && (#[trigger] self.pools[i]).meets(token, addr, len)
    }

    /// The session after an arena was kept behind an object.
    pub open spec fn keeping(self, root: u32, handle: u32, arena: Arena) -> PoolView {
        let i = kept_at(self.kept, root, handle, 0);
        let k = Kept { root, handle, arena };
        if i < self.kept.len() {
            PoolView { kept: self.kept.update(i, k), ..self }
        } else {
            PoolView { kept: self.kept.push(k), ..self }
        }
    }

    /// The charge of the arena behind an object.
    pub open spec fn charge_of(self, root: u32, handle: u32) -> u64 {
        let i = kept_at(self.kept, root, handle, 0);
        if i < self.kept.len() {
            self.kept[i].arena.charge
        } else {
            0
        }
    }

    /// The session after the object behind an arena went.
    pub open spec fn dropping(self, root: u32, handle: u32) -> PoolView {
        let i = kept_at(self.kept, root, handle, 0);
        if i < self.kept.len() {
            PoolView { kept: self.kept.remove(i), ..self }
        } else {
            self
        }
    }

    /// The host address of a guest word in the pools of an address space.
    pub open spec fn word_at(self, token: u64, va: u64, i: int) -> Option<u64>
        decreases self.pools.len() - i,
    {
        if i < 0 || i >= self.pools.len() {
            None
        } else {
            let p = self.pools[i];
            if p.active && p.token == token && p.addr.0 <= va && va + 4 <= p.addr.0 + p.len.0 {
                if (va - p.addr.0) % 4 == 0 {
                    Some((p.base + (va - p.addr.0)) as u64)
                } else {
                    None
                }
            } else {
                self.word_at(token, va, i + 1)
            }
        }
    }
}

proof fn lemma_kept_at(kept: Seq<Kept>, root: u32, handle: u32, i: int)
    requires
        0 <= i <= kept.len(),
    ensures
        ({
            let k = kept_at(kept, root, handle, i);
            &&& i <= k <= kept.len()
            &&& k < kept.len() ==> kept[k].root == root && kept[k].handle == handle
            &&& forall|j: int|
                i <= j < k ==> (#[trigger] kept[j]).root != root || kept[j].handle != handle
        }),
    decreases kept.len() - i,
{
    if i < kept.len() && !(kept[i].root == root && kept[i].handle == handle) {
        lemma_kept_at(kept, root, handle, i + 1);
    }
}

proof fn lemma_held_charge(kept: Seq<Kept>, i: int)
    requires
        0 <= i < kept.len(),
    ensures
        sum(kept_charges(kept.remove(i))) + kept[i].arena.charge == sum(kept_charges(kept)),
{
    lemma_sum_remove(kept_charges(kept), i);
    assert(kept_charges(kept.remove(i)) =~= kept_charges(kept).remove(i));
}

proof fn lemma_same_places(a: PoolView, b: PoolView)
    requires
        a.wf(),
        a.kept == b.kept,
        a.pools.len() == b.pools.len(),
        forall|i: int|
            0 <= i < a.pools.len() ==> {
                let (p, q) = (a.pools[i], #[trigger] b.pools[i]);
                p.token == q.token && p.addr == q.addr && p.len == q.len && p.base == q.base
                    && p.charge == q.charge
            },
    ensures
        b.wf(),
        a.held() == b.held(),
{
    assert(charges(a.pools) =~= charges(b.pools));
    assert forall|i: int, j: int|
        0 <= i < b.pools.len() && 0 <= j < b.pools.len() && i != j implies !clash(
        #[trigger] b.pools[i],
        #[trigger] b.pools[j],
    ) by {
        assert(!clash(a.pools[i], a.pools[j]));
    }
    assert forall|i: int| 0 <= i < b.pools.len() implies {
        let p = #[trigger] b.pools[i];
        p.addr.0 + p.len.0 <= u64::MAX && p.base + p.len.0 <= u64::MAX && p.len.0 > 0
    } by {
        assert(a.pools[i].len == b.pools[i].len);
    }
}

proof fn lemma_fewer_places(a: PoolView, b: PoolView, i: int)
    requires
        a.wf(),
        0 <= i < a.pools.len(),
        a.kept == b.kept,
        b.pools == a.pools.remove(i),
    ensures
        b.wf(),
{
    assert forall|j: int, k: int|
        0 <= j < b.pools.len() && 0 <= k < b.pools.len() && j != k implies !clash(
        #[trigger] b.pools[j],
        #[trigger] b.pools[k],
    ) by {
        let (jj, kk) = (
            if j < i {
                j
            } else {
                j + 1
            },
            if k < i {
                k
            } else {
                k + 1
            },
        );
        assert(!clash(a.pools[jj], a.pools[kk]));
    }
}

/// The registrations of one session.
pub struct PoolState {
    pools: Vec<Pool>,
    kept: Vec<Kept>,
    driver: Option<u32>,
}

impl View for PoolState {
    type V = PoolView;

    closed spec fn view(&self) -> PoolView {
        PoolView { pools: self.pools@, kept: self.kept@, driver: self.driver }
    }
}

impl Default for PoolState {
    fn default() -> (s: PoolState)
        ensures
            s@ == (PoolView { pools: Seq::empty(), kept: Seq::empty(), driver: None }),
            s@.wf(),
            s@.held() == 0,
    {
        PoolState::new()
    }
}

/// What a registration takes from the budget and where its pages are, or why it is refused.
pub open spec fn admission(
    b: PinView,
    regions: Seq<Region>,
    runs: Seq<GpaRun>,
    total: u64,
    page: u64,
    limit: u64,
) -> Result<(Seq<Piece>, u64), PoolError> {
    match registered(total, page) {
        Err(e) => Err(e),
        Ok(charge) => if !b.admits(charge) {
            Err(b.refusal(charge))
        } else {
            match arena_layout(regions, runs, total, page, limit) {
                Err(e) => Err(e),
                Ok(ps) => Ok((ps, charge)),
            }
        },
    }
}

/// How far the registration of a pool is.
#[derive(Clone, Copy, Debug, PartialEq, Eq, Structural)]
pub enum Stage {
    /// The pages get a descriptor.
    Allocate,
    /// UVM may duplicate it.
    Grant,
    /// UVM gets a range.
    CreateRange,
    /// UVM maps the pages there.
    MapPages,
    /// The pool is in use.
    Active,
    /// A step failed: what was taken is released.
    Failed,
}

/// The pool and the next stage after a step: the handle that came back, or nothing where the
/// step failed.
pub open spec fn advanced(p: Pool, stage: Stage, done: Option<u32>) -> (Pool, Stage) {
    match (stage, done) {
        (Stage::Allocate, Some(h)) => (Pool { osdesc: Some(h), ..p }, Stage::Grant),
        (Stage::Grant, Some(_)) => (p, Stage::CreateRange),
        (Stage::CreateRange, Some(_)) => (Pool { range_live: true, ..p }, Stage::MapPages),
        (Stage::MapPages, Some(_)) => (Pool { active: true, ..p }, Stage::Active),
        (Stage::Active, _) => (p, Stage::Active),
        _ => (p, Stage::Failed),
    }
}

/// Whether a pool may lie there: whole pages, and an end within 64 bits.
pub open spec fn pool_range(addr: u64, len: u64) -> Result<(), PoolError> {
    if addr + len > u64::MAX {
        Err(PoolError::PoolOverflows)
    } else if len == 0 || addr % POOL_PAGE != 0 || len % POOL_PAGE != 0 {
        Err(PoolError::PoolPages)
    } else {
        Ok(())
    }
}

/// Checks the range of a pool by itself.
pub fn check_pool_range(addr: GuestAddr, len: GuestLen) -> (r: Result<(), PoolError>)
    ensures
        r == pool_range(addr.0, len.0),
{
    if addr.end(len).is_none() {
        return Err(PoolError::PoolOverflows);
    }
    if len.is_zero() || addr.get() % POOL_PAGE != 0 || len.get() % POOL_PAGE != 0 {
        return Err(PoolError::PoolPages);
    }
    Ok(())
}

impl PoolState {
    /// A session that has registered nothing.
    pub fn new() -> (s: PoolState)
        ensures
            s@ == (PoolView { pools: Seq::empty(), kept: Seq::empty(), driver: None }),
            s@.wf(),
            s@.held() == 0,
    {
        PoolState { pools: Vec::new(), kept: Vec::new(), driver: None }
    }

    /// The private client of the session.
    pub fn driver(&self) -> (r: Option<u32>)
        ensures
            r == self@.driver,
    {
        self.driver
    }

    /// Takes up the private client that was made for the session.
    pub fn open(&mut self, budget: &mut PinBudget, root: u32)
        requires
            old(budget)@.wf(),
            old(self)@.driver is None,
        ensures
            final(budget)@.wf(),
            final(budget)@ == (PinView {
                open: old(budget)@.open.push(root),
                ..old(budget)@
            }),
            final(self)@ == (PoolView { driver: Some(root), ..old(self)@ }),
    {
        budget.private_client(root);
        self.driver = Some(root);
    }

    /// Whether a client belongs to the host, so that no guest may name it.
    pub fn is_private_client(&self, budget: &PinBudget, root: u32) -> (r: bool)
        ensures
            r == budget@.private(root),
    {
        budget.is_private(root)
    }

    /// Admits an arena and lays it out. Nothing is taken where it is refused.
    pub fn arena(
        &self,
        budget: &mut PinBudget,
        regions: &[Region],
        runs: &[GpaRun],
        total: GuestLen,
        page: u64,
        limit: u64,
    ) -> (r: Result<(Vec<Piece>, u64), PoolError>)
        requires
            page > 0,
            old(budget)@.wf(),
        ensures
            final(budget)@.wf(),
            match (r, admission(old(budget)@, regions@, runs@, total.0, page, limit)) {
                (Ok((v, c)), Ok((ps, charge))) => v@ == ps && c == charge && final(budget)@ == old(
                    budget)@.reserved(charge) && c <= final(budget)@.leased(),
                (Err(a), Err(b)) => a == b && final(budget)@ == old(budget)@,
                _ => false,
            },
    {
        let charge: u64 = match registration_bytes(total.get(), page) {
            Ok(c) => c,
            Err(e) => {
                return Err(e);
            },
        };
        let ghost given = budget@;
        match budget.reserve(charge) {
            Ok(_) => {},
            Err(e) => {
                return Err(e);
            },
        }
        match Arena::build(regions, runs, total, page, limit) {
            Ok(ps) => Ok((ps, charge)),
            Err(e) => {
                budget.refund(charge);
                assert(budget@ == given);
                Err(e)
            },
        }
    }

    /// Admits the arena of a described object. The request holds it until the driver answers.
    pub fn arena_for_osdesc(
        &self,
        budget: &mut PinBudget,
        regions: &[Region],
        runs: &[GpaRun],
        total: GuestLen,
        page: u64,
        limit: u64,
    ) -> (r: Result<(Vec<Piece>, u64), PoolError>)
        requires
            page > 0,
            old(budget)@.wf(),
        ensures
            final(budget)@.wf(),
            match (r, admission(old(budget)@, regions@, runs@, total.0, page, limit)) {
                (Ok((v, c)), Ok((ps, charge))) => v@ == ps && c == charge && final(budget)@ == old(
                    budget)@.reserved(charge) && c <= final(budget)@.leased(),
                (Err(a), Err(b)) => a == b && final(budget)@ == old(budget)@,
                _ => false,
            },
    {
        self.arena(budget, regions, runs, total, page, limit)
    }

    fn find_kept(&self, root: u32, handle: u32) -> (i: usize)
        ensures
            i == kept_at(self.kept@, root, handle, 0),
            i <= self.kept@.len(),
    {
        let mut i: usize = 0;
        while i < self.kept.len()
            invariant
                i <= self.kept@.len(),
                kept_at(self.kept@, root, handle, 0) == kept_at(
                    self.kept@,
                    root,
                    handle,
                    i as int,
                ),
            decreases self.kept@.len() - i,
        {
            if self.kept[i].root == root && self.kept[i].handle == handle {
                return i;
            }
            i += 1;
        }
        i
    }

    /// Keeps the arena of an object that the driver made. One that was there is retained. The
    /// answer says whether it is the first that is.
    pub fn keep_osdesc_arena(
        &mut self,
        budget: &mut PinBudget,
        root: u32,
        hmemory: u32,
        arena: Arena,
    ) -> (first: bool)
        requires
            old(self)@.wf(),
            old(budget)@.wf(),
            old(self)@.held() + arena.charge <= old(budget)@.leased(),
        ensures
            final(self)@ == old(self)@.keeping(root, hmemory, arena),
            final(budget)@ == old(budget)@.retaining(old(self)@.charge_of(root, hmemory)),
            final(self)@.wf(),
            final(self)@.covered(final(budget)@),
            final(self)@.held() + old(self)@.charge_of(root, hmemory) == old(self)@.held()
                + arena.charge,
            final(budget)@.retained >= old(budget)@.retained,
            first == (old(self)@.charge_of(root, hmemory) != 0 && old(budget)@.retained == 0),
    {
        proof {
            lemma_kept_at(self.kept@, root, hmemory, 0);
        }
        let i: usize = self.find_kept(root, hmemory);
        let k = Kept { root, handle: hmemory, arena };
        let ghost given = self.kept@;
        if i < self.kept.len() {
            let previous: u64 = self.kept[i].arena.charge;
            proof {
                lemma_held_charge(given, i as int);
                lemma_held_charge(given.update(i as int, k), i as int);
                assert(given.remove(i as int) =~= given.update(i as int, k).remove(i as int));
            }
            self.kept.set(i, k);
            budget.retain(previous)
        } else {
            proof {
                lemma_sum_push(kept_charges(given), arena.charge);
                assert(kept_charges(given.push(k)) =~= kept_charges(given).push(arena.charge));
            }
            self.kept.push(k);
            proof {
                assert(budget@.retaining(0) == budget@);
            }
            false
        }
    }

    /// The object went: its arena is retained, as duplicates of the object may be there.
    pub fn drop_osdesc_arena(&mut self, budget: &mut PinBudget, root: u32, hmemory: u32) -> (first:
        bool)
        requires
            old(self)@.wf(),
            old(self)@.covered(old(budget)@),
        ensures
            final(self)@ == old(self)@.dropping(root, hmemory),
            final(budget)@ == old(budget)@.retaining(old(self)@.charge_of(root, hmemory)),
            final(self)@.wf(),
            final(self)@.covered(final(budget)@),
            final(self)@.held() + old(self)@.charge_of(root, hmemory) == old(self)@.held(),
            final(budget)@.retained >= old(budget)@.retained,
            first == (old(self)@.charge_of(root, hmemory) != 0 && old(budget)@.retained == 0),
    {
        proof {
            lemma_kept_at(self.kept@, root, hmemory, 0);
        }
        let i: usize = self.find_kept(root, hmemory);
        if i < self.kept.len() {
            proof {
                lemma_held_charge(self.kept@, i as int);
            }
            let gone: Kept = self.kept.remove(i);
            budget.retain(gone.arena.charge)
        } else {
            proof {
                assert(budget@.retaining(0) == budget@);
            }
            false
        }
    }

    /// The client went: the arenas of its objects are retained.
    pub fn drop_osdesc_client(&mut self, budget: &mut PinBudget, root: u32) -> (first: bool)
        requires
            old(self)@.wf(),
            old(self)@.covered(old(budget)@),
        ensures
            final(self)@ == (PoolView { kept: kept_without(old(self)@.kept, root), ..old(self)@ }),
            final(budget)@ == old(budget)@.retaining(
                (old(self)@.held() - final(self)@.held()) as u64,
            ),
            final(self)@.held() <= old(self)@.held(),
            final(budget)@.retained >= old(budget)@.retained,
            final(self)@.wf(),
            final(self)@.covered(final(budget)@),
            first == (final(self)@.held() != old(self)@.held() && old(budget)@.retained == 0),
    {
        let mut rest: Vec<Kept> = Vec::new();
        let mut first: bool = false;
        let mut i: usize = 0;
        let ghost given = self.kept@;
        let ghost start = budget@;
        let ghost mut gone: nat = 0;
        let ghost other = |k: Kept| k.root != root;
        proof {
            assert(given.take(0).filter(other) =~= Seq::<Kept>::empty()) by {
                reveal(Seq::filter);
            }
            assert(kept_charges(given.take(0)) =~= Seq::<u64>::empty());
            assert(kept_charges(rest@) =~= Seq::<u64>::empty());
            assert(start.retaining(0) == start);
        }
        while i < self.kept.len()
            invariant
                i <= given.len(),
                self.kept@ == given,
                *self == *old(self),
                given == old(self)@.kept,
                start == old(budget)@,
                start.wf(),
                old(self)@.wf(),
                old(self)@.covered(start),
                other == (|k: Kept| k.root != root),
                rest@ == given.take(i as int).filter(other),
                sum(kept_charges(rest@)) + gone == sum(kept_charges(given.take(i as int))),
                budget@.wf(),
                gone <= sum(kept_charges(given)),
                start.retained + gone <= u64::MAX,
                budget@ == start.retaining(gone as u64),
                first == (gone != 0 && start.retained == 0),
                forall|a: int|
                    0 <= a < rest@.len() ==> exists|b: int|
                        0 <= b < i && given[b] == #[trigger] rest@[a],
                forall|a: int, b: int|
                    0 <= a < rest@.len() && 0 <= b < rest@.len() && a != b ==> ((
                    #[trigger] rest@[a]).root != (#[trigger] rest@[b]).root || rest@[a].handle
                        != rest@[b].handle),
            decreases given.len() - i,
        {
            let k: Kept = self.kept[i];
            proof {
                lemma_filter_step(given, i as int, other);
                let (a, b) = (given.take(i as int), given.take(i + 1));
                assert(kept_charges(b) =~= kept_charges(a).push(k.arena.charge));
                lemma_sum_push(kept_charges(a), k.arena.charge);
                assert(kept_charges(given) =~= kept_charges(b) + kept_charges(given.skip(i + 1)));
                lemma_sum_add(kept_charges(b), kept_charges(given.skip(i + 1)));
            }
            if k.root == root {
                let ghost before = budget@;
                if budget.retain(k.arena.charge) {
                    first = true;
                }
                proof {
                    gone = gone + k.arena.charge as nat;
                    assert(budget@ == start.retaining(gone as u64));
                }
            } else {
                proof {
                    lemma_sum_push(kept_charges(rest@), k.arena.charge);
                    assert(kept_charges(rest@.push(k)) =~= kept_charges(rest@).push(
                        k.arena.charge,
                    ));
                    assert forall|a: int| 0 <= a < rest@.len() implies ((
                    #[trigger] rest@[a]).root != k.root || rest@[a].handle != k.handle) by {
                        let b = choose|b: int| 0 <= b < i && given[b] == rest@[a];
                        assert(given[b].root != given[i as int].root || given[b].handle
                            != given[i as int].handle);
                    }
                }
                let ghost before = rest@;
                rest.push(k);
                proof {
                    assert forall|a: int| 0 <= a < rest@.len() implies exists|b: int|
                        0 <= b < i + 1 && given[b] == #[trigger] rest@[a] by {
                        if a < before.len() {
                            assert(rest@[a] == before[a]);
                            let b = choose|b: int| 0 <= b < i && given[b] == before[a];
                            assert(given[b] == rest@[a]);
                        } else {
                            assert(given[i as int] == rest@[a]);
                        }
                    }
                }
            }
            i += 1;
        }
        proof {
            assert(given.take(i as int) =~= given);
        }
        self.kept = rest;
        first
    }

    /// The host address of a guest word, where an active pool of the address space holds it
    /// and it is aligned there.
    pub fn write_guest_u32_for(&self, token: u64, va: GuestAddr) -> (r: Option<u64>)
        requires
            self@.wf(),
        ensures
            r == self@.word_at(token, va.0, 0),
    {
        let mut i: usize = 0;
        while i < self.pools.len()
            invariant
                self@.wf(),
                i <= self.pools@.len(),
                self@.word_at(token, va.0, 0) == self@.word_at(token, va.0, i as int),
            decreases self.pools@.len() - i,
        {
            let p: Pool = self.pools[i];
            assert(p == self@.pools[i as int]);
            if p.active && p.token == token && p.addr.get() <= va.get() {
                let off: u64 = va.get() - p.addr.get();
                if p.len.get() >= 4 && off <= p.len.get() - 4 {
                    if off % 4 != 0 {
                        return None;
                    }
                    return Some(p.base + off);
                }
            }
            i += 1;
        }
        None
    }

    fn overlapping(&self, token: u64, addr: GuestAddr, len: GuestLen) -> (r: bool)
        requires
            self@.wf(),
            addr.0 + len.0 <= u64::MAX,
        ensures
            r == self@.overlaps(token, addr.0, len.0),
    {
        let end: u64 = addr.get() + len.get();
        let mut i: usize = 0;
        while i < self.pools.len()
            invariant
                self@.wf(),
                i <= self.pools@.len(),
                end == addr.0 + len.0,
                forall|j: int|
                    0 <= j < i ==> !(#[trigger] self.pools@[j]).meets(token, addr.0, len.0),
            decreases self.pools@.len() - i,
        {
            let p: Pool = self.pools[i];
            assert(p == self@.pools[i as int]);
            if p.token == token && addr.get() < p.addr.get() + p.len.get() && p.addr.get() < end {
                return true;
            }
            i += 1;
        }
        false
    }

    /// Admits a pool: its range is sound, it lies on no other pool of its address space, and
    /// the budget has room. UVM would unmap an older mapping before it looks at the new one.
    pub fn back_pool_for(
        &self,
        budget: &mut PinBudget,
        token: u64,
        addr: GuestAddr,
        len: GuestLen,
        regions: &[Region],
        runs: &[GpaRun],
        page: u64,
        limit: u64,
    ) -> (r: Result<(Vec<Piece>, u64), PoolError>)
        requires
            page > 0,
            self@.wf(),
            old(budget)@.wf(),
        ensures
            final(budget)@.wf(),
            match r {
                Ok((v, c)) => {
                    &&& pool_range(addr.0, len.0) is Ok
                    &&& !self@.overlaps(token, addr.0, len.0)
                    &&& admission(old(budget)@, regions@, runs@, len.0, page, limit) == Ok::<
                        (Seq<Piece>, u64),
                        PoolError,
                    >((v@, c))
                    &&& final(budget)@ == old(budget)@.reserved(c)
                    &&& c <= final(budget)@.leased()
                },
                Err(e) => {
                    &&& final(budget)@ == old(budget)@
                    &&& if pool_range(addr.0, len.0) is Err {
                        e == pool_range(addr.0, len.0)->Err_0
                    } else if self@.overlaps(token, addr.0, len.0) {
                        e == PoolError::PoolOverlaps
                    } else {
                        admission(old(budget)@, regions@, runs@, len.0, page, limit) == Err::<
                            (Seq<Piece>, u64),
                            PoolError,
                        >(e)
                    }
                },
            },
    {
        match check_pool_range(addr, len) {
            Ok(_) => {},
            Err(e) => {
                return Err(e);
            },
        }
        if self.overlapping(token, addr, len) {
            return Err(PoolError::PoolOverlaps);
        }
        self.arena(budget, regions, runs, len, page, limit)
    }

    /// Takes up a pool that was admitted, once its arena is mapped at `base` and its address
    /// space is held open by `fd`. Nothing has been asked of the driver yet.
    pub fn adopt(
        &mut self,
        token: u64,
        addr: GuestAddr,
        len: GuestLen,
        base: u64,
        fd: i32,
        root: u32,
        charge: u64,
    )
        requires
            old(self)@.wf(),
            pool_range(addr.0, len.0) is Ok,
            !old(self)@.overlaps(token, addr.0, len.0),
            base + len.0 <= u64::MAX,
        ensures
            final(self)@.wf(),
            final(self)@ == (PoolView {
                pools: old(self)@.pools.push(
                    (Pool {
                        token,
                        addr,
                        len,
                        base,
                        fd,
                        root,
                        osdesc: None,
                        range_live: false,
                        active: false,
                        charge,
                    }),
                ),
                ..old(self)@
            }),
            final(self)@.held() == old(self)@.held() + charge,
    {
        let p = Pool {
            token,
            addr,
            len,
            base,
            fd,
            root,
            osdesc: None,
            range_live: false,
            active: false,
            charge,
        };
        proof {
            lemma_sum_push(charges(self.pools@), charge);
            assert(charges(self.pools@.push(p)) =~= charges(self.pools@).push(charge));
            assert forall|i: int| 0 <= i < self.pools@.len() implies !clash(
                #[trigger] self.pools@[i],
                p,
            ) && !clash(p, self.pools@[i]) by {
                assert(!self@.pools[i].meets(token, addr.0, len.0));
            }
        }
        self.pools.push(p);
    }

    /// Reports a step in the registration of the newest pool: the handle that came back, or
    /// any number for a step that gives none, or nothing where it failed.
    pub fn advance(&mut self, stage: Stage, done: Option<u32>) -> (next: Stage)
        requires
            old(self)@.wf(),
            old(self)@.pools.len() > 0,
        ensures
            final(self)@.wf(),
            ({
                let last = old(self)@.pools.len() - 1;
                let (p, n) = advanced(old(self)@.pools[last], stage, done);
                &&& final(self)@ == (PoolView { pools: old(self)@.pools.update(last, p), ..old(self)@ })
                &&& next == n
            }),
            final(self)@.held() == old(self)@.held(),
    {
        let last: usize = self.pools.len() - 1;
        let p: Pool = self.pools[last];
        let ghost given = self.pools@;
        assert(given.update(last as int, p) =~= given);
        let next = match (stage, done) {
            (Stage::Allocate, Some(h)) => {
                self.pools.set(last, Pool { osdesc: Some(h), ..p });
                Stage::Grant
            },
            (Stage::Grant, Some(_)) => Stage::CreateRange,
            (Stage::CreateRange, Some(_)) => {
                self.pools.set(last, Pool { range_live: true, ..p });
                Stage::MapPages
            },
            (Stage::MapPages, Some(_)) => {
                self.pools.set(last, Pool { active: true, ..p });
                Stage::Active
            },
            (Stage::Active, _) => Stage::Active,
            _ => Stage::Failed,
        };
        proof {
            lemma_same_places(old(self)@, self@);
        }
        next
    }

    /// The next step in releasing the pools that the sweep takes up.
    pub fn sweep(&mut self, budget: &mut PinBudget, w: &mut Sweep) -> (chore: Chore)
        requires
            old(self)@.wf(),
            old(self)@.covered(old(budget)@),
            old(w).at <= old(self)@.pools.len(),
        ensures
            final(self)@.wf(),
            final(self)@.covered(final(budget)@),
            ({
                let (ps, at, c, freed) = swept(old(self)@.pools, old(w).select, old(w).at as int);
                &&& final(self)@ == (PoolView { pools: ps, ..old(self)@ })
                &&& final(budget)@ == old(budget)@.refunded(freed)
                &&& *final(w) == (Sweep { at: at as usize, ..*old(w) })
                &&& chore == c
                &&& final(w).at == at <= ps.len()
                &&& final(self)@.held() + freed == old(self)@.held()
            }),
    {
        proof {
            lemma_swept_charges(self@.pools, w.select, w.at as int);
            lemma_next_selected(self@.pools, w.select, w.at as int);
        }
        let ghost i = next_selected(self@.pools, w.select, w.at as int);
        let (chore, freed) = sweep_step(&mut self.pools, w);
        proof {
            if i < old(self)@.pools.len() && old(self)@.pools[i].due() is Nothing {
                lemma_fewer_places(old(self)@, self@, i);
            } else {
                lemma_same_places(old(self)@, self@);
            }
        }
        budget.refund(freed);
        chore
    }

    /// Reports how the release went that the sweep asked for.
    pub fn swept(&mut self, w: &mut Sweep, ok: bool)
        requires
            old(self)@.wf(),
            old(w).at < old(self)@.pools.len(),
        ensures
            final(self)@.wf(),
            ({
                let (ps, v) = answered(old(self)@.pools, *old(w), ok);
                &&& final(self)@ == (PoolView { pools: ps, ..old(self)@ })
                &&& *final(w) == v
                &&& v.at <= ps.len()
            }),
            final(self)@.held() == old(self)@.held(),
    {
        sweep_answer(&mut self.pools, w, ok);
        proof {
            lemma_same_places(old(self)@, self@);
        }
    }

    /// The guest freed a range itself and the driver agreed: the pools there are out of use,
    /// and only their objects are left to release.
    pub fn release_uvm_range(&mut self, token: u64, addr: GuestAddr)
        requires
            old(self)@.wf(),
        ensures
            final(self)@.wf(),
            final(self)@ == (PoolView {
                pools: old(self)@.pools.map_values(
                    |p: Pool|
                        if p.token == token && p.addr == addr {
                            p.unmapped()
                        } else {
                            p
                        },
                ),
                ..old(self)@
            }),
            final(self)@.held() == old(self)@.held(),
    {
        let ghost given = self.pools@;
        let ghost f = |p: Pool|
            if p.token == token && p.addr == addr {
                p.unmapped()
            } else {
                p
            };
        let mut i: usize = 0;
        while i < self.pools.len()
            invariant
                i <= given.len(),
                self.pools@.len() == given.len(),
                given == old(self)@.pools,
                self.kept == old(self).kept,
                self.driver == old(self).driver,
                f == (|p: Pool|
                    if p.token == token && p.addr == addr {
                        p.unmapped()
                    } else {
                        p
                    }),
                forall|j: int| 0 <= j < i ==> #[trigger] self.pools@[j] == f(given[j]),
                forall|j: int| i <= j < given.len() ==> #[trigger] self.pools@[j] == given[j],
            decreases given.len() - i,
        {
            let p: Pool = self.pools[i];
            if p.token == token && p.addr.get() == addr.get() {
                self.pools.set(i, Pool { active: false, range_live: false, ..p });
            }
            i += 1;
        }
        proof {
            assert(self.pools@ =~= given.map_values(f));
            lemma_same_places(old(self)@, self@);
        }
    }

    /// The session ends. Pools that could not be released go to the quarantine, and the
    /// arenas behind forwarded objects stay registered; the answer says whether these are the
    /// first ones that do.
    pub fn close(self, budget: &mut PinBudget) -> (first: bool)
        requires
            self@.wf(),
            self@.covered(old(budget)@),
        ensures
            final(budget)@.wf(),
            final(budget)@.used == old(budget)@.used,
            final(budget)@.limit == old(budget)@.limit,
            final(budget)@.quarantine == old(budget)@.quarantine + self@.pools,
            final(budget)@.retained == old(budget)@.retained + sum(kept_charges(self@.kept)),
            final(budget)@.leased() == old(budget)@.leased() - self@.held(),
            final(budget)@.open == closed_client(old(budget)@.open, self@.driver),
            first <==> old(budget)@.retained == 0 && final(budget)@.retained != 0,
    {
        let ghost start = budget@;
        let mut i: usize = 0;
        proof {
            assert(start.quarantine + self@.pools.take(0) =~= start.quarantine);
            assert(charges(self@.pools.take(0)) =~= Seq::<u64>::empty());
            assert(kept_charges(self@.kept.take(0)) =~= Seq::<u64>::empty());
        }
        while i < self.pools.len()
            invariant
                i <= self.pools@.len(),
                start.wf(),
                self@.covered(start),
                budget@.wf(),
                budget@ == (PinView {
                    quarantine: start.quarantine + self@.pools.take(i as int),
                    ..start
                }),
                budget@.leased() == start.leased() - sum(charges(self@.pools.take(i as int))),
            decreases self.pools@.len() - i,
        {
            proof {
                let (a, b) = (self@.pools.take(i as int), self@.pools.take(i + 1));
                let c = self@.pools[i as int].charge;
                assert(charges(b) =~= charges(a).push(c));
                lemma_sum_push(charges(a), c);
                assert(charges(self@.pools) =~= charges(b) + charges(self@.pools.skip(i + 1)));
                lemma_sum_add(charges(b), charges(self@.pools.skip(i + 1)));
                assert(start.quarantine + b =~= (start.quarantine + a).push(self@.pools[i as int]));
            }
            budget.quarantine(self.pools[i]);
            i += 1;
        }
        proof {
            assert(self@.pools.take(i as int) =~= self@.pools);
        }
        let ghost middle = budget@;
        let mut first: bool = false;
        let mut k: usize = 0;
        while k < self.kept.len()
            invariant
                k <= self.kept@.len(),
                middle.wf(),
                first <==> middle.retained == 0 && budget@.retained != 0,
                sum(kept_charges(self@.kept)) <= middle.leased(),
                budget@.wf(),
                middle.retained + sum(kept_charges(self@.kept.take(k as int))) <= u64::MAX,
                budget@ == middle.retaining(sum(kept_charges(self@.kept.take(k as int))) as u64),
            decreases self.kept@.len() - k,
        {
            proof {
                let (a, b) = (self@.kept.take(k as int), self@.kept.take(k + 1));
                let c = self@.kept[k as int].arena.charge;
                assert(kept_charges(b) =~= kept_charges(a).push(c));
                lemma_sum_push(kept_charges(a), c);
                assert(kept_charges(self@.kept) =~= kept_charges(b) + kept_charges(
                    self@.kept.skip(k + 1),
                ));
                lemma_sum_add(kept_charges(b), kept_charges(self@.kept.skip(k + 1)));
            }
            if budget.retain(self.kept[k].arena.charge) {
                first = true;
            }
            k += 1;
        }
        proof {
            assert(self@.kept.take(k as int) =~= self@.kept);
        }
        match self.driver {
            Some(root) => budget.close_client(root),
            None => {},
        }
        first
    }
}

/// A registration that fails at some step leaves to release exactly what the steps before it
/// took: the object from the first one on, and the range from the third one on.
pub proof fn law_a_failed_registration_releases_what_it_took(p: Pool, handle: u32)
    requires
        p.osdesc is None,
        !p.range_live,
        !p.active,
    ensures
        ({
            let (a, s1) = advanced(p, Stage::Allocate, Some(handle));
            let (b, s2) = advanced(a, s1, Some(0u32));
            let (c, s3) = advanced(b, s2, Some(0u32));
            let (d, s4) = advanced(c, s3, Some(0u32));
            &&& advanced(p, Stage::Allocate, None).0.due() is Nothing
            &&& advanced(a, s1, None).0.due() == Release::Object(handle)
            &&& advanced(b, s2, None).0.due() == Release::Object(handle)
            &&& advanced(c, s3, None).0.due() is Range
            &&& advanced(c, s3, None).0.released().due() == Release::Object(handle)
            &&& s4 is Active && d.active
            &&& !c.active
        }),
{
}

/// A pool that is out of use takes no word, and neither does one of another address space.
pub proof fn law_only_active_pools_of_the_address_space_are_written(
    v: PoolView,
    token: u64,
    va: u64,
    i: int,
)
    requires
        v.wf(),
        0 <= i <= v.pools.len(),
        v.word_at(token, va, i) is Some,
    ensures
        exists|j: int|
            i <= j < v.pools.len() && (#[trigger] v.pools[j]).active && v.pools[j].token == token
                && v.pools[j].base <= v.word_at(token, va, i)->0 && v.word_at(token, va, i)->0 + 4
                <= v.pools[j].base + v.pools[j].len.0,
    decreases v.pools.len() - i,
{
    if i < v.pools.len() {
        let p = v.pools[i];
        if !(p.active && p.token == token && p.addr.0 <= va && va + 4 <= p.addr.0 + p.len.0) {
            law_only_active_pools_of_the_address_space_are_written(v, token, va, i + 1);
        } else {
            assert(v.pools[i].active);
        }
    }
}

/// An arena is kept under its client and object: keeping one puts it there, in place of one
/// that was there before, dropping takes it away, and the arenas of other objects stay.
pub proof fn law_an_arena_is_kept_under_its_object(
    v: PoolView,
    root: u32,
    handle: u32,
    arena: Arena,
    k: Kept,
)
    requires
        v.wf(),
    ensures
        ({
            let own = k.root == root && k.handle == handle;
            let w = v.keeping(root, handle, arena);
            let d = v.dropping(root, handle);
            &&& w.kept.contains(Kept { root, handle, arena })
            &&& own && w.kept.contains(k) ==> k.arena == arena
            &&& !own ==> (w.kept.contains(k) <==> v.kept.contains(k))
            &&& own ==> !d.kept.contains(k)
            &&& !own ==> (d.kept.contains(k) <==> v.kept.contains(k))
            &&& own && v.kept.contains(k) ==> v.charge_of(root, handle) == k.arena.charge
            &&& w.pools == v.pools && d.pools == v.pools && w.driver == v.driver && d.driver
                == v.driver
        }),
{
    let i = kept_at(v.kept, root, handle, 0);
    lemma_kept_at(v.kept, root, handle, 0);
    let own = k.root == root && k.handle == handle;
    let new = Kept { root, handle, arena };
    let w = v.keeping(root, handle, arena).kept;
    let d = v.dropping(root, handle).kept;
    if i < v.kept.len() {
        assert(w[i] == new);
    } else {
        assert(w[v.kept.len() as int] == new);
    }
    if w.contains(k) {
        let j = w.index_of(k);
        assert(w[j] == k);
        if j < v.kept.len() && j != i {
            assert(v.kept[j] == k);
        }
    }
    if v.kept.contains(k) {
        let j = v.kept.index_of(k);
        assert(v.kept[j] == k);
        if j != i {
            assert(w[j] == k);
            if i < v.kept.len() {
                if j < i {
                    assert(d[j] == k);
                } else {
                    assert(d[j - 1] == k);
                }
            }
        }
    }
    if d.contains(k) {
        let j = d.index_of(k);
        assert(d[j] == k);
        if i < v.kept.len() {
            if j < i {
                assert(v.kept[j] == k);
            } else {
                assert(v.kept[j + 1] == k);
            }
        } else {
            assert(v.kept[j] == k);
        }
    }
}

/// A word of the guest lies in the host as far behind the base of its pool as its address lies
/// behind the address of the pool: in an active pool of the address space that holds all of
/// it, and only where it is aligned there.
pub proof fn law_a_word_lies_in_its_pool(v: PoolView, token: u64, va: u64, i: int)
    requires
        v.wf(),
        0 <= i < v.pools.len(),
        v.pools[i].active,
        v.pools[i].token == token,
        v.pools[i].addr.0 <= va,
        va + 4 <= v.pools[i].addr.0 + v.pools[i].len.0,
    ensures
        (va - v.pools[i].addr.0) % 4 == 0 ==> (v.word_at(token, va, 0) matches Some(h) && h
            - v.pools[i].base == va - v.pools[i].addr.0),
        (va - v.pools[i].addr.0) % 4 != 0 ==> v.word_at(token, va, 0) is None,
{
    lemma_word_found(v, token, va, 0, i);
}

proof fn lemma_word_found(v: PoolView, token: u64, va: u64, from: int, i: int)
    requires
        v.wf(),
        0 <= from <= i < v.pools.len(),
        v.pools[i].active,
        v.pools[i].token == token,
        v.pools[i].addr.0 <= va,
        va + 4 <= v.pools[i].addr.0 + v.pools[i].len.0,
    ensures
        (va - v.pools[i].addr.0) % 4 == 0 ==> (v.word_at(token, va, from) matches Some(h) && h
            - v.pools[i].base == va - v.pools[i].addr.0),
        (va - v.pools[i].addr.0) % 4 != 0 ==> v.word_at(token, va, from) is None,
    decreases i - from,
{
    if from < i {
        assert(!clash(v.pools[from], v.pools[i]));
        lemma_word_found(v, token, va, from + 1, i);
    }
}

/// Where no active pool of the address space holds a word, it has no place in the host.
pub proof fn law_a_word_of_no_pool_has_no_place(v: PoolView, token: u64, va: u64, from: int)
    requires
        0 <= from <= v.pools.len(),
        forall|i: int|
            from <= i < v.pools.len() ==> !((#[trigger] v.pools[i]).active && v.pools[i].token
                == token && v.pools[i].addr.0 <= va && va + 4 <= v.pools[i].addr.0
                + v.pools[i].len.0),
    ensures
        v.word_at(token, va, from) is None,
    decreases v.pools.len() - from,
{
    if from < v.pools.len() {
        law_a_word_of_no_pool_has_no_place(v, token, va, from + 1);
    }
}

/// Pages are admitted exactly where their whole pages fit the budget and their arena can be laid
/// out; then the charge is the whole pages.
pub proof fn law_pages_are_admitted_where_they_fit(
    b: PinView,
    regions: Seq<Region>,
    runs: Seq<GpaRun>,
    total: u64,
    page: u64,
    limit: u64,
)
    requires
        page > 0,
    ensures
        match admission(b, regions, runs, total, page, limit) {
            Ok((ps, charge)) => {
                &&& arena_layout(regions, runs, total, page, limit) == Ok::<Seq<Piece>, PoolError>(
                    ps,
                )
                &&& charge % page == 0 && total <= charge < total + page
                &&& total > 0 && b.used + charge <= b.limit
            },
            Err(e) => {
                ||| total == 0 && e == PoolError::Empty
                ||| total + page > u64::MAX + 1 && e == PoolError::Rounding
                ||| registered(total, page) matches Ok(charge) && b.used + charge > b.limit
                    && e == (PoolError::Exceeded {
                    used: b.used,
                    limit: b.limit,
                    retained: b.retained,
                    requested: charge,
                })
                ||| arena_layout(regions, runs, total, page, limit) == Err::<Seq<Piece>, PoolError>(
                    e,
                )
            },
        },
{
    if registered(total, page) is Ok {
        crate::host_pool::law_a_charge_covers_whole_pages(total, page);
    }
}

/// A registration goes step by step; each step that went well leaves its mark on the pool, and
/// one that failed leaves none and ends it.
pub proof fn law_a_registration_goes_step_by_step(p: Pool, h: u32, stage: Stage)
    ensures
        !(stage is Active) ==> advanced(p, stage, None) == (p, Stage::Failed),
        advanced(p, Stage::Allocate, Some(h)).1 == Stage::Grant,
        advanced(p, Stage::Allocate, Some(h)).0.osdesc == Some(h),
        advanced(p, Stage::Allocate, Some(h)).0.range_live == p.range_live,
        advanced(p, Stage::Allocate, Some(h)).0.active == p.active,
        advanced(p, Stage::Grant, Some(h)) == (p, Stage::CreateRange),
        advanced(p, Stage::CreateRange, Some(h)).1 == Stage::MapPages,
        advanced(p, Stage::CreateRange, Some(h)).0.range_live,
        advanced(p, Stage::CreateRange, Some(h)).0.osdesc == p.osdesc,
        advanced(p, Stage::CreateRange, Some(h)).0.active == p.active,
        advanced(p, Stage::MapPages, Some(h)).1 == Stage::Active,
        advanced(p, Stage::MapPages, Some(h)).0.active,
        advanced(p, Stage::MapPages, Some(h)).0.osdesc == p.osdesc,
        ({
            let q = advanced(p, stage, Some(h)).0;
            q.token == p.token && q.addr == p.addr && q.len == p.len && q.base == p.base && q.fd
                == p.fd && q.root == p.root && q.charge == p.charge
        }),
{
}

/// A pool is some whole pages of four KiB whose end can be named.
pub proof fn law_a_pool_is_made_of_pages(addr: u64, len: u64)
    ensures
        pool_range(addr, len) is Ok <==> addr + len <= u64::MAX && len > 0 && addr % 4096 == 0 && len
            % 4096 == 0,
        addr + len > u64::MAX ==> pool_range(addr, len) == Err::<(), PoolError>(
            PoolError::PoolOverflows,
        ),
        addr + len <= u64::MAX && pool_range(addr, len) is Err ==> pool_range(addr, len) == Err::<
            (),
            PoolError,
        >(PoolError::PoolPages),
{
}

/// The arenas of a client go with it, and no other does.
pub proof fn law_the_arenas_of_a_client_go(kept: Seq<Kept>, root: u32, k: Kept)
    ensures
        kept_without(kept, root).contains(k) <==> kept.contains(k) && k.root != root,
    decreases kept.len(),
{
    let keep = |x: Kept| x.root != root;
    reveal(Seq::filter);
    if kept.len() > 0 {
        let (rest, last) = (kept.drop_last(), kept.last());
        law_the_arenas_of_a_client_go(rest, root, k);
        assert(kept =~= rest.push(last));
        lemma_kept_pushed(rest, last, k);
        lemma_kept_pushed(kept_without(rest, root), last, k);
        assert(kept_without(kept, root) == (if keep(last) {
            kept_without(rest, root).push(last)
        } else {
            kept_without(rest, root)
        }));
    }
}

proof fn lemma_kept_pushed(s: Seq<Kept>, last: Kept, k: Kept)
    ensures
        s.push(last).contains(k) <==> s.contains(k) || k == last,
{
    if s.contains(k) {
        assert(s.push(last)[s.index_of(k)] == k);
    }
    assert(s.push(last)[s.len() as int] == last);
    if s.push(last).contains(k) {
        let i = s.push(last).index_of(k);
        if i < s.len() {
            assert(s[i] == k);
        }
    }
}

} // verus!
