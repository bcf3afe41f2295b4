//! The window of host memory that the guest sees, and what lies in it.
//!
//! The guest picks where a mapping goes. The host keeps the mappings apart and inside.

use crate::abi::Dev;
use crate::errno::{EBUSY, EINVAL};
use crate::seqs::lemma_take_contains;
use crate::table::{lemma_rising_lists_agree, rising, Table};
use vstd::prelude::*;

verus! {

/// The size of the window: 8 GiB of addresses.
pub const HOST_VISIBLE_SIZE: u64 = 0x2_0000_0000;

/// The page that mappings are made of.
pub const WINDOW_PAGE: u64 = 4096;

/// The guest maps this memory cached.
pub const MAP_CACHE_CACHED: u32 = 1;

/// The guest maps this memory uncached.
pub const MAP_CACHE_UNCACHED: u32 = 2;

/// How the guest maps memory of a node. That of a card may be registers.
pub fn cache_for(dev: Dev) -> (r: u32)
    ensures
        r == (if dev == Dev::Gpu {
            MAP_CACHE_UNCACHED
        } else {
            MAP_CACHE_CACHED
        }),
{
    match dev {
        Dev::Gpu => MAP_CACHE_UNCACHED,
        _ => MAP_CACHE_CACHED,
    }
}

/// A mapping in the window: its length, the process it belongs to, and the descriptor that
/// keeps it.
#[derive(Clone, Copy, Debug, PartialEq, Eq, Structural)]
pub struct WindowMap {
    pub len: u64,
    pub guest_proc: u32,
    pub fd: i32,
}

/// Whether a range shares an address with any mapping.
pub open spec fn taken(m: Map<u64, WindowMap>, off: u64, len: u64) -> bool {
    exists|k: u64| #[trigger] m.contains_key(k) && k < off + len && off < k + m[k].len
}

/// Mappings lie inside the window, and no two share an address.
pub open spec fn apart(m: Map<u64, WindowMap>) -> bool {
    &&& forall|k: u64| #[trigger]
        m.contains_key(k) ==> m[k].len > 0 && k + m[k].len <= HOST_VISIBLE_SIZE
    &&& forall|j: u64, k: u64| #[trigger]
        m.contains_key(j) && #[trigger] m.contains_key(k) && j < k ==> j + m[j].len <= k
}

/// The mappings of a process, in the order of their places.
pub open spec fn is_list_of(m: Map<u64, WindowMap>, guest_proc: u32, offs: Seq<u64>) -> bool {
    &&& rising(offs)
    &&& forall|k: u64| #[trigger]
        offs.contains(k) <==> m.contains_key(k) && m[k].guest_proc == guest_proc
}

/// What is wrong with the place of a mapping, if anything is.
pub open spec fn slot_error(m: Map<u64, WindowMap>, off: u64, len: u64) -> Option<i32> {
    if off % WINDOW_PAGE != 0 || len % WINDOW_PAGE != 0 || off + len > HOST_VISIBLE_SIZE {
        Some(EINVAL)
    } else if taken(m, off, len) {
        Some(EBUSY)
    } else {
        None
    }
}

/// What the VMM is asked for when a mapping is released.
#[derive(Clone, Copy, Debug, PartialEq, Eq, Structural)]
pub enum Unmap {
    /// There is no way to ask it.
    NoChannel,
    /// Nothing lies there.
    Nothing,
    /// To take so many bytes out.
    Bytes(u64),
}

/// The mappings in the window.
pub struct Window {
    maps: Table<WindowMap>,
}

impl View for Window {
    type V = Map<u64, WindowMap>;

    closed spec fn view(&self) -> Map<u64, WindowMap> {
        self.maps@
    }
}

impl Window {
    pub fn new() -> (w: Window)
        ensures
            w@ == Map::<u64, WindowMap>::empty(),
            apart(w@),
    {
        Window { maps: Table::new() }
    }

    pub fn len(&self) -> (n: usize)
        ensures
            n == self@.len(),
    {
        self.maps.len()
    }

    pub fn is_empty(&self) -> (r: bool)
        ensures
            r == (self@ == Map::<u64, WindowMap>::empty()),
    {
        self.maps.is_empty()
    }

    pub fn contains(&self, off: u64) -> (r: bool)
        ensures
            r == self@.contains_key(off),
    {
        self.maps.contains_key(off)
    }

    /// Whether a range shares an address with a mapping. Only the last one that starts below
    /// its end can, as mappings are apart.
    pub fn window_overlaps(&self, off: u64, len: u64) -> (r: bool)
        requires
            apart(self@),
            off + len <= u64::MAX,
        ensures
            r == taken(self@, off, len),
    {
        match self.maps.last_below(off + len) {
            Some(k) => match self.maps.get(k) {
                Some(m) => {
                    let hit: bool = k + m.len > off;
                    proof {
                        if !hit {
                            assert forall|x: u64| #[trigger] self@.contains_key(x) && x < off
                                + len implies x + self@[x].len <= off by {
                                if x < k {
                                    assert(x + self@[x].len <= k);
                                }
                            }
                        }
                    }
                    hit
                },
                None => false,
            },
            None => false,
        }
    }

    /// Whether a mapping may go there, or the error.
    pub fn check_slot(&self, off: u64, len: u64) -> (r: Option<i32>)
        requires
            apart(self@),
        ensures
            r == slot_error(self@, off, len),
            r matches Some(e) ==> e > 0,
    {
        if off % WINDOW_PAGE != 0 || len % WINDOW_PAGE != 0 {
            return Some(EINVAL);
        }
        let fits: bool = match off.checked_add(len) {
            Some(end) => end <= HOST_VISIBLE_SIZE,
            None => false,
        };
        if !fits {
            return Some(EINVAL);
        }
        if self.window_overlaps(off, len) {
            return Some(EBUSY);
        }
        None
    }

    /// Takes up a mapping that the VMM has put there.
    pub fn insert(&mut self, off: u64, m: WindowMap)
        requires
            apart(old(self)@),
            slot_error(old(self)@, off, m.len) is None,
            m.len > 0,
        ensures
            final(self)@ == old(self)@.insert(off, m),
            apart(final(self)@),
    {
        proof {
            let before = self@;
            let after = before.insert(off, m);
            assert forall|j: u64, k: u64| #[trigger]
                after.contains_key(j) && #[trigger] after.contains_key(k) && j < k implies j
                + after[j].len <= k by {
                if j == off {
                    assert(before.contains_key(k));
                } else if k == off {
                    assert(before.contains_key(j));
                }
            }
        }
        self.maps.insert(off, m);
    }

    /// What releasing a place takes.
    pub fn begin_release(&self, connected: bool, off: u64) -> (r: Unmap)
        ensures
            r == (if !connected {
                Unmap::NoChannel
            } else if self@.contains_key(off) {
                Unmap::Bytes(self@[off].len)
            } else {
                Unmap::Nothing
            }),
    {
        if !connected {
            return Unmap::NoChannel;
        }
        match self.maps.get(off) {
            Some(m) => Unmap::Bytes(m.len),
            None => Unmap::Nothing,
        }
    }

    /// The VMM took the mapping out: its place is free, and its descriptor may be closed.
    pub fn finish_release(&mut self, off: u64) -> (fd: Option<i32>)
        requires
            apart(old(self)@),
        ensures
            final(self)@ == old(self)@.remove(off),
            apart(final(self)@),
            fd == (if old(self)@.contains_key(off) {
                Some(old(self)@[off].fd)
            } else {
                None
            }),
    {
        match self.maps.remove(off) {
            Some(m) => Some(m.fd),
            None => None,
        }
    }

    /// The places of a process's mappings, in order.
    pub fn window_of_proc(&self, guest_proc: u32) -> (offs: Vec<u64>)
        ensures
            is_list_of(self@, guest_proc, offs@),
    {
        let keys: Vec<u64> = self.maps.keys();
        let mut offs: Vec<u64> = Vec::new();
        let mut i: usize = 0;
        while i < keys.len()
            invariant
                i <= keys@.len(),
                rising(keys@),
                rising(offs@),
                forall|k: u64| self@.contains_key(k) <==> #[trigger] keys@.contains(k),
                forall|k: u64| #[trigger]
                    offs@.contains(k) <==> keys@.take(i as int).contains(k) && self@[k].guest_proc
                        == guest_proc,
                forall|j: int|
                    0 <= j < offs@.len() && i < keys@.len() ==> #[trigger] offs@[j]
                        < keys@[i as int],
            decreases keys@.len() - i,
        {
            let k: u64 = keys[i];
            proof {
                assert(keys@.contains(k));
                lemma_take_contains(keys@, i as int);
            }
            let ghost before = offs@;
            if let Some(m) = self.maps.get(k) {
                if m.guest_proc == guest_proc {
                    offs.push(k);
                }
            }
            i += 1;
            proof {
                assert forall|x: u64| #[trigger] offs@.contains(x) <==> keys@.take(
                    i as int,
                ).contains(x) && self@[x].guest_proc == guest_proc by {
                    if before.contains(x) {
                        let j = choose|j: int| 0 <= j < before.len() && before[j] == x;
                        assert(offs@[j] == x);
                    }
                    if offs@.contains(x) {
                        let j = choose|j: int| 0 <= j < offs@.len() && offs@[j] == x;
                        if j < before.len() {
                            assert(before[j] == x);
                            assert(before.contains(x));
                        }
                    }
                    if x == k && self@[k].guest_proc == guest_proc {
                        assert(offs@[offs@.len() - 1] == k);
                    }
                }
                assert forall|j: int|
                    0 <= j < offs@.len() && i < keys@.len() implies #[trigger] offs@[j]
                    < keys@[i as int] by {
                    assert(keys@[i - 1] < keys@[i as int]);
                    if j < before.len() {
                        assert(before[j] < keys@[i - 1]);
                    }
                }
            }
        }
        proof {
            assert(keys@.take(i as int) =~= keys@);
        }
        offs
    }
}

/// A process that ends takes its own mappings and no others, and there is only one such list.
pub proof fn law_a_process_takes_only_its_mappings(
    m: Map<u64, WindowMap>,
    guest_proc: u32,
    a: Seq<u64>,
    b: Seq<u64>,
    k: u64,
)
    requires
        is_list_of(m, guest_proc, a),
        is_list_of(m, guest_proc, b),
    ensures
        a == b,
        a.contains(k) ==> m[k].guest_proc == guest_proc,
        m.contains_key(k) && m[k].guest_proc != guest_proc ==> !a.contains(k),
{
    lemma_rising_lists_agree(a, b);
}

/// Two mappings in the window never share an address, and all of them lie inside it.
pub proof fn law_mappings_stay_apart(m: Map<u64, WindowMap>, off: u64, w: WindowMap, k: u64)
    requires
        apart(m),
        slot_error(m, off, w.len) is None,
        w.len > 0,
        m.contains_key(k),
    ensures
        off + w.len <= k || k + m[k].len <= off,
        off + w.len <= HOST_VISIBLE_SIZE,
        !m.contains_key(off),
{
    if m.contains_key(off) {
        assert(off < off + w.len && off < off + m[off].len);
    }
}

/// A place in the window is refused for one that is not made of whole pages or leaves the window
/// of eight GiB, and as busy exactly where a byte of it is mapped already.
pub proof fn law_a_place_is_free_where_nothing_lies(
    m: Map<u64, WindowMap>,
    off: u64,
    len: u64,
    k: u64,
)
    requires
        len > 0,
    ensures
        ({
            let fits = off % 4096 == 0 && len % 4096 == 0 && off + len <= 8 * 0x4000_0000;
            &&& slot_error(m, off, len) == Some(22i32) <==> !fits
            &&& fits && m.contains_key(k) && k < off + len && off < k + m[k].len ==> slot_error(
                m,
                off,
                len,
            ) == Some(16i32)
            &&& slot_error(m, off, len) is None && m.contains_key(k) ==> off + len <= k || k
                + m[k].len <= off
            &&& slot_error(m, off, len) == Some(16i32) ==> exists|q: u64| #[trigger]
                m.contains_key(q) && q < off + len && off < q + m[q].len
            &&& slot_error(m, off, len) is None || slot_error(m, off, len) == Some(22i32)
                || slot_error(m, off, len) == Some(16i32)
        }),
{
}

} // verus!
