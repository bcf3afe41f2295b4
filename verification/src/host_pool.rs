//! Guest pages behind contiguous host addresses: admission, placement and release.
//!
//! An arena is one host range that aliases the guest pages of a list of runs. The pages stay
//! registered while the driver may reach them, so every arena is charged to a budget that
//! the whole machine shares, and a charge is given back only when the pages are free again.

use crate::abi::{UvmNumbers, NV_OK};
use crate::bytes::{bytes64, get32, get64, le32, le64, overlay, put64};
use crate::guest_words::{GuestAddr, GuestLen};
use crate::text::{parse_u64, parsed, trim, trimmed};
use vstd::prelude::*;

verus! {

/// What a machine may register in all, unless a setting says otherwise: 1 GiB.
pub const DEFAULT_PIN_TOTAL: u64 = 0x4000_0000;

/// What one arena may hold, unless a setting says otherwise: 256 MiB.
pub const DEFAULT_PIN_BYTES: u64 = 0x1000_0000;

/// The flags of a descriptor of system pages: not contiguous (bits 7:4), in system memory
/// (11:8), cached (15:12), and not mapped (31:30).
pub const OSDESC_FLAGS: u32 = 0x4000_1010;

/// `UVM_MAP_EXTERNAL_ALLOCATION`.
pub const UVM_MAP_EXTERNAL_ALLOCATION: u64 = 33;

/// `UVM_CREATE_EXTERNAL_RANGE`.
pub const UVM_CREATE_EXTERNAL_RANGE: u64 = 73;

/// The page of the pools that UVM maps.
pub const POOL_PAGE: u64 = 4096;

/// A number of mebibytes in bytes; nothing for zero, for other text, or past 64 bits.
pub open spec fn pin_bytes(raw: Seq<char>) -> Option<u64> {
    match parsed(trimmed(raw)) {
        Some(n) => if n != 0 && n * 0x10_0000 <= u64::MAX {
            Some((n * 0x10_0000) as u64)
        } else {
            None
        },
        None => None,
    }
}

/// Reads a number of mebibytes as bytes.
pub fn parse_pin_bytes(raw: &str) -> (r: Option<u64>)
    ensures
        r == pin_bytes(raw@),
{
    match parse_u64(trim(raw)) {
        Some(n) => match n.checked_mul(0x10_0000) {
            Some(b) => if b != 0 {
                Some(b)
            } else {
                None
            },
            None => None,
        },
        None => None,
    }
}

/// The limit of one arena, and whether a setting was there that cannot be used.
pub fn max_pin_bytes(setting: Option<&str>) -> (r: (u64, bool))
    ensures
        r == (match setting {
            Some(raw) => match pin_bytes(raw@) {
                Some(b) => (b, false),
                None => (DEFAULT_PIN_BYTES, true),
            },
            None => (DEFAULT_PIN_BYTES, false),
        }),
{
    match setting {
        Some(raw) => match parse_pin_bytes(raw) {
            Some(b) => (b, false),
            None => (DEFAULT_PIN_BYTES, true),
        },
        None => (DEFAULT_PIN_BYTES, false),
    }
}

/// Why guest pages are not registered.
#[derive(Clone, Copy, Debug, PartialEq, Eq, Structural)]
pub enum PoolError {
    /// A budget of nothing.
    NoBudget,
    /// A setting that is no positive number of mebibytes.
    BadSetting,
    /// The system does not tell its page size.
    PageSize,
    /// An arena of nothing.
    Empty,
    /// The length rounded up to pages leaves 64 bits.
    Rounding,
    /// The budget is spent.
    Exceeded { used: u64, limit: u64, retained: u64, requested: u64 },
    /// A run that is empty or not made of whole pages.
    Unaligned,
    /// The lengths of the runs leave 64 bits.
    SumOverflows,
    /// The runs hold more or less than announced.
    SumDiffers { sum: u64, total: u64 },
    /// The arena is empty or over its limit.
    OverLimit { total: u64, limit: u64 },
    /// The arena exceeds the address space.
    TooLong,
    /// A run in no region of guest memory.
    NoRegion { gpa: u64 },
    /// A region that no file backs.
    NoFile,
    /// A run whose end leaves 64 bits.
    RunOverflows { gpa: u64, len: u64 },
    /// A region whose end leaves 64 bits.
    RegionOverflows,
    /// A run that leaves its region.
    PastRegion { gpa: u64, len: u64 },
    /// A place in the file that cannot be mapped.
    FileOffset,
    /// A pool whose end leaves 64 bits.
    PoolOverflows,
    /// A pool that is not made of whole pages.
    PoolPages,
    /// A pool over another one.
    PoolOverlaps,
}

/// The page size as the system reports it; negative or zero where it does not know.
pub fn page_size(reported: i64) -> (r: Result<u64, PoolError>)
    ensures
        r == (if reported > 0 {
            Ok(reported as u64)
        } else {
            Err::<u64, PoolError>(PoolError::PageSize)
        }),
{
    if reported <= 0 {
        return Err(PoolError::PageSize);
    }
    Ok(reported as u64)
}

/// What a registration of `bytes` is charged.
pub open spec fn registered(bytes: u64, page: u64) -> Result<u64, PoolError> {
    if bytes == 0 {
        Err(PoolError::Empty)
    } else if bytes + page - 1 > u64::MAX {
        Err(PoolError::Rounding)
    } else {
        Ok(((bytes + page - 1) / page as int * page) as u64)
    }
}

/// A whole number of pages covers the bytes, and one page less would not.
pub proof fn law_a_charge_covers_whole_pages(bytes: u64, page: u64)
    requires
        page > 0,
        registered(bytes, page) is Ok,
    ensures
        registered(bytes, page)->Ok_0 % page == 0,
        bytes <= registered(bytes, page)->Ok_0 < bytes + page,
{
    let s = bytes + page - 1;
    let p = page as int;
    assert(0 <= s / p * p <= s && s - s / p * p < p && (s / p * p) % p == 0) by (nonlinear_arith)
        requires
            p > 0,
            s >= 0,
    ;
}

/// The bytes a registration is charged: the length rounded up to pages.
pub fn registration_bytes(bytes: u64, page: u64) -> (r: Result<u64, PoolError>)
    requires
        page > 0,
    ensures
        r == registered(bytes, page),
{
    if bytes == 0 {
        return Err(PoolError::Empty);
    }
    match bytes.checked_add(page - 1) {
        Some(rounded) => {
            proof {
                let s = rounded as int;
                let p = page as int;
                assert(0 <= s / p * p <= s) by (nonlinear_arith)
                    requires
                        p > 0,
                        s >= 0,
                ;
            }
            Ok(rounded / page * page)
        },
        None => Err(PoolError::Rounding),
    }
}

/// One range of guest pages.
#[derive(Clone, Copy, Debug, PartialEq, Eq, Structural)]
pub struct GpaRun {
    pub gpa: GuestAddr,
    pub len: GuestLen,
}

/// The run at `i` of a list of address and length pairs.
pub open spec fn run_at(aux: Seq<u8>, i: int) -> GpaRun {
    GpaRun { gpa: GuestAddr(le64(aux, 16 * i)), len: GuestLen(le64(aux, 16 * i + 8)) }
}

impl GpaRun {
    /// The bytes of one run in a message.
    pub const WIRE: usize = 16;

    /// The runs at the front of a buffer; nothing where it is too short for them.
    pub fn decode(aux: &[u8], count: usize) -> (r: Option<Vec<GpaRun>>)
        ensures
            match r {
                Some(runs) => 16 * count <= aux@.len() && runs@ == Seq::new(
                    count as nat,
                    |i: int| run_at(aux@, i),
                ),
                None => 16 * count > aux@.len(),
            },
    {
        // What is there fits a usize, and so does every place in it.
        let _len: usize = aux.len();
        match count.checked_mul(Self::WIRE) {
            None => {
                return None;
            },
            Some(need) => {
                if aux.len() < need {
                    return None;
                }
            },
        }
        let mut out: Vec<GpaRun> = Vec::new();
        let mut i: usize = 0;
        while i < count
            invariant
                i <= count,
                16 * count <= aux@.len() <= usize::MAX,
                out@ == Seq::new(i as nat, |i: int| run_at(aux@, i)),
            decreases count - i,
        {
            let o: usize = i * 16;
            out.push(
                GpaRun { gpa: GuestAddr::new(get64(aux, o)), len: GuestLen::new(get64(aux, o + 8)) },
            );
            i += 1;
            proof {
                assert(out@ =~= Seq::new(i as nat, |i: int| run_at(aux@, i)));
            }
        }
        Some(out)
    }
}

/// A region of guest memory, and where its file keeps it.
#[derive(Clone, Copy, Debug, PartialEq, Eq, Structural)]
pub struct Region {
    pub base: u64,
    pub len: u64,
    pub file_start: Option<u64>,
}

impl Region {
    /// Whether the address lies in the region.
    pub open spec fn holds(self, gpa: u64) -> bool {
        self.base <= gpa && gpa - self.base < self.len
    }
}

/// A part of an arena: where it starts, its length, the region and the place in its file.
#[derive(Clone, Copy, Debug, PartialEq, Eq, Structural)]
pub struct Piece {
    pub off: u64,
    pub len: u64,
    pub region: usize,
    pub file_off: u64,
}

/// The first region from `i` on that holds the address.
pub open spec fn region_of(regions: Seq<Region>, gpa: u64, i: int) -> Option<int>
    decreases regions.len() - i,
{
    if i < 0 || i >= regions.len() {
        None
    } else if regions[i].holds(gpa) {
        Some(i)
    } else {
        region_of(regions, gpa, i + 1)
    }
}

/// What the first `n` runs hold.
pub open spec fn run_bytes(runs: Seq<GpaRun>, n: int) -> nat
    decreases n,
{
    if n <= 0 {
        0
    } else {
        run_bytes(runs, n - 1) + runs[n - 1].len.0 as nat
    }
}

/// What is wrong with the first `n` runs by themselves.
pub open spec fn run_fault(runs: Seq<GpaRun>, page: u64, n: int) -> Option<PoolError>
    decreases n,
{
    if n <= 0 {
        None
    } else {
        match run_fault(runs, page, n - 1) {
            Some(e) => Some(e),
            None => {
                let r = runs[n - 1];
                if r.len.0 == 0 || r.gpa.0 % page != 0 || r.len.0 % page != 0 {
                    Some(PoolError::Unaligned)
                } else if run_bytes(runs, n) > u64::MAX {
                    Some(PoolError::SumOverflows)
                } else {
                    None
                }
            },
        }
    }
}

/// Where the run that starts at `off` of the arena comes from.
pub open spec fn piece_of(regions: Seq<Region>, r: GpaRun, off: u64) -> Result<Piece, PoolError> {
    match region_of(regions, r.gpa.0, 0) {
        None => Err(PoolError::NoRegion { gpa: r.gpa.0 }),
        Some(i) => match regions[i].file_start {
            None => Err(PoolError::NoFile),
            Some(start) => if r.gpa.0 + r.len.0 > u64::MAX {
                Err(PoolError::RunOverflows { gpa: r.gpa.0, len: r.len.0 })
            } else if regions[i].base + regions[i].len > u64::MAX {
                Err(PoolError::RegionOverflows)
            } else if r.gpa.0 + r.len.0 > regions[i].base + regions[i].len {
                Err(PoolError::PastRegion { gpa: r.gpa.0, len: r.len.0 })
            } else if start + (r.gpa.0 - regions[i].base) > i64::MAX {
                Err(PoolError::FileOffset)
            } else {
                Ok(
                    Piece {
                        off,
                        len: r.len.0,
                        region: i as usize,
                        file_off: (start + (r.gpa.0 - regions[i].base)) as u64,
                    },
                )
            },
        },
    }
}

/// The pieces of the first `n` runs, one behind the other.
pub open spec fn pieces(regions: Seq<Region>, runs: Seq<GpaRun>, n: int) -> Result<
    Seq<Piece>,
    PoolError,
>
    decreases n,
{
    if n <= 0 {
        Ok(Seq::empty())
    } else {
        match pieces(regions, runs, n - 1) {
            Err(e) => Err(e),
            Ok(ps) => match piece_of(regions, runs[n - 1], run_bytes(runs, n - 1) as u64) {
                Err(e) => Err(e),
                Ok(p) => Ok(ps.push(p)),
            },
        }
    }
}

/// How an arena of `total` bytes is laid out, or why it is not.
pub open spec fn arena_layout(
    regions: Seq<Region>,
    runs: Seq<GpaRun>,
    total: u64,
    page: u64,
    limit: u64,
) -> Result<Seq<Piece>, PoolError> {
    match run_fault(runs, page, runs.len() as int) {
        Some(e) => Err(e),
        None => {
            let sum = run_bytes(runs, runs.len() as int);
            if sum != total {
                Err(PoolError::SumDiffers { sum: sum as u64, total })
            } else if total == 0 || total > limit {
                Err(PoolError::OverLimit { total, limit })
            } else if total > usize::MAX {
                Err(PoolError::TooLong)
            } else {
                pieces(regions, runs, runs.len() as int)
            }
        },
    }
}

/// A contiguous host range: its address, its length and what it is charged.
#[derive(Clone, Copy, Debug, PartialEq, Eq, Structural)]
pub struct Arena {
    pub base: u64,
    pub len: u64,
    pub charge: u64,
}

fn find_region(regions: &[Region], gpa: u64) -> (r: Option<usize>)
    ensures
        match r {
            Some(i) => i < regions@.len() && regions@[i as int].holds(gpa) && region_of(
                regions@,
                gpa,
                0,
            ) == Some(i as int),
            None => region_of(regions@, gpa, 0) is None,
        },
{
    let mut i: usize = 0;
    while i < regions.len()
        invariant
            i <= regions@.len(),
            region_of(regions@, gpa, 0) == region_of(regions@, gpa, i as int),
        decreases regions@.len() - i,
    {
        let g: Region = regions[i];
        if g.base <= gpa && gpa - g.base < g.len {
            return Some(i);
        }
        i += 1;
    }
    None
}

fn place_run(regions: &[Region], r: GpaRun, off: u64) -> (p: Result<Piece, PoolError>)
    ensures
        p == piece_of(regions@, r, off),
{
    match find_region(regions, r.gpa.get()) {
        None => Err(PoolError::NoRegion { gpa: r.gpa.get() }),
        Some(i) => {
            let g: Region = regions[i];
            match g.file_start {
                None => Err(PoolError::NoFile),
                Some(start) => {
                    let base = GuestAddr::new(g.base);
                    let run_end = match r.gpa.end(r.len) {
                        Some(e) => e,
                        None => {
                            return Err(
                                PoolError::RunOverflows { gpa: r.gpa.get(), len: r.len.get() },
                            );
                        },
                    };
                    let region_end = match base.end(GuestLen::new(g.len)) {
                        Some(e) => e,
                        None => {
                            return Err(PoolError::RegionOverflows);
                        },
                    };
                    if run_end.get() > region_end.get() {
                        return Err(PoolError::PastRegion { gpa: r.gpa.get(), len: r.len.get() });
                    }
                    let inside: u64 = r.gpa.get() - g.base;
                    match start.checked_add(inside) {
                        Some(file_off) => if file_off <= i64::MAX as u64 {
                            Ok(Piece { off, len: r.len.get(), region: i, file_off })
                        } else {
                            Err(PoolError::FileOffset)
                        },
                        None => Err(PoolError::FileOffset),
                    }
                },
            }
        },
    }
}

proof fn lemma_run_bytes_grow(runs: Seq<GpaRun>, a: int, b: int)
    requires
        a <= b,
    ensures
        run_bytes(runs, a) <= run_bytes(runs, b),
    decreases b - a,
{
    if a < b {
        lemma_run_bytes_grow(runs, a, b - 1);
    }
}

proof fn lemma_first_fault(runs: Seq<GpaRun>, page: u64, a: int, b: int)
    requires
        0 <= a <= b,
        run_fault(runs, page, a) is Some,
    ensures
        run_fault(runs, page, b) == run_fault(runs, page, a),
    decreases b - a,
{
    if a < b {
        lemma_first_fault(runs, page, a, b - 1);
    }
}

proof fn lemma_first_stray(regions: Seq<Region>, runs: Seq<GpaRun>, a: int, b: int)
    requires
        0 <= a <= b,
        pieces(regions, runs, a) is Err,
    ensures
        pieces(regions, runs, b) == pieces(regions, runs, a),
    decreases b - a,
{
    if a < b {
        lemma_first_stray(regions, runs, a, b - 1);
    }
}

impl Arena {
    /// Lays out an arena of `total` bytes over the runs, in their order.
    pub fn build(regions: &[Region], runs: &[GpaRun], total: GuestLen, page: u64, limit: u64) -> (r:
        Result<Vec<Piece>, PoolError>)
        requires
            page > 0,
        ensures
            match (r, arena_layout(regions@, runs@, total.0, page, limit)) {
                (Ok(v), Ok(ps)) => v@ == ps,
                (Err(a), Err(b)) => a == b,
                _ => false,
            },
    {
        let mut sum = GuestLen::new(0);
        let mut i: usize = 0;
        while i < runs.len()
            invariant
                i <= runs@.len(),
                page > 0,
                sum.0 == run_bytes(runs@, i as int),
                run_fault(runs@, page, i as int) is None,
            decreases runs@.len() - i,
        {
            let r: GpaRun = runs[i];
            if r.len.is_zero() || r.gpa.get() % page != 0 || r.len.get() % page != 0 {
                proof {
                    assert(run_fault(runs@, page, i + 1) == Some(PoolError::Unaligned));
                    lemma_first_fault(runs@, page, i + 1, runs@.len() as int);
                }
                return Err(PoolError::Unaligned);
            }
            match sum.plus(r.len) {
                Some(s) => {
                    sum = s;
                },
                None => {
                    proof {
                        assert(run_fault(runs@, page, i + 1) == Some(PoolError::SumOverflows));
                        lemma_first_fault(runs@, page, i + 1, runs@.len() as int);
                    }
                    return Err(PoolError::SumOverflows);
                },
            }
            i += 1;
        }
        if sum.get() != total.get() {
            return Err(PoolError::SumDiffers { sum: sum.get(), total: total.get() });
        }
        if total.is_zero() || total.get() > limit {
            return Err(PoolError::OverLimit { total: total.get(), limit });
        }
        if total.get() > usize::MAX as u64 {
            return Err(PoolError::TooLong);
        }
        let mut out: Vec<Piece> = Vec::new();
        let mut off: u64 = 0;
        let mut k: usize = 0;
        while k < runs.len()
            invariant
                k <= runs@.len(),
                off == run_bytes(runs@, k as int),
                run_bytes(runs@, runs@.len() as int) <= u64::MAX,
                arena_layout(regions@, runs@, total.0, page, limit) == pieces(
                    regions@,
                    runs@,
                    runs@.len() as int,
                ),
                pieces(regions@, runs@, k as int) == Ok::<Seq<Piece>, PoolError>(out@),
            decreases runs@.len() - k,
        {
            let r: GpaRun = runs[k];
            match place_run(regions, r, off) {
                Ok(p) => {
                    out.push(p);
                },
                Err(e) => {
                    proof {
                        assert(pieces(regions@, runs@, k + 1) == Err::<Seq<Piece>, PoolError>(e));
                        lemma_first_stray(regions@, runs@, k + 1, runs@.len() as int);
                    }
                    return Err(e);
                },
            }
            proof {
                lemma_run_bytes_grow(runs@, k + 1, runs@.len() as int);
            }
            off += r.len.get();
            k += 1;
        }
        Ok(out)
    }

    /// The host address.
    pub fn base(&self) -> (r: u64)
        ensures
            r == self.base,
    {
        self.base
    }
}

proof fn lemma_pieces(regions: Seq<Region>, runs: Seq<GpaRun>, n: int)
    requires
        0 <= n <= runs.len(),
        pieces(regions, runs, n) is Ok,
        run_bytes(runs, n) <= u64::MAX,
    ensures
        ({
            let ps = pieces(regions, runs, n)->Ok_0;
            &&& ps.len() == n
            &&& forall|i: int|
                0 <= i < n ==> #[trigger] piece_of(regions, runs[i], run_bytes(runs, i) as u64) == Ok::<
                    Piece,
                    PoolError,
                >(ps[i])
        }),
    decreases n,
{
    if n > 0 {
        lemma_pieces(regions, runs, n - 1);
    }
}

/// The pieces of an arena follow one another without a gap, stay inside it, and fill it.
/// Each one lies in its region.
pub proof fn law_pieces_tile_the_arena(
    regions: Seq<Region>,
    runs: Seq<GpaRun>,
    total: u64,
    page: u64,
    limit: u64,
)
    requires
        regions.len() <= usize::MAX,
        arena_layout(regions, runs, total, page, limit) is Ok,
    ensures
        ({
            let ps = arena_layout(regions, runs, total, page, limit)->Ok_0;
            &&& ps.len() == runs.len()
            &&& 0 < total <= limit
            &&& run_bytes(runs, runs.len() as int) == total
            &&& forall|i: int|
                0 <= i < ps.len() ==> {
                    let p = #[trigger] ps[i];
                    &&& p.off == run_bytes(runs, i)
                    &&& p.len == runs[i].len.0
                    &&& p.off + p.len <= total
                    &&& 0 <= p.region < regions.len()
                    &&& regions[p.region as int].base <= runs[i].gpa.0
                    &&& runs[i].gpa.0 + p.len <= regions[p.region as int].base
                        + regions[p.region as int].len
                }
        }),
{
    lemma_pieces(regions, runs, runs.len() as int);
    let ps = arena_layout(regions, runs, total, page, limit)->Ok_0;
    assert forall|i: int| 0 <= i < ps.len() implies {
        let p = #[trigger] ps[i];
        &&& p.off == run_bytes(runs, i)
        &&& p.len == runs[i].len.0
        &&& p.off + p.len <= total
        &&& 0 <= p.region < regions.len()
        &&& regions[p.region as int].base <= runs[i].gpa.0
        &&& runs[i].gpa.0 + p.len <= regions[p.region as int].base + regions[p.region as int].len
    } by {
        assert(piece_of(regions, runs[i], run_bytes(runs, i) as u64) == Ok::<Piece, PoolError>(
            ps[i],
        ));
        lemma_run_bytes_grow(runs, i + 1, runs.len() as int);
        assert(run_bytes(runs, i + 1) == run_bytes(runs, i) + runs[i].len.0);
        lemma_run_bytes_grow(runs, i, i + 1);
        lemma_region_of(regions, runs[i].gpa.0, 0);
    }
}

proof fn lemma_region_of(regions: Seq<Region>, gpa: u64, i: int)
    requires
        0 <= i,
    ensures
        match region_of(regions, gpa, i) {
            Some(k) => i <= k < regions.len() && regions[k].holds(gpa),
            None => true,
        },
    decreases regions.len() - i,
{
    if i < regions.len() && !regions[i].holds(gpa) {
        lemma_region_of(regions, gpa, i + 1);
    }
}

/// A registered pool: the range that UVM maps, the arena behind it, the descriptor that keeps
/// its address space open, and what has to be released.
#[derive(Clone, Copy, Debug, PartialEq, Eq, Structural)]
pub struct Pool {
    pub token: u64,
    pub addr: GuestAddr,
    pub len: GuestLen,
    /// The host address of the arena.
    pub base: u64,
    /// The UVM descriptor.
    pub fd: i32,
    /// The private client that owns the descriptor of the pages.
    pub root: u32,
    pub osdesc: Option<u32>,
    pub range_live: bool,
    pub active: bool,
    pub charge: u64,
}

/// What has to be released before a pool may go.
#[derive(Clone, Copy, Debug, PartialEq, Eq, Structural)]
pub enum Release {
    Range,
    Object(u32),
    Nothing,
}

impl Pool {
    /// The release that comes next. UVM gives up its reference before the object goes.
    pub open spec fn due(self) -> Release {
        if self.range_live {
            Release::Range
        } else {
            match self.osdesc {
                Some(h) => Release::Object(h),
                None => Release::Nothing,
            }
        }
    }

    /// The pool once the release that was due has succeeded.
    pub open spec fn released(self) -> Pool {
        match self.due() {
            Release::Range => Pool { range_live: false, ..self },
            Release::Object(_) => Pool { osdesc: None, ..self },
            Release::Nothing => self,
        }
    }

    /// The pool out of use.
    pub open spec fn rested(self) -> Pool {
        Pool { active: false, ..self }
    }

    /// The pool after its range went with the guest's own request.
    pub open spec fn unmapped(self) -> Pool {
        Pool { active: false, range_live: false, ..self }
    }

    /// Whether the pool and the range share an address.
    pub open spec fn meets(self, token: u64, addr: u64, len: u64) -> bool {
        self.token == token && addr < self.addr.0 + self.len.0 && self.addr.0 < addr + len
    }

    fn next_release(&self) -> (r: Release)
        ensures
            r == self.due(),
    {
        if self.range_live {
            Release::Range
        } else {
            match self.osdesc {
                Some(h) => Release::Object(h),
                None => Release::Nothing,
            }
        }
    }
}

/// The object goes only after the range, and nothing that was released is released again.
pub proof fn law_releases_come_in_order_and_once(p: Pool)
    ensures
        p.due() is Object ==> !p.range_live,
        p.due() is Range ==> !(p.released().due() is Range) && p.released().osdesc == p.osdesc,
        p.due() is Object ==> p.released().due() is Nothing,
        p.released().charge == p.charge,
{
}

/// Which pools a sweep takes up.
#[derive(Clone, Copy, Debug, PartialEq, Eq, Structural)]
pub enum Select {
    /// Those out of use.
    Inactive,
    /// Those at one address of one UVM token.
    At { token: u64, addr: u64 },
    /// Those of one UVM token.
    Of { token: u64 },
    All,
}

impl Select {
    pub open spec fn takes(self, p: Pool) -> bool {
        match self {
            Select::Inactive => !p.active,
            Select::At { token, addr } => p.token == token && p.addr.0 == addr,
            Select::Of { token } => p.token == token,
            Select::All => true,
        }
    }

    fn wants(self, p: &Pool) -> (r: bool)
        ensures
            r == self.takes(*p),
    {
        match self {
            Select::Inactive => !p.active,
            Select::At { token, addr } => p.token == token && p.addr.get() == addr,
            Select::Of { token } => p.token == token,
            Select::All => true,
        }
    }
}

/// A walk over pools: which of them, how far it is, and whether a release failed.
#[derive(Clone, Copy, Debug, PartialEq, Eq, Structural)]
pub struct Sweep {
    pub select: Select,
    pub at: usize,
    pub failed: bool,
}

impl Sweep {
    /// A walk that starts at the front.
    pub fn new(select: Select) -> (w: Sweep)
        ensures
            w == (Sweep { select, at: 0, failed: false }),
    {
        Sweep { select, at: 0, failed: false }
    }
}

/// What a sweep asks for next.
#[derive(Clone, Copy, Debug, PartialEq, Eq, Structural)]
pub enum Chore {
    /// Free the range in this address space, then report how it went.
    FreeRange { fd: i32, addr: GuestAddr, len: GuestLen },
    /// Free the object of this private client, then report how it went.
    FreeObject { root: u32, handle: u32 },
    /// Unmap the arena and close the descriptor: the pool is gone.
    Drop { base: u64, len: GuestLen, fd: i32 },
    /// Nothing is left to do.
    Finished,
}

/// The first pool from `i` on that the sweep takes up; the end where there is none.
pub open spec fn next_selected(pools: Seq<Pool>, select: Select, i: int) -> int
    decreases pools.len() - i,
{
    if i < 0 || i >= pools.len() {
        i
    } else if select.takes(pools[i]) {
        i
    } else {
        next_selected(pools, select, i + 1)
    }
}

/// One step of a sweep: the pools after it, where it stands, the chore, and the charge that
/// a dropped pool gives back.
pub open spec fn swept(pools: Seq<Pool>, select: Select, at: int) -> (Seq<Pool>, int, Chore, u64) {
    let i = next_selected(pools, select, at);
    if i >= pools.len() {
        (pools, i, Chore::Finished, 0)
    } else {
        let p = pools[i];
        match p.due() {
            Release::Range => (
                pools.update(i, p.rested()),
                i,
                Chore::FreeRange { fd: p.fd, addr: p.addr, len: p.len },
                0,
            ),
            Release::Object(h) => (
                pools.update(i, p.rested()),
                i,
                Chore::FreeObject { root: p.root, handle: h },
                0,
            ),
            Release::Nothing => (
                pools.remove(i),
                i,
                Chore::Drop { base: p.base, len: p.len, fd: p.fd },
                p.charge,
            ),
        }
    }
}

pub proof fn lemma_next_selected(pools: Seq<Pool>, select: Select, i: int)
    requires
        0 <= i <= pools.len(),
    ensures
        i <= next_selected(pools, select, i) <= pools.len(),
    decreases pools.len() - i,
{
    if i < pools.len() && !select.takes(pools[i]) {
        lemma_next_selected(pools, select, i + 1);
    }
}

pub(crate) fn sweep_step(pools: &mut Vec<Pool>, w: &mut Sweep) -> (r: (Chore, u64))
    requires
        old(w).at <= old(pools)@.len(),
    ensures
        ({
            let (ps, at, chore, freed) = swept(old(pools)@, old(w).select, old(w).at as int);
            &&& final(pools)@ == ps
            &&& *final(w) == (Sweep { at: at as usize, ..*old(w) })
            &&& r == (chore, freed)
            &&& at <= ps.len()
            &&& final(w).at == at
        }),
{
    let ghost start = w.at as int;
    let ghost given = pools@;
    let select = w.select;
    proof {
        lemma_next_selected(given, select, start);
    }
    let mut i: usize = w.at;
    while i < pools.len() && !select.wants(&pools[i])
        invariant
            i <= pools@.len(),
            pools@ == given,
            0 <= start,
            next_selected(given, select, start) == next_selected(given, select, i as int),
        decreases pools@.len() - i,
    {
        i += 1;
    }
    w.at = i;
    if i == pools.len() {
        return (Chore::Finished, 0);
    }
    let p: Pool = pools[i];
    match p.next_release() {
        Release::Range => {
            pools.set(i, Pool { active: false, ..p });
            (Chore::FreeRange { fd: p.fd, addr: p.addr, len: p.len }, 0)
        },
        Release::Object(h) => {
            pools.set(i, Pool { active: false, ..p });
            (Chore::FreeObject { root: p.root, handle: h }, 0)
        },
        Release::Nothing => {
            let gone = pools.remove(i);
            (Chore::Drop { base: gone.base, len: gone.len, fd: gone.fd }, gone.charge)
        },
    }
}

/// The pools after a release was tried: the pool is a step further, or the sweep leaves it.
pub open spec fn answered(pools: Seq<Pool>, w: Sweep, ok: bool) -> (Seq<Pool>, Sweep) {
    if ok {
        (pools.update(w.at as int, pools[w.at as int].released()), w)
    } else {
        (pools, Sweep { at: (w.at + 1) as usize, failed: true, ..w })
    }
}

pub(crate) fn sweep_answer(pools: &mut Vec<Pool>, w: &mut Sweep, ok: bool)
    requires
        old(w).at < old(pools)@.len(),
    ensures
        (final(pools)@, *final(w)) == answered(old(pools)@, *old(w), ok),
        final(w).at <= final(pools)@.len(),
{
    // What is there fits a usize, and so does every place in it.
    let _len: usize = pools.len();
    if ok {
        let p: Pool = pools[w.at];
        let q = match p.next_release() {
            Release::Range => Pool { range_live: false, ..p },
            Release::Object(_) => Pool { osdesc: None, ..p },
            Release::Nothing => p,
        };
        pools.set(w.at, q);
    } else {
        w.failed = true;
        w.at = w.at + 1;
    }
}

/// What the charges come to.
pub open spec fn sum(charges: Seq<u64>) -> nat
    decreases charges.len(),
{
    if charges.len() == 0 {
        0
    } else {
        sum(charges.drop_last()) + charges.last() as nat
    }
}

pub proof fn lemma_sum_remove(s: Seq<u64>, i: int)
    requires
        0 <= i < s.len(),
    ensures
        sum(s.remove(i)) + s[i] == sum(s),
    decreases s.len(),
{
    if i == s.len() - 1 {
        assert(s.remove(i) =~= s.drop_last());
    } else {
        lemma_sum_remove(s.drop_last(), i);
        assert(s.remove(i).drop_last() =~= s.drop_last().remove(i));
        assert(s.remove(i).last() == s.last());
    }
}

pub proof fn lemma_sum_push(s: Seq<u64>, c: u64)
    ensures
        sum(s.push(c)) == sum(s) + c,
{
    assert(s.push(c).drop_last() =~= s);
}

pub proof fn lemma_sum_add(a: Seq<u64>, b: Seq<u64>)
    ensures
        sum(a + b) == sum(a) + sum(b),
    decreases b.len(),
{
    if b.len() == 0 {
        assert(a + b =~= a);
    } else {
        lemma_sum_add(a, b.drop_last());
        assert((a + b).drop_last() =~= a + b.drop_last());
        assert((a + b).last() == b.last());
    }
}

/// The charges of the pools.
pub open spec fn charges(pools: Seq<Pool>) -> Seq<u64> {
    Seq::new(pools.len(), |i: int| pools[i].charge)
}

pub proof fn lemma_swept_charges(pools: Seq<Pool>, select: Select, at: int)
    requires
        0 <= at <= pools.len(),
    ensures
        sum(charges(swept(pools, select, at).0)) + swept(pools, select, at).3 == sum(charges(pools)),
{
    lemma_next_selected(pools, select, at);
    let i = next_selected(pools, select, at);
    let after = swept(pools, select, at).0;
    if i < pools.len() {
        if pools[i].due() is Nothing {
            lemma_sum_remove(charges(pools), i);
            assert(charges(after) =~= charges(pools).remove(i));
        } else {
            assert(charges(after) =~= charges(pools));
        }
    }
}

/// The state of a budget.
pub struct PinView {
    pub limit: u64,
    pub used: u64,
    /// What stays registered though its source is gone.
    pub retained: u64,
    /// Pools of closed sessions that could not be released yet.
    pub quarantine: Seq<Pool>,
    /// The private clients of open sessions.
    pub open: Seq<u32>,
}

impl PinView {
    pub open spec fn wf(self) -> bool {
        &&& self.limit != 0
        &&& self.used <= self.limit
        &&& sum(charges(self.quarantine)) + self.retained <= self.used
    }

    /// What open sessions and requests under way hold.
    pub open spec fn leased(self) -> int {
        self.used - self.retained - sum(charges(self.quarantine))
    }

    /// Whether `bytes` more may be registered.
    pub open spec fn admits(self, bytes: u64) -> bool {
        bytes != 0 && self.used + bytes <= self.limit
    }

    /// Why `bytes` are not registered.
    pub open spec fn refusal(self, bytes: u64) -> PoolError {
        if bytes == 0 {
            PoolError::Empty
        } else {
            PoolError::Exceeded {
                used: self.used,
                limit: self.limit,
                retained: self.retained,
                requested: bytes,
            }
        }
    }

    pub open spec fn reserved(self, bytes: u64) -> PinView {
        PinView { used: (self.used + bytes) as u64, ..self }
    }

    pub open spec fn refunded(self, bytes: u64) -> PinView {
        PinView { used: (self.used - bytes) as u64, ..self }
    }

    /// The pages stay registered for good.
    pub open spec fn retaining(self, bytes: u64) -> PinView {
        PinView { retained: (self.retained + bytes) as u64, ..self }
    }

    /// Whether a client belongs to the host: an open session has it, or a pool of a closed one.
    pub open spec fn private(self, root: u32) -> bool {
        self.open.contains(root) || exists|i: int|
            0 <= i < self.quarantine.len() && #[trigger] self.quarantine[i].root == root
    }
}

/// The clients of open sessions after one of them ended.
pub open spec fn closed_client(open: Seq<u32>, driver: Option<u32>) -> Seq<u32> {
    match driver {
        Some(root) => match open.index_of_first(root) {
            Some(i) => open.remove(i),
            None => open,
        },
        None => open,
    }
}

/// The budget for registered guest pages, shared by the sessions of a machine.
pub struct PinBudget {
    limit: u64,
    used: u64,
    retained: u64,
    quarantine: Vec<Pool>,
    open: Vec<u32>,
}

impl View for PinBudget {
    type V = PinView;

    closed spec fn view(&self) -> PinView {
        PinView {
            limit: self.limit,
            used: self.used,
            retained: self.retained,
            quarantine: self.quarantine@,
            open: self.open@,
        }
    }
}

/// A variable of the environment.
#[derive(Clone, Copy)]
pub enum Variable<'a> {
    Absent,
    Text(&'a str),
    NotUnicode,
}

/// The budget that a setting asks for.
pub open spec fn budget_of(setting: Variable) -> Result<u64, PoolError> {
    match setting {
        Variable::Absent => Ok(DEFAULT_PIN_TOTAL),
        Variable::Text(raw) => match pin_bytes(raw@) {
            Some(b) => Ok(b),
            None => Err(PoolError::BadSetting),
        },
        Variable::NotUnicode => Err(PoolError::BadSetting),
    }
}

impl PinBudget {
    /// An empty budget of `limit` bytes.
    pub fn new(limit: u64) -> (r: Result<PinBudget, PoolError>)
        ensures
            match r {
                Ok(b) => limit != 0 && b@.wf() && b@.limit == limit && b@.used == 0 && b@.retained
                    == 0 && b@.quarantine == Seq::<Pool>::empty() && b@.open == Seq::<u32>::empty(),
                Err(e) => limit == 0 && e == PoolError::NoBudget,
            },
    {
        if limit == 0 {
            return Err(PoolError::NoBudget);
        }
        Ok(PinBudget { limit, used: 0, retained: 0, quarantine: Vec::new(), open: Vec::new() })
    }

    /// The budget that the setting asks for.
    pub fn from_env(setting: Variable) -> (r: Result<PinBudget, PoolError>)
        ensures
            match (r, budget_of(setting)) {
                (Ok(b), Ok(limit)) => b@.wf() && b@.limit == limit && b@.used == 0 && b@.retained
                    == 0 && b@.quarantine == Seq::<Pool>::empty() && b@.open == Seq::<u32>::empty(),
                (Err(a), Err(b)) => a == b,
                _ => false,
            },
    {
        match setting {
            Variable::Absent => Self::new(DEFAULT_PIN_TOTAL),
            Variable::Text(raw) => match parse_pin_bytes(raw) {
                Some(b) => Self::new(b),
                None => Err(PoolError::BadSetting),
            },
            Variable::NotUnicode => Err(PoolError::BadSetting),
        }
    }

    pub fn used_bytes(&self) -> (r: u64)
        ensures
            r == self@.used,
    {
        self.used
    }

    pub fn retained_bytes(&self) -> (r: u64)
        ensures
            r == self@.retained,
    {
        self.retained
    }

    /// What the pools of closed sessions still hold.
    pub fn quarantined_bytes(&self) -> (r: u64)
        requires
            self@.wf(),
        ensures
            r == sum(charges(self@.quarantine)),
    {
        let mut r: u64 = 0;
        let mut i: usize = 0;
        let ghost all = charges(self.quarantine@);
        while i < self.quarantine.len()
            invariant
                self@.wf(),
                i <= self.quarantine@.len(),
                all == charges(self.quarantine@),
                r == sum(all.take(i as int)),
            decreases self.quarantine@.len() - i,
        {
            proof {
                let (a, b) = (all.take(i as int), all.take(i + 1));
                assert(b =~= a.push(all[i as int]));
                lemma_sum_push(a, all[i as int]);
                lemma_sum_add(b, all.skip(i + 1));
                assert(b + all.skip(i + 1) =~= all);
            }
            r = r + self.quarantine[i].charge;
            i += 1;
        }
        proof {
            assert(all.take(i as int) =~= all);
        }
        r
    }

    /// Takes `bytes` from the budget.
    pub fn reserve(&mut self, bytes: u64) -> (r: Result<(), PoolError>)
        requires
            old(self)@.wf(),
        ensures
            final(self)@.wf(),
            match r {
                Ok(_) => old(self)@.admits(bytes) && final(self)@ == old(self)@.reserved(bytes),
                Err(e) => !old(self)@.admits(bytes) && e == old(self)@.refusal(bytes)
                    && *final(self) == *old(self),
            },
    {
        if bytes == 0 {
            return Err(PoolError::Empty);
        }
        if self.limit - self.used < bytes {
            return Err(
                PoolError::Exceeded {
                    used: self.used,
                    limit: self.limit,
                    retained: self.retained,
                    requested: bytes,
                },
            );
        }
        self.used = self.used + bytes;
        Ok(())
    }

    /// Gives `bytes` back that were reserved.
    pub fn refund(&mut self, bytes: u64)
        requires
            old(self)@.wf(),
            bytes <= old(self)@.leased(),
        ensures
            final(self)@.wf(),
            final(self)@ == old(self)@.refunded(bytes),
    {
        self.used = self.used - bytes;
    }

    /// Keeps a forwarded arena registered: duplicates may outlive the source. The answer says
    /// whether it is the first one.
    pub fn retain(&mut self, bytes: u64) -> (first: bool)
        requires
            old(self)@.wf(),
            bytes <= old(self)@.leased(),
        ensures
            final(self)@.wf(),
            final(self)@ == old(self)@.retaining(bytes),
            first == (bytes != 0 && old(self)@.retained == 0),
    {
        let first: bool = bytes != 0 && self.retained == 0;
        self.retained = self.retained + bytes;
        first
    }

    /// Guards the client of a session that opens.
    pub fn private_client(&mut self, root: u32)
        requires
            old(self)@.wf(),
        ensures
            final(self)@.wf(),
            final(self)@ == (PinView { open: old(self)@.open.push(root), ..old(self)@ }),
    {
        self.open.push(root);
    }

    /// Takes over a pool of a session that ends. Its charge stays.
    pub fn quarantine(&mut self, pool: Pool)
        requires
            old(self)@.wf(),
            pool.charge <= old(self)@.leased(),
        ensures
            final(self)@.wf(),
            final(self)@ == (PinView {
                quarantine: old(self)@.quarantine.push(pool),
                ..old(self)@
            }),
            final(self)@.leased() == old(self)@.leased() - pool.charge,
    {
        proof {
            lemma_sum_push(charges(self@.quarantine), pool.charge);
            assert(charges(self@.quarantine.push(pool)) =~= charges(self@.quarantine).push(
                pool.charge,
            ));
        }
        self.quarantine.push(pool);
    }

    /// The session of a guarded client ends.
    pub fn close_client(&mut self, root: u32)
        requires
            old(self)@.wf(),
        ensures
            final(self)@.wf(),
            final(self)@ == (PinView {
                open: closed_client(old(self)@.open, Some(root)),
                ..old(self)@
            }),
    {
        let mut i: usize = 0;
        while i < self.open.len()
            invariant
                i <= self.open@.len(),
                *self == *old(self),
                self@.wf(),
                forall|j: int| 0 <= j < i ==> self.open@[j] != root,
            decreases self.open@.len() - i,
        {
            if self.open[i] == root {
                proof {
                    assert(self.open@.index_of_first(root) == Some(i as int)) by {
                        self.open@.index_of_first_ensures(root);
                    }
                }
                self.open.remove(i);
                return ;
            }
            i += 1;
        }
        proof {
            self.open@.index_of_first_ensures(root);
        }
    }

    /// Whether a client belongs to the host.
    pub fn is_private(&self, root: u32) -> (r: bool)
        ensures
            r == self@.private(root),
    {
        let mut i: usize = 0;
        while i < self.open.len()
            invariant
                i <= self.open@.len(),
                forall|j: int| 0 <= j < i ==> self.open@[j] != root,
            decreases self.open@.len() - i,
        {
            if self.open[i] == root {
                return true;
            }
            i += 1;
        }
        let mut k: usize = 0;
        while k < self.quarantine.len()
            invariant
                k <= self.quarantine@.len(),
                forall|j: int| 0 <= j < k ==> #[trigger] self.quarantine@[j].root != root,
                forall|j: int| 0 <= j < self.open@.len() ==> self.open@[j] != root,
            decreases self.quarantine@.len() - k,
        {
            if self.quarantine[k].root == root {
                return true;
            }
            k += 1;
        }
        false
    }

    /// The clients that belong to the host.
    pub fn private_clients(&self) -> (r: Vec<u32>)
        ensures
            r@ == self@.open + self@.quarantine.map_values(|p: Pool| p.root),
            forall|root: u32| r@.contains(root) <==> self@.private(root),
    {
        let mut out: Vec<u32> = Vec::new();
        let mut i: usize = 0;
        while i < self.open.len()
            invariant
                i <= self.open@.len(),
                out@ == self.open@.take(i as int),
            decreases self.open@.len() - i,
        {
            out.push(self.open[i]);
            i += 1;
            proof {
                assert(out@ =~= self.open@.take(i as int));
            }
        }
        proof {
            assert(self.open@.take(i as int) =~= self.open@);
        }
        let mut k: usize = 0;
        let ghost n = self.open@.len();
        while k < self.quarantine.len()
            invariant
                k <= self.quarantine@.len(),
                n == self.open@.len(),
                out@.len() == n + k,
                forall|j: int| 0 <= j < n ==> #[trigger] out@[j] == self.open@[j],
                forall|j: int|
                    0 <= j < k ==> #[trigger] self.quarantine@[j].root == out@[n + j],
            decreases self.quarantine@.len() - k,
        {
            out.push(self.quarantine[k].root);
            k += 1;
        }
        proof {
            assert forall|root: u32| out@.contains(root) <==> self@.private(root) by {
                if out@.contains(root) {
                    let j = choose|j: int| 0 <= j < out@.len() && out@[j] == root;
                    if j < n {
                        assert(self.open@[j] == root);
                    } else {
                        let q = j - n;
                        assert(self.quarantine@[q].root == out@[n + q]);
                    }
                }
                if self.open@.contains(root) {
                    let j = choose|j: int| 0 <= j < self.open@.len() && self.open@[j] == root;
                    assert(out@[j] == root);
                } else if self@.private(root) {
                    let j = choose|j: int|
                        0 <= j < self@.quarantine.len() && #[trigger] self@.quarantine[j].root
                            == root;
                    assert(self.quarantine@[j].root == out@[n + j]);
                }
            }
        }
        out
    }

    /// The next step in releasing the pools of closed sessions.
    pub fn retry_cleanup(&mut self, w: &mut Sweep) -> (chore: Chore)
        requires
            old(self)@.wf(),
            old(w).at <= old(self)@.quarantine.len(),
        ensures
            final(self)@.wf(),
            ({
                let (ps, at, c, freed) = swept(
                    old(self)@.quarantine,
                    old(w).select,
                    old(w).at as int,
                );
                &&& final(self)@ == (PinView {
                    quarantine: ps,
                    used: (old(self)@.used - freed) as u64,
                    ..old(self)@
                })
                &&& *final(w) == (Sweep { at: at as usize, ..*old(w) })
                &&& chore == c
                &&& final(w).at == at <= ps.len()
            }),
            final(self)@.leased() == old(self)@.leased(),
    {
        proof {
            lemma_swept_charges(self@.quarantine, w.select, w.at as int);
        }
        let (chore, freed) = sweep_step(&mut self.quarantine, w);
        self.used = self.used - freed;
        chore
    }

    /// Reports how the release went that was asked for.
    pub fn retried(&mut self, w: &mut Sweep, ok: bool)
        requires
            old(self)@.wf(),
            old(w).at < old(self)@.quarantine.len(),
        ensures
            final(self)@.wf(),
            ({
                let (ps, v) = answered(old(self)@.quarantine, *old(w), ok);
                &&& final(self)@ == (PinView { quarantine: ps, ..old(self)@ })
                &&& *final(w) == v
                &&& v.at <= ps.len()
            }),
            final(self)@.leased() == old(self)@.leased(),
    {
        let ghost given = self.quarantine@;
        sweep_answer(&mut self.quarantine, w, ok);
        proof {
            assert(charges(self.quarantine@) =~= charges(given));
        }
    }
}

/// The parameters that free a UVM range, in the layout of the release.
pub open spec fn free_block(uvm: UvmNumbers, addr: u64, len: u64) -> Seq<u8> {
    let blank = Seq::new(uvm.free_len as nat, |i: int| 0u8);
    let based = overlay(blank, uvm.free_base as int, bytes64(addr));
    if uvm.free_length + 8 <= uvm.free_len {
        overlay(based, uvm.free_length as int, bytes64(len))
    } else {
        based
    }
}

/// Builds the parameters that free a UVM range. Newer releases carry no length.
pub fn free_params(uvm: &UvmNumbers, addr: GuestAddr, len: GuestLen) -> (b: Vec<u8>)
    requires
        uvm.free_base + 8 <= uvm.free_len,
    ensures
        b@ == free_block(*uvm, addr.0, len.0),
{
    let mut b: Vec<u8> = Vec::new();
    let mut i: usize = 0;
    while i < uvm.free_len
        invariant
            i <= uvm.free_len,
            b@ == Seq::new(i as nat, |i: int| 0u8),
        decreases uvm.free_len - i,
    {
        b.push(0);
        i += 1;
        proof {
            assert(b@ =~= Seq::new(i as nat, |i: int| 0u8));
        }
    }
    put64(&mut b, uvm.free_base, addr.get());
    if uvm.free_length <= uvm.free_len && 8 <= uvm.free_len - uvm.free_length {
        put64(&mut b, uvm.free_length, len.get());
    }
    b
}

/// How a UVM request went.
#[derive(Clone, Copy, Debug, PartialEq, Eq, Structural)]
pub enum UvmOutcome {
    Done,
    /// The request itself failed.
    Refused,
    /// The request ran and reports this status.
    Status(u32),
}

/// Judges a UVM request by its return value and the status word in its parameters.
pub fn uvm_outcome(ret: i32, params: &[u8], status_off: usize) -> (r: UvmOutcome)
    requires
        status_off + 4 <= params@.len(),
    ensures
        r == (if ret != 0 {
            UvmOutcome::Refused
        } else if le32(params@, status_off as int) == NV_OK {
            UvmOutcome::Done
        } else {
            UvmOutcome::Status(le32(params@, status_off as int))
        }),
{
    if ret != 0 {
        return UvmOutcome::Refused;
    }
    let status: u32 = get32(params, status_off);
    if status == NV_OK {
        UvmOutcome::Done
    } else {
        UvmOutcome::Status(status)
    }
}

/// The handles of the host's own client: the root, and the next one to give out.
#[derive(Clone, Copy, Debug, PartialEq, Eq, Structural)]
pub struct Backing {
    pub root: u32,
    pub next_handle: u32,
}

impl Backing {
    /// The handles below a root; nothing where there is none above it.
    pub fn new(root: u32) -> (r: Option<Backing>)
        ensures
            r == (if root == u32::MAX {
                None
            } else {
                Some(Backing { root, next_handle: (root + 1) as u32 })
            }),
    {
        match root.checked_add(1) {
            Some(next_handle) => Some(Backing { root, next_handle }),
            None => None,
        }
    }

    /// Gives out a handle that was not given out before; nothing once they are spent.
    pub fn handle(&mut self) -> (r: Option<u32>)
        ensures
            match r {
                Some(h) => h == old(self).next_handle && final(self).next_handle == h + 1
                    && final(self).root == old(self).root,
                None => old(self).next_handle == u32::MAX && *final(self) == *old(self),
            },
    {
        let h: u32 = self.next_handle;
        match h.checked_add(1) {
            Some(next) => {
                self.next_handle = next;
                Some(h)
            },
            None => None,
        }
    }
}

/// A client stays guarded while a pool of it waits in the quarantine.
pub proof fn law_a_quarantined_client_stays_private(b: PinView, i: int)
    requires
        0 <= i < b.quarantine.len(),
    ensures
        b.private(b.quarantine[i].root),
{
}

/// What is reserved and given back leaves the budget as it was.
pub proof fn law_a_refund_undoes_a_reservation(b: PinView, bytes: u64)
    requires
        b.wf(),
        b.admits(bytes),
    ensures
        b.reserved(bytes).refunded(bytes) == b,
        b.reserved(bytes).wf(),
{
}

/// An accepted arena: the pieces start at zero, each one where the one before it ends, and the
/// last one ends the arena. A piece is a whole run of pages, and comes from the first region that
/// holds the address of the run. In the file of that region it lies exactly as far behind the
/// start as the run lies behind the base of the region.
#[verifier::rlimit(50)]
pub proof fn law_a_piece_lies_in_the_file_as_its_run_in_the_region(
    regions: Seq<Region>,
    runs: Seq<GpaRun>,
    total: u64,
    page: u64,
    limit: u64,
)
    requires
        page > 0,
        regions.len() <= usize::MAX,
        arena_layout(regions, runs, total, page, limit) is Ok,
    ensures
        ({
            let ps = arena_layout(regions, runs, total, page, limit)->Ok_0;
            &&& ps.len() == runs.len() > 0
            &&& ps[0].off == 0
            &&& ps.last().off + ps.last().len == total
            &&& forall|i: int, j: int|
                0 <= i && j == i + 1 && j < ps.len() ==> (#[trigger] ps[j]).off == (
                #[trigger] ps[i]).off + ps[i].len
            &&& forall|i: int|
                0 <= i < ps.len() ==> {
                    let p = #[trigger] ps[i];
                    let g = regions[p.region as int];
                    &&& p.len == runs[i].len.0 && p.len > 0
                    &&& p.len % page == 0 && runs[i].gpa.0 % page == 0
                    &&& p.region < regions.len()
                    &&& g.base <= runs[i].gpa.0 && runs[i].gpa.0 + p.len <= g.base + g.len
                    &&& forall|k: int|
                        0 <= k < p.region ==> !((#[trigger] regions[k]).base <= runs[i].gpa.0
                            && runs[i].gpa.0 - regions[k].base < regions[k].len)
                    &&& g.file_start matches Some(start) && p.file_off - start == runs[i].gpa.0
                        - g.base
                    &&& p.file_off <= i64::MAX
                }
            &&& forall|i: int, j: int|
                0 <= i < ps.len() && 0 <= j < ps.len() && (#[trigger] ps[i]).region == (
                #[trigger] ps[j]).region ==> ps[i].file_off - ps[j].file_off == runs[i].gpa.0
                    - runs[j].gpa.0
        }),
{
    let n = runs.len() as int;
    let ps = arena_layout(regions, runs, total, page, limit)->Ok_0;
    lemma_pieces(regions, runs, n);
    law_pieces_tile_the_arena(regions, runs, total, page, limit);
    if n == 0 {
        assert(run_bytes(runs, 0) == 0);
    }
    assert(run_bytes(runs, 0) == 0);
    assert(run_bytes(runs, n) == run_bytes(runs, n - 1) + runs[n - 1].len.0);
    assert forall|i: int, j: int| 0 <= i && j == i + 1 && j < ps.len() implies (
    #[trigger] ps[j]).off == (#[trigger] ps[i]).off + ps[i].len by {
        assert(run_bytes(runs, i + 1) == run_bytes(runs, i) + runs[i].len.0);
    }
    assert forall|i: int| 0 <= i < ps.len() implies {
        let p = #[trigger] ps[i];
        let g = regions[p.region as int];
        &&& p.len == runs[i].len.0 && p.len > 0
        &&& p.len % page == 0 && runs[i].gpa.0 % page == 0
        &&& p.region < regions.len()
        &&& g.base <= runs[i].gpa.0 && runs[i].gpa.0 + p.len <= g.base + g.len
        &&& forall|k: int|
            0 <= k < p.region ==> !((#[trigger] regions[k]).base <= runs[i].gpa.0 && runs[i].gpa.0
                - regions[k].base < regions[k].len)
        &&& g.file_start matches Some(start) && p.file_off - start == runs[i].gpa.0 - g.base
        &&& p.file_off <= i64::MAX
    } by {
        assert(piece_of(regions, runs[i], run_bytes(runs, i) as u64) == Ok::<Piece, PoolError>(
            ps[i],
        ));
        lemma_region_of(regions, runs[i].gpa.0, 0);
        lemma_first_region(regions, runs[i].gpa.0, 0);
        lemma_run_is_whole(runs, page, i, n);
    }
}

proof fn lemma_first_region(regions: Seq<Region>, gpa: u64, i: int)
    requires
        0 <= i,
    ensures
        match region_of(regions, gpa, i) {
            Some(k) => forall|q: int| i <= q < k ==> !(#[trigger] regions[q]).holds(gpa),
            None => forall|q: int| i <= q < regions.len() ==> !(#[trigger] regions[q]).holds(gpa),
        },
    decreases regions.len() - i,
{
    if i < regions.len() && !regions[i].holds(gpa) {
        lemma_first_region(regions, gpa, i + 1);
    }
}

proof fn lemma_run_is_whole(runs: Seq<GpaRun>, page: u64, i: int, n: int)
    requires
        0 <= i < n,
        run_fault(runs, page, n) is None,
    ensures
        runs[i].len.0 > 0,
        runs[i].gpa.0 % page == 0,
        runs[i].len.0 % page == 0,
    decreases n,
{
    if i < n - 1 {
        lemma_run_is_whole(runs, page, i, n - 1);
    }
}

/// Where every run of the pages can be served, the arena is laid out, and in one way only.
pub proof fn law_a_sound_layout_is_the_one_that_is_made(
    regions: Seq<Region>,
    runs: Seq<GpaRun>,
    total: u64,
    page: u64,
    limit: u64,
    ps: Seq<Piece>,
)
    requires
        page > 0,
        regions.len() <= usize::MAX,
        total <= limit,
        total <= usize::MAX,
        ps.len() == runs.len() > 0,
        ps[0].off == 0,
        ps.last().off + ps.last().len == total,
        forall|i: int, j: int|
            0 <= i && j == i + 1 && j < ps.len() ==> (#[trigger] ps[j]).off == (
            #[trigger] ps[i]).off + ps[i].len,
        forall|i: int|
            0 <= i < ps.len() ==> {
                let p = #[trigger] ps[i];
                let g = regions[p.region as int];
                &&& p.len == runs[i].len.0 && p.len > 0
                &&& p.len % page == 0 && runs[i].gpa.0 % page == 0
                &&& p.region < regions.len()
                &&& g.base <= runs[i].gpa.0 && runs[i].gpa.0 + p.len <= g.base + g.len <= u64::MAX
                &&& forall|k: int|
                    0 <= k < p.region ==> !((#[trigger] regions[k]).base <= runs[i].gpa.0
                        && runs[i].gpa.0 - regions[k].base < regions[k].len)
                &&& g.file_start matches Some(start) && p.file_off - start == runs[i].gpa.0
                    - g.base
                &&& p.file_off <= i64::MAX
            },
    ensures
        arena_layout(regions, runs, total, page, limit) == Ok::<Seq<Piece>, PoolError>(ps),
{
    lemma_sound_layout(regions, runs, page, ps, runs.len() as int);
    assert(ps.take(runs.len() as int) =~= ps);
}

#[verifier::rlimit(50)]
proof fn lemma_sound_layout(
    regions: Seq<Region>,
    runs: Seq<GpaRun>,
    page: u64,
    ps: Seq<Piece>,
    n: int,
)
    requires
        page > 0,
        regions.len() <= usize::MAX,
        ps.len() == runs.len() > 0,
        0 < n <= runs.len(),
        ps[0].off == 0,
        ps.last().off + ps.last().len <= u64::MAX,
        forall|i: int, j: int|
            0 <= i && j == i + 1 && j < ps.len() ==> (#[trigger] ps[j]).off == (
            #[trigger] ps[i]).off + ps[i].len,
        forall|i: int|
            0 <= i < ps.len() ==> {
                let p = #[trigger] ps[i];
                let g = regions[p.region as int];
                &&& p.len == runs[i].len.0 && p.len > 0
                &&& p.len % page == 0 && runs[i].gpa.0 % page == 0
                &&& p.region < regions.len()
                &&& g.base <= runs[i].gpa.0 && runs[i].gpa.0 + p.len <= g.base + g.len <= u64::MAX
                &&& forall|k: int|
                    0 <= k < p.region ==> !((#[trigger] regions[k]).base <= runs[i].gpa.0
                        && runs[i].gpa.0 - regions[k].base < regions[k].len)
                &&& g.file_start matches Some(start) && p.file_off - start == runs[i].gpa.0
                    - g.base
                &&& p.file_off <= i64::MAX
            },
    ensures
        run_bytes(runs, n) == ps[n - 1].off + ps[n - 1].len,
        run_fault(runs, page, n) is None,
        pieces(regions, runs, n) == Ok::<Seq<Piece>, PoolError>(ps.take(n)),
    decreases n,
{
    let p = ps[n - 1];
    let r = runs[n - 1];
    if n > 1 {
        lemma_sound_layout(regions, runs, page, ps, n - 1);
        assert(ps[n - 1].off == ps[n - 2].off + ps[n - 2].len);
    } else {
        assert(run_bytes(runs, 0) == 0);
        assert(run_fault(runs, page, 0) is None);
        assert(pieces(regions, runs, 0) == Ok::<Seq<Piece>, PoolError>(Seq::empty()));
        assert(ps.take(0) =~= Seq::empty());
    }
    assert(run_bytes(runs, n) == p.off + p.len);
    assert(p.off + p.len <= u64::MAX) by {
        if n < ps.len() {
            assert(ps[n].off == ps[n - 1].off + ps[n - 1].len);
        }
    }
    lemma_region_found(regions, r.gpa.0, 0, p.region as int);
    assert(piece_of(regions, r, p.off) == Ok::<Piece, PoolError>(p));
    assert(ps.take(n) =~= ps.take(n - 1).push(p));
}

proof fn lemma_region_found(regions: Seq<Region>, gpa: u64, i: int, k: int)
    requires
        0 <= i <= k < regions.len(),
        regions[k].holds(gpa),
        forall|q: int| i <= q < k ==> !(#[trigger] regions[q]).holds(gpa),
    ensures
        region_of(regions, gpa, i) == Some(k),
    decreases k - i,
{
    if i < k {
        lemma_region_found(regions, gpa, i + 1, k);
    }
}

/// A setting in mebibytes: a positive number whose bytes can be counted, and nothing else.
pub proof fn law_a_pin_setting_is_in_mebibytes(raw: Seq<char>, n: nat)
    ensures
        parsed(trimmed(raw)) is None ==> pin_bytes(raw) is None,
        parsed(trimmed(raw)) == Some(n) ==> match pin_bytes(raw) {
            Some(b) => n > 0 && b == n * 0x10_0000,
            None => n == 0 || n * 0x10_0000 > u64::MAX,
        },
{
}

/// A registration is refused only for nothing, or where rounding up leaves the counter.
pub proof fn law_a_registration_is_refused_for_nothing_else(bytes: u64, page: u64)
    requires
        page > 0,
    ensures
        registered(bytes, page) is Ok <==> bytes > 0 && bytes + page <= u64::MAX + 1,
        bytes == 0 ==> registered(bytes, page) == Err::<u64, PoolError>(PoolError::Empty),
        bytes > 0 && bytes + page > u64::MAX + 1 ==> registered(bytes, page) == Err::<
            u64,
            PoolError,
        >(PoolError::Rounding),
{
}

/// A run is an address and a length, sixteen bytes after the one before it.
pub proof fn law_runs_follow_one_another(aux: Seq<u8>, i: int)
    ensures
        run_at(aux, i).gpa.0 == le64(aux, 16 * i),
        run_at(aux, i).len.0 == le64(aux, 16 * i + 8),
{
}

/// What is taken from the budget, given back or kept for good is counted there and changes
/// nothing else; it is admitted exactly where the budget has the room.
pub proof fn law_the_budget_counts_what_is_taken(b: PinView, bytes: u64)
    ensures
        b.admits(bytes) <==> bytes > 0 && b.used + bytes <= b.limit,
        b.used + bytes <= u64::MAX ==> b.reserved(bytes).used == b.used + bytes,
        bytes <= b.used ==> b.refunded(bytes).used == b.used - bytes,
        b.retained + bytes <= u64::MAX ==> b.retaining(bytes).retained == b.retained + bytes,
        b.retaining(bytes).used == b.used,
        b.reserved(bytes).retained == b.retained && b.refunded(bytes).retained == b.retained,
        b.reserved(bytes).limit == b.limit && b.refunded(bytes).limit == b.limit && b.retaining(
            bytes,
        ).limit == b.limit,
        b.reserved(bytes).quarantine == b.quarantine && b.refunded(bytes).quarantine
            == b.quarantine && b.retaining(bytes).quarantine == b.quarantine,
        b.reserved(bytes).open == b.open && b.refunded(bytes).open == b.open && b.retaining(
            bytes,
        ).open == b.open,
        bytes > 0 ==> (b.refusal(bytes) matches PoolError::Exceeded {
            used,
            limit,
            retained,
            requested,
        } && used == b.used && limit == b.limit && retained == b.retained && requested == bytes),
        bytes == 0 ==> b.refusal(bytes) == PoolError::Empty,
{
}

/// A session that ends takes its own client off the list, once, and no other.
pub proof fn law_a_closed_session_takes_its_client(open: Seq<u32>, root: u32)
    ensures
        closed_client(open, None) == open,
        !open.contains(root) ==> closed_client(open, Some(root)) == open,
        open.contains(root) ==> exists|i: int|
            0 <= i < open.len() && #[trigger] open[i] == root && closed_client(open, Some(root))
                == open.remove(i) && forall|j: int| 0 <= j < i ==> #[trigger] open[j] != root,
{
    open.index_of_first_ensures(root);
}

/// Two ranges of one token meet exactly where some address lies in both: any such address
/// shows it, and the later of the two starts is one.
pub proof fn law_ranges_meet_where_they_share_an_address(
    p: Pool,
    token: u64,
    addr: u64,
    len: u64,
    a: int,
)
    requires
        p.len.0 > 0,
        len > 0,
    ensures
        p.token == token && addr <= a < addr + len && p.addr.0 <= a < p.addr.0 + p.len.0
            ==> p.meets(token, addr, len),
        p.meets(token, addr, len) ==> p.token == token && ({
            let start = if addr <= p.addr.0 {
                p.addr.0
            } else {
                addr
            };
            start < addr + len && start < p.addr.0 + p.len.0
        }),
{
}

/// Without a setting the budget is a gibibyte and an arena a quarter of that at most; a
/// setting that cannot be used is no budget.
pub proof fn law_the_budget_is_what_was_set(raw: &str)
    ensures
        budget_of(Variable::Absent) == Ok::<u64, PoolError>(0x4000_0000),
        DEFAULT_PIN_BYTES == 256 * 1024 * 1024,
        budget_of(Variable::NotUnicode) == Err::<u64, PoolError>(PoolError::BadSetting),
        match budget_of(Variable::Text(raw)) {
            Ok(b) => pin_bytes(raw@) == Some(b),
            Err(e) => pin_bytes(raw@) is None && e == PoolError::BadSetting,
        },
{
}

/// One step of a sweep takes up the first pool from where it stands that it is meant for.
/// A live range is freed first, in its own address space, then the object of its client; a pool
/// with neither goes, and its charge with it. A pool that is taken up is out of use, and no
/// other pool changes.
pub proof fn law_a_sweep_takes_pools_in_turn(pools: Seq<Pool>, select: Select, at: int)
    requires
        0 <= at <= pools.len(),
    ensures
        ({
            let (ps, i, chore, freed) = swept(pools, select, at);
            let p = pools[i];
            &&& at <= i <= pools.len()
            &&& forall|j: int| at <= j < i ==> !select.takes(#[trigger] pools[j])
            &&& i == pools.len() ==> chore is Finished && ps == pools && freed == 0
            &&& i < pools.len() ==> select.takes(p)
            &&& i < pools.len() && p.range_live ==> chore == (Chore::FreeRange {
                fd: p.fd,
                addr: p.addr,
                len: p.len,
            })
            &&& i < pools.len() && !p.range_live ==> (p.osdesc matches Some(h) ==> chore == (
            Chore::FreeObject { root: p.root, handle: h }))
            &&& i < pools.len() && (p.range_live || p.osdesc is Some) ==> {
                &&& freed == 0 && ps.len() == pools.len()
                &&& !ps[i].active && ps[i].range_live == p.range_live && ps[i].osdesc == p.osdesc
                    && ps[i].charge == p.charge && ps[i].token == p.token && ps[i].base == p.base
                &&& forall|j: int|
                    0 <= j < pools.len() && j != i ==> #[trigger] ps[j] == pools[j]
            }
            &&& i < pools.len() && !p.range_live && p.osdesc is None ==> {
                &&& chore == (Chore::Drop { base: p.base, len: p.len, fd: p.fd })
                &&& freed == p.charge
                &&& ps == pools.remove(i)
            }
        }),
{
    lemma_next_selected(pools, select, at);
    lemma_passed_over(pools, select, at);
}

proof fn lemma_passed_over(pools: Seq<Pool>, select: Select, at: int)
    requires
        0 <= at <= pools.len(),
    ensures
        ({
            let i = next_selected(pools, select, at);
            &&& forall|j: int| at <= j < i ==> !select.takes(#[trigger] pools[j])
            &&& i < pools.len() ==> select.takes(pools[i])
        }),
    decreases pools.len() - at,
{
    if at < pools.len() && !select.takes(pools[at]) {
        lemma_passed_over(pools, select, at + 1);
    }
}

/// Which pools a sweep is meant for.
pub proof fn law_a_sweep_is_meant_for_its_pools(p: Pool, token: u64, addr: u64)
    ensures
        Select::All.takes(p),
        Select::Inactive.takes(p) <==> !p.active,
        (Select::Of { token }).takes(p) <==> p.token == token,
        (Select::At { token, addr }).takes(p) <==> p.token == token && p.addr.0 == addr,
{
}

/// A release that went well is not due again; one that failed leaves the pool as it is, and the
/// sweep goes on behind it.
pub proof fn law_a_failed_release_is_left_behind(pools: Seq<Pool>, w: Sweep, ok: bool, j: int)
    requires
        w.at < pools.len() <= usize::MAX,
        0 <= j < pools.len(),
    ensures
        ({
            let (ps, v) = answered(pools, w, ok);
            let (p, q) = (pools[w.at as int], ps[w.at as int]);
            &&& ps.len() == pools.len() && v.select == w.select
            &&& j != w.at ==> ps[j] == pools[j]
            &&& ok ==> v == w
            &&& ok && p.range_live ==> !q.range_live && q.osdesc == p.osdesc
            &&& ok && !p.range_live ==> q.osdesc is None && !q.range_live
            &&& q.charge == p.charge && q.base == p.base && q.fd == p.fd && q.root == p.root
            &&& !ok ==> ps == pools && v.at == w.at + 1 && v.failed
        }),
{
}

/// The block that frees a range names its base, and its length where the release has one; the
/// rest is zero.
#[verifier::rlimit(50)]
pub proof fn law_a_free_names_its_range(uvm: UvmNumbers, addr: u64, len: u64)
    requires
        uvm.free_base + 8 <= uvm.free_len,
        uvm.free_length + 8 <= uvm.free_base || uvm.free_base + 8 <= uvm.free_length,
    ensures
        ({
            let b = free_block(uvm, addr, len);
            let long = uvm.free_length + 8 <= uvm.free_len;
            &&& b.len() == uvm.free_len
            &&& le64(b, uvm.free_base as int) == addr
            &&& long ==> le64(b, uvm.free_length as int) == len
            &&& forall|i: int|
                0 <= i < b.len() && !(uvm.free_base <= i < uvm.free_base + 8) && !(long
                    && uvm.free_length <= i < uvm.free_length + 8) ==> #[trigger] b[i] == 0
        }),
{
    let blank = Seq::new(uvm.free_len as nat, |i: int| 0u8);
    let based = overlay(blank, uvm.free_base as int, bytes64(addr));
    crate::bytes::law_word64_reads_back(blank, uvm.free_base as int, addr);
    if uvm.free_length + 8 <= uvm.free_len {
        crate::bytes::law_word64_reads_back(based, uvm.free_length as int, len);
        crate::bytes::lemma_same_bytes_same_word(
            free_block(uvm, addr, len),
            based,
            uvm.free_base as int,
        );
    }
}

/// Why an arena is not laid out: a run that is not whole pages, lengths that do not add up, a
/// size out of bounds, or a run that its region cannot serve.
pub proof fn law_a_refused_arena_has_its_reason(
    regions: Seq<Region>,
    runs: Seq<GpaRun>,
    total: u64,
    page: u64,
    limit: u64,
)
    requires
        page > 0,
        regions.len() <= usize::MAX,
    ensures
        match arena_layout(regions, runs, total, page, limit) {
            Ok(_) => true,
            Err(PoolError::Unaligned) => exists|i: int|
                0 <= i < runs.len() && ((#[trigger] runs[i]).len.0 == 0 || runs[i].len.0 % page != 0
                    || runs[i].gpa.0 % page != 0),
            Err(PoolError::SumOverflows) => exists|i: int|
                0 < i <= runs.len() && #[trigger] run_bytes(runs, i) > u64::MAX,
            Err(PoolError::SumDiffers { sum, total: t }) => t == total && sum != total && sum
                == run_bytes(runs, runs.len() as int),
            Err(PoolError::OverLimit { total: t, limit: l }) => t == total && l == limit && (total
                == 0 || total > limit),
            Err(PoolError::TooLong) => total > usize::MAX,
            Err(PoolError::NoRegion { gpa }) => exists|i: int|
                0 <= i < runs.len() && (#[trigger] runs[i]).gpa.0 == gpa && forall|k: int|
                    0 <= k < regions.len() ==> !((#[trigger] regions[k]).base <= gpa && gpa
                        - regions[k].base < regions[k].len),
            Err(PoolError::NoFile) => exists|k: int|
                0 <= k < regions.len() && (#[trigger] regions[k]).file_start is None,
            Err(PoolError::RunOverflows { gpa, len }) => gpa + len > u64::MAX && exists|i: int|
                0 <= i < runs.len() && (#[trigger] runs[i]).gpa.0 == gpa && runs[i].len.0 == len,
            Err(PoolError::RegionOverflows) => exists|k: int|
                0 <= k < regions.len() && (#[trigger] regions[k]).base + regions[k].len > u64::MAX,
            Err(PoolError::PastRegion { gpa, len }) => exists|i: int, k: int|
                0 <= i < runs.len() && 0 <= k < regions.len() && (#[trigger] runs[i]).gpa.0 == gpa
                    && runs[i].len.0 == len && (#[trigger] regions[k]).base <= gpa && gpa
                    - regions[k].base < regions[k].len && gpa + len > regions[k].base
                    + regions[k].len,
            Err(PoolError::FileOffset) => exists|i: int, k: int|
                0 <= i < runs.len() && 0 <= k < regions.len() && (
                #[trigger] regions[k]).file_start is Some && regions[k].file_start->Some_0 + (
                #[trigger] runs[i]).gpa.0 - regions[k].base > i64::MAX,
            Err(_) => false,
        },
{
    let n = runs.len() as int;
    if let Some(e) = run_fault(runs, page, n) {
        lemma_first_bad_run(runs, page, n);
    } else if let Err(e) = pieces(regions, runs, n) {
        let i = lemma_first_stray_run(regions, runs, n);
        let gpa = runs[i].gpa.0;
        lemma_region_of(regions, gpa, 0);
        lemma_first_region(regions, gpa, 0);
        if let Some(k) = region_of(regions, gpa, 0) {
            assert(regions[k].holds(gpa));
        } else {
            assert forall|k: int| 0 <= k < regions.len() implies !((#[trigger] regions[k]).base
                <= gpa && gpa - regions[k].base < regions[k].len) by {
                assert(!regions[k].holds(gpa));
            }
        }
    }
}

proof fn lemma_first_bad_run(runs: Seq<GpaRun>, page: u64, n: int)
    requires
        0 <= n <= runs.len(),
    ensures
        match run_fault(runs, page, n) {
            None => true,
            Some(PoolError::Unaligned) => exists|i: int|
                0 <= i < n && ((#[trigger] runs[i]).len.0 == 0 || runs[i].len.0 % page != 0
                    || runs[i].gpa.0 % page != 0),
            Some(PoolError::SumOverflows) => exists|i: int|
                0 < i <= n && #[trigger] run_bytes(runs, i) > u64::MAX,
            Some(_) => false,
        },
    decreases n,
{
    if n > 0 {
        lemma_first_bad_run(runs, page, n - 1);
        if run_fault(runs, page, n - 1) is None {
            let r = runs[n - 1];
            if r.len.0 == 0 || r.gpa.0 % page != 0 || r.len.0 % page != 0 {
                assert(runs[n - 1].len.0 == 0 || runs[n - 1].len.0 % page != 0 || runs[n - 1].gpa.0
                    % page != 0);
            } else {
                assert(run_fault(runs, page, n) is Some ==> run_bytes(runs, n) > u64::MAX);
            }
        }
    }
}

proof fn lemma_first_stray_run(regions: Seq<Region>, runs: Seq<GpaRun>, n: int) -> (i: int)
    requires
        0 <= n <= runs.len(),
        pieces(regions, runs, n) is Err,
    ensures
        0 <= i < n,
        piece_of(regions, runs[i], run_bytes(runs, i) as u64) is Err,
        pieces(regions, runs, n)->Err_0 == piece_of(
            regions,
            runs[i],
            run_bytes(runs, i) as u64,
        )->Err_0,
    decreases n,
{
    if pieces(regions, runs, n - 1) is Err {
        lemma_first_stray_run(regions, runs, n - 1)
    } else {
        n - 1
    }
}

} // verus!
