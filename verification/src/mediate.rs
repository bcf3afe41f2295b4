//! Answers of the driver that are rewritten for the guest: process lists, framebuffer
//! sizes, and the name of the card.

use crate::abi::{Abi, NV_OK};
use crate::bytes::{
    bytes32, bytes64, get32, le32, le64, overlay, put32, put64, put_bytes, put_zeros, zeroed,
};
use crate::text::{chars_of, dec, decimal, string_of, trim, trimmed};
use crate::vram::{
    heap_function, mib, vidheap_function, ProcRow, Profile, RowView, V_FREE, V_TOTAL,
};
use vstd::prelude::*;
use vstd::utf8::{encode_utf8, valid_utf8};

verus! {

/// The size of `NV2080_CTRL_GPU_GET_PIDS_PARAMS`.
pub const PIDS_LEN: usize = 3812;

/// Where it keeps the number of entries.
pub const PIDS_COUNT_OFF: usize = 8;

/// Where its table starts.
pub const PIDS_TBL_OFF: usize = 12;

/// How many entries its table has.
pub const PIDS_MAX: usize = 950;

/// Where `NV2080_CTRL_GPU_GET_PID_INFO_PARAMS` keeps the number of entries.
pub const PIDINFO_COUNT_OFF: usize = 0;

/// Where its list starts.
pub const PIDINFO_LIST_OFF: usize = 8;

/// The size of one entry.
pub const PIDINFO_ENTRY: usize = 72;

/// The most entries that it holds.
pub const PIDINFO_MAX: usize = 200;

/// The size of the whole structure.
pub const PIDINFO_LEN: usize = 14408;

/// Where an entry keeps its result.
pub const PIDINFO_RESULT: usize = 8;

/// Where an entry keeps the private memory, the first of six figures.
pub const PIDINFO_MEM_PRIVATE: usize = 16;

/// Where `NV2080_CTRL_FB_GET_INFO_V2_PARAMS` keeps the number of entries.
pub const FBINFO_COUNT_OFF: usize = 0;

/// Where its list starts.
pub const FBINFO_LIST_OFF: usize = 4;

/// The size of one entry: an index and a figure.
pub const FBINFO_ENTRY: usize = 8;

/// The most entries that it holds.
pub const FBINFO_MAX: usize = 128;

/// Where `NV2080_CTRL_GPU_GET_NAME_STRING_PARAMS` keeps the name.
pub const NAME_OFF: usize = 4;

/// The room for the name, with its terminator.
pub const NAME_MAX: usize = 64;

/// The smaller of two lengths.
pub open spec fn least(a: int, b: int) -> int {
    if a <= b {
        a
    } else {
        b
    }
}

/// A process table with these processes in it and nothing else.
pub open spec fn pids_answer(aux: Seq<u8>, roster: Seq<RowView>) -> Seq<u8> {
    let n = least(roster.len() as int, PIDS_MAX as int);
    Seq::new(
        aux.len(),
        |i: int|
            if PIDS_COUNT_OFF <= i < PIDS_COUNT_OFF + 4 {
                bytes32(n as u32)[i - PIDS_COUNT_OFF]
            } else if PIDS_TBL_OFF <= i < PIDS_TBL_OFF + 4 * n {
                bytes32(roster[(i - PIDS_TBL_OFF) / 4].guest_pid)[(i - PIDS_TBL_OFF) % 4]
            } else if PIDS_TBL_OFF + 4 * n <= i < PIDS_LEN {
                0u8
            } else {
                aux[i]
            },
    )
}

/// Replaces the process table by this VM's guest processes. The number of rows, or
/// nothing for a buffer that is too short, which stays as it is.
pub fn rewrite_get_pids(aux: &mut [u8], roster: &[ProcRow]) -> (r: Option<usize>)
    ensures
        ({
            let rows = roster@.map_values(|r: ProcRow| r@);
            if old(aux)@.len() < PIDS_LEN {
                r is None && final(aux)@ == old(aux)@
            } else {
                &&& r == Some(least(rows.len() as int, PIDS_MAX as int) as usize)
                &&& final(aux)@ == pids_answer(old(aux)@, rows)
            }
        }),
{
    if aux.len() < PIDS_LEN {
        return None;
    }
    let ghost rows = roster@.map_values(|r: ProcRow| r@);
    let n: usize = if roster.len() < PIDS_MAX {
        roster.len()
    } else {
        PIDS_MAX
    };
    put_zeros(aux, PIDS_TBL_OFF, PIDS_LEN - PIDS_TBL_OFF);
    let mut i: usize = 0;
    while i < n
        invariant
            i <= n,
            n <= PIDS_MAX,
            n <= roster@.len(),
            rows == roster@.map_values(|r: ProcRow| r@),
            aux@.len() == old(aux)@.len(),
            aux@.len() >= PIDS_LEN,
            forall|p: int|
                0 <= p < aux@.len() ==> #[trigger] aux@[p] == (if PIDS_TBL_OFF <= p < PIDS_TBL_OFF + 4
                    * i {
                    bytes32(rows[(p - PIDS_TBL_OFF) / 4].guest_pid)[(p - PIDS_TBL_OFF) % 4]
                } else if PIDS_TBL_OFF + 4 * i <= p < PIDS_LEN {
                    0u8
                } else {
                    old(aux)@[p]
                }),
        decreases n - i,
    {
        let ghost before = aux@;
        put32(aux, PIDS_TBL_OFF + 4 * i, roster[i].guest_pid);
        assert(rows[i as int].guest_pid == roster@[i as int].guest_pid);
        i = i + 1;
    }
    put32(aux, PIDS_COUNT_OFF, n as u32);
    assert(aux@ =~= pids_answer(old(aux)@, rows));
    Some(n)
}

/// What the first row of this process holds; nothing for an unknown process.
pub open spec fn bytes_of(roster: Seq<RowView>, pid: u32) -> u64
    decreases roster.len(),
{
    if roster.len() == 0 {
        0
    } else if roster[0].guest_pid == pid {
        roster[0].bytes
    } else {
        bytes_of(roster.skip(1), pid)
    }
}

fn find_bytes(roster: &[ProcRow], pid: u32) -> (r: u64)
    ensures
        r == bytes_of(roster@.map_values(|r: ProcRow| r@), pid),
{
    let ghost rows = roster@.map_values(|r: ProcRow| r@);
    let mut i: usize = 0;
    proof {
        assert(rows.skip(0) =~= rows);
    }
    while i < roster.len()
        invariant
            i <= roster@.len(),
            rows == roster@.map_values(|r: ProcRow| r@),
            bytes_of(rows.skip(i as int), pid) == bytes_of(rows, pid),
        decreases roster@.len() - i,
    {
        assert(rows.skip(i as int)[0] == roster@[i as int]@);
        assert(rows.skip(i as int).skip(1) =~= rows.skip(i + 1));
        if roster[i].guest_pid == pid {
            return roster[i].bytes;
        }
        i = i + 1;
    }
    0
}

/// How many entries of a process query are answered.
pub open spec fn info_count(aux: Seq<u8>) -> int {
    least(
        least(le32(aux, PIDINFO_COUNT_OFF as int) as int, PIDINFO_MAX as int),
        (aux.len() - PIDINFO_LIST_OFF) / PIDINFO_ENTRY as int,
    )
}

/// What the entry `i` of a process query is answered.
pub open spec fn info_bytes(abi: &Abi, aux: Seq<u8>, roster: Seq<RowView>, i: int) -> u64 {
    let base = PIDINFO_LIST_OFF + PIDINFO_ENTRY * i;
    if le32(aux, base + 4) == abi.info.video_memory_usage {
        bytes_of(roster, le32(aux, base))
    } else {
        0
    }
}

/// A process query with the first `n` entries answered from this VM's list.
pub open spec fn info_entries(abi: &Abi, aux: Seq<u8>, roster: Seq<RowView>, n: int) -> Seq<u8> {
    Seq::new(
        aux.len(),
        |p: int|
            if PIDINFO_LIST_OFF <= p < PIDINFO_LIST_OFF + PIDINFO_ENTRY * n {
                let i = (p - PIDINFO_LIST_OFF) / PIDINFO_ENTRY as int;
                let o = (p - PIDINFO_LIST_OFF) % PIDINFO_ENTRY as int;
                if PIDINFO_RESULT <= o < PIDINFO_RESULT + 4 {
                    bytes32(NV_OK)[o - PIDINFO_RESULT]
                } else if PIDINFO_MEM_PRIVATE <= o < PIDINFO_MEM_PRIVATE + 8 {
                    bytes64(info_bytes(abi, aux, roster, i))[o - PIDINFO_MEM_PRIVATE]
                } else if PIDINFO_MEM_PRIVATE + 8 <= o < PIDINFO_MEM_PRIVATE + 48 {
                    0u8
                } else {
                    aux[p]
                }
            } else {
                aux[p]
            },
    )
}

/// Answers a query about guest processes from this VM's list. The number of entries
/// that were answered, or nothing for a buffer that is too short.
pub fn rewrite_get_pid_info(abi: &Abi, aux: &mut [u8], roster: &[ProcRow]) -> (r: Option<usize>)
    ensures
        ({
            let rows = roster@.map_values(|r: ProcRow| r@);
            let n = info_count(old(aux)@);
            if old(aux)@.len() < PIDINFO_LIST_OFF + PIDINFO_ENTRY {
                r is None && final(aux)@ == old(aux)@
            } else {
                &&& r == Some(n as usize)
                &&& final(aux)@ == overlay(
                    info_entries(abi, old(aux)@, rows, n),
                    PIDINFO_COUNT_OFF as int,
                    bytes32(n as u32),
                )
            }
        }),
{
    if aux.len() < PIDINFO_LIST_OFF + PIDINFO_ENTRY {
        return None;
    }
    let ghost rows = roster@.map_values(|r: ProcRow| r@);
    let asked: u32 = get32(aux, PIDINFO_COUNT_OFF);
    let fits: usize = (aux.len() - PIDINFO_LIST_OFF) / PIDINFO_ENTRY;
    let mut n: usize = if asked < PIDINFO_MAX as u32 {
        asked as usize
    } else {
        PIDINFO_MAX
    };
    if fits < n {
        n = fits;
    }
    assert(n == info_count(aux@));
    let len: usize = aux.len();
    assert(PIDINFO_LIST_OFF + PIDINFO_ENTRY * n <= len);
    let mut i: usize = 0;
    proof {
        assert(aux@ =~= info_entries(abi, old(aux)@, rows, 0));
    }
    while i < n
        invariant
            i <= n <= PIDINFO_MAX,
            aux@.len() == len,
            old(aux)@.len() == len,
            PIDINFO_LIST_OFF + PIDINFO_ENTRY * n <= len,
            rows == roster@.map_values(|r: ProcRow| r@),
            aux@ == info_entries(abi, old(aux)@, rows, i as int),
        decreases n - i,
    {
        let base: usize = PIDINFO_LIST_OFF + PIDINFO_ENTRY * i;
        let pid: u32 = get32(aux, base);
        let index: u32 = get32(aux, base + 4);
        proof {
            assert(forall|p: int| base <= p < base + 8 ==> aux@[p] == old(aux)@[p]);
        }
        let bytes: u64 = if index == abi.info.video_memory_usage {
            find_bytes(roster, pid)
        } else {
            0
        };
        assert(bytes == info_bytes(abi, old(aux)@, rows, i as int));
        let ghost before = aux@;
        put32(aux, base + PIDINFO_RESULT, NV_OK);
        put_zeros(aux, base + PIDINFO_MEM_PRIVATE, 48);
        put64(aux, base + PIDINFO_MEM_PRIVATE, bytes);
        proof {
            let want = info_entries(abi, old(aux)@, rows, i + 1);
            assert forall|p: int| 0 <= p < len implies #[trigger] aux@[p] == want[p] by {
                if base <= p < base + PIDINFO_ENTRY {
                    assert((p - PIDINFO_LIST_OFF) / PIDINFO_ENTRY as int == i);
                    assert((p - PIDINFO_LIST_OFF) % PIDINFO_ENTRY as int == p - base);
                    assert(before[p] == old(aux)@[p]);
                } else {
                    assert(aux@[p] == before[p]);
                }
            }
            assert(aux@ =~= want);
        }
        i = i + 1;
    }
    put32(aux, PIDINFO_COUNT_OFF, n as u32);
    Some(n)
}

/// No word of the process table is anything but a guest process or zero: what the host
/// wrote there does not survive.
pub proof fn law_host_processes_do_not_survive(aux: Seq<u8>, roster: Seq<RowView>, i: int)
    requires
        aux.len() >= PIDS_LEN,
        0 <= i < PIDS_MAX,
    ensures
        le32(pids_answer(aux, roster), PIDS_TBL_OFF + 4 * i) == (if i < roster.len() {
            roster[i].guest_pid
        } else {
            0
        }),
        le32(pids_answer(aux, roster), PIDS_COUNT_OFF as int) == least(
            roster.len() as int,
            PIDS_MAX as int,
        ),
{
    let t = pids_answer(aux, roster);
    let o = PIDS_TBL_OFF + 4 * i;
    if i < roster.len() {
        let v = roster[i].guest_pid;
        crate::bytes::law_word32_reads_back(t, o, v);
        assert(overlay(t, o, bytes32(v)) =~= t);
    } else {
        assert(t[o] == 0 && t[o + 1] == 0 && t[o + 2] == 0 && t[o + 3] == 0);
    }
    let n = least(roster.len() as int, PIDS_MAX as int) as u32;
    crate::bytes::law_word32_reads_back(t, PIDS_COUNT_OFF as int, n);
    assert(overlay(t, PIDS_COUNT_OFF as int, bytes32(n)) =~= t);
}

/// A size in KiB, held in 32 bits.
pub open spec fn kib(b: u64) -> u32 {
    if b / 1024 <= u32::MAX {
        (b / 1024) as u32
    } else {
        u32::MAX
    }
}

/// What is left of a cap.
pub open spec fn remaining(limit: u64, used: u64) -> u64 {
    if used <= limit {
        (limit - used) as u64
    } else {
        0
    }
}

/// The figure under the cap that an index asks for; nothing for an index that names no size.
pub open spec fn fb_word(abi: &Abi, index: u32, limit: u64, used: u64) -> Option<u32> {
    if index == abi.info.ram_size || index == abi.info.total_ram_size || index
        == abi.info.heap_size || index == abi.info.usable_ram_size {
        Some(kib(limit))
    } else if index == abi.info.heap_free {
        Some(kib(remaining(limit, used)))
    } else {
        None
    }
}

/// A list of `n` entries from `at` on, with every size capped.
pub open spec fn fb_entries(
    abi: &Abi,
    buf: Seq<u8>,
    at: int,
    n: int,
    limit: u64,
    used: u64,
) -> Seq<u8> {
    Seq::new(
        buf.len(),
        |p: int|
            if at <= p < at + FBINFO_ENTRY * n && (p - at) % FBINFO_ENTRY as int >= 4 {
                let o = at + FBINFO_ENTRY * ((p - at) / FBINFO_ENTRY as int);
                match fb_word(abi, le32(buf, o), limit, used) {
                    Some(v) => bytes32(v)[p - o - 4],
                    None => buf[p],
                }
            } else {
                buf[p]
            },
    )
}

/// How many of the first `n` entries name a size.
pub open spec fn fb_touched(abi: &Abi, buf: Seq<u8>, at: int, n: int) -> nat
    decreases n,
{
    if n <= 0 {
        0
    } else {
        fb_touched(abi, buf, at, n - 1) + (if fb_word(
            abi,
            le32(buf, at + FBINFO_ENTRY * (n - 1)),
            0,
            0,
        ) is Some {
            1nat
        } else {
            0
        })
    }
}

/// How many entries of a list are looked at.
pub open spec fn fb_count(asked: int, room: int) -> int {
    least(least(asked, FBINFO_MAX as int), room / FBINFO_ENTRY as int)
}

/// The entry at `i` is still as it was given, and the sizes up to it are capped once its
/// word is.
proof fn lemma_fb_entry(abi: &Abi, buf: Seq<u8>, at: int, i: int, limit: u64, used: u64)
    requires
        0 <= at,
        0 <= i,
        at + FBINFO_ENTRY * (i + 1) <= buf.len(),
    ensures
        ({
            let o = at + FBINFO_ENTRY * i;
            let before = fb_entries(abi, buf, at, i, limit, used);
            let after = fb_entries(abi, buf, at, i + 1, limit, used);
            &&& le32(before, o) == le32(buf, o)
            &&& match fb_word(abi, le32(buf, o), limit, used) {
                Some(v) => after == overlay(before, o + 4, bytes32(v)),
                None => after == before,
            }
        }),
{
    let o = at + FBINFO_ENTRY * i;
    let before = fb_entries(abi, buf, at, i, limit, used);
    let after = fb_entries(abi, buf, at, i + 1, limit, used);
    assert(before[o] == buf[o] && before[o + 1] == buf[o + 1] && before[o + 2] == buf[o + 2]
        && before[o + 3] == buf[o + 3]);
    let w = fb_word(abi, le32(buf, o), limit, used);
    let want = match w {
        Some(v) => overlay(before, o + 4, bytes32(v)),
        None => before,
    };
    assert forall|p: int| 0 <= p < buf.len() implies #[trigger] after[p] == want[p] by {
        if o <= p < o + FBINFO_ENTRY {
            assert((p - at) / FBINFO_ENTRY as int == i);
            assert((p - at) % FBINFO_ENTRY as int == p - o);
        }
    }
    assert(after =~= want);
}

fn cap_fb_entries(abi: &Abi, buf: &mut [u8], at: usize, asked: usize, limit: u64, used: u64) -> (r:
    usize)
    requires
        at <= old(buf)@.len(),
    ensures
        ({
            let n = fb_count(asked as int, old(buf)@.len() - at);
            &&& final(buf)@ == fb_entries(abi, old(buf)@, at as int, n, limit, used)
            &&& r == fb_touched(abi, old(buf)@, at as int, n)
        }),
{
    let len: usize = buf.len();
    let fits: usize = (len - at) / FBINFO_ENTRY;
    let mut n: usize = if asked < FBINFO_MAX {
        asked
    } else {
        FBINFO_MAX
    };
    if fits < n {
        n = fits;
    }
    assert(n == fb_count(asked as int, old(buf)@.len() - at));
    assert(at + FBINFO_ENTRY * n <= len);
    let free: u64 = limit.saturating_sub(used);
    let mut touched: usize = 0;
    let mut i: usize = 0;
    proof {
            assert(buf@ =~= fb_entries(abi, old(buf)@, at as int, 0, limit, used));
    }
    while i < n
        invariant
            i <= n <= FBINFO_MAX,
            touched <= i,
            buf@.len() == len,
            old(buf)@.len() == len,
            at + FBINFO_ENTRY * n <= len,
            free == remaining(limit, used),
            buf@ == fb_entries(abi, old(buf)@, at as int, i as int, limit, used),
            touched == fb_touched(abi, old(buf)@, at as int, i as int),
        decreases n - i,
    {
        let o: usize = at + FBINFO_ENTRY * i;
        let index: u32 = get32(buf, o);
        let ghost before = buf@;
        proof {
            lemma_fb_entry(abi, old(buf)@, at as int, i as int, limit, used);
        }
        let mut word: Option<u32> = None;
        if index == abi.info.ram_size || index == abi.info.total_ram_size || index
            == abi.info.heap_size || index == abi.info.usable_ram_size {
            word = Some(to_kib(limit));
        } else if index == abi.info.heap_free {
            word = Some(to_kib(free));
        }
        assert(word == fb_word(abi, index, limit, used));
        if let Some(v) = word {
            put32(buf, o + 4, v);
            touched = touched + 1;
        }
        i = i + 1;
    }
    touched
}

fn to_kib(b: u64) -> (r: u32)
    ensures
        r == kib(b),
{
    if b / 1024 <= u32::MAX as u64 {
        (b / 1024) as u32
    } else {
        u32::MAX
    }
}

/// Caps every size in a framebuffer query. The number of sizes, or nothing where there
/// is no cap or the buffer is too short.
pub fn rewrite_fb_info(abi: &Abi, aux: &mut [u8], limit: u64, used: u64) -> (r: Option<usize>)
    ensures
        ({
            let n = fb_count(
                le32(old(aux)@, FBINFO_COUNT_OFF as int) as int,
                old(aux)@.len() - FBINFO_LIST_OFF,
            );
            if limit == 0 || old(aux)@.len() < FBINFO_LIST_OFF + FBINFO_ENTRY {
                r is None && final(aux)@ == old(aux)@
            } else {
                &&& r == Some(fb_touched(abi, old(aux)@, FBINFO_LIST_OFF as int, n) as usize)
                &&& final(aux)@ == fb_entries(
                    abi,
                    old(aux)@,
                    FBINFO_LIST_OFF as int,
                    n,
                    limit,
                    used,
                )
            }
        }),
{
    if limit == 0 || aux.len() < FBINFO_LIST_OFF + FBINFO_ENTRY {
        return None;
    }
    let asked: u32 = get32(aux, FBINFO_COUNT_OFF);
    let n: usize = if asked < FBINFO_MAX as u32 {
        asked as usize
    } else {
        FBINFO_MAX
    };
    Some(cap_fb_entries(abi, aux, FBINFO_LIST_OFF, n, limit, used))
}

/// Caps every size in a list that lies in a buffer of its own, from `at` on. The number
/// of sizes, or nothing where there is no cap or no room for an entry.
pub fn rewrite_fb_info_list(
    abi: &Abi,
    buf: &mut [u8],
    at: usize,
    asked: usize,
    limit: u64,
    used: u64,
) -> (r: Option<usize>)
    requires
        at <= old(buf)@.len(),
    ensures
        ({
            let n = fb_count(asked as int, old(buf)@.len() - at);
            if limit == 0 || old(buf)@.len() - at < FBINFO_ENTRY {
                r is None && final(buf)@ == old(buf)@
            } else {
                &&& r == Some(fb_touched(abi, old(buf)@, at as int, n) as usize)
                &&& final(buf)@ == fb_entries(abi, old(buf)@, at as int, n, limit, used)
            }
        }),
{
    if limit == 0 || buf.len() - at < FBINFO_ENTRY {
        return None;
    }
    Some(cap_fb_entries(abi, buf, at, asked, limit, used))
}

/// Caps the total and the free bytes of a heap query. Whether anything was written:
/// not without a cap, and not for a shorter buffer or another function.
pub fn rewrite_vidheap_info(abi: &Abi, buf: &mut [u8], limit: u64, used: u64) -> (r: bool)
    ensures
        r == (limit != 0 && heap_function(old(buf)@) == Some(abi.heap.info)),
        final(buf)@ == (if r {
            overlay(
                overlay(old(buf)@, V_TOTAL as int, bytes64(limit)),
                V_FREE as int,
                bytes64(remaining(limit, used)),
            )
        } else {
            old(buf)@
        }),
        r ==> le64(final(buf)@, 24) == limit && le64(final(buf)@, 32) == (if used <= limit {
            limit - used
        } else {
            0
        }),
{
    if limit == 0 {
        return false;
    }
    proof {
        if heap_function(buf@) is Some {
            law_a_heap_query_tells_of_the_cap(buf@, limit, used);
        }
    }
    let function: Option<u32> = vidheap_function(buf);
    let info: bool = match function {
        Some(f) => f == abi.heap.info,
        None => false,
    };
    if !info {
        return false;
    }
    put64(buf, V_TOTAL, limit);
    put64(buf, V_FREE, limit.saturating_sub(used));
    true
}

/// The three ways to ask for the framebuffer tell of one card: the total is the cap, and
/// what is free is what the ledger has left of it.
pub proof fn law_every_query_tells_of_one_card(abi: &Abi, limit: u64, used: u64)
    requires
        abi.info.heap_free != abi.info.ram_size,
        abi.info.heap_free != abi.info.total_ram_size,
        abi.info.heap_free != abi.info.heap_size,
        abi.info.heap_free != abi.info.usable_ram_size,
    ensures
        fb_word(abi, abi.info.ram_size, limit, used) == Some(kib(limit)),
        fb_word(abi, abi.info.total_ram_size, limit, used) == Some(kib(limit)),
        fb_word(abi, abi.info.heap_size, limit, used) == Some(kib(limit)),
        fb_word(abi, abi.info.usable_ram_size, limit, used) == Some(kib(limit)),
        fb_word(abi, abi.info.heap_free, limit, used) == Some(kib(remaining(limit, used))),
        kib(remaining(limit, used)) <= kib(limit),
        remaining(limit, used) <= limit,
{
}

/// `s` without the prefix, where it starts with it.
pub open spec fn stripped(s: Seq<char>, prefix: Seq<char>) -> Seq<char> {
    if prefix.len() <= s.len() && s.take(prefix.len() as int) == prefix {
        s.skip(prefix.len() as int)
    } else {
        s
    }
}

fn strip(s: &str, prefix: &str) -> (r: String)
    ensures
        r@ == stripped(s@, prefix@),
{
    let cs: Vec<char> = chars_of(s);
    let ps: Vec<char> = chars_of(prefix);
    if ps.len() > cs.len() {
        return s.to_owned();
    }
    let mut i: usize = 0;
    while i < ps.len()
        invariant
            i <= ps@.len() <= cs@.len(),
            cs@ == s@,
            ps@ == prefix@,
            forall|k: int| 0 <= k < i ==> cs@[k] == ps@[k],
        decreases ps@.len() - i,
    {
        if cs[i] != ps[i] {
            assert(s@.take(prefix@.len() as int)[i as int] != prefix@[i as int]);
            return s.to_owned();
        }
        i = i + 1;
    }
    assert(s@.take(prefix@.len() as int) =~= prefix@);
    let rest: &[char] = vstd::slice::slice_subrange(cs.as_slice(), ps.len(), cs.len());
    let r: String = string_of(rest);
    assert(r@ =~= s@.skip(prefix@.len() as int));
    r
}

/// The name of the card without the vendor's prefixes.
pub open spec fn base_name(given: Seq<char>) -> Seq<char> {
    stripped(stripped(trimmed(given), "NVIDIA "@), "GeForce "@)
}

/// The framebuffer as a suffix: whole gibibytes where it is a whole number of them.
pub open spec fn size_suffix(limit: u64) -> Seq<char> {
    if limit == 0 {
        Seq::empty()
    } else if mib(limit) >= 1024 && mib(limit) % 1024 == 0 {
        "-"@ + decimal(mib(limit) / 1024) + "G"@
    } else {
        "-"@ + decimal(mib(limit)) + "M"@
    }
}

/// The name of the guest's card: the card's name and its framebuffer, as far as they
/// fit. A size is dropped, never cut.
pub open spec fn card_name(given: Seq<char>, limit: u64) -> Seq<char> {
    let short = "Leandro "@ + base_name(given);
    let full = short + size_suffix(limit);
    if encode_utf8(full).len() < NAME_MAX {
        full
    } else if encode_utf8(short).len() < NAME_MAX {
        short
    } else {
        "Leandro GPU"@
    }
}

/// The name of the guest's card.
pub fn guest_card_name(given: &str, profile: Profile) -> (r: String)
    ensures
        r@ == card_name(given@, profile.fb_length),
{
    let limit: u64 = profile.fb_length;
    let t: &str = trim(given);
    let u: String = strip(t, "NVIDIA ");
    let base: String = strip(u.as_str(), "GeForce ");
    let mut suffix: String = String::new();
    if limit != 0 {
        let m: u64 = limit / 0x10_0000;
        suffix.append("-");
        if m >= 1024 && m % 1024 == 0 {
            suffix.append(dec(m / 1024).as_str());
            suffix.append("G");
        } else {
            suffix.append(dec(m).as_str());
            suffix.append("M");
        }
    }
    assert(suffix@ =~= size_suffix(limit));
    let mut short: String = String::new();
    short.append("Leandro ");
    short.append(base.as_str());
    assert(short@ =~= "Leandro "@ + base_name(given@));
    let mut full: String = short.clone();
    full.append(suffix.as_str());
    if full.as_str().as_bytes().len() < NAME_MAX {
        return full;
    }
    if short.as_str().as_bytes().len() < NAME_MAX {
        return short;
    }
    "Leandro GPU".to_owned()
}

/// The text that `String::from_utf8_lossy` reads from bytes.
pub uninterp spec fn lossy_text(b: Seq<u8>) -> Seq<char>;

/// `String::from_utf8_lossy`: the text of valid UTF-8 is that text; what it puts in
/// place of invalid bytes is left to it.
#[verifier::external_body]
pub(crate) fn from_utf8_lossy(b: &[u8]) -> (s: String)
    ensures
        s@ == lossy_text(b@),
        valid_utf8(b@) ==> encode_utf8(s@) == b@,
{
    String::from_utf8_lossy(b).to_string()
}

/// The bytes before the first zero byte.
pub open spec fn until_zero(b: Seq<u8>) -> Seq<u8>
    decreases b.len(),
{
    if b.len() == 0 || b[0] == 0 {
        Seq::empty()
    } else {
        seq![b[0]] + until_zero(b.skip(1))
    }
}

pub(crate) fn length_until_zero(b: &[u8], from: usize, to: usize) -> (n: usize)
    requires
        from <= to <= b@.len(),
    ensures
        from <= n <= to,
        b@.subrange(from as int, n as int) == until_zero(b@.subrange(from as int, to as int)),
    decreases to - from,
{
    let ghost s = b@.subrange(from as int, to as int);
    if from == to || b[from] == 0 {
        assert(b@.subrange(from as int, from as int) =~= Seq::empty());
        return from;
    }
    let n: usize = length_until_zero(b, from + 1, to);
    proof {
        assert(s.skip(1) =~= b@.subrange(from + 1, to as int));
        assert(b@.subrange(from as int, n as int) =~= seq![b@[from as int]] + b@.subrange(
            from + 1,
            n as int,
        ));
    }
    n
}

/// A name block with this name in it, ended and padded by zeros.
pub open spec fn named(aux: Seq<u8>, name: Seq<u8>) -> Seq<u8> {
    overlay(zeroed(aux, NAME_OFF as int, NAME_MAX as int), NAME_OFF as int, name)
}

/// Writes the name of the guest's card over the name that the driver gave. The new name,
/// or nothing for a buffer that is too short, which stays as it is.
pub fn rewrite_gpu_name(aux: &mut [u8], profile: Profile) -> (r: Option<String>)
    ensures
        if old(aux)@.len() < NAME_OFF + NAME_MAX {
            r is None && final(aux)@ == old(aux)@
        } else {
            let field = old(aux)@.subrange(NAME_OFF as int, NAME_OFF + NAME_MAX);
            let name = card_name(lossy_text(until_zero(field)), profile.fb_length);
            &&& r matches Some(s) && s@ == name
            &&& final(aux)@ == named(old(aux)@, encode_utf8(name))
            &&& encode_utf8(name).len() < NAME_MAX
        },
{
    if aux.len() < NAME_OFF + NAME_MAX {
        return None;
    }
    let end: usize = length_until_zero(aux, NAME_OFF, NAME_OFF + NAME_MAX);
    let raw: &[u8] = vstd::slice::slice_subrange(aux, NAME_OFF, end);
    let given: String = from_utf8_lossy(raw);
    let name: String = guest_card_name(given.as_str(), profile);
    proof {
        reveal_strlit("Leandro GPU");
        vstd::string::is_ascii_spec_bytes("Leandro GPU");
    }
    let b: &[u8] = name.as_str().as_bytes();
    put_zeros(aux, NAME_OFF, NAME_MAX);
    put_bytes(aux, NAME_OFF, b);
    Some(name)
}

/// Nothing but the figure and the processes changes in a process table.
#[verifier::rlimit(50)]
pub proof fn law_a_process_table_keeps_the_rest(aux: Seq<u8>, roster: Seq<RowView>, i: int)
    requires
        aux.len() >= 3812,
        0 <= i < aux.len(),
    ensures
        pids_answer(aux, roster).len() == aux.len(),
        i < 8 || i >= 3812 ==> pids_answer(aux, roster)[i] == aux[i],
        le32(pids_answer(aux, roster), 8) == (if roster.len() <= 950 {
            roster.len() as int
        } else {
            950
        }),
        forall|k: int|
            0 <= k < 950 ==> #[trigger] le32(pids_answer(aux, roster), 12 + 4 * k) == (if k
                < roster.len() {
                roster[k].guest_pid
            } else {
                0
            }),
{
    assert forall|k: int| 0 <= k < 950 implies #[trigger] le32(
        pids_answer(aux, roster),
        12 + 4 * k,
    ) == (if k < roster.len() {
        roster[k].guest_pid
    } else {
        0
    }) by {
        law_host_processes_do_not_survive(aux, roster, k);
    }
    law_host_processes_do_not_survive(aux, roster, 0);
}

proof fn lemma_first_row(roster: Seq<RowView>, pid: u32)
    ensures
        forall|k: int|
            #![trigger roster[k]]
            0 <= k < roster.len() && roster[k].guest_pid == pid && (forall|j: int|
                0 <= j < k ==> (#[trigger] roster[j]).guest_pid != pid) ==> bytes_of(roster, pid)
                == roster[k].bytes,
        (forall|k: int| 0 <= k < roster.len() ==> (#[trigger] roster[k]).guest_pid != pid)
            ==> bytes_of(roster, pid) == 0,
    decreases roster.len(),
{
    if roster.len() > 0 && roster[0].guest_pid != pid {
        let rest = roster.skip(1);
        lemma_first_row(rest, pid);
        assert forall|k: int|
            #![trigger roster[k]]
            0 <= k < roster.len() && roster[k].guest_pid == pid && (forall|j: int|
                0 <= j < k ==> (#[trigger] roster[j]).guest_pid != pid) implies bytes_of(
            roster,
            pid,
        ) == roster[k].bytes by {
            assert(rest[k - 1] == roster[k]);
            assert forall|j: int| 0 <= j < k - 1 implies (#[trigger] rest[j]).guest_pid != pid by {
                assert(rest[j] == roster[j + 1]);
            }
        }
        if forall|k: int| 0 <= k < roster.len() ==> (#[trigger] roster[k]).guest_pid != pid {
            assert forall|k: int| 0 <= k < rest.len() implies (#[trigger] rest[k]).guest_pid
                != pid by {
                assert(rest[k] == roster[k + 1]);
            }
        }
    }
}

/// A query about processes is answered for as many entries as it asks for, as fit, and as
/// there may be; the count says for how many.
pub proof fn law_a_query_is_answered_as_far_as_it_goes(
    abi: &Abi,
    aux: Seq<u8>,
    roster: Seq<RowView>,
)
    requires
        aux.len() >= 80,
    ensures
        ({
            let n = info_count(aux);
            let out = overlay(info_entries(abi, aux, roster, n), 0, bytes32(n as u32));
            &&& out.len() == aux.len()
            &&& 0 <= n <= 200 && n <= le32(aux, 0) && 8 + 72 * n <= aux.len()
            &&& n == 200 || n == le32(aux, 0) || 8 + 72 * (n + 1) > aux.len()
            &&& le32(out, 0) == n
        }),
{
    let n = info_count(aux);
    crate::bytes::law_word32_reads_back(info_entries(abi, aux, roster, n), 0, n as u32);
}

/// An answered entry that asks for the use of video memory gets, as its private memory, the
/// full bytes of the first row of the list with its process, and zero where no row has it.
/// Any other entry gets zero. The other figures are zero, the result is good, and what was
/// asked stays.
#[verifier::rlimit(50)]
pub proof fn law_an_answer_holds_the_full_figure(
    abi: &Abi,
    aux: Seq<u8>,
    roster: Seq<RowView>,
    i: int,
)
    requires
        aux.len() >= 80,
        0 <= i < info_count(aux),
    ensures
        ({
            let n = info_count(aux);
            let out = overlay(info_entries(abi, aux, roster, n), 0, bytes32(n as u32));
            let base = 8 + 72 * i;
            let pid = le32(aux, base);
            let index = le32(aux, base + 4);
            &&& index == abi.info.video_memory_usage ==> forall|k: int|
                #![trigger roster[k]]
                0 <= k < roster.len() && roster[k].guest_pid == pid && (forall|j: int|
                    0 <= j < k ==> (#[trigger] roster[j]).guest_pid != pid) ==> le64(out, base + 16)
                    == roster[k].bytes
            &&& (forall|k: int| 0 <= k < roster.len() ==> (#[trigger] roster[k]).guest_pid != pid)
                ==> le64(out, base + 16) == 0
            &&& index != abi.info.video_memory_usage ==> le64(out, base + 16) == 0
            &&& le32(out, base) == pid && le32(out, base + 4) == index
            &&& le32(out, base + 8) == 0
            &&& forall|p: int| base + 24 <= p < base + 64 ==> #[trigger] out[p] == 0
            &&& forall|p: int|
                base + 12 <= p < base + 16 || base + 64 <= p < base + 72 ==> #[trigger] out[p]
                    == aux[p]
        }),
{
    let n = info_count(aux);
    let mid = info_entries(abi, aux, roster, n);
    let out = overlay(mid, 0, bytes32(n as u32));
    let base = 8 + 72 * i;
    let v = info_bytes(abi, aux, roster, i);
    assert(8 + 72 * n <= aux.len());
    assert(base + 72 <= 8 + 72 * n);
    assert forall|p: int| base <= p < base + 72 implies #[trigger] out[p] == (if base + 8 <= p
        < base + 12 {
        bytes32(NV_OK)[p - base - 8]
    } else if base + 16 <= p < base + 24 {
        bytes64(v)[p - base - 16]
    } else if base + 24 <= p < base + 64 {
        0u8
    } else {
        aux[p]
    }) by {
        assert(out[p] == mid[p]);
        assert((p - 8) / 72 == i && (p - 8) % 72 == p - base);
    }
    crate::bytes::law_word64_reads_back(out, base + 16, v);
    assert(overlay(out, base + 16, bytes64(v)) =~= out);
    crate::bytes::law_word32_reads_back(out, base + 8, NV_OK);
    assert(overlay(out, base + 8, bytes32(NV_OK)) =~= out);
    crate::bytes::lemma_same_bytes_same_word(out, aux, base);
    crate::bytes::lemma_same_bytes_same_word(out, aux, base + 4);
    lemma_first_row(roster, le32(aux, base));
}

/// Outside the count and the answered entries, a query stays as it was.
pub proof fn law_a_query_keeps_the_rest(abi: &Abi, aux: Seq<u8>, roster: Seq<RowView>, p: int)
    requires
        aux.len() >= 80,
        4 <= p < 8 || 8 + 72 * info_count(aux) <= p < aux.len(),
    ensures
        overlay(
            info_entries(abi, aux, roster, info_count(aux)),
            0,
            bytes32(info_count(aux) as u32),
        )[p] == aux[p],
{
}

/// A size in KiB is the whole KiB of it, and the most that a word holds where that is less.
pub proof fn law_a_size_in_kib_is_rounded_down(b: u64)
    ensures
        kib(b) < u32::MAX ==> 1024 * kib(b) <= b < 1024 * (kib(b) + 1),
        kib(b) == u32::MAX <==> b >= 1024 * u32::MAX,
{
}

#[verifier::rlimit(50)]
proof fn lemma_capped_entry(
    abi: &Abi,
    buf: Seq<u8>,
    at: int,
    n: int,
    limit: u64,
    used: u64,
    i: int,
)
    requires
        0 <= at,
        0 <= i < n,
        at + 8 * n <= buf.len(),
    ensures
        ({
            let out = fb_entries(abi, buf, at, n, limit, used);
            let o = at + 8 * i;
            &&& le32(out, o) == le32(buf, o)
            &&& le32(out, o + 4) == match fb_word(abi, le32(buf, o), limit, used) {
                Some(v) => v,
                None => le32(buf, o + 4),
            }
        }),
{
    let out = fb_entries(abi, buf, at, n, limit, used);
    let o = at + 8 * i;
    assert(o + 8 <= at + 8 * n);
    let w = fb_word(abi, le32(buf, o), limit, used);
    assert forall|p: int| o <= p < o + 8 implies #[trigger] out[p] == (if p < o + 4 {
        buf[p]
    } else {
        match w {
            Some(v) => bytes32(v)[p - o - 4],
            None => buf[p],
        }
    }) by {
        lemma_capped_byte(abi, buf, at, n, limit, used, i, p);
    }
    lemma_word_of(out, buf, o, w);
}

proof fn lemma_capped_byte(
    abi: &Abi,
    buf: Seq<u8>,
    at: int,
    n: int,
    limit: u64,
    used: u64,
    i: int,
    p: int,
)
    requires
        0 <= at,
        0 <= i < n,
        at + 8 * n <= buf.len(),
        at + 8 * i <= p < at + 8 * i + 8,
    ensures
        fb_entries(abi, buf, at, n, limit, used)[p] == (if p < at + 8 * i + 4 {
            buf[p]
        } else {
            match fb_word(abi, le32(buf, at + 8 * i), limit, used) {
                Some(v) => bytes32(v)[p - at - 8 * i - 4],
                None => buf[p],
            }
        }),
{
    assert((p - at) / 8 == i && (p - at) % 8 == p - at - 8 * i);
}

#[verifier::rlimit(50)]
proof fn lemma_word_of(out: Seq<u8>, buf: Seq<u8>, o: int, w: Option<u32>)
    requires
        0 <= o,
        o + 8 <= buf.len(),
        out.len() == buf.len(),
        forall|p: int|
            o <= p < o + 8 ==> #[trigger] out[p] == (if p < o + 4 {
                buf[p]
            } else {
                match w {
                    Some(v) => bytes32(v)[p - o - 4],
                    None => buf[p],
                }
            }),
    ensures
        le32(out, o) == le32(buf, o),
        le32(out, o + 4) == match w {
            Some(v) => v,
            None => le32(buf, o + 4),
        },
{
    crate::bytes::lemma_same_bytes_same_word(out, buf, o);
    match w {
        Some(v) => {
            crate::bytes::law_word32_reads_back(out, o + 4, v);
            assert(overlay(out, o + 4, bytes32(v)) =~= out);
        },
        None => {
            crate::bytes::lemma_same_bytes_same_word(out, buf, o + 4);
        },
    }
}

/// A capped list: every entry that asks for a size of the card reads as the cap in KiB, one that
/// asks for what is free as what is left of the cap, and nothing else changes.
#[verifier::rlimit(50)]
pub proof fn law_a_capped_list_tells_of_the_cap(
    abi: &Abi,
    buf: Seq<u8>,
    at: int,
    n: int,
    limit: u64,
    used: u64,
    i: int,
)
    requires
        0 <= at,
        0 <= i < n,
        at + 8 * n <= buf.len(),
    ensures
        ({
            let out = fb_entries(abi, buf, at, n, limit, used);
            let o = at + 8 * i;
            let index = le32(buf, o);
            let sized = index == abi.info.ram_size || index == abi.info.total_ram_size || index
                == abi.info.heap_size || index == abi.info.usable_ram_size;
            &&& out.len() == buf.len()
            &&& le32(out, o) == index
            &&& sized && limit < 0x400_0000_0000 ==> le32(out, o + 4) == limit / 1024
            &&& sized && limit >= 0x400_0000_0000 ==> le32(out, o + 4) == 0xffff_ffff
            &&& !sized && index == abi.info.heap_free && used <= limit && limit - used
                < 0x400_0000_0000 ==> le32(out, o + 4) == (limit - used) / 1024
            &&& !sized && index == abi.info.heap_free && used <= limit && limit - used
                >= 0x400_0000_0000 ==> le32(out, o + 4) == 0xffff_ffff
            &&& !sized && index == abi.info.heap_free && used > limit ==> le32(out, o + 4) == 0
            &&& !sized && index != abi.info.heap_free ==> le32(out, o + 4) == le32(buf, o + 4)
            &&& forall|p: int|
                0 <= p < at || at + 8 * n <= p < buf.len() ==> #[trigger] out[p] == buf[p]
        }),
{
    lemma_capped_entry(abi, buf, at, n, limit, used, i);
}

/// As many entries are looked at as are asked for, fit, and may be; each one that names a size
/// counts once.
pub proof fn law_every_size_counts_once(
    abi: &Abi,
    buf: Seq<u8>,
    at: int,
    n: int,
    asked: int,
    room: int,
)
    requires
        0 <= n,
        0 <= asked,
        0 <= room,
    ensures
        fb_count(asked, room) <= asked && fb_count(asked, room) <= 128 && 8 * fb_count(asked, room)
            <= room,
        fb_count(asked, room) == asked || fb_count(asked, room) == 128 || 8 * (fb_count(asked, room)
            + 1) > room,
        fb_touched(abi, buf, at, 0) == 0,
        ({
            let index = le32(buf, at + 8 * n);
            fb_touched(abi, buf, at, n + 1) - fb_touched(abi, buf, at, n) == (if index
                == abi.info.ram_size || index == abi.info.total_ram_size || index
                == abi.info.heap_size || index == abi.info.usable_ram_size || index
                == abi.info.heap_free {
                1int
            } else {
                0
            })
        }),
{
}

/// A heap query tells of the cap and of what is left of it, and nothing else changes.
#[verifier::rlimit(50)]
pub proof fn law_a_heap_query_tells_of_the_cap(buf: Seq<u8>, limit: u64, used: u64)
    requires
        buf.len() >= 40,
    ensures
        ({
            let out = overlay(
                overlay(buf, 24, bytes64(limit)),
                32,
                bytes64(remaining(limit, used)),
            );
            &&& le64(out, 24) == limit
            &&& used <= limit ==> le64(out, 32) == limit - used
            &&& used > limit ==> le64(out, 32) == 0
            &&& forall|p: int|
                0 <= p < buf.len() && !(24 <= p < 40) ==> #[trigger] out[p] == buf[p]
        }),
{
    let mid = overlay(buf, 24, bytes64(limit));
    let out = overlay(mid, 32, bytes64(remaining(limit, used)));
    crate::bytes::law_word64_reads_back(buf, 24, limit);
    crate::bytes::law_word64_reads_back(mid, 32, remaining(limit, used));
    crate::bytes::lemma_same_bytes_same_word(out, mid, 24);
}

/// A prefix goes once, and only where it stands in front.
pub proof fn law_a_prefix_goes_once(s: Seq<char>, prefix: Seq<char>, rest: Seq<char>)
    ensures
        s == prefix + rest ==> stripped(s, prefix) == rest,
        (forall|r: Seq<char>| s != #[trigger] (prefix + r)) ==> stripped(s, prefix) == s,
{
    if s == prefix + rest {
        assert(s.take(prefix.len() as int) =~= prefix);
        assert(s.skip(prefix.len() as int) =~= rest);
    }
    if prefix.len() <= s.len() && s.take(prefix.len() as int) == prefix {
        assert(s =~= prefix + s.skip(prefix.len() as int));
    }
}

/// The name of a card loses the words of the vendor in front, in their order, and nothing else.
pub proof fn law_the_words_of_the_vendor_go(given: Seq<char>, rest: Seq<char>)
    ensures
        trimmed(given) == "NVIDIA "@ + ("GeForce "@ + rest) ==> base_name(given) == rest,
        trimmed(given) == "NVIDIA "@ + rest && (forall|r: Seq<char>|
            rest != #[trigger] ("GeForce "@ + r)) ==> base_name(given) == rest,
        trimmed(given) == rest && (forall|r: Seq<char>| rest != #[trigger] ("NVIDIA "@ + r)) && (
        forall|r: Seq<char>| rest != #[trigger] ("GeForce "@ + r)) ==> base_name(given) == rest,
        trimmed(given) == "GeForce "@ + rest ==> base_name(given) == rest,
{
    let t = trimmed(given);
    let v = "NVIDIA "@;
    let g = "GeForce "@;
    reveal_strlit("NVIDIA ");
    reveal_strlit("GeForce ");
    law_a_prefix_goes_once(t, v, g + rest);
    law_a_prefix_goes_once(g + rest, g, rest);
    law_a_prefix_goes_once(t, v, rest);
    law_a_prefix_goes_once(rest, g, rest);
    if t == g + rest {
        assert(t[0] == 'G');
        assert forall|r: Seq<char>| t != #[trigger] (v + r) by {
            assert((v + r)[0] == 'N');
        }
    }
}

/// The size behind a name: whole gibibytes are told in gibibytes, anything else in whole
/// mebibytes, and no size at all where there is no cap.
pub proof fn law_the_size_behind_a_name(limit: u64, g: nat, m: nat)
    ensures
        size_suffix(0).len() == 0,
        g > 0 && g * 0x4000_0000 <= limit < g * 0x4000_0000 + 0x10_0000 ==> size_suffix(limit)
            == seq!['-'] + decimal(g) + seq!['G'],
        limit > 0 && m * 0x10_0000 <= limit < (m + 1) * 0x10_0000 && (m % 1024 != 0 || m == 0)
            ==> size_suffix(limit) == seq!['-'] + decimal(m) + seq!['M'],
{
    reveal_strlit("-");
    reveal_strlit("G");
    reveal_strlit("M");
    assert("-"@ =~= seq!['-']);
    assert("G"@ =~= seq!['G']);
    assert("M"@ =~= seq!['M']);
    if g > 0 && g * 0x4000_0000 <= limit < g * 0x4000_0000 + 0x10_0000 {
        assert(mib(limit) == 1024 * g);
    }
    if limit > 0 && m * 0x10_0000 <= limit < (m + 1) * 0x10_0000 {
        assert(mib(limit) == m);
    }
}

/// The guest's card has the host's name behind `Leandro `, with the size where both fit into
/// the field with its terminator, without it where only the name does.
pub proof fn law_a_size_is_dropped_never_cut(given: Seq<char>, limit: u64)
    ensures
        ({
            let short = "Leandro "@ + base_name(given);
            let full = short + size_suffix(limit);
            &&& encode_utf8(full).len() <= 63 ==> card_name(given, limit) == full
            &&& encode_utf8(full).len() > 63 && encode_utf8(short).len() <= 63 ==> card_name(
                given,
                limit,
            ) == short
            &&& encode_utf8(full).len() > 63 && encode_utf8(short).len() > 63 ==> card_name(
                given,
                limit,
            ) == "Leandro GPU"@
        }),
{
}

/// What stands before the first zero byte is all that stands there.
pub proof fn law_a_text_ends_at_its_first_zero(b: Seq<u8>, k: int)
    requires
        0 <= k <= b.len(),
        forall|i: int| 0 <= i < k ==> #[trigger] b[i] != 0,
        k < b.len() ==> b[k] == 0,
    ensures
        until_zero(b) == b.take(k),
    decreases k,
{
    if k > 0 {
        assert forall|i: int| 0 <= i < k - 1 implies #[trigger] b.skip(1)[i] != 0 by {
            assert(b.skip(1)[i] == b[i + 1]);
        }
        law_a_text_ends_at_its_first_zero(b.skip(1), k - 1);
        assert(b.take(k) =~= seq![b[0]] + b.skip(1).take(k - 1));
    } else {
        assert(b.take(0) =~= Seq::empty());
    }
}

/// A name block holds the name, zeros behind it to the end of the field, and what it held
/// before and behind the field.
pub proof fn law_a_name_fills_its_field(aux: Seq<u8>, name: Seq<u8>, p: int)
    requires
        aux.len() >= 68,
        name.len() < 64,
        0 <= p < aux.len(),
    ensures
        named(aux, name).len() == aux.len(),
        p < 4 || 68 <= p ==> named(aux, name)[p] == aux[p],
        4 <= p < 4 + name.len() ==> named(aux, name)[p] == name[p - 4],
        4 + name.len() <= p < 68 ==> named(aux, name)[p] == 0,
{
}

} // verus!
