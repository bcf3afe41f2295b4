//! Little-endian words inside byte buffers.

use vstd::prelude::*;

verus! {

/// The 32-bit little-endian word at `off`.
pub open spec fn le32(s: Seq<u8>, off: int) -> u32 {
    (s[off] + 0x100 * s[off + 1] + 0x1_0000 * s[off + 2] + 0x100_0000 * s[off + 3]) as u32
}

/// The 64-bit little-endian word at `off`.
pub open spec fn le64(s: Seq<u8>, off: int) -> u64 {
    (le32(s, off) + 0x1_0000_0000 * le32(s, off + 4)) as u64
}

/// The four bytes of a 32-bit word, lowest first.
pub open spec fn bytes32(v: u32) -> Seq<u8> {
    seq![
        (v % 0x100) as u8,
        (v / 0x100 % 0x100) as u8,
        (v / 0x1_0000 % 0x100) as u8,
        (v / 0x100_0000) as u8,
    ]
}

/// The eight bytes of a 64-bit word, lowest first.
pub open spec fn bytes64(v: u64) -> Seq<u8> {
    bytes32((v % 0x1_0000_0000) as u32) + bytes32((v / 0x1_0000_0000) as u32)
}

/// `s` with the bytes from `off` on replaced by `d`; the rest stays.
pub open spec fn overlay(s: Seq<u8>, off: int, d: Seq<u8>) -> Seq<u8> {
    Seq::new(s.len(), |i: int| if off <= i < off + d.len() { d[i - off] } else { s[i] })
}

/// `s` with `n` zero bytes from `off` on.
pub open spec fn zeroed(s: Seq<u8>, off: int, n: int) -> Seq<u8> {
    Seq::new(s.len(), |i: int| if off <= i < off + n { 0u8 } else { s[i] })
}

/// A word that was written reads back as written.
pub proof fn law_word32_reads_back(s: Seq<u8>, off: int, v: u32)
    requires
        0 <= off,
        off + 4 <= s.len(),
    ensures
        le32(overlay(s, off, bytes32(v)), off) == v,
{
    let b = bytes32(v);
    let t = overlay(s, off, b);
    assert(t[off] == b[0] && t[off + 1] == b[1] && t[off + 2] == b[2] && t[off + 3] == b[3]);
    assert(v % 0x100 < 0x100 && v / 0x100 % 0x100 < 0x100 && v / 0x1_0000 % 0x100 < 0x100 && v
        / 0x100_0000 < 0x100 && v % 0x100 + 0x100 * (v / 0x100 % 0x100) + 0x1_0000 * (v / 0x1_0000
        % 0x100) + 0x100_0000 * (v / 0x100_0000) == v) by (bit_vector);
}

/// A double word that was written reads back as written.
pub proof fn law_word64_reads_back(s: Seq<u8>, off: int, v: u64)
    requires
        0 <= off,
        off + 8 <= s.len(),
    ensures
        le64(overlay(s, off, bytes64(v)), off) == v,
{
    let lo = (v % 0x1_0000_0000) as u32;
    let hi = (v / 0x1_0000_0000) as u32;
    let t = overlay(s, off, bytes64(v));
    let t_lo = overlay(s, off, bytes32(lo));
    let t_hi = overlay(s, off + 4, bytes32(hi));
    law_word32_reads_back(s, off, lo);
    law_word32_reads_back(s, off + 4, hi);
    assert(forall|i: int| off <= i < off + 4 ==> t[i] == t_lo[i]);
    assert(forall|i: int| off + 4 <= i < off + 8 ==> t[i] == t_hi[i]);
    assert(le32(t, off) == lo);
    assert(le32(t, off + 4) == hi);
}

/// Writing one range leaves every word outside it as it was.
pub proof fn law_writes_stay_in_their_range(s: Seq<u8>, off: int, d: Seq<u8>, at: int)
    requires
        0 <= off,
        off + d.len() <= s.len(),
        0 <= at,
        at + 4 <= s.len(),
        at + 4 <= off || off + d.len() <= at,
    ensures
        overlay(s, off, d).len() == s.len(),
        le32(overlay(s, off, d), at) == le32(s, at),
{
}

/// Reads the word at `off`.
pub fn get32(b: &[u8], off: usize) -> (v: u32)
    requires
        off + 4 <= b@.len(),
    ensures
        v == le32(b@, off as int),
{
    b[off] as u32 + 0x100 * b[off + 1] as u32 + 0x1_0000 * b[off + 2] as u32
        + 0x100_0000 * b[off + 3] as u32
}

/// Reads the double word at `off`.
pub fn get64(b: &[u8], off: usize) -> (v: u64)
    requires
        off + 8 <= b@.len(),
    ensures
        v == le64(b@, off as int),
{
    // What is there fits a usize, and so does every place in it.
    let _len: usize = b.len();
    get32(b, off) as u64 + 0x1_0000_0000 * get32(b, off + 4) as u64
}

/// The word at `off`, where the buffer holds one there.
pub fn u32_at(b: &[u8], off: usize) -> (v: Option<u32>)
    ensures
        v == (if off + 4 <= b@.len() {
            Some(le32(b@, off as int))
        } else {
            None
        }),
{
    if b.len() >= 4 && off <= b.len() - 4 {
        Some(get32(b, off))
    } else {
        None
    }
}

/// The double word at `off`, where the buffer holds one there.
pub fn u64_at(b: &[u8], off: usize) -> (v: Option<u64>)
    ensures
        v == (if off + 8 <= b@.len() {
            Some(le64(b@, off as int))
        } else {
            None
        }),
{
    if b.len() >= 8 && off <= b.len() - 8 {
        Some(get64(b, off))
    } else {
        None
    }
}

/// Writes the word `v` at `off`.
pub fn put32(b: &mut [u8], off: usize, v: u32)
    requires
        off + 4 <= old(b)@.len(),
    ensures
        final(b)@ == overlay(old(b)@, off as int, bytes32(v)),
{
    b[off] = (v % 0x100) as u8;
    b[off + 1] = (v / 0x100 % 0x100) as u8;
    b[off + 2] = (v / 0x1_0000 % 0x100) as u8;
    b[off + 3] = (v / 0x100_0000) as u8;
    assert(b@ =~= overlay(old(b)@, off as int, bytes32(v)));
}

/// Writes the double word `v` at `off`.
pub fn put64(b: &mut [u8], off: usize, v: u64)
    requires
        off + 8 <= old(b)@.len(),
    ensures
        final(b)@ == overlay(old(b)@, off as int, bytes64(v)),
{
    // What is there fits a usize, and so does every place in it.
    let _len: usize = b.len();
    put32(b, off, (v % 0x1_0000_0000) as u32);
    put32(b, off + 4, (v / 0x1_0000_0000) as u32);
    assert(b@ =~= overlay(old(b)@, off as int, bytes64(v)));
}

/// Copies all of `src` to `off`.
pub fn put_bytes(b: &mut [u8], off: usize, src: &[u8])
    requires
        off + src@.len() <= old(b)@.len(),
    ensures
        final(b)@ == overlay(old(b)@, off as int, src@),
{
    let len: usize = b.len();
    let mut i: usize = 0;
    while i < src.len()
        invariant
            i <= src@.len(),
            b@.len() == len,
            off + src@.len() <= len,
            b@ == overlay(old(b)@, off as int, src@.take(i as int)),
        decreases src@.len() - i,
    {
        b[off + i] = src[i];
        i = i + 1;
        assert(b@ =~= overlay(old(b)@, off as int, src@.take(i as int)));
    }
    assert(src@.take(i as int) =~= src@);
}

/// Zeroes `n` bytes from `off` on.
pub fn put_zeros(b: &mut [u8], off: usize, n: usize)
    requires
        off + n <= old(b)@.len(),
    ensures
        final(b)@ == zeroed(old(b)@, off as int, n as int),
{
    let len: usize = b.len();
    let mut i: usize = 0;
    while i < n
        invariant
            i <= n,
            b@.len() == len,
            off + n <= len,
            b@ == zeroed(old(b)@, off as int, i as int),
        decreases n - i,
    {
        b[off + i] = 0;
        i = i + 1;
        assert(b@ =~= zeroed(old(b)@, off as int, i as int));
    }
}

/// A copy of the bytes `from..to`.
pub fn copy_range(b: &[u8], from: usize, to: usize) -> (out: Vec<u8>)
    requires
        from <= to <= b@.len(),
    ensures
        out@ == b@.subrange(from as int, to as int),
{
    let mut out: Vec<u8> = Vec::new();
    let mut i: usize = from;
    while i < to
        invariant
            from <= i <= to <= b@.len(),
            out@ == b@.subrange(from as int, i as int),
        decreases to - i,
    {
        out.push(b[i]);
        i = i + 1;
        assert(out@ =~= b@.subrange(from as int, i as int));
    }
    out
}

/// The lowest byte of a word stands first, and the lower half of a double word.
#[verifier::rlimit(50)]
pub proof fn law_the_lowest_byte_comes_first(s: Seq<u8>, off: int)
    ensures
        le32(s, off) % 0x100 == s[off],
        le32(s, off) / 0x100 % 0x100 == s[off + 1],
        le32(s, off) / 0x1_0000 % 0x100 == s[off + 2],
        le32(s, off) / 0x100_0000 == s[off + 3],
        le64(s, off) % 0x1_0000_0000 == le32(s, off),
        le64(s, off) / 0x1_0000_0000 == le32(s, off + 4),
{
    let (a, b, c, d) = (s[off], s[off + 1], s[off + 2], s[off + 3]);
    let v = le32(s, off);
    assert(v == a + 0x100 * b + 0x1_0000 * c + 0x100_0000 * d);
    assert(v % 0x100 == a && v / 0x100 % 0x100 == b && v / 0x1_0000 % 0x100 == c && v / 0x100_0000
        == d) by (bit_vector)
        requires
            v == a + 0x100 * b + 0x1_0000 * c + 0x100_0000 * d,
    ;
    let (hi, w) = (le32(s, off + 4), le64(s, off));
    assert(w == v + 0x1_0000_0000 * hi);
    assert(w % 0x1_0000_0000 == v && w / 0x1_0000_0000 == hi) by (bit_vector)
        requires
            w == v + 0x1_0000_0000 * hi,
    ;
}

/// Writing a word, a double word or a run of bytes changes the bytes of that range, to those
/// that were given, and no other; zeroing a range makes its bytes zero, and no other.
pub proof fn law_a_write_changes_its_range_alone(s: Seq<u8>, off: int, d: Seq<u8>, n: int, i: int)
    requires
        0 <= i < s.len(),
    ensures
        overlay(s, off, d).len() == s.len(),
        off <= i < off + d.len() ==> overlay(s, off, d)[i] == d[i - off],
        !(off <= i < off + d.len()) ==> overlay(s, off, d)[i] == s[i],
        zeroed(s, off, n).len() == s.len(),
        off <= i < off + n ==> zeroed(s, off, n)[i] == 0,
        !(off <= i < off + n) ==> zeroed(s, off, n)[i] == s[i],
{
}

/// A word depends on its own bytes alone.
#[verifier::rlimit(50)]
pub proof fn lemma_same_bytes_same_word(s: Seq<u8>, t: Seq<u8>, off: int)
    ensures
        (forall|i: int| off <= i < off + 4 ==> #[trigger] s[i] == t[i]) ==> le32(s, off) == le32(
            t,
            off,
        ),
        (forall|i: int| off <= i < off + 8 ==> #[trigger] s[i] == t[i]) ==> le64(s, off) == le64(
            t,
            off,
        ),
{
    if forall|i: int| off <= i < off + 4 ==> #[trigger] s[i] == t[i] {
        assert(s[off] == t[off] && s[off + 1] == t[off + 1] && s[off + 2] == t[off + 2] && s[off
            + 3] == t[off + 3]);
    }
    if forall|i: int| off <= i < off + 8 ==> #[trigger] s[i] == t[i] {
        assert(s[off] == t[off] && s[off + 1] == t[off + 1] && s[off + 2] == t[off + 2] && s[off
            + 3] == t[off + 3]);
        assert(s[off + 4] == t[off + 4] && s[off + 5] == t[off + 5] && s[off + 6] == t[off + 6]
            && s[off + 7] == t[off + 7]);
    }
}

} // verus!
