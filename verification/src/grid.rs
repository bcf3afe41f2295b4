//! The identity of the card as the guest sees it, and the encoder share it is told.
//!
//! UUIDs are translated both ways. The encoder share is reported, not enforced. The
//! virtualization mode is reported only on request.

use crate::abi::Abi;
use crate::bytes::{
    bytes32, copy_range, law_word32_reads_back, le32, lemma_same_bytes_same_word, overlay, put32,
    put_bytes,
};
use crate::text::{
    chars_of, eq_ignore_case, hex_digit, is_trimmed, law_every_text_can_be_trimmed,
    law_outer_white_space_is_trimmed, law_trimming_is_unique, lemma_trimming_ends, lowered,
    push_hex_byte, same_ignoring_case, string_of, trim, trimmed, white_space,
};
use vstd::prelude::*;
use vstd::utf8::encode_utf8;

verus! {

/// The virtualization mode of a vGPU guest.
pub const VIRTUALIZATION_MODE_VGX: u32 = 2;

/// Reports the vGPU mode and a GRID build. The mode, or nothing for a shorter answer.
pub fn rewrite_virtualization_mode(abi: &Abi, aux: &mut [u8]) -> (r: Option<u32>)
    requires
        abi.wf(),
    ensures
        if old(aux)@.len() < abi.answers.virtmode_len {
            r is None && final(aux)@ == old(aux)@
        } else {
            &&& r == Some(VIRTUALIZATION_MODE_VGX)
            &&& final(aux)@ == overlay(
                overlay(old(aux)@, 0, bytes32(VIRTUALIZATION_MODE_VGX)),
                abi.answers.virtmode_gridbuild as int,
                seq![1u8],
            )
            &&& le32(final(aux)@, 0) == 2
            &&& final(aux)@[abi.answers.virtmode_gridbuild as int] == 1
            &&& forall|i: int|
                4 <= i < old(aux)@.len() && i != abi.answers.virtmode_gridbuild
                    ==> #[trigger] final(aux)@[i] == old(aux)@[i]
        },
{
    if aux.len() < abi.answers.virtmode_len {
        return None;
    }
    put32(aux, 0, VIRTUALIZATION_MODE_VGX);
    let ghost mid = aux@;
    aux[abi.answers.virtmode_gridbuild] = 1;
    assert(aux@ =~= overlay(mid, abi.answers.virtmode_gridbuild as int, seq![1u8]));
    proof {
        law_word32_reads_back(old(aux)@, 0, VIRTUALIZATION_MODE_VGX);
        lemma_same_bytes_same_word(aux@, mid, 0);
    }
    Some(VIRTUALIZATION_MODE_VGX)
}

/// Reports a share of the encoder, and leaves the question alone. The share, or nothing
/// for a shorter answer or a share that is not worth a rewrite: none stands for no policy,
/// and the whole encoder is what the card says anyway.
pub fn rewrite_encoder_capacity(abi: &Abi, aux: &mut [u8], percent: u32) -> (r: Option<u32>)
    requires
        abi.wf(),
    ensures
        if old(aux)@.len() < abi.answers.enccap_len || percent == 0 || percent >= 100 {
            r is None && final(aux)@ == old(aux)@
        } else {
            &&& r == Some(percent)
            &&& final(aux)@ == overlay(
                old(aux)@,
                abi.answers.enccap_off as int,
                bytes32(percent),
            )
            &&& le32(final(aux)@, abi.answers.enccap_off as int) == percent
            &&& forall|i: int|
                0 <= i < old(aux)@.len() && !(abi.answers.enccap_off <= i
                    < abi.answers.enccap_off + 4) ==> #[trigger] final(aux)@[i] == old(aux)@[i]
        },
{
    proof {
        if aux@.len() >= abi.answers.enccap_len {
            law_word32_reads_back(aux@, abi.answers.enccap_off as int, percent);
        }
    }
    if aux.len() < abi.answers.enccap_len || percent == 0 || percent >= 100 {
        return None;
    }
    put32(aux, abi.answers.enccap_off, percent);
    Some(percent)
}

/// What is rewritten for the guest.
#[derive(Clone, Copy, Debug, PartialEq, Eq, Structural)]
pub struct Switches {
    pub mode: bool,
    pub uuid: bool,
    pub enc: bool,
}

/// Whether `raw.subrange(i, j)` is one of the pieces between the commas.
pub open spec fn is_piece(raw: Seq<char>, i: int, j: int) -> bool {
    &&& 0 <= i <= j <= raw.len()
    &&& i == 0 || raw[i - 1] == ','
    &&& j == raw.len() || raw[j] == ','
    &&& forall|k: int| i <= k < j ==> raw[k] != ','
}

/// Whether one of the pieces between the commas is this word, up to blanks around it
/// and the case of its letters.
pub open spec fn lists(raw: Seq<char>, word: Seq<char>) -> bool {
    exists|i: int, j: int| #[trigger]
        is_piece(raw, i, j) && same_ignoring_case(trimmed(raw.subrange(i, j)), word)
}

/// What a setting asks to be rewritten: by default the UUID and the encoder share.
pub open spec fn switches_of(raw: Seq<char>) -> Switches {
    let t = trimmed(raw);
    if t.len() == 0 {
        Switches { mode: false, uuid: true, enc: true }
    } else if same_ignoring_case(t, "none"@) {
        Switches { mode: false, uuid: false, enc: false }
    } else {
        Switches {
            mode: lists(t, "all"@) || lists(t, "mode"@),
            uuid: lists(t, "all"@) || lists(t, "uuid"@),
            enc: lists(t, "all"@) || lists(t, "enc"@),
        }
    }
}

/// Whether a text is nothing but white space.
pub open spec fn blank(raw: Seq<char>) -> bool {
    forall|k: int| 0 <= k < raw.len() ==> white_space(#[trigger] raw[k])
}

proof fn lemma_pieces_inward(raw: Seq<char>, word: Seq<char>, t: Seq<char>, a: int, b: int)
    requires
        word.len() > 0,
        0 <= a <= b <= raw.len(),
        t == raw.subrange(a, b),
        forall|k: int| 0 <= k < a ==> white_space(#[trigger] raw[k]),
        forall|k: int| b <= k < raw.len() ==> white_space(#[trigger] raw[k]),
        lists(raw, word),
    ensures
        lists(t, word),
{
    let (i, j) = choose|i: int, j: int| #[trigger]
        is_piece(raw, i, j) && same_ignoring_case(trimmed(raw.subrange(i, j)), word);
    let piece = raw.subrange(i, j);
    law_every_text_can_be_trimmed(piece);
    let (p, q) = lemma_trimming_ends(piece, trimmed(piece));
    assert(trimmed(piece)[0] == piece[p]);
    assert(piece[p] == raw[i + p]);
    assert(a <= i + p < b);
    let (c, d) = (
        if i < a {
            a
        } else {
            i
        },
        if j > b {
            b
        } else {
            j
        },
    );
    assert forall|k: int| 0 <= k < c - i implies white_space(#[trigger] piece[k]) by {
        assert(piece[k] == raw[i + k]);
    }
    assert forall|k: int| d - i <= k < piece.len() implies white_space(#[trigger] piece[k]) by {
        assert(piece[k] == raw[i + k]);
    }
    law_outer_white_space_is_trimmed(piece, c - i, d - i);
    assert(piece.subrange(c - i, d - i) =~= t.subrange(c - a, d - a));
    assert(is_piece(t, c - a, d - a)) by {
        if c > a {
            assert(raw[i - 1] == t[c - a - 1]);
        }
        if d < b {
            assert(raw[j] == t[d - a]);
        }
        assert forall|k: int| c - a <= k < d - a implies t[k] != ',' by {
            assert(t[k] == raw[a + k]);
        }
    }
}

proof fn lemma_pieces_outward(raw: Seq<char>, word: Seq<char>, t: Seq<char>, a: int, b: int)
    requires
        word.len() > 0,
        0 <= a <= b <= raw.len(),
        t == raw.subrange(a, b),
        forall|k: int| 0 <= k < a ==> white_space(#[trigger] raw[k]),
        forall|k: int| b <= k < raw.len() ==> white_space(#[trigger] raw[k]),
        lists(t, word),
    ensures
        lists(raw, word),
{
    let (i, j) = choose|i: int, j: int| #[trigger]
        is_piece(t, i, j) && same_ignoring_case(trimmed(t.subrange(i, j)), word);
    let (c, d) = (
        if i == 0 {
            0
        } else {
            a + i
        },
        if j == t.len() {
            raw.len() as int
        } else {
            a + j
        },
    );
    let piece = raw.subrange(c, d);
    assert(piece.subrange(a + i - c, a + j - c) =~= t.subrange(i, j));
    assert forall|k: int| 0 <= k < a + i - c implies white_space(#[trigger] piece[k]) by {
        assert(piece[k] == raw[c + k]);
    }
    assert forall|k: int| a + j - c <= k < piece.len() implies white_space(
        #[trigger] piece[k],
    ) by {
        assert(piece[k] == raw[c + k]);
    }
    law_outer_white_space_is_trimmed(piece, a + i - c, a + j - c);
    assert(is_piece(raw, c, d)) by {
        if i > 0 {
            assert(t[i - 1] == raw[c - 1]);
        }
        if j < t.len() {
            assert(t[j] == raw[d]);
        }
        assert forall|k: int| c <= k < d implies raw[k] != ',' by {
            if a <= k < b {
                assert(t[k - a] == raw[k]);
            } else {
                assert(white_space(raw[k]));
            }
        }
    }
}

proof fn lemma_trimmed_pieces(raw: Seq<char>, word: Seq<char>)
    requires
        word.len() > 0,
    ensures
        lists(raw, word) == lists(trimmed(raw), word),
        blank(raw) == (trimmed(raw).len() == 0),
{
    let t = trimmed(raw);
    law_every_text_can_be_trimmed(raw);
    let (a, b) = lemma_trimming_ends(raw, t);
    if t.len() > 0 {
        assert(t[0] == raw[a]);
    }
    if lists(raw, word) {
        lemma_pieces_inward(raw, word, t, a, b);
    }
    if lists(t, word) {
        lemma_pieces_outward(raw, word, t, a, b);
    }
}

proof fn lemma_none_lists_nothing(t: Seq<char>, word: Seq<char>)
    requires
        same_ignoring_case(t, "none"@),
        !same_ignoring_case(word, "none"@),
    ensures
        !lists(t, word),
{
    reveal_strlit("none");
    let none = "none"@;
    assert(lowered(t[0]) == lowered(none[0]) && lowered(t[1]) == lowered(none[1]));
    assert(lowered(t[2]) == lowered(none[2]) && lowered(t[3]) == lowered(none[3]));
    if lists(t, word) {
        let (i, j) = choose|i: int, j: int| #[trigger]
            is_piece(t, i, j) && same_ignoring_case(trimmed(t.subrange(i, j)), word);
        assert(i == 0) by {
            if i > 0 {
                assert(t[i - 1] == ',');
            }
        }
        assert(j == t.len()) by {
            if j < t.len() {
                assert(t[j] == ',');
            }
        }
        assert(t.subrange(0, t.len() as int) =~= t);
        assert(is_trimmed(t, t));
        law_every_text_can_be_trimmed(t);
        law_trimming_is_unique(t, t, trimmed(t));
        assert forall|k: int| 0 <= k < word.len() implies lowered(#[trigger] word[k]) == lowered(
            none[k],
        ) by {
            assert(lowered(t[k]) == lowered(word[k]));
            assert(lowered(t[k]) == lowered(none[k]));
        }
    }
}

/// A setting is read part by part: something is rewritten where one of the parts between the
/// commas names it or says that all is, up to the white space around it and the case of its
/// letters. The UUID and the encoder share are rewritten where nothing is set, too; the mode
/// is not.
pub proof fn law_a_setting_is_read_part_by_part(raw: Seq<char>)
    ensures
        switches_of(raw).mode == (lists(raw, "mode"@) || lists(raw, "all"@)),
        switches_of(raw).uuid == (blank(raw) || lists(raw, "uuid"@) || lists(raw, "all"@)),
        switches_of(raw).enc == (blank(raw) || lists(raw, "enc"@) || lists(raw, "all"@)),
        blank(raw) ==> !lists(raw, "mode"@) && !lists(raw, "all"@),
{
    reveal_strlit("none");
    reveal_strlit("all");
    reveal_strlit("mode");
    reveal_strlit("uuid");
    reveal_strlit("enc");
    let t = trimmed(raw);
    lemma_trimmed_pieces(raw, "all"@);
    lemma_trimmed_pieces(raw, "mode"@);
    lemma_trimmed_pieces(raw, "uuid"@);
    lemma_trimmed_pieces(raw, "enc"@);
    if t.len() == 0 {
        lemma_nothing_listed(t, "all"@);
        lemma_nothing_listed(t, "mode"@);
    } else if same_ignoring_case(t, "none"@) {
        assert(lowered("mode"@[0]) != lowered("none"@[0]));
        assert(lowered("uuid"@[0]) != lowered("none"@[0]));
        lemma_none_lists_nothing(t, "all"@);
        lemma_none_lists_nothing(t, "mode"@);
        lemma_none_lists_nothing(t, "uuid"@);
        lemma_none_lists_nothing(t, "enc"@);
    }
}

proof fn lemma_nothing_listed(t: Seq<char>, word: Seq<char>)
    requires
        t.len() == 0,
        word.len() > 0,
    ensures
        !lists(t, word),
{
    if lists(t, word) {
        let (i, j) = choose|i: int, j: int| #[trigger]
            is_piece(t, i, j) && same_ignoring_case(trimmed(t.subrange(i, j)), word);
        law_every_text_can_be_trimmed(t.subrange(i, j));
    }
}

fn has(raw: &[char], word: &str) -> (r: bool)
    ensures
        r == lists(raw@, word@),
{
    let mut start: usize = 0;
    let mut end: usize = 0;
    let n: usize = raw.len();
    loop
        invariant
            start <= end <= n,
            n == raw@.len(),
            start == 0 || raw@[start - 1] == ',',
            forall|k: int| start <= k < end ==> raw@[k] != ',',
            forall|i: int, j: int| #[trigger]
                is_piece(raw@, i, j) && i < start ==> !same_ignoring_case(
                    trimmed(raw@.subrange(i, j)),
                    word@,
                ),
        decreases n - end,
    {
        if end == n || raw[end] == ',' {
            let piece: String = string_of(vstd::slice::slice_subrange(raw, start, end));
            assert(piece@ =~= raw@.subrange(start as int, end as int));
            assert(is_piece(raw@, start as int, end as int));
            if eq_ignore_case(trim(piece.as_str()), word) {
                return true;
            }
            proof {
                assert forall|i: int, j: int| #[trigger]
                    is_piece(raw@, i, j) && i <= end implies !same_ignoring_case(
                    trimmed(raw@.subrange(i, j)),
                    word@,
                ) by {
                    if i >= start {
                        if i > start {
                            assert(raw@[i - 1] == ',');
                        }
                        assert(i == start);
                        if j < end {
                            assert(raw@[j] == ',');
                        }
                        if end < j {
                            assert(raw@[end as int] == ',');
                        }
                        assert(j == end);
                    }
                }
            }
            if end == n {
                return false;
            }
            start = end + 1;
            end = end + 1;
        } else {
            end = end + 1;
        }
    }
}

/// What a setting asks to be rewritten.
pub fn switches(raw: &str) -> (r: Switches)
    ensures
        r == switches_of(raw@),
{
    let t: &str = trim(raw);
    if t.is_empty() {
        return Switches { mode: false, uuid: true, enc: true };
    }
    if eq_ignore_case(t, "none") {
        return Switches { mode: false, uuid: false, enc: false };
    }
    let cs: Vec<char> = chars_of(t);
    let all: bool = has(&cs, "all");
    Switches {
        mode: all || has(&cs, "mode"),
        uuid: all || has(&cs, "uuid"),
        enc: all || has(&cs, "enc"),
    }
}

/// Whether the virtualization mode is rewritten.
pub fn mediate_mode(s: &Switches) -> (r: bool)
    ensures
        r == s.mode,
{
    s.mode
}

/// Whether the UUID is rewritten.
pub fn mediate_uuid(s: &Switches) -> (r: bool)
    ensures
        r == s.uuid,
{
    s.uuid
}

/// Whether the encoder share is rewritten.
pub fn mediate_enc(s: &Switches) -> (r: bool)
    ensures
        r == s.enc,
{
    s.enc
}

/// The parent of a path, as `std::path::Path::parent` finds it.
pub uninterp spec fn parent_text(path: Seq<char>) -> Option<Seq<char>>;

/// `std::path::Path::parent`, on a path that is text: the same for the same path.
#[verifier::external_body]
fn path_parent(path: &str) -> (r: Option<String>)
    ensures
        match (r, parent_text(path@)) {
            (Some(s), Some(want)) => s@ == want,
            (None, None) => true,
            _ => false,
        },
{
    std::path::Path::new(path).parent().map(|p| p.to_string_lossy().to_string())
}

/// The last component of a path, as `std::path::Path::file_name` finds it.
pub uninterp spec fn file_name_text(path: Seq<char>) -> Option<Seq<char>>;

/// `std::path::Path::file_name`, on a path that is text: the same for the same path.
#[verifier::external_body]
fn path_file_name(path: &str) -> (r: Option<String>)
    ensures
        match (r, file_name_text(path@)) {
            (Some(s), Some(want)) => s@ == want,
            (None, None) => true,
            _ => false,
        },
{
    std::path::Path::new(path).file_name().map(|n| n.to_string_lossy().to_string())
}

/// A file name without its extension: what stands before the last dot, unless the name has no
/// dot or begins with its only one.
pub open spec fn stem(name: Seq<char>) -> Seq<char> {
    match name.index_of_last('.') {
        Some(i) => if i > 0 {
            name.take(i)
        } else {
            name
        },
        None => name,
    }
}

/// `std::path::Path::file_stem`, on a path that is text: the stem of the last component where
/// there is one.
#[verifier::external_body]
fn path_file_stem(path: &str) -> (r: Option<String>)
    ensures
        match (r, file_name_text(path@)) {
            (Some(s), Some(name)) => s@ == stem(name),
            (None, None) => true,
            _ => false,
        },
{
    std::path::Path::new(path).file_stem().map(|n| n.to_string_lossy().to_string())
}

/// A part of a name; an absent one is empty.
pub open spec fn part(o: Option<Seq<char>>) -> Seq<char> {
    match o {
        Some(s) => s,
        None => Seq::empty(),
    }
}

/// The name of a VM, from the directory and the stem of its socket.
pub open spec fn socket_name(path: Seq<char>) -> Seq<char> {
    let dir = match parent_text(path) {
        Some(d) => file_name_text(d),
        None => None,
    };
    let name = match file_name_text(path) {
        Some(n) => Some(stem(n)),
        None => None,
    };
    part(dir) + "/"@ + part(name)
}

/// The name of a VM from the two parts of its socket's path.
pub fn vm_name(dir: Option<String>, stem: Option<String>) -> (r: String)
    ensures
        r@ == part(
            match dir {
                Some(s) => Some(s@),
                None => None,
            },
        ) + "/"@ + part(
            match stem {
                Some(s) => Some(s@),
                None => None,
            },
        ),
{
    let mut r: String = String::new();
    if let Some(d) = dir {
        r.append(d.as_str());
    }
    r.append("/");
    if let Some(s) = stem {
        r.append(s.as_str());
    }
    assert(r@ =~= part(
        match dir {
            Some(s) => Some(s@),
            None => None,
        },
    ) + "/"@ + part(
        match stem {
            Some(s) => Some(s@),
            None => None,
        },
    ));
    r
}

/// The name of a VM: the directory of its socket and the socket's stem.
pub fn name_from_socket(socket: &str) -> (r: String)
    ensures
        r@ == socket_name(socket@),
{
    let dir: Option<String> = match path_parent(socket) {
        Some(d) => path_file_name(d.as_str()),
        None => None,
    };
    vm_name(dir, path_file_stem(socket))
}

/// The start of an FNV-1a hash.
pub const FNV_BASIS: u64 = 0xcbf2_9ce4_8422_2325;

/// The factor of an FNV-1a hash.
pub const FNV_PRIME: u64 = 0x0000_0100_0000_01b3;

/// The FNV-1a hash of bytes.
pub open spec fn fnv(s: Seq<u8>) -> u64
    decreases s.len(),
{
    if s.len() == 0 {
        FNV_BASIS
    } else {
        (fnv(s.drop_last()) ^ (s.last() as u64)).wrapping_mul(FNV_PRIME)
    }
}

/// The FNV-1a hash of bytes.
pub fn fnv1a(seed: &[u8]) -> (h: u64)
    ensures
        h == fnv(seed@),
{
    let mut h: u64 = FNV_BASIS;
    let mut i: usize = 0;
    while i < seed.len()
        invariant
            i <= seed@.len(),
            h == fnv(seed@.take(i as int)),
        decreases seed@.len() - i,
    {
        assert(seed@.take(i + 1).drop_last() =~= seed@.take(i as int));
        h = (h ^ seed[i] as u64).wrapping_mul(FNV_PRIME);
        i = i + 1;
    }
    assert(seed@.take(i as int) =~= seed@);
    h
}

/// The byte `i` of a 64-bit word, highest first.
pub open spec fn be_byte(v: u64, i: int) -> u8 {
    if i == 0 {
        (v / 0x100_0000_0000_0000) as u8
    } else if i == 1 {
        (v / 0x1_0000_0000_0000 % 0x100) as u8
    } else if i == 2 {
        (v / 0x100_0000_0000 % 0x100) as u8
    } else if i == 3 {
        (v / 0x1_0000_0000 % 0x100) as u8
    } else if i == 4 {
        (v / 0x100_0000 % 0x100) as u8
    } else if i == 5 {
        (v / 0x1_0000 % 0x100) as u8
    } else if i == 6 {
        (v / 0x100 % 0x100) as u8
    } else {
        (v % 0x100) as u8
    }
}

fn byte_of(v: u64, i: usize) -> (b: u8)
    requires
        i < 8,
    ensures
        b == be_byte(v, i as int),
{
    if i == 0 {
        (v / 0x100_0000_0000_0000) as u8
    } else if i == 1 {
        (v / 0x1_0000_0000_0000 % 0x100) as u8
    } else if i == 2 {
        (v / 0x100_0000_0000 % 0x100) as u8
    } else if i == 3 {
        (v / 0x1_0000_0000 % 0x100) as u8
    } else if i == 4 {
        (v / 0x100_0000 % 0x100) as u8
    } else if i == 5 {
        (v / 0x1_0000 % 0x100) as u8
    } else if i == 6 {
        (v / 0x100 % 0x100) as u8
    } else {
        (v % 0x100) as u8
    }
}

/// The UUID of a VM by its name: two hashes, with the bits of version 4 and variant 1.
pub open spec fn uuid_of(name: Seq<u8>) -> Seq<u8> {
    let a = fnv(name);
    let b = fnv(name + encode_utf8("/leandro-vgpu"@));
    Seq::new(
        16,
        |i: int|
            if i == 6 {
                (be_byte(a, 6) % 16 + 64) as u8
            } else if i == 8 {
                (be_byte(b, 0) % 64 + 128) as u8
            } else if i < 8 {
                be_byte(a, i)
            } else {
                be_byte(b, i - 8)
            },
    )
}

/// The UUID of a VM by its name. It is stable, and holds nothing of the card's own.
pub fn vm_uuid(name: &str) -> (u: [u8; 16])
    ensures
        u@ == uuid_of(encode_utf8(name@)),
{
    let bytes: &[u8] = name.as_bytes();
    let tail: &[u8] = "/leandro-vgpu".as_bytes();
    let a: u64 = fnv1a(bytes);
    let mut both: Vec<u8> = copy_range(bytes, 0, bytes.len());
    let mut i: usize = 0;
    while i < tail.len()
        invariant
            i <= tail@.len(),
            both@ == bytes@ + tail@.take(i as int),
        decreases tail@.len() - i,
    {
        both.push(tail[i]);
        i = i + 1;
        assert(both@ =~= bytes@ + tail@.take(i as int));
    }
    assert(both@ =~= bytes@ + tail@);
    let b: u64 = fnv1a(&both);
    let u: [u8; 16] = [
        byte_of(a, 0),
        byte_of(a, 1),
        byte_of(a, 2),
        byte_of(a, 3),
        byte_of(a, 4),
        byte_of(a, 5),
        byte_of(a, 6) % 16 + 64,
        byte_of(a, 7),
        byte_of(b, 0) % 64 + 128,
        byte_of(b, 1),
        byte_of(b, 2),
        byte_of(b, 3),
        byte_of(b, 4),
        byte_of(b, 5),
        byte_of(b, 6),
        byte_of(b, 7),
    ];
    assert(u@ =~= uuid_of(encode_utf8(name@)));
    u
}

/// Every VM's UUID says version 4 and variant 1.
pub proof fn law_uuid_version_and_variant(name: Seq<u8>)
    ensures
        uuid_of(name).len() == 16,
        uuid_of(name)[6] / 16 == 4,
        uuid_of(name)[8] / 64 == 2,
{
}

/// The hexadecimal digits of bytes.
pub open spec fn hex_of(b: Seq<u8>) -> Seq<char> {
    Seq::new(
        2 * b.len(),
        |i: int|
            hex_digit(
                if i % 2 == 0 {
                    b[i / 2] as int / 16
                } else {
                    b[i / 2] as int % 16
                },
            ),
    )
}

/// A UUID as the driver writes it: `GPU-` and five groups of hexadecimal digits.
pub open spec fn uuid_text(u: Seq<u8>) -> Seq<char> {
    "GPU-"@ + hex_of(u.subrange(0, 4)) + "-"@ + hex_of(u.subrange(4, 6)) + "-"@ + hex_of(
        u.subrange(6, 8),
    ) + "-"@ + hex_of(u.subrange(8, 10)) + "-"@ + hex_of(u.subrange(10, 16))
}

fn push_hex(s: &mut String, u: &[u8; 16], from: usize, to: usize)
    requires
        from <= to <= 16,
    ensures
        final(s)@ == old(s)@ + hex_of(u@.subrange(from as int, to as int)),
{
    let mut i: usize = from;
    proof {
        assert(s@ =~= old(s)@ + hex_of(u@.subrange(from as int, from as int)));
    }
    while i < to
        invariant
            from <= i <= to <= 16,
            s@ == old(s)@ + hex_of(u@.subrange(from as int, i as int)),
        decreases to - i,
    {
        push_hex_byte(s, u[i]);
        i = i + 1;
        assert(s@ =~= old(s)@ + hex_of(u@.subrange(from as int, i as int)));
    }
}

/// A UUID as the driver writes it.
pub fn format_uuid(u: &[u8; 16]) -> (s: String)
    ensures
        s@ == uuid_text(u@),
{
    let mut s: String = String::new();
    s.append("GPU-");
    push_hex(&mut s, u, 0, 4);
    s.append("-");
    push_hex(&mut s, u, 4, 6);
    s.append("-");
    push_hex(&mut s, u, 6, 8);
    s.append("-");
    push_hex(&mut s, u, 8, 10);
    s.append("-");
    push_hex(&mut s, u, 10, 16);
    assert(s@ =~= uuid_text(u@));
    s
}

/// Whether these bytes stand at this offset.
pub open spec fn stands(buf: Seq<u8>, what: Seq<u8>, o: int) -> bool {
    0 <= o && o + what.len() <= buf.len() && buf.subrange(o, o + what.len()) == what
}

/// `buf` with every value that stands at a multiple of four from `o` on replaced, one
/// after the other.
pub open spec fn swapped(buf: Seq<u8>, o: int, from: Seq<u8>, to: Seq<u8>) -> Seq<u8>
    decreases buf.len() + 4 - o,
    when 0 <= o
{
    if o + from.len() > buf.len() || o >= buf.len() {
        buf
    } else {
        swapped(
            if stands(buf, from, o) {
                overlay(buf, o, to)
            } else {
                buf
            },
            o + 4,
            from,
            to,
        )
    }
}

fn stands_at(buf: &[u8], what: &[u8], o: usize) -> (r: bool)
    requires
        o + what@.len() <= buf@.len(),
    ensures
        r == stands(buf@, what@, o as int),
{
    let len: usize = buf.len();
    let mut i: usize = 0;
    while i < what.len()
        invariant
            i <= what@.len(),
            len == buf@.len(),
            o + what@.len() <= len,
            forall|k: int| 0 <= k < i ==> buf@[o + k] == what@[k],
        decreases what@.len() - i,
    {
        if buf[o + i] != what[i] {
            assert(buf@.subrange(o as int, o + what@.len())[i as int] != what@[i as int]);
            return false;
        }
        i = i + 1;
    }
    assert(buf@.subrange(o as int, o + what@.len()) =~= what@);
    true
}

fn swap(buf: &mut [u8], from: &[u8], to: &[u8])
    requires
        from@.len() == to@.len(),
        from@.len() > 0,
        old(buf)@.len() + 4 <= usize::MAX,
    ensures
        final(buf)@ == swapped(old(buf)@, 0, from@, to@),
{
    let n: usize = from.len();
    let len: usize = buf.len();
    let mut o: usize = 0;
    while o <= len && n <= len - o
        invariant
            n == from@.len(),
            n == to@.len(),
            n > 0,
            len == buf@.len(),
            len + 4 <= usize::MAX,
            old(buf)@.len() == len,
            o <= len + 4,
            swapped(buf@, o as int, from@, to@) == swapped(old(buf)@, 0, from@, to@),
        decreases len + 4 - o,
    {
        if stands_at(buf, from, o) {
            put_bytes(buf, o, to);
        }
        o = o + 4;
    }
}

/// The card: its own UUID and the VM's, and its memory in bytes.
#[derive(Debug)]
pub struct Card {
    pub host: [u8; 16],
    pub guest: [u8; 16],
    pub total: u64,
    /// The card's own UUID as text.
    pub ascii_host: String,
    /// The VM's UUID as text.
    pub ascii_guest: String,
}

impl Card {
    /// The texts are those of the UUIDs.
    pub open spec fn wf(&self) -> bool {
        &&& self.ascii_host@ == uuid_text(self.host@)
        &&& self.ascii_guest@ == uuid_text(self.guest@)
    }

    /// The card that serves the VM behind a socket.
    pub fn new(socket: &str, host: [u8; 16], total: u64) -> (c: Card)
        ensures
            c.wf(),
            c.host == host,
            c.total == total,
            c.guest@ == uuid_of(encode_utf8(socket_name(socket@))),
    {
        let guest: [u8; 16] = vm_uuid(name_from_socket(socket).as_str());
        Card {
            host,
            guest,
            total,
            ascii_host: format_uuid(&host),
            ascii_guest: format_uuid(&guest),
        }
    }

    /// `buf` with the VM's UUID replaced by the card's, in bytes and then as text.
    pub open spec fn hosted(&self, buf: Seq<u8>) -> Seq<u8> {
        swapped(
            swapped(buf, 0, self.guest@, self.host@),
            0,
            encode_utf8(uuid_text(self.guest@)),
            encode_utf8(uuid_text(self.host@)),
        )
    }

    /// `buf` with the card's UUID replaced by the VM's, in bytes and then as text.
    pub open spec fn guested(&self, buf: Seq<u8>) -> Seq<u8> {
        swapped(
            swapped(buf, 0, self.host@, self.guest@),
            0,
            encode_utf8(uuid_text(self.host@)),
            encode_utf8(uuid_text(self.guest@)),
        )
    }

    /// Puts the card's UUID where the VM's stands, before the driver sees a call.
    pub fn to_host(&self, buf: &mut [u8])
        requires
            self.wf(),
            old(buf)@.len() + 4 <= usize::MAX,
        ensures
            final(buf)@ == self.hosted(old(buf)@),
            final(buf)@.len() == old(buf)@.len(),
    {
        let ghost before = buf@;
        swap(buf, &self.guest, &self.host);
        proof {
            lemma_swapped_len(before, 0, self.guest@, self.host@);
            lemma_uuid_text_bytes(self.host@);
            lemma_uuid_text_bytes(self.guest@);
            lemma_swapped_len(
                buf@,
                0,
                encode_utf8(uuid_text(self.guest@)),
                encode_utf8(uuid_text(self.host@)),
            );
        }
        swap(buf, self.ascii_guest.as_str().as_bytes(), self.ascii_host.as_str().as_bytes());
    }

    /// Puts the VM's UUID where the card's stands, in every answer that could carry it.
    pub fn to_guest(&self, buf: &mut [u8])
        requires
            self.wf(),
            old(buf)@.len() + 4 <= usize::MAX,
        ensures
            final(buf)@ == self.guested(old(buf)@),
            final(buf)@.len() == old(buf)@.len(),
    {
        let ghost before = buf@;
        swap(buf, &self.host, &self.guest);
        proof {
            lemma_swapped_len(before, 0, self.host@, self.guest@);
            lemma_uuid_text_bytes(self.host@);
            lemma_uuid_text_bytes(self.guest@);
            lemma_swapped_len(
                buf@,
                0,
                encode_utf8(uuid_text(self.host@)),
                encode_utf8(uuid_text(self.guest@)),
            );
        }
        swap(buf, self.ascii_host.as_str().as_bytes(), self.ascii_guest.as_str().as_bytes());
    }
}

/// Replacing keeps the length.
pub proof fn lemma_swapped_len(buf: Seq<u8>, o: int, from: Seq<u8>, to: Seq<u8>)
    requires
        0 <= o,
    ensures
        swapped(buf, o, from, to).len() == buf.len(),
    decreases buf.len() + 4 - o,
{
    if !(o + from.len() > buf.len() || o >= buf.len()) {
        lemma_swapped_len(
            if stands(buf, from, o) {
                overlay(buf, o, to)
            } else {
                buf
            },
            o + 4,
            from,
            to,
        );
    }
}

proof fn lemma_ascii_bytes(s: Seq<char>)
    requires
        forall|i: int| 0 <= i < s.len() ==> #[trigger] s[i] as u32 <= 0x7f,
    ensures
        encode_utf8(s).len() == s.len(),
        forall|i: int| 0 <= i < s.len() ==> #[trigger] encode_utf8(s)[i] as u32 == s[i] as u32,
    decreases s.len(),
{
    if s.len() > 0 {
        let rest = s.drop_first();
        assert forall|i: int| 0 <= i < rest.len() implies #[trigger] rest[i] as u32 <= 0x7f by {
            assert(rest[i] == s[i + 1]);
        }
        lemma_ascii_bytes(rest);
        assert(s[0] as u32 <= 0x7f);
        let first = s[0] as u32;
        assert(first & 0x7f == first) by (bit_vector)
            requires
                first <= 0x7f,
        ;
        let head = vstd::utf8::encode_scalar(first);
        assert(head.len() == 1);
        assert(head[0] == first as u8);
        assert(encode_utf8(s) == head + encode_utf8(rest));
        assert forall|i: int| 0 <= i < s.len() implies #[trigger] encode_utf8(s)[i] as u32
            == s[i] as u32 by {
            if i > 0 {
                assert(encode_utf8(s)[i] == encode_utf8(rest)[i - 1]);
                assert(rest[i - 1] == s[i]);
            } else {
                assert(encode_utf8(s)[i] == first as u8);
            }
        }
    }
}

proof fn lemma_uuid_text_bytes(u: Seq<u8>)
    requires
        u.len() == 16,
    ensures
        encode_utf8(uuid_text(u)).len() == 40,
        encode_utf8(uuid_text(u))[0] == 0x47,
        forall|i: int| 4 <= i < 40 ==> #[trigger] encode_utf8(uuid_text(u))[i] != 0x47,
{
    reveal_strlit("GPU-");
    reveal_strlit("-");
    let t = uuid_text(u);
    assert(t.len() == 40);
    assert forall|i: int| 0 <= i < t.len() implies #[trigger] t[i] as u32 <= 0x7f by {
        lemma_hex_ascii(u.subrange(0, 4));
        lemma_hex_ascii(u.subrange(4, 6));
        lemma_hex_ascii(u.subrange(6, 8));
        lemma_hex_ascii(u.subrange(8, 10));
        lemma_hex_ascii(u.subrange(10, 16));
    }
    lemma_ascii_bytes(t);
    assert(t[0] == 'G');
    assert(encode_utf8(t)[0] as u32 == t[0] as u32);
    assert forall|i: int| 4 <= i < 40 implies #[trigger] encode_utf8(t)[i] != 0x47 by {
        lemma_hex_ascii(u.subrange(0, 4));
        lemma_hex_ascii(u.subrange(4, 6));
        lemma_hex_ascii(u.subrange(6, 8));
        lemma_hex_ascii(u.subrange(8, 10));
        lemma_hex_ascii(u.subrange(10, 16));
        assert(t[i] as u32 != 0x47);
    }
}

proof fn lemma_hex_ascii(b: Seq<u8>)
    ensures
        forall|i: int|
            0 <= i < hex_of(b).len() ==> #[trigger] hex_of(b)[i] as u32 <= 0x7f && hex_of(
                b,
            )[i] as u32 != 0x47,
{
}

/// Whether a value `b` can start inside a value `a`, at a multiple of four.
pub open spec fn meets(a: Seq<u8>, b: Seq<u8>) -> bool {
    exists|d: int|
        0 < d < a.len() && d % 4 == 0 && #[trigger] a.skip(d) == b.take(a.len() - d)
}

/// A value that stands at a multiple of four.
spec fn occurs(buf: Seq<u8>, what: Seq<u8>, o: int) -> bool {
    o % 4 == 0 && stands(buf, what, o)
}

/// Where the last occurrence ends that a pass from the left replaced before it came to `o`.
spec fn reach(buf: Seq<u8>, what: Seq<u8>, o: int) -> int
    decreases o + 4,
{
    if o <= 0 {
        0
    } else {
        let s = o - 4;
        let before = reach(buf, what, s);
        if before <= s && occurs(buf, what, s) {
            s + what.len()
        } else {
            before
        }
    }
}

/// An occurrence that a pass from the left replaces: one that shares no byte with one that it
/// replaced before.
spec fn hit(buf: Seq<u8>, what: Seq<u8>, o: int) -> bool {
    0 <= o && occurs(buf, what, o) && reach(buf, what, o) <= o
}

proof fn lemma_reach(buf: Seq<u8>, what: Seq<u8>, o: int)
    requires
        o % 4 == 0,
    ensures
        forall|s: int| #[trigger] hit(buf, what, s) && s < o ==> s + what.len() <= reach(
            buf,
            what,
            o,
        ),
        reach(buf, what, o) == 0 || exists|s: int|
            #[trigger] hit(buf, what, s) && s < o && reach(buf, what, o) == s + what.len(),
    decreases o + 4,
{
    if o > 0 {
        let p = o - 4;
        lemma_reach(buf, what, p);
        let before = reach(buf, what, p);
        if before <= p && occurs(buf, what, p) {
            assert(hit(buf, what, p));
        }
        assert forall|s: int| #[trigger] hit(buf, what, s) && s < o implies s + what.len()
            <= reach(buf, what, o) by {
            if s < p {
            } else {
                assert(s % 4 == 0);
                assert(s == p);
            }
        }
    }
}

proof fn lemma_hit(buf: Seq<u8>, what: Seq<u8>, o: int)
    ensures
        hit(buf, what, o) <==> {
            &&& 0 <= o
            &&& occurs(buf, what, o)
            &&& forall|s: int| s < o && o < s + what.len() ==> !#[trigger] hit(buf, what, s)
        },
{
    if 0 <= o && occurs(buf, what, o) {
        lemma_reach(buf, what, o);
        if !hit(buf, what, o) {
            let s = choose|s: int| #[trigger]
                hit(buf, what, s) && s < o && reach(buf, what, o) == s + what.len();
            assert(o < s + what.len());
        }
    }
}

/// The occurrence, of those before `upto`, that covers a byte and is replaced.
spec fn covered(buf: Seq<u8>, what: Seq<u8>, upto: int, i: int, s: int) -> bool {
    hit(buf, what, s) && s < upto && s <= i < s + what.len()
}

/// `buf` with what a pass replaces before `upto` replaced, all at once.
spec fn replaced(buf: Seq<u8>, from: Seq<u8>, to: Seq<u8>, upto: int) -> Seq<u8> {
    Seq::new(
        buf.len(),
        |i: int|
            if exists|s: int| covered(buf, from, upto, i, s) {
                to[i - (choose|s: int| covered(buf, from, upto, i, s))]
            } else {
                buf[i]
            },
    )
}

proof fn lemma_apart(buf: Seq<u8>, what: Seq<u8>, s: int, o: int)
    requires
        hit(buf, what, s),
        hit(buf, what, o),
        s < o,
    ensures
        s + what.len() <= o,
{
    lemma_hit(buf, what, o);
}

proof fn lemma_replaced_at(
    buf: Seq<u8>,
    from: Seq<u8>,
    to: Seq<u8>,
    upto: int,
    s: int,
    i: int,
)
    requires
        from.len() == to.len(),
        covered(buf, from, upto, i, s),
        0 <= i < buf.len(),
    ensures
        replaced(buf, from, to, upto)[i] == to[i - s],
{
    let t = choose|t: int| covered(buf, from, upto, i, t);
    if t < s {
        lemma_apart(buf, from, t, s);
    }
    if s < t {
        lemma_apart(buf, from, s, t);
    }
}

proof fn lemma_found(buf: Seq<u8>, from: Seq<u8>, to: Seq<u8>, o: int)
    requires
        from.len() == to.len(),
        from.len() > 0,
        !meets(to, from),
        0 <= o,
        o % 4 == 0,
        o + from.len() <= buf.len(),
    ensures
        stands(replaced(buf, from, to, o), from, o) == hit(buf, from, o),
{
    let r = replaced(buf, from, to, o);
    let n = from.len() as int;
    lemma_hit(buf, from, o);
    if exists|s: int| #[trigger] hit(buf, from, s) && s < o && o < s + n {
        let s = choose|s: int| #[trigger] hit(buf, from, s) && s < o && o < s + n;
        if stands(r, from, o) {
            let d = o - s;
            let (p, q) = (to.skip(d), from.take(n - d));
            assert(p =~= q) by {
                assert forall|k: int| 0 <= k < n - d implies p[k] == q[k] by {
                    assert(covered(buf, from, o, o + k, s));
                    lemma_replaced_at(buf, from, to, o, s, o + k);
                    assert(r.subrange(o, o + n)[k] == from[k]);
                }
            }
            assert(meets(to, from));
        }
    } else {
        let (p, q) = (r.subrange(o, o + n), buf.subrange(o, o + n));
        assert(p =~= q) by {
            assert forall|k: int| 0 <= k < n implies p[k] == q[k] by {
                let i = o + k;
                if exists|s: int| covered(buf, from, o, i, s) {
                    let s = choose|s: int| covered(buf, from, o, i, s);
                    assert(hit(buf, from, s) && s < o && o < s + n);
                }
            }
        }
    }
}

proof fn lemma_pass(buf: Seq<u8>, from: Seq<u8>, to: Seq<u8>, o: int)
    requires
        from.len() == to.len(),
        from.len() > 0,
        !meets(to, from),
        0 <= o,
        o % 4 == 0,
    ensures
        swapped(replaced(buf, from, to, o), o, from, to) == replaced(
            buf,
            from,
            to,
            buf.len() as int,
        ),
    decreases buf.len() + 4 - o,
{
    let len = buf.len() as int;
    let r = replaced(buf, from, to, o);
    let all = replaced(buf, from, to, buf.len() as int);
    let n = from.len() as int;
    if o + n > buf.len() || o >= buf.len() {
        assert(forall|i: int, s: int|
            covered(buf, from, o, i, s) <==> covered(buf, from, buf.len() as int, i, s));
        assert forall|i: int| 0 <= i < buf.len() implies r[i] == all[i] by {
            if exists|s: int| covered(buf, from, o, i, s) {
                let s = choose|s: int| covered(buf, from, o, i, s);
                lemma_replaced_at(buf, from, to, o, s, i);
                assert(covered(buf, from, buf.len() as int, i, s));
                lemma_replaced_at(buf, from, to, buf.len() as int, s, i);
            } else if exists|s: int| covered(buf, from, len, i, s) {
                let s = choose|s: int| covered(buf, from, len, i, s);
                assert(covered(buf, from, o, i, s));
            }
        }
        assert(r =~= all);
    } else {
        lemma_found(buf, from, to, o);
        let upto = o + 4;
        let next = replaced(buf, from, to, upto);
        let step = if stands(r, from, o) {
            overlay(r, o, to)
        } else {
            r
        };
        assert forall|i: int| 0 <= i < buf.len() implies step[i] == next[i] by {
            if stands(r, from, o) && o <= i < o + n {
                assert(covered(buf, from, o + 4, i, o));
                lemma_replaced_at(buf, from, to, o + 4, o, i);
            } else if exists|s: int| covered(buf, from, upto, i, s) {
                let s = choose|s: int| covered(buf, from, upto, i, s);
                assert(s != o);
                assert(s < o);
                assert(covered(buf, from, o, i, s));
                lemma_replaced_at(buf, from, to, o, s, i);
                lemma_replaced_at(buf, from, to, o + 4, s, i);
            } else if exists|s: int| covered(buf, from, o, i, s) {
                let s = choose|s: int| covered(buf, from, o, i, s);
                assert(covered(buf, from, o + 4, i, s));
            }
        }
        assert(step =~= next);
        lemma_pass(buf, from, to, o + 4);
    }
}

/// A value that was replaced is put back: where neither value can start inside the other, the
/// new one cannot start inside itself, and it does not stand in the buffer yet, replacing it
/// and then replacing back gives the buffer as it was.
pub proof fn law_a_swapped_value_swaps_back(buf: Seq<u8>, from: Seq<u8>, to: Seq<u8>)
    requires
        from.len() == to.len(),
        from.len() > 0,
        !meets(to, from),
        !meets(from, to),
        !meets(to, to),
        forall|o: int| o % 4 == 0 ==> !#[trigger] stands(buf, to, o),
    ensures
        swapped(swapped(buf, 0, from, to), 0, to, from) == buf,
{
    let len = buf.len() as int;
    let n = from.len() as int;
    let f = replaced(buf, from, to, len);
    assert(replaced(buf, from, to, 0) =~= buf) by {
        assert(forall|i: int, s: int| 0 <= i < len ==> !covered(buf, from, 0, i, s));
    }
    lemma_pass(buf, from, to, 0);
    assert(swapped(buf, 0, from, to) == f);
    assert(replaced(f, to, from, 0) =~= f) by {
        assert(forall|i: int, s: int| 0 <= i < len ==> !covered(f, to, 0, i, s));
    }
    lemma_pass(f, to, from, 0);
    let g = replaced(f, to, from, len);
    assert(swapped(f, 0, to, from) == g);
    assert forall|o: int| hit(buf, from, o) implies #[trigger] occurs(f, to, o) by {
        let p = f.subrange(o, o + n);
        assert(p =~= to) by {
            assert forall|k: int| 0 <= k < n implies p[k] == to[k] by {
                assert(covered(buf, from, len, o + k, o));
                lemma_replaced_at(buf, from, to, len, o, o + k);
            }
        }
    }
    assert forall|o: int| #[trigger] occurs(f, to, o) implies hit(buf, from, o) by {
        if !hit(buf, from, o) {
            if exists|s: int| #[trigger] hit(buf, from, s) && s < o + n && o < s + n {
                let s = choose|s: int| #[trigger] hit(buf, from, s) && s < o + n && o < s + n;
                if s < o {
                    let d = o - s;
                    let (p, q) = (to.skip(d), to.take(n - d));
                    assert(p =~= q) by {
                        assert forall|k: int| 0 <= k < n - d implies p[k] == q[k] by {
                            assert(covered(buf, from, len, o + k, s));
                            lemma_replaced_at(buf, from, to, len, s, o + k);
                            assert(f.subrange(o, o + n)[k] == to[k]);
                        }
                    }
                    assert(meets(to, to));
                } else {
                    let d = s - o;
                    let (p, q) = (to.skip(d), to.take(n - d));
                    assert(p =~= q) by {
                        assert forall|k: int| 0 <= k < n - d implies p[k] == q[k] by {
                            assert(covered(buf, from, len, s + k, s));
                            lemma_replaced_at(buf, from, to, len, s, s + k);
                            assert(f.subrange(o, o + n)[d + k] == to[d + k]);
                        }
                    }
                    assert(meets(to, to));
                }
            } else {
                let (p, q) = (buf.subrange(o, o + n), f.subrange(o, o + n));
                assert(p =~= q) by {
                    assert forall|k: int| 0 <= k < n implies p[k] == q[k] by {
                        let i = o + k;
                        if exists|s: int| covered(buf, from, len, i, s) {
                            let s = choose|s: int| covered(buf, from, len, i, s);
                            assert(hit(buf, from, s) && s < o + n && o < s + n);
                        }
                    }
                }
                assert(stands(buf, to, o));
            }
        }
    }
    assert forall|o: int| hit(buf, from, o) implies #[trigger] hit(f, to, o) by {
        assert(occurs(f, to, o));
        lemma_hit(f, to, o);
        assert forall|s: int| s < o && o < s + n implies !#[trigger] hit(f, to, s) by {
            if hit(f, to, s) {
                assert(occurs(f, to, s));
                lemma_apart(buf, from, s, o);
            }
        }
    }
    assert forall|i: int| 0 <= i < len implies g[i] == buf[i] by {
        if exists|s: int| covered(f, to, len, i, s) {
            let s = choose|s: int| covered(f, to, len, i, s);
            lemma_replaced_at(f, to, from, len, s, i);
            assert(occurs(f, to, s));
            assert(hit(buf, from, s));
            assert(buf.subrange(s, s + n)[i - s] == from[i - s]);
        } else {
            if exists|s: int| covered(buf, from, len, i, s) {
                let s = choose|s: int| covered(buf, from, len, i, s);
                assert(hit(f, to, s));
                assert(covered(f, to, len, i, s));
            }
        }
    }
    assert(g =~= buf);
}

/// Whether two values agree where they overlap, when the second starts `d` bytes after the
/// first.
pub open spec fn agree(a: Seq<u8>, b: Seq<u8>, d: int) -> bool {
    forall|k: int| 0 <= k < a.len() && 0 <= k - d < b.len() ==> #[trigger] a[k] == b[k - d]
}

/// Whether two values can stand in one buffer, both at multiples of four, and have bytes in
/// common there.
pub open spec fn clash(a: Seq<u8>, b: Seq<u8>) -> bool {
    exists|d: int| -b.len() < d < a.len() && d % 4 == 0 && #[trigger] agree(a, b, d)
}

proof fn lemma_clash_both_ways(a: Seq<u8>, b: Seq<u8>)
    requires
        !clash(a, b),
    ensures
        !clash(b, a),
{
    if clash(b, a) {
        let d = choose|d: int| -a.len() < d < b.len() && d % 4 == 0 && #[trigger] agree(b, a, d);
        let e = -d;
        assert(agree(a, b, e)) by {
            assert forall|k: int| 0 <= k < a.len() && 0 <= k - e < b.len() implies #[trigger] a[k]
                == b[k - e] by {
                assert(b[k - e] == a[k - e - d]);
            }
        }
    }
}

proof fn lemma_no_overlap(buf: Seq<u8>, a: Seq<u8>, b: Seq<u8>, o: int, p: int)
    requires
        !clash(a, b),
        occurs(buf, a, o),
        occurs(buf, b, p),
    ensures
        o + a.len() <= p || p + b.len() <= o,
{
    let d = p - o;
    if -b.len() < d < a.len() {
        assert(agree(a, b, d)) by {
            assert forall|k: int| 0 <= k < a.len() && 0 <= k - d < b.len() implies #[trigger] a[k]
                == b[k - d] by {
                assert(buf.subrange(o, o + a.len())[k] == a[k]);
                assert(buf.subrange(p, p + b.len())[k - d] == b[k - d]);
            }
        }
        assert(clash(a, b));
    }
}

/// Replacing a value leaves the occurrences of another one that clashes with neither spelling.
proof fn lemma_bystander(buf: Seq<u8>, from: Seq<u8>, to: Seq<u8>, x: Seq<u8>, o: int)
    requires
        from.len() == to.len(),
        from.len() > 0,
        !clash(x, from),
        !clash(x, to),
    ensures
        occurs(replaced(buf, from, to, buf.len() as int), x, o) <==> occurs(buf, x, o),
{
    let len = buf.len() as int;
    let r = replaced(buf, from, to, len);
    let (n, m) = (from.len() as int, x.len() as int);
    if occurs(r, x, o) || occurs(buf, x, o) {
        let (p, q) = (r.subrange(o, o + m), buf.subrange(o, o + m));
        assert forall|k: int| 0 <= k < m implies p[k] == q[k] by {
            let i = o + k;
            if exists|s: int| covered(buf, from, len, i, s) {
                let s = choose|s: int| covered(buf, from, len, i, s);
                if occurs(buf, x, o) {
                    lemma_no_overlap(buf, x, from, o, s);
                } else {
                    let t = r.subrange(s, s + n);
                    assert(t =~= to) by {
                        assert forall|j: int| 0 <= j < n implies t[j] == to[j] by {
                            assert(covered(buf, from, len, s + j, s));
                            lemma_replaced_at(buf, from, to, len, s, s + j);
                        }
                    }
                    assert(occurs(r, to, s));
                    lemma_no_overlap(r, x, to, o, s);
                }
            }
        }
        assert(p =~= q);
    }
}

proof fn lemma_same_hits(a: Seq<u8>, b: Seq<u8>, what: Seq<u8>, o: int)
    requires
        forall|s: int| #[trigger] occurs(a, what, s) <==> occurs(b, what, s),
    ensures
        reach(a, what, o) == reach(b, what, o),
        hit(a, what, o) == hit(b, what, o),
    decreases o + 4,
{
    assert(occurs(a, what, o) <==> occurs(b, what, o));
    if o > 0 {
        lemma_same_hits(a, b, what, o - 4);
    }
}

/// Replacing two values that do not clash gives the same in either order.
proof fn lemma_either_order(
    buf: Seq<u8>,
    from: Seq<u8>,
    to: Seq<u8>,
    from2: Seq<u8>,
    to2: Seq<u8>,
)
    requires
        from.len() == to.len(),
        from.len() > 0,
        from2.len() == to2.len(),
        from2.len() > 0,
        !clash(from, from2),
        !clash(from, to2),
        !clash(to, from2),
    ensures
        ({
            let len = buf.len() as int;
            replaced(replaced(buf, from, to, len), from2, to2, len) == replaced(
                replaced(buf, from2, to2, len),
                from,
                to,
                len,
            )
        }),
{
    let len = buf.len() as int;
    let (a, b) = (replaced(buf, from, to, len), replaced(buf, from2, to2, len));
    let (x, y) = (replaced(a, from2, to2, len), replaced(b, from, to, len));
    lemma_clash_both_ways(from, from2);
    lemma_clash_both_ways(to, from2);
    assert forall|o: int| #[trigger] occurs(a, from2, o) <==> occurs(buf, from2, o) by {
        lemma_bystander(buf, from, to, from2, o);
    }
    assert forall|o: int| #[trigger] occurs(b, from, o) <==> occurs(buf, from, o) by {
        lemma_bystander(buf, from2, to2, from, o);
    }
    assert forall|i: int| 0 <= i < len implies x[i] == y[i] by {
        if exists|s: int| covered(a, from2, len, i, s) {
            let s = choose|s: int| covered(a, from2, len, i, s);
            lemma_same_hits(a, buf, from2, s);
            assert(covered(buf, from2, len, i, s));
            lemma_replaced_at(a, from2, to2, len, s, i);
            lemma_replaced_at(buf, from2, to2, len, s, i);
            if exists|t: int| covered(b, from, len, i, t) {
                let t = choose|t: int| covered(b, from, len, i, t);
                lemma_same_hits(b, buf, from, t);
                lemma_no_overlap(buf, from, from2, t, s);
            }
        } else if exists|t: int| covered(b, from, len, i, t) {
            let t = choose|t: int| covered(b, from, len, i, t);
            lemma_same_hits(b, buf, from, t);
            assert(covered(buf, from, len, i, t));
            lemma_replaced_at(b, from, to, len, t, i);
            lemma_replaced_at(buf, from, to, len, t, i);
        } else {
            if exists|s: int| covered(buf, from2, len, i, s) {
                let s = choose|s: int| covered(buf, from2, len, i, s);
                lemma_same_hits(a, buf, from2, s);
                assert(covered(a, from2, len, i, s));
            }
            if exists|t: int| covered(buf, from, len, i, t) {
                let t = choose|t: int| covered(buf, from, len, i, t);
                lemma_same_hits(b, buf, from, t);
                assert(covered(b, from, len, i, t));
            }
        }
    }
    assert(x =~= y);
}

proof fn lemma_swapped_at_once(buf: Seq<u8>, from: Seq<u8>, to: Seq<u8>)
    requires
        from.len() == to.len(),
        from.len() > 0,
        !meets(to, from),
    ensures
        swapped(buf, 0, from, to) == replaced(buf, from, to, buf.len() as int),
{
    assert(replaced(buf, from, to, 0) =~= buf) by {
        assert(forall|i: int, s: int| 0 <= i < buf.len() ==> !covered(buf, from, 0, i, s));
    }
    lemma_pass(buf, from, to, 0);
}

/// The text of a UUID cannot start inside that of another.
proof fn lemma_texts_do_not_meet(u: Seq<u8>, v: Seq<u8>)
    requires
        u.len() == 16,
        v.len() == 16,
    ensures
        !meets(encode_utf8(uuid_text(u)), encode_utf8(uuid_text(v))),
{
    let (a, b) = (encode_utf8(uuid_text(u)), encode_utf8(uuid_text(v)));
    lemma_uuid_text_bytes(u);
    lemma_uuid_text_bytes(v);
    if meets(a, b) {
        let d = choose|d: int|
            0 < d < a.len() && d % 4 == 0 && #[trigger] a.skip(d) == b.take(a.len() - d);
        assert(a.skip(d)[0] == a[d]);
        assert(b.take(a.len() - d)[0] == b[0]);
        assert(a[d] == b[0]);
    }
}

impl Card {
    /// Neither UUID can start inside the other, and neither can share bytes with the text of
    /// one.
    pub open spec fn unmistakable(&self) -> bool {
        let (h, g) = (self.host@, self.guest@);
        let (th, tg) = (encode_utf8(uuid_text(h)), encode_utf8(uuid_text(g)));
        &&& !meets(h, g) && !meets(g, h)
        &&& !clash(h, th) && !clash(h, tg) && !clash(g, th) && !clash(g, tg)
    }
}

proof fn lemma_round_trip(buf: Seq<u8>, a: Seq<u8>, b: Seq<u8>)
    requires
        a.len() == 16,
        b.len() == 16,
        !meets(a, b) && !meets(b, a) && !meets(b, b),
        !clash(a, encode_utf8(uuid_text(a))) && !clash(a, encode_utf8(uuid_text(b))),
        !clash(b, encode_utf8(uuid_text(a))) && !clash(b, encode_utf8(uuid_text(b))),
        forall|o: int| o % 4 == 0 ==> !#[trigger] stands(buf, b, o),
        forall|o: int| o % 4 == 0 ==> !#[trigger] stands(buf, encode_utf8(uuid_text(b)), o),
    ensures
        ({
            let (ta, tb) = (encode_utf8(uuid_text(a)), encode_utf8(uuid_text(b)));
            swapped(
                swapped(swapped(swapped(buf, 0, a, b), 0, ta, tb), 0, b, a),
                0,
                tb,
                ta,
            ) == buf
        }),
{
    let (ta, tb) = (encode_utf8(uuid_text(a)), encode_utf8(uuid_text(b)));
    let len = buf.len() as int;
    lemma_uuid_text_bytes(a);
    lemma_uuid_text_bytes(b);
    lemma_texts_do_not_meet(a, a);
    lemma_texts_do_not_meet(a, b);
    lemma_texts_do_not_meet(b, a);
    lemma_texts_do_not_meet(b, b);
    let bytes = swapped(buf, 0, a, b);
    let texts = swapped(buf, 0, ta, tb);
    lemma_swapped_len(buf, 0, a, b);
    lemma_swapped_len(buf, 0, ta, tb);
    lemma_swapped_at_once(buf, a, b);
    lemma_swapped_at_once(bytes, ta, tb);
    lemma_swapped_at_once(buf, ta, tb);
    lemma_swapped_at_once(texts, a, b);
    lemma_either_order(buf, a, b, ta, tb);
    assert(swapped(bytes, 0, ta, tb) == swapped(texts, 0, a, b));
    assert forall|o: int| o % 4 == 0 implies !#[trigger] stands(texts, b, o) by {
        lemma_bystander(buf, ta, tb, b, o);
        assert(occurs(texts, b, o) <==> occurs(buf, b, o));
    }
    law_a_swapped_value_swaps_back(texts, a, b);
    law_a_swapped_value_swaps_back(buf, ta, tb);
}

/// What passed to the guest and comes back from it is what the driver wrote, in a buffer that
/// held neither spelling of the VM's UUID, which cannot start inside itself.
pub proof fn law_an_answer_comes_back_as_it_was(card: &Card, buf: Seq<u8>)
    requires
        card.unmistakable(),
        !meets(card.guest@, card.guest@),
        forall|o: int| o % 4 == 0 ==> !#[trigger] stands(buf, card.guest@, o),
        forall|o: int|
            o % 4 == 0 ==> !#[trigger] stands(buf, encode_utf8(uuid_text(card.guest@)), o),
    ensures
        card.hosted(card.guested(buf)) == buf,
{
    lemma_round_trip(buf, card.host@, card.guest@);
}

/// What passed to the driver and comes back from it is what the guest wrote, in a buffer that
/// held neither spelling of the card's own UUID, which cannot start inside itself.
pub proof fn law_a_question_comes_back_as_it_was(card: &Card, buf: Seq<u8>)
    requires
        card.unmistakable(),
        !meets(card.host@, card.host@),
        forall|o: int| o % 4 == 0 ==> !#[trigger] stands(buf, card.host@, o),
        forall|o: int|
            o % 4 == 0 ==> !#[trigger] stands(buf, encode_utf8(uuid_text(card.host@)), o),
    ensures
        card.guested(card.hosted(buf)) == buf,
{
    lemma_round_trip(buf, card.guest@, card.host@);
}

/// A buffer in which neither spelling of the VM's UUID stands passes to the driver as it is.
pub proof fn law_other_questions_pass(card: &Card, buf: Seq<u8>)
    requires
        forall|o: int| o % 4 == 0 ==> !#[trigger] stands(buf, card.guest@, o),
        forall|o: int|
            o % 4 == 0 ==> !#[trigger] stands(buf, encode_utf8(uuid_text(card.guest@)), o),
    ensures
        card.hosted(buf) == buf,
{
    lemma_nothing_stands(buf, 0, card.guest@, card.host@);
    lemma_nothing_stands(
        buf,
        0,
        encode_utf8(uuid_text(card.guest@)),
        encode_utf8(uuid_text(card.host@)),
    );
}

/// A buffer in which neither spelling of the card's UUID stands passes to the guest as it is.
pub proof fn law_other_values_pass(card: &Card, buf: Seq<u8>)
    requires
        forall|o: int| o % 4 == 0 ==> !#[trigger] stands(buf, card.host@, o),
        forall|o: int|
            o % 4 == 0 ==> !#[trigger] stands(buf, encode_utf8(uuid_text(card.host@)), o),
    ensures
        card.guested(buf) == buf,
{
    lemma_nothing_stands(buf, 0, card.host@, card.guest@);
    lemma_nothing_stands(
        buf,
        0,
        encode_utf8(uuid_text(card.host@)),
        encode_utf8(uuid_text(card.guest@)),
    );
}

proof fn lemma_nothing_stands(buf: Seq<u8>, o: int, from: Seq<u8>, to: Seq<u8>)
    requires
        0 <= o,
        o % 4 == 0,
        forall|p: int| p % 4 == 0 ==> !#[trigger] stands(buf, from, p),
    ensures
        swapped(buf, o, from, to) == buf,
    decreases buf.len() + 4 - o,
{
    if !(o + from.len() > buf.len() || o >= buf.len()) {
        lemma_nothing_stands(buf, o + 4, from, to);
    }
}

/// The place of the hexadecimal digit `d` in the text of a UUID: behind `GPU-`, with a dash
/// before the digits 8, 12, 16 and 20.
pub open spec fn digit_place(d: int) -> int {
    if d < 8 {
        4 + d
    } else if d < 12 {
        5 + d
    } else if d < 16 {
        6 + d
    } else if d < 20 {
        7 + d
    } else {
        8 + d
    }
}

/// The text of a UUID is `GPU-` and, with four dashes among them, the 32 lower-case
/// hexadecimal digits of its bytes in their order: two digits, the high one first, read as one
/// number, are a byte.
#[verifier::rlimit(50)]
pub proof fn law_the_digits_of_a_uuid_are_its_bytes_in_order(u: Seq<u8>)
    requires
        u.len() == 16,
    ensures
        uuid_text(u).len() == 40,
        uuid_text(u).take(4) == seq!['G', 'P', 'U', '-'],
        uuid_text(u)[12] == '-' && uuid_text(u)[17] == '-' && uuid_text(u)[22] == '-' && uuid_text(
            u,
        )[27] == '-',
        forall|d: int|
            #![trigger uuid_text(u)[digit_place(d)]]
            0 <= d < 32 ==> {
                let c = uuid_text(u)[digit_place(d)];
                '0' <= c <= '9' || 'a' <= c <= 'f'
            },
        forall|k: int|
            0 <= k < 16 ==> {
                let (h, l) = (
                    uuid_text(u)[digit_place(2 * k)] as u32 as int,
                    uuid_text(u)[digit_place(2 * k + 1)] as u32 as int,
                );
                let high = if h <= '9' as u32 {
                    h - '0' as u32
                } else {
                    h - 'a' as u32 + 10
                };
                let low = if l <= '9' as u32 {
                    l - '0' as u32
                } else {
                    l - 'a' as u32 + 10
                };
                16 * high + low == #[trigger] u[k]
            },
{
    reveal_strlit("GPU-");
    reveal_strlit("-");
    let t = uuid_text(u);
    assert(t.take(4) =~= seq!['G', 'P', 'U', '-']);
    assert forall|d: int| 0 <= d < 32 implies #[trigger] t[digit_place(d)] == hex_digit(
        if d % 2 == 0 {
            u[d / 2] as int / 16
        } else {
            u[d / 2] as int % 16
        },
    ) by {
        lemma_uuid_digit(u, d);
    }
    assert forall|k: int| 0 <= k < 16 implies {
        let (h, l) = (
            t[digit_place(2 * k)] as u32 as int,
            t[digit_place(2 * k + 1)] as u32 as int,
        );
        let high = if h <= '9' as u32 {
            h - '0' as u32
        } else {
            h - 'a' as u32 + 10
        };
        let low = if l <= '9' as u32 {
            l - '0' as u32
        } else {
            l - 'a' as u32 + 10
        };
        16 * high + low == #[trigger] u[k]
    } by {
        assert((2 * k) / 2 == k && (2 * k) % 2 == 0 && (2 * k + 1) / 2 == k && (2 * k + 1) % 2
            == 1);
        assert(t[digit_place(2 * k)] == hex_digit(u[k] as int / 16));
        assert(t[digit_place(2 * k + 1)] == hex_digit(u[k] as int % 16));
    }
}

#[verifier::rlimit(50)]
proof fn lemma_uuid_digit(u: Seq<u8>, d: int)
    requires
        u.len() == 16,
        0 <= d < 32,
    ensures
        uuid_text(u)[digit_place(d)] == hex_digit(
            if d % 2 == 0 {
                u[d / 2] as int / 16
            } else {
                u[d / 2] as int % 16
            },
        ),
{
    reveal_strlit("GPU-");
    reveal_strlit("-");
    let t = uuid_text(u);
    if d < 8 {
        assert(t[4 + d] == hex_of(u.subrange(0, 4))[d]);
    } else if d < 12 {
        assert(t[5 + d] == hex_of(u.subrange(4, 6))[d - 8]);
    } else if d < 16 {
        assert(t[6 + d] == hex_of(u.subrange(6, 8))[d - 12]);
    } else if d < 20 {
        assert(t[7 + d] == hex_of(u.subrange(8, 10))[d - 16]);
    } else {
        assert(t[8 + d] == hex_of(u.subrange(10, 16))[d - 20]);
    }
}

/// The hash starts at its basis, and each byte is mixed in and multiplied by the prime.
pub proof fn law_the_hash_takes_byte_after_byte(s: Seq<u8>, b: u8)
    ensures
        fnv(Seq::empty()) == 0xcbf2_9ce4_8422_2325,
        fnv(s.push(b)) == ((fnv(s) ^ (b as u64)) * 0x100_0000_01b3) % 0x1_0000_0000_0000_0000,
{
    assert(s.push(b).drop_last() =~= s);
    assert(s.push(b).last() == b);
}

/// The bytes of a word, the highest first, make up the word.
#[verifier::rlimit(50)]
pub proof fn law_the_highest_byte_comes_first(v: u64)
    ensures
        v == 0x100_0000_0000_0000 * be_byte(v, 0) + 0x1_0000_0000_0000 * be_byte(v, 1)
            + 0x100_0000_0000 * be_byte(v, 2) + 0x1_0000_0000 * be_byte(v, 3) + 0x100_0000
            * be_byte(v, 4) + 0x1_0000 * be_byte(v, 5) + 0x100 * be_byte(v, 6) + be_byte(v, 7),
{
    assert(v / 0x100_0000_0000_0000u64 < 0x100 && v == 0x100_0000_0000_0000u64 * (v
        / 0x100_0000_0000_0000u64) + 0x1_0000_0000_0000u64 * (v / 0x1_0000_0000_0000u64 % 0x100)
        + 0x100_0000_0000u64 * (v / 0x100_0000_0000u64 % 0x100) + 0x1_0000_0000u64 * (v
        / 0x1_0000_0000u64 % 0x100) + 0x100_0000u64 * (v / 0x100_0000u64 % 0x100) + 0x1_0000u64 * (v
        / 0x1_0000u64 % 0x100) + 0x100u64 * (v / 0x100u64 % 0x100) + v % 0x100u64) by (bit_vector);
}

proof fn lemma_high_and_low(v: int, top: int, low: int, n: int)
    requires
        n > 0,
        v == top * n + low,
        0 <= low < n,
    ensures
        v / n == top,
        v % n == low,
{
    vstd::arithmetic::div_mod::lemma_fundamental_div_mod_converse(v, n, top, low);
}

/// The UUID of a name holds the hash of the name in its first half, and that of the name
/// with a suffix in its second, each but for the bits of the version and the variant.
#[verifier::rlimit(50)]
pub proof fn law_a_uuid_holds_both_hashes(name: Seq<u8>)
    ensures
        ({
            let u = uuid_of(name);
            let a = fnv(name);
            let b = fnv(name + encode_utf8("/leandro-vgpu"@));
            &&& u.len() == 16
            &&& a / 0x1_0000 == 0x100_0000_0000 * u[0] + 0x1_0000_0000 * u[1] + 0x100_0000 * u[2]
                + 0x1_0000 * u[3] + 0x100 * u[4] + u[5]
            &&& a % 0x1000 == 0x100 * (u[6] % 16) + u[7]
            &&& b % 0x4000_0000_0000_0000 == 0x100_0000_0000_0000 * (u[8] % 64) + 0x1_0000_0000_0000
                * u[9] + 0x100_0000_0000 * u[10] + 0x1_0000_0000 * u[11] + 0x100_0000 * u[12]
                + 0x1_0000 * u[13] + 0x100 * u[14] + u[15]
        }),
{
    let a = fnv(name);
    let b = fnv(name + encode_utf8("/leandro-vgpu"@));
    law_the_highest_byte_comes_first(a);
    law_the_highest_byte_comes_first(b);
    let u = uuid_of(name);
    let (x, y) = (be_byte(a, 6), be_byte(b, 0));
    let top = 0x100_0000_0000 * u[0] + 0x1_0000_0000 * u[1] + 0x100_0000 * u[2] + 0x1_0000 * u[3]
        + 0x100 * u[4] + u[5];
    assert(a == 0x1_0000 * top + 0x100 * x + u[7]);
    lemma_high_and_low(a as int, top, 0x100 * x + u[7], 0x1_0000);
    assert(u[6] % 16 == x % 16);
    lemma_high_and_low(a as int, 16 * top + x / 16, 0x100 * (x % 16) + u[7], 0x1000);
    let low = 0x1_0000_0000_0000 * u[9] + 0x100_0000_0000 * u[10] + 0x1_0000_0000 * u[11]
        + 0x100_0000 * u[12] + 0x1_0000 * u[13] + 0x100 * u[14] + u[15];
    assert(b == 0x100_0000_0000_0000 * y + low);
    assert(u[8] % 64 == y % 64);
    lemma_high_and_low(
        b as int,
        y as int / 64,
        0x100_0000_0000_0000 * (y % 64) + low,
        0x4000_0000_0000_0000,
    );
}

/// A value that stands at a multiple of four, and shares no byte with another occurrence
/// before it, is replaced.
pub proof fn law_a_value_that_stands_alone_is_replaced(
    buf: Seq<u8>,
    from: Seq<u8>,
    to: Seq<u8>,
    o: int,
)
    requires
        from.len() == to.len(),
        from.len() > 0,
        !meets(to, from),
        0 <= o,
        o % 4 == 0,
        o + from.len() <= buf.len(),
        buf.subrange(o, o + from.len()) == from,
        forall|s: int|
            0 <= s && s % 4 == 0 && s < o && o < s + from.len() ==> #[trigger] buf.subrange(
                s,
                s + from.len(),
            ) != from,
    ensures
        swapped(buf, 0, from, to).len() == buf.len(),
        swapped(buf, 0, from, to).subrange(o, o + from.len()) == to,
{
    let n = from.len() as int;
    let len = buf.len() as int;
    lemma_swapped_len(buf, 0, from, to);
    lemma_swapped_at_once(buf, from, to);
    lemma_hit(buf, from, o);
    assert forall|s: int| s < o && o < s + n implies !#[trigger] hit(buf, from, s) by {
        if hit(buf, from, s) {
            assert(buf.subrange(s, s + n) == from);
        }
    }
    assert(hit(buf, from, o));
    let r = replaced(buf, from, to, len);
    assert(r.subrange(o, o + n) =~= to) by {
        assert forall|k: int| 0 <= k < n implies r.subrange(o, o + n)[k] == to[k] by {
            assert(covered(buf, from, len, o + k, o));
            lemma_replaced_at(buf, from, to, len, o, o + k);
        }
    }
}

/// A byte that belongs to no occurrence of a value stays where the value is replaced.
pub proof fn law_what_is_not_the_value_stays(buf: Seq<u8>, from: Seq<u8>, to: Seq<u8>, i: int)
    requires
        from.len() == to.len(),
        from.len() > 0,
        !meets(to, from),
        0 <= i < buf.len(),
        forall|s: int|
            0 <= s && s % 4 == 0 && s <= i < s + from.len() && s + from.len() <= buf.len()
                ==> #[trigger] buf.subrange(s, s + from.len()) != from,
    ensures
        swapped(buf, 0, from, to)[i] == buf[i],
{
    lemma_swapped_at_once(buf, from, to);
    let len = buf.len() as int;
    if exists|s: int| covered(buf, from, len, i, s) {
        let s = choose|s: int| covered(buf, from, len, i, s);
        assert(stands(buf, from, s));
        assert(buf.subrange(s, s + from.len()) == from);
    }
}

/// A buffer that is one of the two values, as bytes or as text, becomes the other: the guest's
/// towards the host, and the host's towards the guest.
#[verifier::rlimit(50)]
pub proof fn law_each_side_sees_its_own_card(card: &Card)
    requires
        forall|o: int|
            o % 4 == 0 ==> !#[trigger] stands(
                encode_utf8(uuid_text(card.guest@)),
                card.guest@,
                o,
            ) && !stands(encode_utf8(uuid_text(card.host@)), card.host@, o),
    ensures
        card.hosted(card.guest@) == card.host@,
        card.guested(card.host@) == card.guest@,
        card.hosted(encode_utf8(uuid_text(card.guest@))) == encode_utf8(uuid_text(card.host@)),
        card.guested(encode_utf8(uuid_text(card.host@))) == encode_utf8(uuid_text(card.guest@)),
{
    let (h, g) = (card.host@, card.guest@);
    let (th, tg) = (encode_utf8(uuid_text(h)), encode_utf8(uuid_text(g)));
    lemma_uuid_text_bytes(h);
    lemma_uuid_text_bytes(g);
    lemma_whole_value(g, h);
    lemma_whole_value(h, g);
    lemma_whole_value(tg, th);
    lemma_whole_value(th, tg);
    assert forall|o: int| o % 4 == 0 implies !#[trigger] stands(tg, g, o) by {}
    assert forall|o: int| o % 4 == 0 implies !#[trigger] stands(th, h, o) by {
        assert(!stands(tg, g, o));
    }
    lemma_nothing_stands(tg, 0, g, h);
    lemma_nothing_stands(th, 0, h, g);
    assert(swapped(h, 0, tg, th) == h);
    assert(swapped(g, 0, th, tg) == g);
}

proof fn lemma_whole_value(from: Seq<u8>, to: Seq<u8>)
    requires
        from.len() == to.len(),
        from.len() > 0,
    ensures
        swapped(from, 0, from, to) == to,
{
    assert(from.subrange(0, from.len() as int) =~= from);
    assert(overlay(from, 0, to) =~= to);
    assert(swapped(to, 4, from, to) == to);
}

/// The stem of a file name: what stands before its last dot, unless nothing does.
pub proof fn law_the_stem_ends_at_the_last_dot(front: Seq<char>, back: Seq<char>)
    requires
        !back.contains('.'),
    ensures
        front.len() > 0 ==> stem(front + seq!['.'] + back) == front,
        stem(seq!['.'] + back) == seq!['.'] + back,
        stem(back) == back,
{
    let dot = seq!['.'];
    let name = front + dot + back;
    name.index_of_last_ensures('.');
    (dot + back).index_of_last_ensures('.');
    back.index_of_last_ensures('.');
    assert(name[front.len() as int] == '.');
    match name.index_of_last('.') {
        Some(i) => {
            if i > front.len() {
                assert(back[i - front.len() - 1] == '.');
                assert(back.contains('.'));
            }
            assert(name.take(front.len() as int) =~= front);
        },
        None => {
            assert(name.contains('.'));
        },
    }
    match (dot + back).index_of_last('.') {
        Some(i) => {
            if i > 0 {
                assert(back[i - 1] == '.');
                assert(back.contains('.'));
            }
        },
        None => {},
    }
}

/// The name of a VM comes from its socket: the directory that the socket lies in, a slash, and the
/// file name without its last ending.
pub proof fn law_a_vm_is_named_after_its_socket(
    path: Seq<char>,
    dir: Seq<char>,
    x: Seq<char>,
    front: Seq<char>,
    back: Seq<char>,
)
    requires
        parent_text(path) == Some(dir),
        file_name_text(dir) == Some(x),
        file_name_text(path) == Some(front + seq!['.'] + back),
        front.len() > 0,
        !back.contains('.'),
    ensures
        socket_name(path) == x + seq!['/'] + front,
{
    reveal_strlit("/");
    assert("/"@ =~= seq!['/']);
    law_the_stem_ends_at_the_last_dot(front, back);
}

/// A setting without a comma lists one word, itself; with a comma it lists what stands on
/// either side.
pub proof fn law_a_list_is_its_parts(a: Seq<char>, b: Seq<char>, word: Seq<char>)
    ensures
        !a.contains(',') ==> (lists(a, word) <==> same_ignoring_case(trimmed(a), word)),
        lists(a + seq![','] + b, word) <==> lists(a, word) || lists(b, word),
{
    let n = a.len() as int;
    let s = a + seq![','] + b;
    if !a.contains(',') {
        assert(a.subrange(0, n) =~= a);
        assert forall|k: int| 0 <= k < n implies a[k] != ',' by {
            assert(a.contains(a[k]));
        }
        assert(is_piece(a, 0, n));
        if lists(a, word) {
            let (i, j) = choose|i: int, j: int| #[trigger]
                is_piece(a, i, j) && same_ignoring_case(trimmed(a.subrange(i, j)), word);
            if i > 0 {
                assert(a[i - 1] != ',');
            }
            if j < n {
                assert(a[j] != ',');
            }
        }
    }
    assert(s[n] == ',');
    if lists(a, word) {
        let (i, j) = choose|i: int, j: int| #[trigger]
            is_piece(a, i, j) && same_ignoring_case(trimmed(a.subrange(i, j)), word);
        assert(s.subrange(i, j) =~= a.subrange(i, j));
        assert(is_piece(s, i, j));
    }
    if lists(b, word) {
        let (i, j) = choose|i: int, j: int| #[trigger]
            is_piece(b, i, j) && same_ignoring_case(trimmed(b.subrange(i, j)), word);
        let o = n + 1;
        assert(s.subrange(o + i, o + j) =~= b.subrange(i, j));
        assert forall|k: int| o + i <= k < o + j implies s[k] != ',' by {
            assert(s[k] == b[k - o]);
        }
        assert(is_piece(s, o + i, o + j));
    }
    if lists(s, word) {
        let (i, j) = choose|i: int, j: int| #[trigger]
            is_piece(s, i, j) && same_ignoring_case(trimmed(s.subrange(i, j)), word);
        let o = n + 1;
        if i <= n {
            assert(j <= n) by {
                if j > n {
                    assert(s[n] != ',');
                }
            }
            assert(a.subrange(i, j) =~= s.subrange(i, j));
            assert forall|k: int| i <= k < j implies a[k] != ',' by {
                assert(a[k] == s[k]);
            }
            if i > 0 {
                assert(a[i - 1] == s[i - 1]);
            }
            if j < n {
                assert(a[j] == s[j]);
            }
            assert(is_piece(a, i, j));
        } else {
            assert(b.subrange(i - o, j - o) =~= s.subrange(i, j));
            assert forall|k: int| i - o <= k < j - o implies b[k] != ',' by {
                assert(b[k] == s[k + o]);
            }
            if i > o {
                assert(b[i - o - 1] == s[i - 1]);
            }
            if j < s.len() {
                assert(b[j - o] == s[j]);
            }
            assert(is_piece(b, i - o, j - o));
        }
    }
}

} // verus!
