//! Text: numbers as digits, trimming, and the parsing of settings.

use vstd::prelude::*;
use vstd::string::*;

verus! {

/// `String::push` appends one character.
pub assume_specification[ String::push ](s: &mut String, c: char)
    ensures
        final(s)@ == old(s)@.push(c),
;

/// The characters with the Unicode property `White_Space`.
pub open spec fn white_space(c: char) -> bool {
    let n = c as u32;
    ||| 0x9 <= n <= 0xd
    ||| n == 0x20
    ||| n == 0x85
    ||| n == 0xa0
    ||| n == 0x1680
    ||| 0x2000 <= n <= 0x200a
    ||| n == 0x2028
    ||| n == 0x2029
    ||| n == 0x202f
    ||| n == 0x205f
    ||| n == 0x3000
}

/// Whether `t` is `s` without the white space at its two ends.
pub open spec fn is_trimmed(s: Seq<char>, t: Seq<char>) -> bool {
    exists|i: int, j: int|
        #![trigger s.subrange(i, j)]
        {
            &&& 0 <= i <= j <= s.len()
            &&& t == s.subrange(i, j)
            &&& forall|k: int| 0 <= k < i ==> white_space(s[k])
            &&& forall|k: int| j <= k < s.len() ==> white_space(s[k])
            &&& t.len() > 0 ==> !white_space(t[0]) && !white_space(t.last())
            &&& t.len() == 0 ==> i == s.len()
        }
}

/// The text `s` without the white space at its two ends.
pub open spec fn trimmed(s: Seq<char>) -> Seq<char> {
    choose|t: Seq<char>| is_trimmed(s, t)
}

/// There is only one way to trim a text.
pub proof fn law_trimming_is_unique(s: Seq<char>, t: Seq<char>, u: Seq<char>)
    requires
        is_trimmed(s, t),
        is_trimmed(s, u),
    ensures
        t == u,
{
    let (i, j) = choose|i: int, j: int|
        #![trigger s.subrange(i, j)]
        {
            &&& 0 <= i <= j <= s.len()
            &&& t == s.subrange(i, j)
            &&& forall|k: int| 0 <= k < i ==> white_space(s[k])
            &&& forall|k: int| j <= k < s.len() ==> white_space(s[k])
            &&& t.len() > 0 ==> !white_space(t[0]) && !white_space(t.last())
            &&& t.len() == 0 ==> i == s.len()
        };
    let (a, b) = choose|a: int, b: int|
        #![trigger s.subrange(a, b)]
        {
            &&& 0 <= a <= b <= s.len()
            &&& u == s.subrange(a, b)
            &&& forall|k: int| 0 <= k < a ==> white_space(s[k])
            &&& forall|k: int| b <= k < s.len() ==> white_space(s[k])
            &&& u.len() > 0 ==> !white_space(u[0]) && !white_space(u.last())
            &&& u.len() == 0 ==> a == s.len()
        };
    if t.len() > 0 {
        assert(t[0] == s[i]);
        assert(t.last() == s[j - 1]);
    }
    if u.len() > 0 {
        assert(u[0] == s[a]);
        assert(u.last() == s[b - 1]);
    }
    if t.len() > 0 && u.len() > 0 {
        assert(i == a);
        assert(j == b);
    }
    assert(t =~= u);
}

/// The place of the first character that is not white space.
proof fn lemma_first_dark(s: Seq<char>, from: int) -> (i: int)
    requires
        0 <= from <= s.len(),
    ensures
        from <= i <= s.len(),
        forall|k: int| from <= k < i ==> white_space(#[trigger] s[k]),
        i < s.len() ==> !white_space(s[i]),
    decreases s.len() - from,
{
    if from < s.len() && white_space(s[from]) {
        lemma_first_dark(s, from + 1)
    } else {
        from
    }
}

/// The place behind the last character, of those from `from` to `to`, that is not white space.
proof fn lemma_last_dark(s: Seq<char>, from: int, to: int) -> (j: int)
    requires
        0 <= from < to <= s.len(),
        !white_space(s[from]),
    ensures
        from < j <= to,
        forall|k: int| j <= k < to ==> white_space(#[trigger] s[k]),
        !white_space(s[j - 1]),
    decreases to,
{
    if white_space(s[to - 1]) {
        lemma_last_dark(s, from, to - 1)
    } else {
        to
    }
}

/// Where a trimmed text stands.
pub proof fn lemma_trimming_ends(s: Seq<char>, t: Seq<char>) -> (r: (int, int))
    requires
        is_trimmed(s, t),
    ensures
        0 <= r.0 <= r.1 <= s.len(),
        t == s.subrange(r.0, r.1),
        forall|k: int| 0 <= k < r.0 ==> white_space(#[trigger] s[k]),
        forall|k: int| r.1 <= k < s.len() ==> white_space(#[trigger] s[k]),
        t.len() > 0 ==> !white_space(t[0]) && !white_space(t.last()),
        t.len() == 0 ==> r.0 == s.len(),
{
    choose|i: int, j: int|
        #![trigger s.subrange(i, j)]
        {
            &&& 0 <= i <= j <= s.len()
            &&& t == s.subrange(i, j)
            &&& forall|k: int| 0 <= k < i ==> white_space(s[k])
            &&& forall|k: int| j <= k < s.len() ==> white_space(s[k])
            &&& t.len() > 0 ==> !white_space(t[0]) && !white_space(t.last())
            &&& t.len() == 0 ==> i == s.len()
        }
}

/// Every text can be trimmed.
pub proof fn law_every_text_can_be_trimmed(s: Seq<char>)
    ensures
        is_trimmed(s, trimmed(s)),
{
    let n = s.len() as int;
    let i = lemma_first_dark(s, 0);
    let j = if i < n {
        lemma_last_dark(s, i, n)
    } else {
        n
    };
    let t = s.subrange(i, j);
    if i < n {
        assert(t[0] == s[i]);
        assert(t.last() == s[j - 1]);
    }
    assert(is_trimmed(s, t));
}

/// White space at the two ends of a text makes no difference to its trimming.
pub proof fn law_outer_white_space_is_trimmed(s: Seq<char>, c: int, d: int)
    requires
        0 <= c <= d <= s.len(),
        forall|k: int| 0 <= k < c ==> white_space(#[trigger] s[k]),
        forall|k: int| d <= k < s.len() ==> white_space(#[trigger] s[k]),
    ensures
        trimmed(s.subrange(c, d)) == trimmed(s),
{
    let inner = s.subrange(c, d);
    let t = trimmed(inner);
    law_every_text_can_be_trimmed(inner);
    law_every_text_can_be_trimmed(s);
    let (i, j) = lemma_trimming_ends(inner, t);
    if t.len() == 0 {
        let n = s.len() as int;
        assert(s.subrange(n, n) =~= t);
        assert forall|k: int| 0 <= k < n implies white_space(s[k]) by {
            if c <= k < d {
                assert(inner[k - c] == s[k]);
            }
        }
    } else {
        assert(s.subrange(c + i, c + j) =~= t);
        assert forall|k: int| 0 <= k < c + i implies white_space(s[k]) by {
            if c <= k {
                assert(inner[k - c] == s[k]);
            }
        }
        assert forall|k: int| c + j <= k < s.len() implies white_space(s[k]) by {
            if k < d {
                assert(inner[k - c] == s[k]);
            }
        }
    }
    assert(is_trimmed(s, t));
    law_trimming_is_unique(s, t, trimmed(s));
}

fn is_white_space(c: char) -> (r: bool)
    ensures
        r == white_space(c),
{
    let n: u32 = c as u32;
    (0x9 <= n && n <= 0xd) || n == 0x20 || n == 0x85 || n == 0xa0 || n == 0x1680 || (0x2000 <= n
        && n <= 0x200a) || n == 0x2028 || n == 0x2029 || n == 0x202f || n == 0x205f || n == 0x3000
}

/// The characters of a text, one by one.
pub fn chars_of(s: &str) -> (out: Vec<char>)
    ensures
        out@ == s@,
{
    let n: usize = s.unicode_len();
    let mut out: Vec<char> = Vec::new();
    let mut i: usize = 0;
    while i < n
        invariant
            i <= n,
            n == s@.len(),
            out@ == s@.take(i as int),
        decreases n - i,
    {
        out.push(s.get_char(i));
        i = i + 1;
        assert(out@ =~= s@.take(i as int));
    }
    assert(s@.take(n as int) =~= s@);
    out
}

/// The text made of these characters.
pub fn string_of(cs: &[char]) -> (out: String)
    ensures
        out@ == cs@,
{
    let mut out: String = String::new();
    let mut i: usize = 0;
    while i < cs.len()
        invariant
            i <= cs@.len(),
            out@ == cs@.take(i as int),
        decreases cs@.len() - i,
    {
        out.push(cs[i]);
        i = i + 1;
        assert(out@ =~= cs@.take(i as int));
    }
    assert(cs@.take(i as int) =~= cs@);
    out
}

/// `s` without the white space at its two ends.
pub fn trim(s: &str) -> (t: &str)
    ensures
        is_trimmed(s@, t@),
        t@ == trimmed(s@),
{
    let cs: Vec<char> = chars_of(s);
    let n: usize = cs.len();
    let mut i: usize = 0;
    while i < n && is_white_space(cs[i])
        invariant
            i <= n,
            n == cs@.len(),
            forall|k: int| 0 <= k < i ==> white_space(cs@[k]),
        decreases n - i,
    {
        i = i + 1;
    }
    let mut j: usize = n;
    while j > i && is_white_space(cs[j - 1])
        invariant
            i <= j <= n,
            n == cs@.len(),
            i < n ==> !white_space(cs@[i as int]),
            i == j ==> i == n,
            forall|k: int| j <= k < n ==> white_space(cs@[k]),
        decreases j,
    {
        j = j - 1;
    }
    let t: &str = s.substring_char(i, j);
    proof {
        assert(t@ == s@.subrange(i as int, j as int));
        assert(is_trimmed(s@, t@));
        law_trimming_is_unique(s@, t@, trimmed(s@));
    }
    t
}

/// The decimal digit `d` as a character.
pub open spec fn digit(d: int) -> char {
    (d + '0' as int) as char
}

/// The decimal digits of `n`, without leading zeros.
pub open spec fn decimal(n: nat) -> Seq<char>
    decreases n,
{
    if n < 10 {
        seq![digit(n as int)]
    } else {
        decimal(n / 10).push(digit((n % 10) as int))
    }
}

/// The decimal digits of `n`, after a minus sign where it is negative.
pub open spec fn signed_decimal(n: int) -> Seq<char> {
    if n < 0 {
        seq!['-'] + decimal((-n) as nat)
    } else {
        decimal(n as nat)
    }
}

/// The hexadecimal digit `d` as a character, in lower case.
pub open spec fn hex_digit(d: int) -> char {
    if d < 10 {
        (d + '0' as int) as char
    } else {
        (d - 10 + 'a' as int) as char
    }
}

/// The hexadecimal digits of `n`, without leading zeros.
pub open spec fn hexadecimal(n: nat) -> Seq<char>
    decreases n,
{
    if n < 16 {
        seq![hex_digit(n as int)]
    } else {
        hexadecimal(n / 16).push(hex_digit((n % 16) as int))
    }
}

fn digit_char(d: u8) -> (c: char)
    requires
        d < 16,
    ensures
        c == hex_digit(d as int),
        d < 10 ==> c == digit(d as int),
{
    if d < 10 {
        (d + 48u8) as char
    } else {
        (d - 10 + 97u8) as char
    }
}

/// The decimal digits of `n`.
pub fn dec(n: u64) -> (s: String)
    ensures
        s@ == decimal(n as nat),
    decreases n,
{
    if n < 10 {
        let mut s: String = String::new();
        s.push(digit_char(n as u8));
        assert(s@ =~= decimal(n as nat));
        s
    } else {
        let mut s: String = dec(n / 10);
        s.push(digit_char((n % 10) as u8));
        s
    }
}

/// The decimal digits of `n`, after a minus sign where it is negative.
pub fn signed_dec(n: i32) -> (s: String)
    ensures
        s@ == signed_decimal(n as int),
{
    let wide: i64 = n as i64;
    if wide < 0 {
        let mut s: String = String::new();
        s.push('-');
        s.append(dec((-wide) as u64).as_str());
        assert(s@ =~= signed_decimal(n as int));
        s
    } else {
        dec(wide as u64)
    }
}

/// The hexadecimal digits of `n`, without a prefix.
pub fn hex(n: u64) -> (s: String)
    ensures
        s@ == hexadecimal(n as nat),
    decreases n,
{
    if n < 16 {
        let mut s: String = String::new();
        s.push(digit_char(n as u8));
        assert(s@ =~= hexadecimal(n as nat));
        s
    } else {
        let mut s: String = hex(n / 16);
        s.push(digit_char((n % 16) as u8));
        s
    }
}

/// Appends the two hexadecimal digits of one byte.
pub fn push_hex_byte(s: &mut String, b: u8)
    ensures
        final(s)@ == old(s)@.push(hex_digit(b as int / 16)).push(hex_digit(b as int % 16)),
{
    s.push(digit_char(b / 16));
    s.push(digit_char(b % 16));
}

/// Whether every character is a decimal digit.
pub open spec fn all_digits(s: Seq<char>) -> bool {
    forall|i: int| 0 <= i < s.len() ==> '0' <= #[trigger] s[i] <= '9'
}

/// The number that a run of decimal digits spells.
pub open spec fn number(s: Seq<char>) -> nat
    decreases s.len(),
{
    if s.len() == 0 {
        0
    } else {
        10 * number(s.drop_last()) + (s.last() as int - '0' as int) as nat
    }
}

/// A text read as an unsigned decimal number: an optional plus sign, then one or
/// more digits and nothing else.
pub open spec fn parsed(s: Seq<char>) -> Option<nat> {
    let d = if s.len() > 0 && s[0] == '+' {
        s.skip(1)
    } else {
        s
    };
    if d.len() > 0 && all_digits(d) {
        Some(number(d))
    } else {
        None
    }
}

proof fn lemma_number_grows(s: Seq<char>, n: int)
    requires
        0 <= n <= s.len(),
        all_digits(s),
    ensures
        number(s.take(n)) <= number(s),
    decreases s.len() - n,
{
    if n < s.len() {
        lemma_number_grows(s, n + 1);
        assert(s.take(n + 1).drop_last() =~= s.take(n));
    } else {
        assert(s.take(n) =~= s);
    }
}

/// Reads `s` as a decimal number of at most `max`, as `str::parse` does.
pub fn parse_bounded(s: &str, max: u64) -> (r: Option<u64>)
    ensures
        r == (match parsed(s@) {
            Some(n) if n <= max => Some(n as u64),
            _ => None,
        }),
{
    let cs: Vec<char> = chars_of(s);
    let from: usize = if cs.len() > 0 && cs[0] == '+' {
        1
    } else {
        0
    };
    let ghost d = s@.skip(from as int);
    assert(from == 0 ==> d =~= s@);
    if cs.len() == from {
        return None;
    }
    let mut v: u64 = 0;
    let mut over: bool = false;
    let mut i: usize = from;
    while i < cs.len()
        invariant
            from <= i <= cs@.len(),
            cs@ == s@,
            d == s@.skip(from as int),
            all_digits(d.take(i - from)),
            over ==> number(d.take(i - from)) > max,
            !over ==> v == number(d.take(i - from)) && v <= max,
            d == (if s@.len() > 0 && s@[0] == '+' {
                s@.skip(1)
            } else {
                s@
            }),
        decreases cs@.len() - i,
    {
        let c: char = cs[i];
        proof {
            assert(d.take(i + 1 - from).drop_last() =~= d.take(i - from));
            assert(d[i - from] == c);
            assert(d.take(i + 1 - from).last() == c);
        }
        if c < '0' || c > '9' {
            assert(!all_digits(d));
            return None;
        }
        let x: u64 = c as u64 - '0' as u64;
        if !over {
            match v.checked_mul(10) {
                Some(t) => {
                    if t <= max && x <= max - t {
                        v = t + x;
                    } else {
                        over = true;
                    }
                },
                None => {
                    over = true;
                },
            }
        }
        proof {
            assert(forall|k: int| 0 <= k < i + 1 - from ==> d.take(i + 1 - from)[k] == d[k]);
            assert forall|k: int| 0 <= k < i + 1 - from implies '0' <= #[trigger] d.take(
                i + 1 - from,
            )[k] <= '9' by {
                if k < i - from {
                    assert(d.take(i - from)[k] == d[k]);
                }
            }
        }
        i = i + 1;
    }
    proof {
        assert(d.take(i - from) =~= d);
    }
    if over {
        None
    } else {
        Some(v)
    }
}

/// Reads `s` as a decimal number that fits in 64 bits.
pub fn parse_u64(s: &str) -> (r: Option<u64>)
    ensures
        r == (match parsed(s@) {
            Some(n) if n <= u64::MAX => Some(n as u64),
            _ => None,
        }),
{
    parse_bounded(s, u64::MAX)
}

/// An ASCII letter in lower case; every other character stays.
pub open spec fn lowered(c: char) -> char {
    if 'A' <= c <= 'Z' {
        (c as int + 32) as char
    } else {
        c
    }
}

/// Whether two texts agree up to the case of ASCII letters.
pub open spec fn same_ignoring_case(a: Seq<char>, b: Seq<char>) -> bool {
    a.len() == b.len() && forall|i: int| 0 <= i < a.len() ==> lowered(#[trigger] a[i]) == lowered(b[i])
}

fn lower(c: char) -> (r: char)
    ensures
        r == lowered(c),
{
    if c >= 'A' && c <= 'Z' {
        ((c as u8) + 32u8) as char
    } else {
        c
    }
}

/// Compares two texts up to the case of ASCII letters.
pub fn eq_ignore_case(a: &str, b: &str) -> (r: bool)
    ensures
        r == same_ignoring_case(a@, b@),
{
    let x: Vec<char> = chars_of(a);
    let y: Vec<char> = chars_of(b);
    if x.len() != y.len() {
        return false;
    }
    let mut i: usize = 0;
    while i < x.len()
        invariant
            i <= x@.len(),
            x@ == a@,
            y@ == b@,
            x@.len() == y@.len(),
            forall|k: int| 0 <= k < i ==> lowered(#[trigger] x@[k]) == lowered(y@[k]),
        decreases x@.len() - i,
    {
        if lower(x[i]) != lower(y[i]) {
            assert(lowered(a@[i as int]) != lowered(b@[i as int]));
            return false;
        }
        i = i + 1;
    }
    true
}

/// What a hexadecimal digit stands for.
pub open spec fn hex_value(c: char) -> Option<nat> {
    if '0' <= c <= '9' {
        Some((c as int - '0' as int) as nat)
    } else if 'a' <= c <= 'f' {
        Some((c as int - 'a' as int + 10) as nat)
    } else if 'A' <= c <= 'F' {
        Some((c as int - 'A' as int + 10) as nat)
    } else {
        None
    }
}

/// Whether every character is a hexadecimal digit.
pub open spec fn all_hex(s: Seq<char>) -> bool {
    forall|i: int| 0 <= i < s.len() ==> hex_value(#[trigger] s[i]) is Some
}

/// The number that a run of hexadecimal digits spells.
pub open spec fn hex_number(s: Seq<char>) -> nat
    decreases s.len(),
{
    if s.len() == 0 {
        0
    } else {
        16 * hex_number(s.drop_last()) + hex_value(s.last()).unwrap_or(0)
    }
}

/// A text read as a hexadecimal number of 32 bits: an optional plus sign, then one or more
/// digits and nothing else.
pub open spec fn parsed_hex(s: Seq<char>) -> Option<u32> {
    let d = if s.len() > 0 && s[0] == '+' {
        s.skip(1)
    } else {
        s
    };
    if d.len() > 0 && all_hex(d) && hex_number(d) <= u32::MAX {
        Some(hex_number(d) as u32)
    } else {
        None
    }
}

fn hex_digit_of(c: char) -> (r: Option<u64>)
    ensures
        match (r, hex_value(c)) {
            (Some(a), Some(b)) => a == b && a < 16,
            (None, None) => true,
            _ => false,
        },
{
    if '0' <= c && c <= '9' {
        Some(c as u64 - 48)
    } else if 'a' <= c && c <= 'f' {
        Some(c as u64 - 87)
    } else if 'A' <= c && c <= 'F' {
        Some(c as u64 - 55)
    } else {
        None
    }
}

/// Reads a text as a hexadecimal number of 32 bits.
pub fn parse_hex(s: &str) -> (r: Option<u32>)
    ensures
        r == parsed_hex(s@),
{
    let cs: Vec<char> = chars_of(s);
    let from: usize = if cs.len() > 0 && cs[0] == '+' {
        1
    } else {
        0
    };
    let ghost d = s@.skip(from as int);
    proof {
        if from == 0 {
            assert(s@.skip(0) =~= s@);
        }
    }
    if cs.len() == from {
        return None;
    }
    let mut v: u64 = 0;
    let mut over: bool = false;
    let mut i: usize = from;
    while i < cs.len()
        invariant
            from <= i <= cs@.len(),
            cs@ == s@,
            d == s@.skip(from as int),
            from == (if s@.len() > 0 && s@[0] == '+' {
                1int
            } else {
                0
            }),
            from == 0 ==> d == s@,
            forall|k: int| 0 <= k < i - from ==> hex_value(#[trigger] d[k]) is Some,
            !over ==> v == hex_number(d.take(i - from)) && v <= u32::MAX,
            over ==> hex_number(d.take(i - from)) > u32::MAX,
        decreases cs@.len() - i,
    {
        let ghost k = i - from;
        proof {
            assert(d[k] == cs@[i as int]);
            assert(d.take(k + 1).drop_last() =~= d.take(k));
            assert(d.take(k + 1).last() == d[k]);
        }
        let x: u64 = match hex_digit_of(cs[i]) {
            Some(x) => x,
            None => {
                assert(!all_hex(d));
                return None;
            },
        };
        if !over {
            v = 16 * v + x;
            if v > u32::MAX as u64 {
                over = true;
            }
        }
        i += 1;
    }
    proof {
        assert(d.take(i - from) =~= d);
    }
    if over {
        None
    } else {
        Some(v as u32)
    }
}

/// The decimal digits of a number read back as that number, with or without a plus sign.
pub proof fn law_digits_read_back(n: nat)
    ensures
        parsed(decimal(n)) == Some(n),
        parsed(seq!['+'] + decimal(n)) == Some(n),
        decimal(n).len() > 1 ==> decimal(n)[0] != '0',
{
    lemma_digits(n);
    let d = decimal(n);
    let p = seq!['+'] + d;
    assert(p[0] == '+');
    assert(p.skip(1) =~= d);
    assert('0' <= d[0] <= '9');
}

proof fn lemma_digits(n: nat)
    ensures
        decimal(n).len() > 0,
        all_digits(decimal(n)),
        number(decimal(n)) == n,
        n > 0 ==> decimal(n)[0] != '0',
    decreases n,
{
    if n < 10 {
        let d = decimal(n);
        assert(d.len() == 1);
        assert(d.last() == digit(n as int));
        assert(d.drop_last() =~= Seq::empty());
        assert(number(d.drop_last()) == 0);
    } else {
        lemma_digits(n / 10);
        let (rest, last) = (decimal(n / 10), digit((n % 10) as int));
        assert(decimal(n) == rest.push(last));
        assert(decimal(n).drop_last() =~= rest);
        assert forall|i: int| 0 <= i < decimal(n).len() implies '0' <= #[trigger] decimal(n)[i]
            <= '9' by {
            if i < rest.len() {
                assert(decimal(n)[i] == rest[i]);
            }
        }
        assert(decimal(n)[0] == rest[0]);
    }
}

/// A number is read digit by digit, ten times what was read so far and the digit; text that
/// holds anything else than digits behind an optional plus sign is no number.
#[verifier::rlimit(50)]
pub proof fn law_a_number_is_read_digit_by_digit(s: Seq<char>, c: char, i: int)
    ensures
        '0' <= c <= '9' ==> parsed(seq![c]) == Some((c as int - '0' as int) as nat),
        parsed(s) is Some && '0' <= c <= '9' ==> parsed(s.push(c)) == Some(
            10 * parsed(s)->Some_0 + (c as int - '0' as int) as nat,
        ),
        parsed(s) is Some && !('0' <= c <= '9') ==> parsed(s.push(c)) is None,
        0 <= i < s.len() && !('0' <= s[i] <= '9') && (i > 0 || s[i] != '+') ==> parsed(s) is None,
        parsed(Seq::empty()) is None,
        parsed(seq!['+']) is None,
{
    let one = seq![c];
    if '0' <= c <= '9' {
        assert(one.drop_last() =~= Seq::empty());
        assert(number(one.drop_last()) == 0);
        assert(one[0] == c);
        assert(one.last() == c);
        assert(all_digits(one));
    }
    let plus = s.len() > 0 && s[0] == '+';
    let d = if plus {
        s.skip(1)
    } else {
        s
    };
    let e = if plus {
        s.push(c).skip(1)
    } else {
        s.push(c)
    };
    if parsed(s) is Some {
        assert(s.push(c)[0] == s[0]);
        assert(e =~= d.push(c));
        assert(e.drop_last() =~= d);
        assert(e.last() == c);
        if '0' <= c <= '9' {
            assert forall|k: int| 0 <= k < e.len() implies '0' <= #[trigger] e[k] <= '9' by {
                if k < d.len() {
                    assert(e[k] == d[k]);
                }
            }
        } else {
            assert(e[d.len() as int] == c);
        }
    }
    if 0 <= i < s.len() && !('0' <= s[i] <= '9') && (i > 0 || s[i] != '+') {
        if plus {
            assert(d[i - 1] == s[i]);
        } else {
            assert(d[i] == s[i]);
        }
    }
    assert(seq!['+'].skip(1) =~= Seq::empty());
}

/// The hexadecimal digits of a number are in lower case, without leading zeros, and spell
/// that number.
pub proof fn law_hex_digits_read_back(n: nat)
    ensures
        hexadecimal(n).len() > 0,
        all_hex(hexadecimal(n)),
        hex_number(hexadecimal(n)) == n,
        n <= u32::MAX ==> parsed_hex(hexadecimal(n)) == Some(n as u32),
        n > 0 ==> hexadecimal(n)[0] != '0',
        forall|i: int|
            0 <= i < hexadecimal(n).len() ==> !('A' <= #[trigger] hexadecimal(n)[i] <= 'F'),
    decreases n,
{
    let d = hexadecimal(n);
    if n < 16 {
        assert(d.len() == 1);
        assert(d.last() == hex_digit(n as int));
        assert(d.drop_last() =~= Seq::empty());
        assert(hex_number(d.drop_last()) == 0);
        assert(hex_value(d[0]) == Some(n));
    } else {
        law_hex_digits_read_back(n / 16);
        let (rest, last) = (hexadecimal(n / 16), hex_digit((n % 16) as int));
        assert(d == rest.push(last));
        assert(d.drop_last() =~= rest);
        assert(hex_value(last) == Some((n % 16) as nat));
        assert forall|i: int| 0 <= i < d.len() implies hex_value(#[trigger] d[i]) is Some && !('A'
            <= d[i] <= 'F') by {
            if i < rest.len() {
                assert(d[i] == rest[i]);
            }
        }
        assert(d[0] == rest[0]);
    }
    assert(d[0] != '+') by {
        assert(hex_value(d[0]) is Some);
    }
}

/// A text loses exactly the white space around it: what has none at its ends stays, with
/// blanks, tabs and line ends around it or without, and a text of nothing else is empty.
pub proof fn law_a_text_loses_what_is_around_it(front: Seq<char>, s: Seq<char>, back: Seq<char>)
    requires
        forall|i: int| 0 <= i < front.len() ==> white_space(#[trigger] front[i]),
        forall|i: int| 0 <= i < back.len() ==> white_space(#[trigger] back[i]),
        s.len() > 0 ==> !white_space(s[0]) && !white_space(s.last()),
    ensures
        trimmed(front + s + back) == s,
        white_space(' ') && white_space('\t') && white_space('\n') && white_space('\r'),
        forall|c: char| '!' <= c <= '~' ==> !#[trigger] white_space(c),
{
    let whole = front + s + back;
    let (i, j) = if s.len() > 0 {
        (front.len() as int, (front.len() + s.len()) as int)
    } else {
        (whole.len() as int, whole.len() as int)
    };
    assert(whole.subrange(i, j) =~= s);
    assert forall|k: int| 0 <= k < i implies white_space(whole[k]) by {
        if k < front.len() {
            assert(whole[k] == front[k]);
        } else {
            assert(whole[k] == back[k - front.len()]);
        }
    }
    assert forall|k: int| j <= k < whole.len() implies white_space(whole[k]) by {
        assert(whole[k] == back[k - front.len() - s.len()]);
    }
    assert(is_trimmed(whole, whole.subrange(i, j)));
    law_every_text_can_be_trimmed(whole);
    law_trimming_is_unique(whole, s, trimmed(whole));
}

/// A signed number is its digits, with a minus sign before a negative one.
pub proof fn law_a_sign_stands_before_the_digits(n: int)
    ensures
        n >= 0 ==> parsed(signed_decimal(n)) == Some(n as nat),
        n < 0 ==> signed_decimal(n).len() > 0 && signed_decimal(n)[0] == '-' && parsed(
            signed_decimal(n).skip(1),
        ) == Some((-n) as nat),
{
    if n >= 0 {
        law_digits_read_back(n as nat);
    } else {
        law_digits_read_back((-n) as nat);
        assert(signed_decimal(n).skip(1) =~= decimal((-n) as nat));
    }
}

/// A hexadecimal number is read digit by digit, sixteen times what was read so far and the
/// digit, in either case; what leaves 32 bits, or holds anything else, is no number.
#[verifier::rlimit(50)]
pub proof fn law_a_hex_number_is_read_digit_by_digit(s: Seq<char>, c: char, d: int, i: int)
    ensures
        '0' <= c <= '9' && d == c as int - '0' as int || 'a' <= c <= 'f' && d == c as int
            - 'a' as int + 10 || 'A' <= c <= 'F' && d == c as int - 'A' as int + 10 ==> {
            &&& parsed_hex(seq![c]) == Some(d as u32)
            &&& parsed_hex(s) matches Some(n) ==> parsed_hex(s.push(c)) == (if 16 * n + d
                <= u32::MAX {
                Some((16 * n + d) as u32)
            } else {
                None
            })
        },
        0 <= i < s.len() && !('0' <= s[i] <= '9' || 'a' <= s[i] <= 'f' || 'A' <= s[i] <= 'F') && (i
            > 0 || s[i] != '+') ==> parsed_hex(s) is None,
        parsed_hex(Seq::empty()) is None,
{
    let one = seq![c];
    let is_digit = '0' <= c <= '9' && d == c as int - '0' as int || 'a' <= c <= 'f' && d == c as int
        - 'a' as int + 10 || 'A' <= c <= 'F' && d == c as int - 'A' as int + 10;
    let plus = s.len() > 0 && s[0] == '+';
    let a = if plus {
        s.skip(1)
    } else {
        s
    };
    if is_digit {
        assert(hex_value(c) == Some(d as nat));
        assert(one.drop_last() =~= Seq::empty());
        assert(one.last() == c && one[0] == c);
        assert(hex_number(one.drop_last()) == 0);
        assert(all_hex(one));
        if parsed_hex(s) is Some {
            let b = if plus {
                s.push(c).skip(1)
            } else {
                s.push(c)
            };
            assert(s.push(c)[0] == s[0]);
            assert(b =~= a.push(c));
            assert(b.drop_last() =~= a);
            assert(b.last() == c);
            assert forall|k: int| 0 <= k < b.len() implies hex_value(#[trigger] b[k]) is Some by {
                if k < a.len() {
                    assert(b[k] == a[k]);
                }
            }
        }
    }
    if 0 <= i < s.len() && !('0' <= s[i] <= '9' || 'a' <= s[i] <= 'f' || 'A' <= s[i] <= 'F') && (i
        > 0 || s[i] != '+') {
        if plus {
            assert(a[i - 1] == s[i]);
            assert(hex_value(a[i - 1]) is None);
        } else {
            assert(a[i] == s[i]);
            assert(hex_value(a[i]) is None);
        }
    }
}

/// Texts agree up to case exactly where each letter does; everything else must be the same.
pub proof fn law_only_the_case_of_letters_is_ignored(a: Seq<char>, b: Seq<char>, i: int)
    requires
        same_ignoring_case(a, b),
        0 <= i < a.len(),
    ensures
        a.len() == b.len(),
        a[i] == b[i] || ('A' <= a[i] <= 'Z' && b[i] as u32 == a[i] as u32 + 32) || ('A' <= b[i]
            <= 'Z' && a[i] as u32 == b[i] as u32 + 32),
        same_ignoring_case(b, a),
{
    assert(lowered(a[i]) == lowered(b[i]));
    assert forall|k: int| 0 <= k < b.len() implies lowered(#[trigger] b[k]) == lowered(a[k]) by {
        assert(lowered(a[k]) == lowered(b[k]));
    }
}

} // verus!
