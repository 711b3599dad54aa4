//! Textual IPv4 / IPv6 address grammars and the three-way classification of a token.
use vstd::prelude::*;

verus! {

pub const ZERO: u8 = 48;
pub const NINE: u8 = 57;
pub const LOWER_A: u8 = 97;
pub const LOWER_F: u8 = 102;
pub const UPPER_A: u8 = 65;
pub const UPPER_F: u8 = 70;
pub const DOT: u8 = 46;
pub const COLON: u8 = 58;

/// The pieces of `s` between the bytes equal to `sep`, in order: one more piece than
/// there are separators, some of them possibly empty.
pub open spec fn fields(s: Seq<u8>, sep: u8) -> Seq<Seq<u8>>
    decreases s.len(),
{
    if s.len() == 0 {
        seq![Seq::<u8>::empty()]
    } else {
        let f = fields(s.drop_last(), sep);
        if s.last() == sep {
            f.push(Seq::<u8>::empty())
        } else {
            f.update(f.len() - 1, f.last().push(s.last()))
        }
    }
}

pub open spec fn is_digit(b: u8) -> bool {
    ZERO <= b <= NINE
}

pub open spec fn is_hex_digit(b: u8) -> bool {
    is_digit(b) || (LOWER_A <= b <= LOWER_F) || (UPPER_A <= b <= UPPER_F)
}

/// The value of a string of decimal digits.
pub open spec fn dec_value(s: Seq<u8>) -> nat
    decreases s.len(),
{
    if s.len() == 0 {
        0
    } else {
        dec_value(s.drop_last()) * 10 + (s.last() - ZERO) as nat
    }
}

/// One to three decimal digits with a value of at most 255, and no leading zero
/// unless the octet is `0` itself.
pub open spec fn is_dec_octet(s: Seq<u8>) -> bool {
    &&& 1 <= s.len() <= 3
    &&& forall|k: int| 0 <= k < s.len() ==> is_digit(#[trigger] s[k])
    &&& s.len() > 1 ==> s[0] != ZERO
    &&& dec_value(s) <= 255
}

/// Dotted-decimal IPv4 text: four octets joined by `.`.
pub open spec fn is_ipv4_text(s: Seq<u8>) -> bool {
    let f = fields(s, DOT);
    f.len() == 4 && forall|k: int| 0 <= k < 4 ==> is_dec_octet(#[trigger] f[k])
}

/// One to four hexadecimal digits.
pub open spec fn is_h16(s: Seq<u8>) -> bool {
    1 <= s.len() <= 4 && forall|k: int| 0 <= k < s.len() ==> is_hex_digit(#[trigger] s[k])
}

/// `t` spells exactly `n` 16-bit groups: nothing for `n == 0`; else `n` hex groups
/// joined by `:`, or, where `v4` allows it, `n - 2` hex groups and a trailing IPv4
/// address (worth two groups) joined by `:`.
pub open spec fn spells_groups(t: Seq<u8>, n: nat, v4: bool) -> bool {
    if n == 0 {
        t.len() == 0
    } else {
        let f = fields(t, COLON);
        ||| f.len() == n && forall|k: int| 0 <= k < n ==> is_h16(#[trigger] f[k])
        ||| v4 && n >= 2 && f.len() == n - 1 && (forall|k: int|
            0 <= k < n - 2 ==> is_h16(#[trigger] f[k])) && is_ipv4_text(f[n - 2])
    }
}

/// `s` splits at index `k` into `head :: tail` where head and tail spell `h` and `t`
/// groups with `h + t <= 7`; only the tail may end in an IPv4 address.
pub open spec fn compressed_at(s: Seq<u8>, k: int, h: nat, t: nat) -> bool {
    &&& 0 <= k && k + 2 <= s.len()
    &&& s[k] == COLON && s[k + 1] == COLON
    &&& h + t <= 7
    &&& spells_groups(s.subrange(0, k), h, false)
    &&& spells_groups(s.subrange(k + 2, s.len() as int), t, true)
}

/// Colon-grouped IPv6 text: eight groups in full, or fewer with one `::` standing for
/// at least one group of zeros.
pub open spec fn is_ipv6_text(s: Seq<u8>) -> bool {
    spells_groups(s, 8, true) || exists|k: int, h: nat, t: nat| compressed_at(s, k, h, t)
}

/// What the leading token of a line is taken for.
#[derive(PartialEq, Eq, Structural, Debug, Clone, Copy)]
pub enum AddressKind {
    Ipv4,
    Ipv6,
    Host,
}

pub open spec fn kind_of(token: Seq<u8>) -> AddressKind {
    if is_ipv4_text(token) {
        AddressKind::Ipv4
    } else if is_ipv6_text(token) {
        AddressKind::Ipv6
    } else {
        AddressKind::Host
    }
}

pub proof fn lemma_fields_len(s: Seq<u8>, sep: u8)
    ensures
        fields(s, sep).len() >= 1,
    decreases s.len(),
{
    if s.len() > 0 {
        lemma_fields_len(s.drop_last(), sep);
    }
}

/// The pieces and the separators between them take up `s`.
proof fn lemma_fields_bound(s: Seq<u8>, sep: u8)
    ensures
        fields(s, sep).len() >= 1,
        fields(s, sep).len() + fields(s, sep).last().len() <= s.len() + 1,
    decreases s.len(),
{
    if s.len() > 0 {
        lemma_fields_bound(s.drop_last(), sep);
    }
}

/// More than one piece means a separator occurs.
pub proof fn lemma_fields_sep(s: Seq<u8>, sep: u8)
    requires
        fields(s, sep).len() > 1,
    ensures
        exists|k: int| 0 <= k < s.len() && s[k] == sep,
    decreases s.len(),
{
    if s.last() != sep {
        lemma_fields_len(s.drop_last(), sep);
        lemma_fields_sep(s.drop_last(), sep);
        let k = choose|k: int| 0 <= k < s.drop_last().len() && s.drop_last()[k] == sep;
        assert(s[k] == sep);
    }
}

/// Splits `s[lo..hi]` at the bytes equal to `sep`; each pair is the range of one piece.
fn split_fields(s: &[u8], lo: usize, hi: usize, sep: u8) -> (r: Vec<(usize, usize)>)
    requires
        lo <= hi <= s@.len(),
    ensures
        r@.len() == fields(s@.subrange(lo as int, hi as int), sep).len(),
        forall|k: int|
            0 <= k < r@.len() ==> {
                let (a, b) = #[trigger] r@[k];
                &&& lo <= a <= b <= hi
                &&& s@.subrange(a as int, b as int) == fields(
                    s@.subrange(lo as int, hi as int),
                    sep,
                )[k]
            },
{
    let mut r: Vec<(usize, usize)> = Vec::new();
    let mut start: usize = lo;
    let mut i: usize = lo;
    while i < hi
        invariant
            lo <= start <= i <= hi <= s@.len(),
            r@.len() + 1 == fields(s@.subrange(lo as int, i as int), sep).len(),
            s@.subrange(start as int, i as int) == fields(
                s@.subrange(lo as int, i as int),
                sep,
            ).last(),
            forall|k: int|
                0 <= k < r@.len() ==> {
                    let (a, b) = #[trigger] r@[k];
                    &&& lo <= a <= b <= i
                    &&& s@.subrange(a as int, b as int) == fields(
                        s@.subrange(lo as int, i as int),
                        sep,
                    )[k]
                },
        decreases hi - i,
    {
        let ghost before = s@.subrange(lo as int, i as int);
        let ghost after = s@.subrange(lo as int, i + 1);
        proof {
            assert(after.drop_last() =~= before);
            lemma_fields_len(before, sep);
        }
        if s[i] == sep {
            r.push((start, i));
            start = i + 1;
            assert(s@.subrange(start as int, i + 1) =~= Seq::<u8>::empty());
        } else {
            assert(s@.subrange(start as int, i + 1) =~= s@.subrange(start as int, i as int).push(
                s@[i as int],
            ));
        }
        i += 1;
    }
    r.push((start, hi));
    r
}

/// Whether `s[lo..hi]` is a decimal octet.
fn dec_octet_at(s: &[u8], lo: usize, hi: usize) -> (r: bool)
    requires
        lo <= hi <= s@.len(),
    ensures
        r == is_dec_octet(s@.subrange(lo as int, hi as int)),
{
    let ghost t = s@.subrange(lo as int, hi as int);
    if hi - lo < 1 || hi - lo > 3 {
        return false;
    }
    if hi - lo > 1 && s[lo] == ZERO {
        return false;
    }
    let mut value: u32 = 0;
    let mut i: usize = lo;
    while i < hi
        invariant
            lo <= i <= hi <= lo + 3,
            hi <= s@.len(),
            t == s@.subrange(lo as int, hi as int),
            forall|k: int| 0 <= k < i - lo ==> is_digit(#[trigger] t[k]),
            value == dec_value(t.subrange(0, i - lo)),
            i - lo == 0 ==> value == 0,
            i - lo == 1 ==> value <= 9,
            i - lo == 2 ==> value <= 99,
            value <= 999,
        decreases hi - i,
    {
        if s[i] < ZERO || s[i] > NINE {
            assert(!is_digit(t[i - lo]));
            return false;
        }
        assert(t.subrange(0, i + 1 - lo).drop_last() =~= t.subrange(0, i - lo));
        value = value * 10 + (s[i] - ZERO) as u32;
        i += 1;
    }
    assert(t.subrange(0, hi - lo) =~= t);
    value <= 255
}

/// Whether `s[lo..hi]` is one to four hex digits.
fn h16_at(s: &[u8], lo: usize, hi: usize) -> (r: bool)
    requires
        lo <= hi <= s@.len(),
    ensures
        r == is_h16(s@.subrange(lo as int, hi as int)),
{
    let ghost t = s@.subrange(lo as int, hi as int);
    if hi - lo < 1 || hi - lo > 4 {
        return false;
    }
    let mut i: usize = lo;
    while i < hi
        invariant
            lo <= i <= hi <= s@.len(),
            t == s@.subrange(lo as int, hi as int),
            forall|k: int| 0 <= k < i - lo ==> is_hex_digit(#[trigger] t[k]),
        decreases hi - i,
    {
        let b = s[i];
        if !((ZERO <= b && b <= NINE) || (LOWER_A <= b && b <= LOWER_F) || (UPPER_A <= b && b
            <= UPPER_F)) {
            assert(!is_hex_digit(t[i - lo]));
            return false;
        }
        i += 1;
    }
    true
}

/// Whether `s[lo..hi]` is dotted-decimal IPv4 text.
fn ipv4_at(s: &[u8], lo: usize, hi: usize) -> (r: bool)
    requires
        lo <= hi <= s@.len(),
    ensures
        r == is_ipv4_text(s@.subrange(lo as int, hi as int)),
{
    let ghost f = fields(s@.subrange(lo as int, hi as int), DOT);
    let parts = split_fields(s, lo, hi, DOT);
    if parts.len() != 4 {
        return false;
    }
    let mut k: usize = 0;
    while k < 4
        invariant
            k <= 4,
            parts@.len() == 4,
            f.len() == 4,
            f == fields(s@.subrange(lo as int, hi as int), DOT),
            forall|j: int|
                0 <= j < 4 ==> {
                    let (a, b) = #[trigger] parts@[j];
                    &&& lo <= a <= b <= hi
                    &&& s@.subrange(a as int, b as int) == f[j]
                },
            hi <= s@.len(),
            forall|j: int| 0 <= j < k ==> is_dec_octet(#[trigger] f[j]),
        decreases 4 - k,
    {
        let (a, b) = parts[k];
        if !dec_octet_at(s, a, b) {
            return false;
        }
        k += 1;
    }
    true
}

/// IPv4 text has a dot, which no hex group has.
proof fn lemma_ipv4_not_h16(g: Seq<u8>)
    requires
        is_ipv4_text(g),
    ensures
        !is_h16(g),
{
    lemma_fields_sep(g, DOT);
}

proof fn lemma_empty_spells_nothing(t: Seq<u8>, n: nat, v4: bool)
    requires
        t.len() == 0,
        n > 0,
    ensures
        !spells_groups(t, n, v4),
{
    assert(fields(t, COLON) == seq![Seq::<u8>::empty()]);
    assert(fields(t, DOT) == seq![Seq::<u8>::empty()]);
    assert(!is_h16(fields(t, COLON)[0]));
}

/// The number of 16-bit groups that `s[lo..hi]` spells, if it spells any (see
/// `spells_groups`); that number is unique.
fn group_count(s: &[u8], lo: usize, hi: usize, v4: bool) -> (r: Option<usize>)
    requires
        lo <= hi <= s@.len(),
    ensures
        match r {
            Some(c) => spells_groups(s@.subrange(lo as int, hi as int), c as nat, v4) && forall|
                n: nat,
            |
                #![trigger spells_groups(s@.subrange(lo as int, hi as int), n, v4)]
                spells_groups(s@.subrange(lo as int, hi as int), n, v4) ==> n == c,
            None => forall|n: nat| !spells_groups(s@.subrange(lo as int, hi as int), n, v4),
        },
{
    let ghost t = s@.subrange(lo as int, hi as int);
    if lo == hi {
        assert forall|n: nat| spells_groups(t, n, v4) implies n == 0 by {
            if n > 0 {
                lemma_empty_spells_nothing(t, n, v4);
            }
        }
        return Some(0);
    }
    let ghost f = fields(t, COLON);
    let parts = split_fields(s, lo, hi, COLON);
    let cnt = parts.len();
    proof {
        lemma_fields_len(t, COLON);
    }
    let mut k: usize = 0;
    while k + 1 < cnt
        invariant
            cnt == parts@.len(),
            cnt == f.len(),
            cnt >= 1,
            k < cnt,
            f == fields(t, COLON),
            t == s@.subrange(lo as int, hi as int),
            forall|j: int|
                0 <= j < cnt ==> {
                    let (a, b) = #[trigger] parts@[j];
                    &&& lo <= a <= b <= hi
                    &&& s@.subrange(a as int, b as int) == f[j]
                },
            hi <= s@.len(),
            forall|j: int| 0 <= j < k ==> is_h16(#[trigger] f[j]),
        decreases cnt - k,
    {
        let (a, b) = parts[k];
        if !h16_at(s, a, b) {
            assert(forall|n: nat| !spells_groups(t, n, v4)) by {
                assert(!is_h16(f[k as int]));
            }
            return None;
        }
        k += 1;
    }
    let (a, b) = parts[cnt - 1];
    if h16_at(s, a, b) {
        assert forall|n: nat| spells_groups(t, n, v4) implies n == cnt by {
            if n != cnt {
                if is_ipv4_text(f[cnt - 1]) {
                    lemma_ipv4_not_h16(f[cnt - 1]);
                }
            }
        }
        Some(cnt)
    } else if v4 && ipv4_at(s, a, b) {
        proof {
            lemma_fields_bound(t, COLON);
            lemma_fields_bound(f[cnt - 1], DOT);
        }
        assert(spells_groups(t, (cnt + 1) as nat, v4));
        Some(cnt + 1)
    } else {
        None
    }
}

/// Whether `token` is dotted-decimal IPv4 text.
pub fn is_ipv4(token: &[u8]) -> (r: bool)
    ensures
        r == is_ipv4_text(token@),
{
    let r = ipv4_at(token, 0, token.len());
    assert(token@.subrange(0, token@.len() as int) =~= token@);
    r
}

/// Whether `token` is colon-grouped IPv6 text.
pub fn is_ipv6(token: &[u8]) -> (r: bool)
    ensures
        r == is_ipv6_text(token@),
{
    let ghost s = token@;
    let len = token.len();
    assert(token@.subrange(0, len as int) =~= s);
    if let Some(c) = group_count(token, 0, len, true) {
        if c == 8 {
            return true;
        }
    }
    let mut k: usize = 0;
    while len >= 2 && k < len - 1
        invariant
            s == token@,
            len == s.len(),
            !spells_groups(s, 8, true),
            forall|j: int, h: nat, t: nat| 0 <= j < k ==> !#[trigger] compressed_at(s, j, h, t),
        decreases len - k,
    {
        if token[k] == COLON && token[k + 1] == COLON {
            let head = group_count(token, 0, k, false);
            let tail = group_count(token, k + 2, len, true);
            match (head, tail) {
                (Some(h), Some(t)) => {
                    if h <= 7 && t <= 7 - h {
                        assert(compressed_at(s, k as int, h as nat, t as nat));
                        return true;
                    }
                },
                _ => {},
            }
        }
        k += 1;
    }
    false
}

/// Classifies a token as IPv4 text, else IPv6 text, else a host name. The grammars
/// admit ASCII bytes alone, so a token that is not valid UTF-8 is a host.
pub fn classify(token: &[u8]) -> (r: AddressKind)
    ensures
        r == kind_of(token@),
{
    if is_ipv4(token) {
        AddressKind::Ipv4
    } else if is_ipv6(token) {
        AddressKind::Ipv6
    } else {
        AddressKind::Host
    }
}

} // verus!
