//! The per-line rewrite: trim, find the token, classify it, write its replacement,
//! clear the field after it, and replace further occurrences of it.
use crate::addr::{classify, is_digit, kind_of, AddressKind, NINE, ZERO};
use crate::config::Config;
use crate::search::{push_range, replace, replaced};
use vstd::prelude::*;
use vstd::slice::slice_subrange;
use vstd::string::StringSliceAdditionalSpecFns;

verus! {

pub const TAB: u8 = 9;
pub const LF: u8 = 10;
pub const FF: u8 = 12;
pub const CR: u8 = 13;
pub const SPACE: u8 = 32;
pub const DASH: u8 = 45;
pub const SLASH: u8 = 47;
pub const LBRACKET: u8 = 91;

/// ASCII whitespace: space, tab, line feed, form feed and carriage return.
pub open spec fn is_ws(b: u8) -> bool {
    b == SPACE || b == TAB || b == LF || b == FF || b == CR
}

/// The first index at or after `from` whose byte is not whitespace, or `s.len()`.
pub open spec fn skip_ws_from(s: Seq<u8>, from: nat) -> nat
    decreases s.len() - from,
{
    if from >= s.len() {
        s.len()
    } else if is_ws(s[from as int]) {
        skip_ws_from(s, from + 1)
    } else {
        from
    }
}

/// The first index at or after `from` whose byte is whitespace.
pub open spec fn find_ws_from(s: Seq<u8>, from: nat) -> Option<nat>
    decreases s.len() - from,
{
    if from >= s.len() {
        None
    } else if is_ws(s[from as int]) {
        Some(from)
    } else {
        find_ws_from(s, from + 1)
    }
}

/// The time field starts at `p`: a space, `[`, one or two digits and `/`.
pub open spec fn anchor_at(s: Seq<u8>, p: int) -> bool {
    &&& 0 <= p && p + 4 <= s.len()
    &&& s[p] == SPACE && s[p + 1] == LBRACKET && is_digit(s[p + 2])
    &&& (s[p + 3] == SLASH || (p + 5 <= s.len() && is_digit(s[p + 3]) && s[p + 4] == SLASH))
}

/// The first index at or after `from` where the time field starts.
pub open spec fn find_anchor_from(s: Seq<u8>, from: nat) -> Option<nat>
    decreases s.len() - from,
{
    if from >= s.len() {
        None
    } else if anchor_at(s, from as int) {
        Some(from)
    } else {
        find_anchor_from(s, from + 1)
    }
}

/// The line with its leading whitespace removed when `trim` is set; a line that is
/// whitespace alone is kept whole, so its terminator stays.
pub open spec fn trimmed(c: Config, line: Seq<u8>) -> Seq<u8> {
    if c.trim && skip_ws_from(line, 0) < line.len() {
        line.subrange(skip_ws_from(line, 0) as int, line.len() as int)
    } else {
        line
    }
}

/// The replacement that `c` gives for a token of kind `k`.
pub open spec fn replacement(c: Config, k: AddressKind) -> Seq<u8> {
    match k {
        AddressKind::Ipv4 => c.ipv4.spec_bytes(),
        AddressKind::Ipv6 => c.ipv6.spec_bytes(),
        AddressKind::Host => c.host.spec_bytes(),
    }
}

/// The cleared field marker written in place of the field after the token.
pub open spec fn cleared_field() -> Seq<u8> {
    seq![SPACE, DASH, SPACE, DASH]
}

/// After the whitespace at `i`, the next field starts with `- [`.
pub open spec fn looks_cleared(b: Seq<u8>, i: int) -> bool {
    i + 6 <= b.len() && b[i + 3] == DASH && b[i + 4] == SPACE && b[i + 5] == LBRACKET
}

/// `rest`, or with `thorough` set and a non-empty token, `rest` with every
/// non-overlapping occurrence of the token replaced.
pub open spec fn finished(c: Config, rest: Seq<u8>, token: Seq<u8>, r: Seq<u8>) -> Seq<u8> {
    if c.thorough && token.len() > 0 {
        replaced(rest, token, r)
    } else {
        rest
    }
}

/// What follows the replacement: the rest of the line from the whitespace at `i`, or,
/// with `authuser` set, the cleared marker and the rest from the time field on, unless
/// the field looks cleared already (with `optimize`) or there is no time field.
pub open spec fn after_token(c: Config, b: Seq<u8>, i: nat, token: Seq<u8>, r: Seq<u8>) -> Seq<
    u8,
> {
    if c.authuser && !(c.optimize && looks_cleared(b, i as int)) && find_anchor_from(
        b,
        i,
    ).is_some() {
        let p = find_anchor_from(b, i).unwrap();
        cleared_field() + finished(c, b.subrange(p as int, b.len() as int), token, r)
    } else {
        finished(c, b.subrange(i as int, b.len() as int), token, r)
    }
}

/// The output for one line. Without whitespace the line has no token: it is left
/// out with `skip`, else copied. Else the token ends at the first whitespace; an
/// empty token with `skip` leaves the line out; any other is replaced by the
/// replacement for its kind, followed by `after_token`.
pub open spec fn rewritten(c: Config, line: Seq<u8>) -> Seq<u8> {
    let b = trimmed(c, line);
    match find_ws_from(b, 0) {
        None => if c.skip {
            Seq::<u8>::empty()
        } else {
            b
        },
        Some(i) => {
            let token = b.subrange(0, i as int);
            if token.len() == 0 && c.skip {
                Seq::<u8>::empty()
            } else {
                let r = replacement(c, kind_of(token));
                r + after_token(c, b, i, token, r)
            }
        },
    }
}

fn is_ws_byte(b: u8) -> (r: bool)
    ensures
        r == is_ws(b),
{
    b == SPACE || b == TAB || b == LF || b == FF || b == CR
}

fn skip_ws(s: &[u8]) -> (r: usize)
    ensures
        r == skip_ws_from(s@, 0),
{
    let mut k: usize = 0;
    while k < s.len() && is_ws_byte(s[k])
        invariant
            k <= s@.len(),
            skip_ws_from(s@, 0) == skip_ws_from(s@, k as nat),
        decreases s@.len() - k,
    {
        k += 1;
    }
    k
}

fn find_ws(s: &[u8]) -> (r: Option<usize>)
    ensures
        match r {
            Some(i) => find_ws_from(s@, 0) == Some(i as nat),
            None => find_ws_from(s@, 0) == None::<nat>,
        },
{
    let mut k: usize = 0;
    while k < s.len()
        invariant
            k <= s@.len(),
            find_ws_from(s@, 0) == find_ws_from(s@, k as nat),
        decreases s@.len() - k,
    {
        if is_ws_byte(s[k]) {
            return Some(k);
        }
        k += 1;
    }
    None
}

fn is_digit_byte(b: u8) -> (r: bool)
    ensures
        r == is_digit(b),
{
    ZERO <= b && b <= NINE
}

/// The first index at or after `from` where the bracketed time field starts: a
/// space, `[`, one or two digits and `/`.
pub fn find_time_field(s: &[u8], from: usize) -> (r: Option<usize>)
    ensures
        match r {
            Some(p) => find_anchor_from(s@, from as nat) == Some(p as nat),
            None => find_anchor_from(s@, from as nat) == None::<nat>,
        },
{
    let n = s.len();
    let mut k: usize = from;
    while k < n
        invariant
            n == s@.len(),
            from <= k,
            find_anchor_from(s@, from as nat) == find_anchor_from(s@, k as nat),
        decreases n - k,
    {
        if n - k >= 4 && s[k] == SPACE && s[k + 1] == LBRACKET && is_digit_byte(s[k + 2]) && (
        s[k + 3] == SLASH || (n - k >= 5 && is_digit_byte(s[k + 3]) && s[k + 4] == SLASH)) {
            return Some(k);
        }
        k += 1;
    }
    None
}

/// Appends `slice`, or with `should_replace` set and a non-empty `needle`, `slice` with
/// every non-overlapping occurrence of `needle` replaced by `repl`.
pub fn write_or_replace(
    slice: &[u8],
    needle: &[u8],
    repl: &[u8],
    should_replace: bool,
    out: &mut Vec<u8>,
)
    ensures
        final(out)@ == old(out)@ + if should_replace && needle@.len() > 0 {
            replaced(slice@, needle@, repl@)
        } else {
            slice@
        },
{
    if should_replace && needle.len() > 0 {
        let r = replace(slice, needle, repl);
        push_range(out, r.as_slice(), 0, r.len());
        assert(r@.subrange(0, r@.len() as int) =~= r@);
    } else {
        push_range(out, slice, 0, slice.len());
        assert(slice@.subrange(0, slice@.len() as int) =~= slice@);
    }
}

/// Appends `after_token` for the token `b[..i]` and its replacement `r`.
fn write_after_token(
    config: &Config,
    b: &[u8],
    i: usize,
    token: &[u8],
    r: &[u8],
    out: &mut Vec<u8>,
)
    requires
        i < b@.len(),
    ensures
        final(out)@ == old(out)@ + after_token(*config, b@, i as nat, token@, r@),
{
    let thorough = config.thorough;
    if config.authuser && !(config.optimize && looks_cleared_at(b, i)) {
        if let Some(p) = find_time_field(b, i) {
            proof {
                lemma_find_anchor_bound(b@, i as nat);
            }
            out.push(SPACE);
            out.push(DASH);
            out.push(SPACE);
            out.push(DASH);
            let ghost mid = out@;
            assert(mid =~= old(out)@ + cleared_field());
            write_or_replace(slice_subrange(b, p, b.len()), token, r, thorough, out);
            assert(out@ =~= old(out)@ + after_token(*config, b@, i as nat, token@, r@));
            return;
        }
    }
    write_or_replace(slice_subrange(b, i, b.len()), token, r, thorough, out);
}

/// Appends the output for one line (see `rewritten`) to `out`.
pub fn rewrite_line(config: &Config, line: &[u8], out: &mut Vec<u8>)
    ensures
        final(out)@ == old(out)@ + rewritten(*config, line@),
{
    let c = Ghost(*config);
    let mut start: usize = 0;
    if config.trim {
        let s = skip_ws(line);
        if s < line.len() {
            start = s;
        }
    }
    let b = slice_subrange(line, start, line.len());
    assert(b@ == trimmed(c@, line@)) by {
        if start == 0 {
            assert(line@.subrange(0, line@.len() as int) =~= line@);
        }
    }
    match find_ws(b) {
        None => {
            if !config.skip {
                push_range(out, b, 0, b.len());
                assert(b@.subrange(0, b@.len() as int) =~= b@);
            } else {
                assert(out@ =~= old(out)@ + Seq::<u8>::empty());
            }
        },
        Some(i) => {
            proof {
                lemma_find_ws_found(b@, 0);
            }
            let token = slice_subrange(b, 0, i);
            if i == 0 && config.skip {
                assert(out@ =~= old(out)@ + Seq::<u8>::empty());
                return;
            }
            let repl: &str = match classify(token) {
                AddressKind::Ipv4 => config.ipv4,
                AddressKind::Ipv6 => config.ipv6,
                AddressKind::Host => config.host,
            };
            let r = repl.as_bytes();
            assert(r@ == replacement(c@, kind_of(token@)));
            push_range(out, r, 0, r.len());
            assert(r@.subrange(0, r@.len() as int) =~= r@);
            write_after_token(config, b, i, token, r, out);
        },
    }
}

fn looks_cleared_at(b: &[u8], i: usize) -> (r: bool)
    ensures
        r == looks_cleared(b@, i as int),
{
    b.len() >= 6 && i <= b.len() - 6 && b[i + 3] == DASH && b[i + 4] == SPACE && b[i + 5]
        == LBRACKET
}

/// The first whitespace found from `from` is whitespace, and none comes before it.
pub proof fn lemma_find_ws_found(s: Seq<u8>, from: nat)
    ensures
        find_ws_from(s, from) matches Some(i) ==> from <= i < s.len() && is_ws(s[i as int])
            && forall|m: int| from <= m < i ==> !is_ws(#[trigger] s[m]),
    decreases s.len() - from,
{
    if from < s.len() && !is_ws(s[from as int]) {
        lemma_find_ws_found(s, from + 1);
    }
}

proof fn lemma_find_anchor_bound(s: Seq<u8>, from: nat)
    ensures
        find_anchor_from(s, from) matches Some(p) ==> from <= p && anchor_at(s, p as int),
    decreases s.len() - from,
{
    if from < s.len() && !anchor_at(s, from as int) {
        lemma_find_anchor_bound(s, from + 1);
    }
}

} // verus!
