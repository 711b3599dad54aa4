//! Properties of the line rewrite that relate several definitions, proved once for all inputs.
use crate::addr::{
    dec_value, fields, is_digit, is_dec_octet, is_h16, is_hex_digit, is_ipv4_text, is_ipv6_text, kind_of,
    lemma_fields_len, lemma_fields_sep, spells_groups, compressed_at, AddressKind, COLON, DOT,
};
use crate::config::{is_default_config, Config};
use crate::line::{
    after_token, find_ws_from, is_ws, lemma_find_ws_found, replacement, rewritten, skip_ws_from,
    trimmed,
};
use vstd::prelude::*;
use vstd::string::StringSliceAdditionalSpecFns;

verus! {

/// Where the separator and every byte of every piece satisfy `p`, every byte of `s` does.
proof fn lemma_fields_all(s: Seq<u8>, sep: u8, p: spec_fn(u8) -> bool)
    requires
        p(sep),
        forall|j: int, m: int|
            0 <= j < fields(s, sep).len() && 0 <= m < fields(s, sep)[j].len() ==> p(
                #[trigger] fields(s, sep)[j][m],
            ),
    ensures
        forall|m: int| 0 <= m < s.len() ==> p(#[trigger] s[m]),
    decreases s.len(),
{
    if s.len() > 0 {
        let q = s.drop_last();
        let f = fields(q, sep);
        lemma_fields_len(q, sep);
        if s.last() == sep {
            assert forall|j: int, m: int| 0 <= j < f.len() && 0 <= m < f[j].len() implies p(
                #[trigger] f[j][m],
            ) by {
                assert(fields(s, sep)[j] == f[j]);
            }
        } else {
            let g = fields(s, sep);
            assert(g[f.len() - 1] == f.last().push(s.last()));
            assert(p(g[f.len() - 1][f.last().len() as int]));
            assert forall|j: int, m: int| 0 <= j < f.len() && 0 <= m < f[j].len() implies p(
                #[trigger] f[j][m],
            ) by {
                if j == f.len() - 1 {
                    assert(g[j][m] == f[j][m]);
                } else {
                    assert(g[j] == f[j]);
                }
            }
        }
        lemma_fields_all(q, sep, p);
        assert forall|m: int| 0 <= m < s.len() implies p(#[trigger] s[m]) by {
            if m < q.len() {
                assert(s[m] == q[m]);
            }
        }
    }
}

/// Every byte of IPv4 text is a digit or a dot.
proof fn lemma_ipv4_bytes(s: Seq<u8>)
    requires
        is_ipv4_text(s),
    ensures
        forall|m: int| 0 <= m < s.len() ==> is_digit(#[trigger] s[m]) || s[m] == DOT,
{
    let p = |b: u8| is_digit(b) || b == DOT;
    let f = fields(s, DOT);
    assert forall|j: int, m: int| 0 <= j < f.len() && 0 <= m < f[j].len() implies p(
        #[trigger] f[j][m],
    ) by {
        assert(is_dec_octet(f[j]));
    }
    lemma_fields_all(s, DOT, p);
}

/// Every byte of a run of groups is a hex digit, a colon, or a dot.
proof fn lemma_groups_bytes(t: Seq<u8>, n: nat, v4: bool)
    requires
        spells_groups(t, n, v4),
    ensures
        forall|m: int|
            0 <= m < t.len() ==> is_hex_digit(#[trigger] t[m]) || t[m] == COLON || t[m] == DOT,
{
    let p = |b: u8| is_hex_digit(b) || b == COLON || b == DOT;
    if n > 0 {
        let f = fields(t, COLON);
        assert forall|j: int, m: int| 0 <= j < f.len() && 0 <= m < f[j].len() implies p(
            #[trigger] f[j][m],
        ) by {
            if is_h16(f[j]) {
                assert(is_hex_digit(f[j][m]));
            } else {
                lemma_ipv4_bytes(f[j]);
                assert(is_digit(f[j][m]) || f[j][m] == DOT);
            }
        }
        lemma_fields_all(t, COLON, p);
    }
}

/// IPv6 text has a colon.
proof fn lemma_ipv6_has_colon(s: Seq<u8>)
    requires
        is_ipv6_text(s),
    ensures
        exists|m: int| 0 <= m < s.len() && s[m] == COLON,
{
    if spells_groups(s, 8, true) {
        lemma_fields_sep(s, COLON);
    } else {
        let (k, h, t) = choose|k: int, h: nat, t: nat| compressed_at(s, k, h, t);
        assert(s[k] == COLON);
    }
}

/// No text is both IPv4 and IPv6.
pub proof fn address_kinds_disjoint(s: Seq<u8>)
    ensures
        !(is_ipv4_text(s) && is_ipv6_text(s)),
{
    if is_ipv4_text(s) && is_ipv6_text(s) {
        lemma_ipv4_bytes(s);
        lemma_ipv6_has_colon(s);
    }
}

/// A token with a byte outside ASCII, as every invalid UTF-8 sequence has, is a host.
pub proof fn non_ascii_token_is_host(token: Seq<u8>, k: int)
    requires
        0 <= k < token.len(),
        token[k] >= 128,
    ensures
        kind_of(token) == AddressKind::Host,
{
    if is_ipv4_text(token) {
        lemma_ipv4_bytes(token);
        assert(is_digit(token[k]) || token[k] == DOT);
    }
    if is_ipv6_text(token) {
        if spells_groups(token, 8, true) {
            lemma_groups_bytes(token, 8, true);
            assert(is_hex_digit(token[k]) || token[k] == COLON || token[k] == DOT);
        } else {
            let (j, h, t) = choose|j: int, h: nat, t: nat| compressed_at(token, j, h, t);
            let head = token.subrange(0, j);
            let tail = token.subrange(j + 2, token.len() as int);
            lemma_groups_bytes(head, h, false);
            lemma_groups_bytes(tail, t, true);
            if k < j {
                assert(token[k] == head[k]);
            } else if k >= j + 2 {
                assert(token[k] == tail[k - j - 2]);
            }
        }
    }
}

proof fn lemma_find_ws_none(s: Seq<u8>, from: nat)
    requires
        forall|m: int| from <= m < s.len() ==> !is_ws(#[trigger] s[m]),
    ensures
        find_ws_from(s, from) == None::<nat>,
    decreases s.len() - from,
{
    if from < s.len() {
        lemma_find_ws_none(s, from + 1);
    }
}

proof fn lemma_find_ws_none_rev(s: Seq<u8>, from: nat)
    requires
        find_ws_from(s, from) == None::<nat>,
    ensures
        forall|m: int| from <= m < s.len() ==> !is_ws(#[trigger] s[m]),
    decreases s.len() - from,
{
    if from < s.len() {
        lemma_find_ws_none_rev(s, from + 1);
    }
}

proof fn lemma_find_ws_some(s: Seq<u8>, from: nat, i: nat)
    requires
        from <= i < s.len(),
        is_ws(s[i as int]),
        forall|m: int| from <= m < i ==> !is_ws(#[trigger] s[m]),
    ensures
        find_ws_from(s, from) == Some(i),
    decreases i - from,
{
    if from < i {
        lemma_find_ws_some(s, from + 1, i);
    }
}

/// A line without whitespace has no token: with `skip` it is left out, else it is
/// copied unchanged.
pub proof fn line_without_token(c: Config, line: Seq<u8>)
    requires
        forall|m: int| 0 <= m < line.len() ==> !is_ws(#[trigger] line[m]),
    ensures
        rewritten(c, line) == if c.skip {
            Seq::<u8>::empty()
        } else {
            line
        },
{
    if line.len() > 0 {
        assert(!is_ws(line[0]));
        assert(skip_ws_from(line, 0) == 0);
        assert(line.subrange(0, line.len() as int) =~= line);
    }
    assert(trimmed(c, line) == line);
    lemma_find_ws_none(line, 0);
}

/// With field clearing and thorough replacement off, a line with a token comes out as
/// the replacement for the token's kind followed, byte for byte, by the rest of the
/// line from the first whitespace on, whatever the replacement strings hold (an empty
/// one included). The one exception is an empty token under `skip`.
pub proof fn token_replaced_verbatim(c: Config, line: Seq<u8>, i: nat)
    requires
        !c.authuser,
        !c.thorough,
        find_ws_from(trimmed(c, line), 0) == Some(i),
        !(i == 0 && c.skip),
    ensures
        rewritten(c, line) == replacement(c, kind_of(trimmed(c, line).subrange(0, i as int)))
            + trimmed(c, line).subrange(i as int, trimmed(c, line).len() as int),
{
    lemma_find_ws_found(trimmed(c, line), 0);
}

/// With field clearing and thorough replacement off, a line whose token is IPv4 text
/// comes out as the IPv4 replacement followed by the rest of the line unchanged.
pub proof fn ipv4_token_replaced(c: Config, line: Seq<u8>, i: nat)
    requires
        !c.authuser,
        !c.thorough,
        find_ws_from(trimmed(c, line), 0) == Some(i),
        is_ipv4_text(trimmed(c, line).subrange(0, i as int)),
    ensures
        rewritten(c, line) == c.ipv4.spec_bytes() + trimmed(c, line).subrange(
            i as int,
            trimmed(c, line).len() as int,
        ),
{
    let token = trimmed(c, line).subrange(0, i as int);
    if i == 0 {
        assert(fields(token, DOT) == seq![Seq::<u8>::empty()]);
    }
    token_replaced_verbatim(c, line, i);
}

/// With field clearing and thorough replacement off, a line whose token is IPv6 text
/// comes out as the IPv6 replacement followed by the rest of the line unchanged.
pub proof fn ipv6_token_replaced(c: Config, line: Seq<u8>, i: nat)
    requires
        !c.authuser,
        !c.thorough,
        find_ws_from(trimmed(c, line), 0) == Some(i),
        is_ipv6_text(trimmed(c, line).subrange(0, i as int)),
    ensures
        rewritten(c, line) == c.ipv6.spec_bytes() + trimmed(c, line).subrange(
            i as int,
            trimmed(c, line).len() as int,
        ),
{
    let token = trimmed(c, line).subrange(0, i as int);
    address_kinds_disjoint(token);
    lemma_ipv6_has_colon(token);
    token_replaced_verbatim(c, line, i);
}

/// Whatever the switches, a line whose token is neither IPv4 nor IPv6 text (and is not
/// an empty token under `skip`) comes out starting with the host replacement.
pub proof fn other_token_replaced_by_host(c: Config, line: Seq<u8>, i: nat)
    requires
        find_ws_from(trimmed(c, line), 0) == Some(i),
        !is_ipv4_text(trimmed(c, line).subrange(0, i as int)),
        !is_ipv6_text(trimmed(c, line).subrange(0, i as int)),
        !(i == 0 && c.skip),
    ensures
        rewritten(c, line).subrange(0, c.host.spec_bytes().len() as int) == c.host.spec_bytes(),
{
    let b = trimmed(c, line);
    lemma_find_ws_found(b, 0);
    let h = c.host.spec_bytes();
    let rest = after_token(c, b, i, b.subrange(0, i as int), h);
    assert(rewritten(c, line) == h + rest);
    assert((h + rest).subrange(0, h.len() as int) =~= h);
}

/// With field clearing and thorough replacement off, a token whose bytes are not all
/// ASCII (an invalid UTF-8 sequence among them) is replaced by the host replacement
/// and the rest of the line is kept.
pub proof fn non_ascii_token_replaced_by_host(c: Config, line: Seq<u8>, i: nat, k: int)
    requires
        !c.authuser,
        !c.thorough,
        find_ws_from(trimmed(c, line), 0) == Some(i),
        0 <= k < i,
        trimmed(c, line)[k] >= 128,
    ensures
        rewritten(c, line) == c.host.spec_bytes() + trimmed(c, line).subrange(
            i as int,
            trimmed(c, line).len() as int,
        ),
{
    let token = trimmed(c, line).subrange(0, i as int);
    lemma_find_ws_found(trimmed(c, line), 0);
    assert(token[k] == trimmed(c, line)[k]);
    non_ascii_token_is_host(token, k);
    token_replaced_verbatim(c, line, i);
}

/// Where each replacement is a non-empty string without whitespace that is itself of
/// its kind (as `127.0.0.1`, `::1` and `localhost` are), rewriting a line's output
/// again gives that output back, with field clearing and thorough replacement off.
pub proof fn rewrite_is_stable(c: Config, line: Seq<u8>)
    requires
        !c.authuser,
        !c.thorough,
        kind_of(c.ipv4.spec_bytes()) == AddressKind::Ipv4,
        kind_of(c.ipv6.spec_bytes()) == AddressKind::Ipv6,
        kind_of(c.host.spec_bytes()) == AddressKind::Host,
        forall|k: AddressKind|
            #![trigger replacement(c, k)]
            replacement(c, k).len() > 0 && forall|m: int|
                0 <= m < replacement(c, k).len() ==> !is_ws(#[trigger] replacement(c, k)[m]),
    ensures
        rewritten(c, rewritten(c, line)) == rewritten(c, line),
{
    let b = trimmed(c, line);
    let out = rewritten(c, line);
    assert(trimmed(c, Seq::<u8>::empty()) == Seq::<u8>::empty());
    match find_ws_from(b, 0) {
        None => {
            if !c.skip {
                lemma_find_ws_none_rev(b, 0);
                line_without_token(c, b);
            }
        },
        Some(i) => {
            lemma_find_ws_found(b, 0);
            let token = b.subrange(0, i as int);
            if !(token.len() == 0 && c.skip) {
                let k = kind_of(token);
                let r = replacement(c, k);
                assert(kind_of(r) == k);
                let rest = b.subrange(i as int, b.len() as int);
                token_replaced_verbatim(c, line, i);
                assert(out == r + rest);
                assert(!is_ws(r[0]));
                assert(skip_ws_from(out, 0) == 0);
                assert(out.subrange(0, out.len() as int) =~= out);
                assert(trimmed(c, out) == out);
                assert(out[r.len() as int] == b[i as int]);
                assert forall|m: int| 0 <= m < r.len() implies !is_ws(#[trigger] out[m]) by {
                    assert(out[m] == r[m]);
                }
                lemma_find_ws_some(out, 0, r.len());
                assert(out.subrange(0, r.len() as int) =~= r);
                assert(out.subrange(r.len() as int, out.len() as int) =~= rest);
                token_replaced_verbatim(c, out, r.len());
            }
        },
    }
}

/// The bytes of the default replacements.
proof fn lemma_default_bytes(c: Config)
    requires
        is_default_config(c),
    ensures
        c.ipv4.spec_bytes() == seq![49u8, 50, 55, 46, 48, 46, 48, 46, 49],
        c.ipv6.spec_bytes() == seq![58u8, 58, 49],
        c.host.spec_bytes() == seq![108u8, 111, 99, 97, 108, 104, 111, 115, 116],
{
    reveal_strlit("127.0.0.1");
    reveal_strlit("::1");
    reveal_strlit("localhost");
    assert(vstd::utf8::is_ascii_chars(c.ipv4@));
    assert(vstd::utf8::is_ascii_chars(c.ipv6@));
    assert(vstd::utf8::is_ascii_chars(c.host@));
    vstd::utf8::is_ascii_chars_encode_utf8(c.ipv4@);
    vstd::utf8::is_ascii_chars_encode_utf8(c.ipv6@);
    vstd::utf8::is_ascii_chars_encode_utf8(c.host@);
    assert(c.ipv4.spec_bytes() =~= seq![49u8, 50, 55, 46, 48, 46, 48, 46, 49]);
    assert(c.ipv6.spec_bytes() =~= seq![58u8, 58, 49]);
    assert(c.host.spec_bytes() =~= seq![108u8, 111, 99, 97, 108, 104, 111, 115, 116]);
}

/// With the default configuration, rewriting a line's output again gives that output
/// back: `127.0.0.1` is IPv4 text, `::1` is IPv6 text, and `localhost` is neither.
pub proof fn default_rewrite_is_stable(c: Config, line: Seq<u8>)
    requires
        is_default_config(c),
    ensures
        rewritten(c, rewritten(c, line)) == rewritten(c, line),
{
    lemma_default_bytes(c);
    let v4 = c.ipv4.spec_bytes();
    let v6 = c.ipv6.spec_bytes();
    let host = c.host.spec_bytes();
    reveal_with_fuel(fields, 10);
    reveal_with_fuel(dec_value, 4);
    assert(fields(v4, DOT) =~~= seq![seq![49u8, 50, 55], seq![48u8], seq![48u8], seq![49u8]]);
    assert(dec_value(seq![49u8, 50, 55]) == 127);
    assert(is_dec_octet(seq![49u8, 50, 55]));
    assert(is_dec_octet(seq![48u8]));
    assert(is_dec_octet(seq![49u8]));
    assert(is_ipv4_text(v4));
    assert(fields(v6, DOT).len() == 1);
    assert(v6.subrange(0, 0) =~= Seq::<u8>::empty());
    assert(v6.subrange(2, 3) =~= seq![49u8]);
    assert(fields(seq![49u8], COLON) =~= seq![seq![49u8]]);
    assert(is_h16(seq![49u8]));
    assert(compressed_at(v6, 0, 0, 1));
    assert(fields(host, DOT).len() == 1);
    assert forall|m: int| 0 <= m < host.len() implies host[m] != COLON by {}
    if is_ipv6_text(host) {
        lemma_ipv6_has_colon(host);
    }
    assert forall|k: AddressKind|
        #![trigger replacement(c, k)]
        replacement(c, k).len() > 0 && forall|m: int|
            0 <= m < replacement(c, k).len() ==> !is_ws(#[trigger] replacement(c, k)[m]) by {}
    rewrite_is_stable(c, line);
}

} // verus!
