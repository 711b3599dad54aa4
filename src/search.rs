//! Fixed-pattern search with a bad-character table, and non-overlapping replacement.
use vstd::prelude::*;

verus! {

/// The last index `k < n - 1` with `p[k] == c`, shifted into a skip distance:
/// `n - 1 - k`, or `n` when `c` does not occur in `p[0 .. n - 1]`.
pub open spec fn is_skip_for(p: Seq<u8>, c: u8, d: int) -> bool {
    let n = p.len() as int;
    &&& 0 < d <= n
    &&& d < n ==> p[n - 1 - d] == c
    &&& forall|k: int| n - 1 - d < k < n - 1 ==> p[k] != c
}

/// Skip distance for every byte value: how far a window may move when the
/// byte under its last position is `c`.
pub fn bad_char_table(pattern: &[u8]) -> (table: Vec<usize>)
    requires
        pattern@.len() > 0,
    ensures
        table@.len() == 256,
        forall|c: u8| is_skip_for(pattern@, c, #[trigger] table@[c as int] as int),
{
    let n = pattern.len();
    let mut table: Vec<usize> = vec![n; 256];
    let mut i: usize = 0;
    while i < n - 1
        invariant
            n == pattern@.len(),
            n > 0,
            i <= n - 1,
            table@.len() == 256,
            forall|c: u8|
                {
                    let d = #[trigger] table@[c as int] as int;
                    &&& 0 < d <= n
                    &&& d < n ==> (pattern@[n - 1 - d] == c && n - 1 - d < i)
                    &&& forall|k: int| n - 1 - d < k < i ==> pattern@[k] != c
                },
        decreases n - 1 - i,
    {
        let c = pattern[i];
        table.set(c as usize, n - i - 1);
        i += 1;
    }
    table
}

/// `p` occurs in `h` starting at index `i`.
pub open spec fn occurs_at(h: Seq<u8>, p: Seq<u8>, i: int) -> bool {
    0 <= i && i + p.len() <= h.len() && h.subrange(i, i + p.len()) == p
}

/// Start indices of the occurrences of `p` in `h` found scanning left to right
/// from `from`: after an occurrence at `i` the scan resumes at `i + |p|`, so the
/// occurrences never overlap. An empty pattern occurs nowhere.
pub open spec fn occurrences_from(h: Seq<u8>, p: Seq<u8>, from: nat) -> Seq<int>
    decreases h.len() - from,
{
    if p.len() == 0 || from + p.len() > h.len() {
        seq![]
    } else if occurs_at(h, p, from as int) {
        seq![from as int] + occurrences_from(h, p, from + p.len())
    } else {
        occurrences_from(h, p, from + 1)
    }
}

pub open spec fn occurrences(h: Seq<u8>, p: Seq<u8>) -> Seq<int> {
    occurrences_from(h, p, 0)
}

/// `h[from..]` with each occurrence of `occurrences_from(h, p, from)` replaced by `r`.
pub open spec fn replaced_from(h: Seq<u8>, p: Seq<u8>, r: Seq<u8>, from: nat) -> Seq<u8>
    decreases h.len() - from,
{
    if p.len() == 0 || from + p.len() > h.len() {
        h.subrange(from as int, h.len() as int)
    } else if occurs_at(h, p, from as int) {
        r + replaced_from(h, p, r, from + p.len())
    } else {
        seq![h[from as int]] + replaced_from(h, p, r, from + 1)
    }
}

/// `h` with every non-overlapping occurrence of `p`, taken left to right, replaced by `r`.
pub open spec fn replaced(h: Seq<u8>, p: Seq<u8>, r: Seq<u8>) -> Seq<u8> {
    replaced_from(h, p, r, 0)
}

/// No occurrence starts in `[i, j)`, so the scan from `i` finds what the scan from `j` finds.
proof fn lemma_no_occurrence_between(h: Seq<u8>, p: Seq<u8>, i: nat, j: nat)
    requires
        p.len() > 0,
        i <= j,
        forall|k: int| i <= k < j ==> !occurs_at(h, p, k),
    ensures
        occurrences_from(h, p, i) == occurrences_from(h, p, j),
    decreases j - i,
{
    if i < j && i + p.len() <= h.len() {
        lemma_no_occurrence_between(h, p, i + 1, j);
    } else if i < j {
        lemma_past_end(h, p, i);
        lemma_past_end(h, p, j);
    }
}

proof fn lemma_past_end(h: Seq<u8>, p: Seq<u8>, i: nat)
    requires
        i + p.len() > h.len(),
    ensures
        occurrences_from(h, p, i) == Seq::<int>::empty(),
{
}

/// The replacement from `from` copies up to the next occurrence, writes `r`, and goes on
/// after it; with no occurrence left it copies the rest.
proof fn lemma_replaced_step(h: Seq<u8>, p: Seq<u8>, r: Seq<u8>, from: nat)
    requires
        p.len() > 0,
        from <= h.len(),
    ensures
        occurrences_from(h, p, from).len() == 0 ==> replaced_from(h, p, r, from) == h.subrange(
            from as int,
            h.len() as int,
        ),
        occurrences_from(h, p, from).len() > 0 ==> {
            let o = occurrences_from(h, p, from)[0];
            &&& from <= o
            &&& o + p.len() <= h.len()
            &&& replaced_from(h, p, r, from) == h.subrange(from as int, o) + r + replaced_from(
                h,
                p,
                r,
                (o + p.len()) as nat,
            )
            &&& occurrences_from(h, p, from) == seq![o] + occurrences_from(
                h,
                p,
                (o + p.len()) as nat,
            )
        },
    decreases h.len() - from,
{
    if from + p.len() > h.len() {
    } else if occurs_at(h, p, from as int) {
        assert(h.subrange(from as int, from as int) =~= Seq::<u8>::empty());
        assert(r + replaced_from(h, p, r, from + p.len()) =~= Seq::<u8>::empty() + r
            + replaced_from(h, p, r, from + p.len()));
    } else {
        lemma_replaced_step(h, p, r, from + 1);
        if occurrences_from(h, p, from).len() > 0 {
            let o = occurrences_from(h, p, from)[0];
            assert(h.subrange(from as int, o) =~= seq![h[from as int]] + h.subrange(
                from + 1 as int,
                o,
            ));
        } else {
            assert(h.subrange(from as int, h.len() as int) =~= seq![h[from as int]]
                + h.subrange(from + 1 as int, h.len() as int));
        }
    }
}

/// Appends `src[lo..hi]` to `out`.
pub fn push_range(out: &mut Vec<u8>, src: &[u8], lo: usize, hi: usize)
    requires
        lo <= hi <= src@.len(),
    ensures
        final(out)@ == old(out)@ + src@.subrange(lo as int, hi as int),
{
    let mut k: usize = lo;
    while k < hi
        invariant
            lo <= k <= hi <= src@.len(),
            out@ == old(out)@ + src@.subrange(lo as int, k as int),
        decreases hi - k,
    {
        out.push(src[k]);
        k += 1;
        assert(out@ =~= old(out)@ + src@.subrange(lo as int, k as int));
    }
}

/// Start indices of the non-overlapping occurrences of `pattern` in `hay`, left to
/// right, or `None` when there is none (always for an empty pattern or one longer than
/// `hay`). Windows are compared right to left and moved by the bad-character table.
pub fn bmsearch(hay: &[u8], pattern: &[u8]) -> (r: Option<Vec<usize>>)
    ensures
        match r {
            None => occurrences(hay@, pattern@).len() == 0,
            Some(v) => {
                &&& v@.len() > 0
                &&& v@.len() == occurrences(hay@, pattern@).len()
                &&& forall|k: int| 0 <= k < v@.len() ==> v@[k] as int == #[trigger] occurrences(
                    hay@,
                    pattern@,
                )[k]
            },
        },
{
    let m = hay.len();
    let n = pattern.len();
    if n == 0 || n > m {
        return None;
    }
    let table = bad_char_table(pattern);
    let mut indices: Vec<usize> = Vec::new();
    let ghost h = hay@;
    let ghost p = pattern@;
    let mut i: usize = 0;
    while i <= m - n
        invariant
            m == h.len(),
            n == p.len(),
            0 < n <= m,
            h == hay@,
            p == pattern@,
            i <= m,
            table@.len() == 256,
            forall|c: u8| is_skip_for(p, c, #[trigger] table@[c as int] as int),
            occurrences(h, p) == indices@.map_values(|x: usize| x as int) + occurrences_from(
                h,
                p,
                i as nat,
            ),
        decreases m - i,
    {
        let mut j: usize = n;
        while j > 0 && pattern[j - 1] == hay[i + j - 1]
            invariant
                i + n <= m,
                n == p.len(),
                m == h.len(),
                h == hay@,
                p == pattern@,
                j <= n,
                forall|k: int| j <= k < n ==> p[k] == h[i + k],
            decreases j,
        {
            j -= 1;
        }
        if j == 0 {
            assert(occurs_at(h, p, i as int)) by {
                assert(h.subrange(i as int, i + n) =~= p);
            }
            let ghost before = indices@;
            indices.push(i);
            assert(indices@.map_values(|x: usize| x as int) =~= before.map_values(
                |x: usize| x as int,
            ) + seq![i as int]);
            i += n;
        } else {
            let c = hay[i + n - 1];
            let d = table[c as usize];
            assert(forall|k: int| i <= k < i + d ==> !occurs_at(h, p, k)) by {
                assert forall|k: int| i <= k < i + d implies !occurs_at(h, p, k) by {
                    if occurs_at(h, p, k) {
                        if k == i {
                            assert(h.subrange(i as int, i + n)[j - 1] == p[j - 1]);
                        } else {
                            assert(h.subrange(k, k + n)[i + n - 1 - k] == p[i + n - 1 - k]);
                        }
                    }
                }
            }
            proof {
                lemma_no_occurrence_between(h, p, i as nat, (i + d) as nat);
            }
            i += d;
        }
    }
    proof {
        lemma_past_end(h, p, i as nat);
    }
    assert(occurrences(h, p) =~= indices@.map_values(|x: usize| x as int));
    if indices.len() == 0 {
        None
    } else {
        Some(indices)
    }
}

/// `hay` with every non-overlapping occurrence of `old`, taken left to right, replaced by
/// `new`; the bytes around them are copied as they are. An empty `old`, or one longer
/// than `hay`, leaves `hay` unchanged.
pub fn replace(hay: &[u8], old: &[u8], new: &[u8]) -> (r: Vec<u8>)
    ensures
        r@ == replaced(hay@, old@, new@),
{
    let ghost h = hay@;
    let ghost p = old@;
    let ghost rp = new@;
    let mut result: Vec<u8> = Vec::with_capacity(hay.len());
    match bmsearch(hay, old) {
        None => {
            if old.len() == 0 {
                assert(replaced(h, p, rp) == h.subrange(0, h.len() as int));
            } else {
                proof {
                    lemma_replaced_step(h, p, rp, 0);
                }
            }
            push_range(&mut result, hay, 0, hay.len());
            assert(result@ =~= h.subrange(0, h.len() as int));
            result
        },
        Some(matches) => {
            let n = old.len();
            let hay_len = hay.len();
            let mut i: usize = 0;
            let mut k: usize = 0;
            while k < matches.len()
                invariant
                    n == p.len(),
                    n > 0,
                    h == hay@,
                    hay_len == h.len(),
                    p == old@,
                    rp == new@,
                    i <= h.len(),
                    k <= matches@.len(),
                    matches@.len() == occurrences(h, p).len(),
                    forall|t: int|
                        0 <= t < matches@.len() ==> matches@[t] as int == #[trigger] occurrences(
                            h,
                            p,
                        )[t],
                    occurrences_from(h, p, i as nat) == occurrences(h, p).subrange(
                        k as int,
                        occurrences(h, p).len() as int,
                    ),
                    result@ + replaced_from(h, p, rp, i as nat) == replaced(h, p, rp),
                decreases matches@.len() - k,
            {
                let ghost rest = occurrences_from(h, p, i as nat);
                proof {
                    lemma_replaced_step(h, p, rp, i as nat);
                    assert(rest[0] == occurrences(h, p)[k as int]);
                }
                let m = matches[k];
                assert(m as int == rest[0] && m + n <= h.len());
                push_range(&mut result, hay, i, m);
                push_range(&mut result, new, 0, new.len());
                assert(new@.subrange(0, new@.len() as int) =~= rp);
                i = m + n;
                k += 1;
                assert(occurrences_from(h, p, i as nat) =~= occurrences(h, p).subrange(
                    k as int,
                    occurrences(h, p).len() as int,
                )) by {
                    assert(occurrences_from(h, p, i as nat) =~= rest.subrange(1, rest.len() as int));
                }
                assert(result@ + replaced_from(h, p, rp, i as nat) =~= replaced(h, p, rp));
            }
            proof {
                lemma_replaced_step(h, p, rp, i as nat);
            }
            push_range(&mut result, hay, i, hay.len());
            result
        },
    }
}

/// `p[..b]` is a proper border of `p[..k]`: shorter than it, and both its prefix and
/// its suffix.
pub open spec fn is_border(p: Seq<u8>, k: int, b: int) -> bool {
    0 <= b < k <= p.len() && p.subrange(0, b) == p.subrange(k - b, k)
}

/// Entry 0 of the failure table is -1; entry `k`, for `1 <= k <= upto`, is the length of
/// the longest proper border of `p[..k]`.
pub open spec fn is_prefix_table(p: Seq<u8>, t: Seq<isize>, upto: int) -> bool {
    &&& t.len() == p.len() + 1
    &&& t[0] == -1
    &&& forall|k: int|
        #![trigger t[k]]
        1 <= k <= upto ==> is_border(p, k, t[k] as int) && forall|b: int|
            t[k] < b < k ==> !is_border(p, k, b)
}

/// `t` ends with the first `l` bytes of `p`.
pub open spec fn ends_with_prefix(t: Seq<u8>, p: Seq<u8>, l: int) -> bool {
    0 <= l <= p.len() && l <= t.len() && t.subrange(t.len() - l, t.len() as int) == p.subrange(
        0,
        l,
    )
}

/// Start indices of all occurrences of `p` in `h` that end by index `e`, overlapping
/// ones included, in increasing order.
pub open spec fn all_occurrences_before(h: Seq<u8>, p: Seq<u8>, e: int) -> Seq<int>
    decreases e,
{
    if e <= 0 || p.len() == 0 {
        seq![]
    } else if e >= p.len() && occurs_at(h, p, e - p.len()) {
        all_occurrences_before(h, p, e - 1) + seq![e - p.len()]
    } else {
        all_occurrences_before(h, p, e - 1)
    }
}

/// Two prefixes of `p` that `t` ends with: the shorter is a border of the longer.
proof fn lemma_shorter_is_border(t: Seq<u8>, p: Seq<u8>, j: int, l: int)
    requires
        ends_with_prefix(t, p, j),
        ends_with_prefix(t, p, l),
        l < j,
    ensures
        is_border(p, j, l),
{
    assert forall|x: int| 0 <= x < l implies #[trigger] p[x] == p[j - l + x] by {
        assert(t.subrange(t.len() - l, t.len() as int)[x] == p.subrange(0, l)[x]);
        assert(t.subrange(t.len() - j, t.len() as int)[j - l + x] == p.subrange(0, j)[j - l
            + x]);
    }
    assert(p.subrange(0, l) =~= p.subrange(j - l, j));
}

/// `t` ends with `p[..j]`, so it ends with each border of `p[..j]`.
proof fn lemma_border_ends(t: Seq<u8>, p: Seq<u8>, j: int, b: int)
    requires
        ends_with_prefix(t, p, j),
        is_border(p, j, b),
    ensures
        ends_with_prefix(t, p, b),
{
    assert forall|x: int| 0 <= x < b implies t[t.len() - b + x] == p[x] by {
        assert(t.subrange(t.len() - j, t.len() as int)[j - b + x] == p.subrange(0, j)[j - b
            + x]);
        assert(p.subrange(0, b)[x] == p.subrange(j - b, j)[x]);
    }
    assert(t.subrange(t.len() - b, t.len() as int) =~= p.subrange(0, b));
}

/// Ending with `p[..l + 1]` is ending, one byte earlier, with `p[..l]`, and that byte being `p[l]`.
proof fn lemma_extend(t: Seq<u8>, p: Seq<u8>, l: int, c: u8)
    requires
        0 <= l < p.len(),
    ensures
        ends_with_prefix(t.push(c), p, l + 1) <==> (ends_with_prefix(t, p, l) && p[l] == c),
{
    let u = t.push(c);
    if ends_with_prefix(u, p, l + 1) {
        assert(u.subrange(u.len() - (l + 1), u.len() as int)[l] == p.subrange(0, l + 1)[l]);
        assert forall|x: int| 0 <= x < l implies t[t.len() - l + x] == p[x] by {
            assert(u.subrange(u.len() - (l + 1), u.len() as int)[x] == p.subrange(0, l + 1)[x]);
        }
        assert(t.subrange(t.len() - l, t.len() as int) =~= p.subrange(0, l));
    }
    if ends_with_prefix(t, p, l) && p[l] == c {
        assert forall|x: int| 0 <= x < l + 1 implies u[u.len() - (l + 1) + x] == p[x] by {
            if x < l {
                assert(t.subrange(t.len() - l, t.len() as int)[x] == p.subrange(0, l)[x]);
            }
        }
        assert(u.subrange(u.len() - (l + 1), u.len() as int) =~= p.subrange(0, l + 1));
    }
}

proof fn lemma_border_iff_ends(p: Seq<u8>, k: int, b: int)
    requires
        0 <= b < k <= p.len(),
    ensures
        is_border(p, k, b) <==> ends_with_prefix(p.subrange(0, k), p, b),
{
    assert(p.subrange(0, k).subrange(k - b, k) =~= p.subrange(k - b, k));
}

/// The failure table of `pattern`: entry 0 is -1 and entry `k` the length of the
/// longest proper border of `pattern[..k]`.
pub fn prefix_table(pattern: &[u8]) -> (table: Vec<isize>)
    requires
        pattern@.len() < isize::MAX,
    ensures
        is_prefix_table(pattern@, table@, pattern@.len() as int),
{
    let ghost p = pattern@;
    let n = pattern.len();
    let mut i: usize = 0;
    let mut j: isize = -1;
    let mut table: Vec<isize> = vec![0; n + 1];
    table.set(i, j);
    while i < n
        invariant
            n == p.len(),
            p == pattern@,
            n < isize::MAX,
            i <= n,
            j == table@[i as int],
            is_prefix_table(p, table@, i as int),
        decreases n - i,
    {
        let ghost t = p.subrange(0, i as int);
        proof {
            if i > 0 {
                lemma_border_iff_ends(p, i as int, j as int);
                assert forall|l: int| j < l < i && #[trigger] ends_with_prefix(t, p, l) implies false by {
                    lemma_border_iff_ends(p, i as int, l);
                }
            }
        }
        while j >= 0 && pattern[j as usize] != pattern[i]
            invariant
                n == p.len(),
                p == pattern@,
                i < n,
                t == p.subrange(0, i as int),
                -1 <= j < i,
                j >= 0 ==> ends_with_prefix(t, p, j as int),
                forall|l: int|
                    j < l < i && #[trigger] ends_with_prefix(t, p, l) ==> p[l] != p[i as int],
                is_prefix_table(p, table@, i as int),
            decreases j + 1,
        {
            let ghost old_j = j as int;
            j = table[j as usize];
            proof {
                if old_j > 0 {
                    lemma_border_ends(t, p, old_j, j as int);
                }
                assert forall|l: int|
                    j < l < i && #[trigger] ends_with_prefix(t, p, l) implies p[l] != p[i as int] by {
                    if l < old_j {
                        lemma_shorter_is_border(t, p, old_j, l);
                    }
                }
            }
        }
        proof {
            let u = p.subrange(0, i + 1);
            assert(u =~= t.push(p[i as int]));
            if j >= 0 {
                lemma_extend(t, p, j as int, p[i as int]);
            }
            assert(ends_with_prefix(u, p, j + 1)) by {
                if j < 0 {
                    assert(u.subrange(u.len() as int, u.len() as int) =~= p.subrange(0, 0));
                }
            }
            lemma_border_iff_ends(p, i + 1, j + 1);
            assert forall|b: int| j + 1 < b < i + 1 implies !#[trigger] is_border(p, i + 1, b) by {
                lemma_border_iff_ends(p, i + 1, b);
                lemma_extend(t, p, b - 1, p[i as int]);
            }
        }
        i += 1;
        j += 1;
        table.set(i, j);
    }
    table
}

/// Start indices of all occurrences of `pattern` in `hay`, overlapping ones included,
/// in increasing order, or `None` when there is none (always for an empty pattern or
/// one longer than `hay`). A failure table lets the scan go on without stepping back.
pub fn kmpsearch(hay: &[u8], pattern: &[u8]) -> (r: Option<Vec<usize>>)
    requires
        pattern@.len() < isize::MAX,
    ensures
        match r {
            None => all_occurrences_before(hay@, pattern@, hay@.len() as int).len() == 0,
            Some(v) => {
                &&& v@.len() > 0
                &&& v@.map_values(|x: usize| x as int) == all_occurrences_before(
                    hay@,
                    pattern@,
                    hay@.len() as int,
                )
            },
        },
{
    let ghost h = hay@;
    let ghost p = pattern@;
    let m = hay.len();
    let n = pattern.len();
    if n == 0 || n > m {
        proof {
            lemma_no_long_occurrence(h, p, m as int);
        }
        return None;
    }
    let table = prefix_table(pattern);
    let mut indices: Vec<usize> = Vec::new();
    let mut i: usize = 0;
    let mut j: isize = 0;
    assert(h.subrange(0, 0).subrange(0, 0) =~= p.subrange(0, 0));
    while i < m
        invariant
            m == h.len(),
            n == p.len(),
            0 < n <= m,
            n < isize::MAX,
            h == hay@,
            p == pattern@,
            i <= m,
            is_prefix_table(p, table@, n as int),
            0 <= j < n,
            ends_with_prefix(h.subrange(0, i as int), p, j as int),
            forall|l: int|
                j < l < n ==> !#[trigger] ends_with_prefix(h.subrange(0, i as int), p, l),
            indices@.map_values(|x: usize| x as int) == all_occurrences_before(h, p, i as int),
        decreases m - i,
    {
        let ghost t = h.subrange(0, i as int);
        while j >= 0 && hay[i] != pattern[j as usize]
            invariant
                m == h.len(),
                n == p.len(),
                h == hay@,
                p == pattern@,
                i < m,
                t == h.subrange(0, i as int),
                is_prefix_table(p, table@, n as int),
                -1 <= j < n,
                j >= 0 ==> ends_with_prefix(t, p, j as int),
                forall|l: int|
                    j < l < n && #[trigger] ends_with_prefix(t, p, l) ==> p[l] != h[i as int],
            decreases j + 1,
        {
            let ghost old_j = j as int;
            j = table[j as usize];
            proof {
                if old_j > 0 {
                    lemma_border_ends(t, p, old_j, j as int);
                }
                assert forall|l: int|
                    j < l < n && #[trigger] ends_with_prefix(t, p, l) implies p[l] != h[i as int] by {
                    if l < old_j {
                        lemma_shorter_is_border(t, p, old_j, l);
                    }
                }
            }
        }
        let ghost u = h.subrange(0, i + 1);
        proof {
            assert(u =~= t.push(h[i as int]));
            if j >= 0 {
                lemma_extend(t, p, j as int, h[i as int]);
            }
            assert(ends_with_prefix(u, p, j + 1)) by {
                if j < 0 {
                    assert(u.subrange(u.len() as int, u.len() as int) =~= p.subrange(0, 0));
                }
            }
            assert forall|l: int| j + 1 < l <= n implies !#[trigger] ends_with_prefix(u, p, l) by {
                lemma_extend(t, p, l - 1, h[i as int]);
            }
            if i + 1 >= n {
                lemma_occurs_iff_ends(h, p, i + 1);
            }
        }
        i += 1;
        j += 1;
        if j as usize == n {
            let ghost before = indices@;
            indices.push(i - n);
            assert(indices@.map_values(|x: usize| x as int) =~= before.map_values(
                |x: usize| x as int,
            ) + seq![i - n]);
            j = table[n];
            proof {
                lemma_border_ends(u, p, n as int, j as int);
                assert forall|l: int| j < l < n implies !#[trigger] ends_with_prefix(u, p, l) by {
                    if ends_with_prefix(u, p, l) {
                        lemma_shorter_is_border(u, p, n as int, l);
                    }
                }
            }
        }
    }
    assert(h.subrange(0, m as int) =~= h);
    if indices.len() == 0 {
        None
    } else {
        Some(indices)
    }
}

/// An occurrence ends at `e` exactly when `h[..e]` ends with the whole pattern.
proof fn lemma_occurs_iff_ends(h: Seq<u8>, p: Seq<u8>, e: int)
    requires
        0 < p.len() <= e <= h.len(),
    ensures
        occurs_at(h, p, e - p.len()) <==> ends_with_prefix(h.subrange(0, e), p, p.len() as int),
{
    assert(h.subrange(0, e).subrange(e - p.len(), e) =~= h.subrange(e - p.len(), e));
    assert(p.subrange(0, p.len() as int) =~= p);
}

proof fn lemma_no_long_occurrence(h: Seq<u8>, p: Seq<u8>, e: int)
    requires
        p.len() == 0 || p.len() > h.len(),
        e <= h.len(),
    ensures
        all_occurrences_before(h, p, e).len() == 0,
    decreases e,
{
    if e > 0 {
        lemma_no_long_occurrence(h, p, e - 1);
    }
}

} // verus!
