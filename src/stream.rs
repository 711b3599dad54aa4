//! Whole streams: lines split at line feeds, each rewritten on its own.
use crate::config::Config;
use crate::line::{rewrite_line, rewritten, LF};
use vstd::prelude::*;

verus! {

/// The lines of `s`: each ends with a line feed, but for a last line without one.
pub open spec fn split_lines(s: Seq<u8>) -> Seq<Seq<u8>>
    decreases s.len(),
{
    if s.len() == 0 {
        Seq::<Seq<u8>>::empty()
    } else {
        let l = split_lines(s.drop_last());
        if l.len() == 0 || l.last().last() == LF {
            l.push(seq![s.last()])
        } else {
            l.update(l.len() - 1, l.last().push(s.last()))
        }
    }
}

/// The outputs for `lines`, one after another.
pub open spec fn rewritten_lines(c: Config, lines: Seq<Seq<u8>>) -> Seq<u8>
    decreases lines.len(),
{
    if lines.len() == 0 {
        Seq::<u8>::empty()
    } else {
        rewritten_lines(c, lines.drop_last()) + rewritten(c, lines.last())
    }
}

/// The output for a whole stream.
pub open spec fn rewritten_text(c: Config, s: Seq<u8>) -> Seq<u8> {
    rewritten_lines(c, split_lines(s))
}

/// Rewrites every line of `input` (see `rewritten`) and returns the output.
pub fn replace_remote_address(config: &Config, input: &[u8]) -> (r: Vec<u8>)
    ensures
        r@ == rewritten_text(*config, input@),
{
    let ghost s = input@;
    let n = input.len();
    let mut out: Vec<u8> = Vec::new();
    let mut i: usize = 0;
    assert(s.subrange(0, 0) =~= Seq::<u8>::empty());
    while i < n
        invariant
            n == s.len(),
            s == input@,
            i <= n,
            i > 0 ==> split_lines(s.subrange(0, i as int)).len() > 0 && split_lines(
                s.subrange(0, i as int),
            ).last().last() == s[i - 1],
            i > 0 && i < n ==> s[i - 1] == LF,
            out@ == rewritten_lines(*config, split_lines(s.subrange(0, i as int))),
        decreases n - i,
    {
        let ghost before = split_lines(s.subrange(0, i as int));
        let mut line: Vec<u8> = Vec::new();
        line.push(input[i]);
        let mut j: usize = i + 1;
        assert(s.subrange(0, j as int).drop_last() =~= s.subrange(0, i as int));
        assert(line@ =~= s.subrange(i as int, j as int));
        while j < n && input[j - 1] != LF
            invariant
                n == s.len(),
                s == input@,
                i < j <= n,
                line@ == s.subrange(i as int, j as int),
                split_lines(s.subrange(0, j as int)) == before.push(line@),
            decreases n - j,
        {
            let ghost prev = line@;
            line.push(input[j]);
            assert(s.subrange(0, j + 1).drop_last() =~= s.subrange(0, j as int));
            assert(line@ =~= s.subrange(i as int, j + 1));
            assert(prev.last() == s[j - 1]);
            assert(before.push(prev).update(before.len() as int, prev.push(s[j as int]))
                =~= before.push(line@));
            j += 1;
        }
        assert(before.push(line@).drop_last() =~= before);
        rewrite_line(config, line.as_slice(), &mut out);
        i = j;
    }
    assert(s.subrange(0, n as int) =~= s);
    out
}

/// Appends the output for `input` (see `rewritten_text`) to `output`.
pub fn run_raw(config: &Config, input: &[u8], output: &mut Vec<u8>)
    ensures
        final(output)@ == old(output)@ + rewritten_text(*config, input@),
{
    let mut r = replace_remote_address(config, input);
    output.append(&mut r);
}

} // verus!
