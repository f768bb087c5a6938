//! Positional parsing of the comma-delimited dataset tables.

use vstd::prelude::*;

verus! {

/// `s` without one trailing carriage return.
pub open spec fn strip_cr(s: Seq<char>) -> Seq<char> {
    if s.len() > 0 && s.last() == '\r' {
        s.drop_last()
    } else {
        s
    }
}

/// The lines of `s`, where `cur` is the part of the current line already
/// read: lines end at `'\n'`, lose one trailing `'\r'`, and a final empty
/// line is not counted.
pub open spec fn lines_from(s: Seq<char>, cur: Seq<char>) -> Seq<Seq<char>>
    decreases s.len(),
{
    if s.len() == 0 {
        if cur.len() == 0 {
            seq![]
        } else {
            seq![strip_cr(cur)]
        }
    } else if s[0] == '\n' {
        seq![strip_cr(cur)] + lines_from(s.drop_first(), seq![])
    } else {
        lines_from(s.drop_first(), cur.push(s[0]))
    }
}

/// The lines of a text.
pub open spec fn lines_of(s: Seq<char>) -> Seq<Seq<char>> {
    lines_from(s, seq![])
}

/// The views of a sequence of character vectors.
pub open spec fn views_of(v: Seq<Vec<char>>) -> Seq<Seq<char>> {
    v.map_values(|l: Vec<char>| l@)
}

/// Copies `s[from..to]`.
pub fn copy_range(s: &Vec<char>, from: usize, to: usize) -> (r: Vec<char>)
    requires
        from <= to <= s@.len(),
    ensures
        r@ == s@.subrange(from as int, to as int),
{
    let mut r: Vec<char> = Vec::new();
    let mut i: usize = from;
    while i < to
        invariant
            from <= i <= to <= s@.len(),
            r@ == s@.subrange(from as int, i as int),
        decreases to - i,
    {
        r.push(s[i]);
        i = i + 1;
        assert(r@ =~= s@.subrange(from as int, i as int));
    }
    r
}

/// Splits a text into its lines.
pub fn split_lines(s: &Vec<char>) -> (r: Vec<Vec<char>>)
    ensures
        views_of(r@) == lines_of(s@),
{
    let mut out: Vec<Vec<char>> = Vec::new();
    let mut cur: Vec<char> = Vec::new();
    let mut i: usize = 0;
    assert(s@.subrange(0, s@.len() as int) =~= s@);
    assert(views_of(out@) + lines_of(s@) =~= lines_of(s@));
    while i < s.len()
        invariant
            i <= s@.len(),
            views_of(out@) + lines_from(s@.subrange(i as int, s@.len() as int), cur@)
                == lines_of(s@),
        decreases s@.len() - i,
    {
        let ghost rest = s@.subrange(i as int, s@.len() as int);
        assert(rest.drop_first() =~= s@.subrange(i + 1, s@.len() as int));
        assert(rest[0] == s@[i as int]);
        if s[i] == '\n' {
            let n = cur.len();
            let line = if n > 0 && cur[n - 1] == '\r' {
                copy_range(&cur, 0, n - 1)
            } else {
                copy_range(&cur, 0, n)
            };
            assert(line@ == strip_cr(cur@)) by {
                assert(cur@.subrange(0, n as int) =~= cur@);
                if n > 0 {
                    assert(cur@.drop_last() =~= cur@.subrange(0, n - 1));
                }
            }
            let ghost before = out@;
            out.push(line);
            assert(views_of(out@) =~= views_of(before).push(strip_cr(cur@)));
            assert(views_of(before) + seq![strip_cr(cur@)] =~= views_of(out@));
            cur = Vec::new();
            assert(cur@ =~= seq![]);
        } else {
            cur.push(s[i]);
        }
        i = i + 1;
    }
    assert(s@.subrange(i as int, s@.len() as int) =~= seq![]);
    let n = cur.len();
    if n > 0 {
        let line = if cur[n - 1] == '\r' {
            copy_range(&cur, 0, n - 1)
        } else {
            copy_range(&cur, 0, n)
        };
        assert(line@ == strip_cr(cur@)) by {
            assert(cur@.subrange(0, n as int) =~= cur@);
            assert(cur@.drop_last() =~= cur@.subrange(0, n - 1));
        }
        let ghost before = out@;
        out.push(line);
        assert(views_of(out@) =~= views_of(before) + seq![strip_cr(cur@)]);
    } else {
        assert(views_of(out@) + seq![] =~= views_of(out@));
    }
    out
}

/// The positions of the separator `sep` in `s`, ascending.
pub open spec fn seps(s: Seq<char>, sep: char) -> Seq<int>
    decreases s.len(),
{
    if s.len() == 0 {
        seq![]
    } else if s.last() == sep {
        seps(s.drop_last(), sep).push(s.len() - 1)
    } else {
        seps(s.drop_last(), sep)
    }
}

/// The positions of the commas of `s`, ascending.
pub open spec fn commas(s: Seq<char>) -> Seq<int> {
    seps(s, ',')
}

/// Every comma position lies inside `s`, and they ascend.
pub proof fn lemma_seps_ordered(s: Seq<char>, sep: char)
    ensures
        forall|j: int| 0 <= j < seps(s, sep).len() ==> 0 <= #[trigger] seps(s, sep)[j] < s.len(),
        forall|j: int, k: int|
            0 <= j < k < seps(s, sep).len() ==> seps(s, sep)[j] < seps(s, sep)[k],
    decreases s.len(),
{
    if s.len() > 0 {
        let p = s.drop_last();
        lemma_seps_ordered(p, sep);
        if s.last() == sep {
            assert(seps(s, sep) == seps(p, sep).push(s.len() - 1));
        } else {
            assert(seps(s, sep) == seps(p, sep));
        }
    }
}

/// The positions of the separator `sep` in `s`.
pub fn separator_positions(s: &Vec<char>, sep: char) -> (r: Vec<usize>)
    ensures
        r@.len() == seps(s@, sep).len(),
        forall|j: int| 0 <= j < r@.len() ==> r@[j] as int == #[trigger] seps(s@, sep)[j],
{
    let mut r: Vec<usize> = Vec::new();
    let mut i: usize = 0;
    while i < s.len()
        invariant
            i <= s@.len(),
            r@.len() == seps(s@.take(i as int), sep).len(),
            forall|j: int| 0 <= j < r@.len() ==> r@[j] as int == #[trigger] seps(
                s@.take(i as int),
                sep,
            )[j],
        decreases s@.len() - i,
    {
        assert(s@.take(i + 1).drop_last() =~= s@.take(i as int));
        if s[i] == sep {
            r.push(i);
        }
        i = i + 1;
    }
    assert(s@.take(i as int) =~= s@);
    r
}

/// Whether every character of `s` is an ASCII digit.
pub open spec fn all_digits(s: Seq<char>) -> bool {
    forall|i: int| 0 <= i < s.len() ==> '0' <= #[trigger] s[i] <= '9'
}

/// The number that a run of decimal digits writes.
pub open spec fn decimal_value(s: Seq<char>) -> nat
    decreases s.len(),
{
    if s.len() == 0 {
        0
    } else {
        decimal_value(s.drop_last()) * 10 + ((s.last() as u32 - '0' as u32) as nat)
    }
}

/// The number that `s` writes in decimal, where it is a non-empty run of
/// digits writing at most `limit`.
pub open spec fn decimal_at_most(s: Seq<char>, limit: nat) -> Option<nat> {
    if s.len() > 0 && all_digits(s) && decimal_value(s) <= limit {
        Some(decimal_value(s))
    } else {
        None
    }
}

/// Reads a decimal number of at most `limit` from `s[from..to]`.
pub fn parse_decimal(s: &Vec<char>, from: usize, to: usize, limit: u32) -> (r: Option<u32>)
    requires
        from <= to <= s@.len(),
        limit < 0xffff_ffff,
    ensures
        r matches Some(v) ==> decimal_at_most(s@.subrange(from as int, to as int), limit as nat)
            == Some(v as nat),
        r is None ==> decimal_at_most(s@.subrange(from as int, to as int), limit as nat) is None,
{
    let ghost f = s@.subrange(from as int, to as int);
    if from == to {
        return None;
    }
    let mut v: u32 = 0;
    let mut i: usize = from;
    while i < to
        invariant
            from <= i <= to <= s@.len(),
            limit < 0xffff_ffff,
            f == s@.subrange(from as int, to as int),
            all_digits(s@.subrange(from as int, i as int)),
            v as nat == if decimal_value(s@.subrange(from as int, i as int)) <= limit {
                decimal_value(s@.subrange(from as int, i as int))
            } else {
                limit as nat + 1
            },
        decreases to - i,
    {
        let c = s[i];
        if !('0' <= c && c <= '9') {
            assert(f[i - from] == c);
            return None;
        }
        let d: u32 = (c as u32) - ('0' as u32);
        let ghost p = s@.subrange(from as int, i as int);
        let ghost q = s@.subrange(from as int, i + 1);
        assert(q.drop_last() =~= p);
        assert(decimal_value(q) == decimal_value(p) * 10 + d);
        assert(all_digits(q)) by {
            assert forall|k: int| 0 <= k < q.len() implies '0' <= #[trigger] q[k] <= '9' by {
                if k < p.len() {
                    assert(q[k] == p[k]);
                }
            }
        }
        if v > limit {
            assert(decimal_value(p) > limit);
            assert(decimal_value(q) > limit) by (nonlinear_arith)
                requires
                    decimal_value(q) == decimal_value(p) * 10 + d,
                    decimal_value(p) > limit,
            ;
        } else {
            let w: u64 = (v as u64) * 10 + (d as u64);
            if w > limit as u64 {
                v = limit + 1;
            } else {
                v = w as u32;
            }
        }
        i = i + 1;
    }
    assert(s@.subrange(from as int, i as int) =~= f);
    if v > limit {
        None
    } else {
        Some(v)
    }
}

} // verus!
