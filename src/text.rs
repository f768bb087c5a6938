//! Character-level helpers and the display-name normalizer.

use convert_case::{Case, Casing};
use vstd::prelude::*;
use vstd::std_specs::iter::IteratorSpec;

verus! {

/// The result of upper-casing a string with std's full Unicode mapping.
pub uninterp spec fn upper_of(s: Seq<char>) -> Seq<char>;

/// The result of title-casing a string with `convert_case`'s `Case::Title`.
pub uninterp spec fn title_of(s: Seq<char>) -> Seq<char>;

/// Relies on `str::to_uppercase`: the result depends on the characters alone.
#[verifier::external_body]
pub(crate) fn to_upper(s: &str) -> (r: String)
    ensures
        r@ == upper_of(s@),
{
    s.to_uppercase()
}

/// Relies on `convert_case`'s `Casing::to_case` with `Case::Title`: the result
/// depends on the characters alone.
#[verifier::external_body]
pub(crate) fn to_title(s: &str) -> (r: String)
    ensures
        r@ == title_of(s@),
{
    s.to_case(Case::Title)
}

/// Relies on `String::from_iter` over chars: the string holds the chars in order.
#[verifier::external_body]
pub(crate) fn string_of(v: &Vec<char>) -> (r: String)
    ensures
        r@ == v@,
{
    String::from_iter(v.iter())
}

/// The characters of `s`, in order.
pub fn chars_of(s: &str) -> (r: Vec<char>)
    ensures
        r@ == s@,
{
    broadcast use vstd::string::group_string_axioms;
    let mut r: Vec<char> = Vec::new();
    for c in it: s.chars()
        invariant
            r@ == it.seq().take(it.index() as int),
    {
        r.push(c);
    }
    assert(r@ =~= s@);
    r
}

/// `s` with every double-quote character removed.
pub open spec fn without_quotes(s: Seq<char>) -> Seq<char>
    decreases s.len(),
{
    if s.len() == 0 {
        s
    } else if s.last() == '"' {
        without_quotes(s.drop_last())
    } else {
        without_quotes(s.drop_last()).push(s.last())
    }
}

/// Title-cases each hyphen-separated segment of `s`; `seg` is the part of
/// the current segment already read.
pub open spec fn title_segments(s: Seq<char>, seg: Seq<char>) -> Seq<char>
    decreases s.len(),
{
    if s.len() == 0 {
        title_of(seg)
    } else if s[0] == '-' {
        title_of(seg) + seq!['-'] + title_segments(s.drop_first(), seq![])
    } else {
        title_segments(s.drop_first(), seg.push(s[0]))
    }
}

/// How a raw route name is shown: upper-cased, quotes removed, each
/// hyphen-separated part title-cased.
pub open spec fn route_display(raw: Seq<char>) -> Seq<char> {
    title_segments(without_quotes(upper_of(raw)), seq![])
}

/// How a raw stop name is shown: upper-cased, quotes removed, title-cased.
pub open spec fn stop_display(raw: Seq<char>) -> Seq<char> {
    title_of(without_quotes(upper_of(raw)))
}

/// Removes every double-quote character.
pub fn strip_quotes(s: &Vec<char>) -> (r: Vec<char>)
    ensures
        r@ == without_quotes(s@),
{
    let mut r: Vec<char> = Vec::new();
    let mut i: usize = 0;
    while i < s.len()
        invariant
            i <= s@.len(),
            r@ == without_quotes(s@.take(i as int)),
        decreases s@.len() - i,
    {
        assert(s@.take(i + 1).drop_last() =~= s@.take(i as int));
        if s[i] != '"' {
            r.push(s[i]);
        }
        i = i + 1;
    }
    assert(s@.take(i as int) =~= s@);
    r
}

/// Title-cases one segment and appends it to `out`.
fn push_titled(out: &mut Vec<char>, seg: &Vec<char>)
    ensures
        final(out)@ == old(out)@ + title_of(seg@),
{
    let s = string_of(seg);
    let t = to_title(s.as_str());
    let tc = chars_of(t.as_str());
    let mut i: usize = 0;
    while i < tc.len()
        invariant
            i <= tc@.len(),
            out@ == old(out)@ + tc@.take(i as int),
        decreases tc@.len() - i,
    {
        out.push(tc[i]);
        i = i + 1;
        assert(out@ =~= old(out)@ + tc@.take(i as int));
    }
    assert(tc@.take(i as int) =~= tc@);
}

/// Title-cases each hyphen-separated segment and joins them with hyphens.
pub fn title_each_segment(s: &Vec<char>) -> (r: Vec<char>)
    ensures
        r@ == title_segments(s@, seq![]),
{
    let mut out: Vec<char> = Vec::new();
    let mut seg: Vec<char> = Vec::new();
    let mut i: usize = 0;
    assert(s@.subrange(0, s@.len() as int) =~= s@);
    assert(out@ + title_segments(s@, seq![]) =~= title_segments(s@, seq![]));
    while i < s.len()
        invariant
            i <= s@.len(),
            out@ + title_segments(s@.subrange(i as int, s@.len() as int), seg@)
                == title_segments(s@, seq![]),
        decreases s@.len() - i,
    {
        let ghost rest = s@.subrange(i as int, s@.len() as int);
        assert(rest.drop_first() =~= s@.subrange(i + 1, s@.len() as int));
        assert(rest[0] == s@[i as int]);
        if s[i] == '-' {
            let ghost before = out@;
            push_titled(&mut out, &seg);
            out.push('-');
            assert(out@ =~= before + title_of(seg@) + seq!['-']);
            seg = Vec::new();
            assert(seg@ =~= seq![]);
        } else {
            seg.push(s[i]);
        }
        i = i + 1;
    }
    assert(s@.subrange(i as int, s@.len() as int) =~= seq![]);
    push_titled(&mut out, &seg);
    out
}

/// The display form of a raw route name.
pub fn route_display_name(raw: &str) -> (r: String)
    ensures
        r@ == route_display(raw@),
{
    let up = to_upper(raw);
    let stripped = strip_quotes(&chars_of(up.as_str()));
    string_of(&title_each_segment(&stripped))
}

/// The display form of a raw stop name.
pub fn stop_display_name(raw: &str) -> (r: String)
    ensures
        r@ == stop_display(raw@),
{
    let up = to_upper(raw);
    let stripped = strip_quotes(&chars_of(up.as_str()));
    to_title(string_of(&stripped).as_str())
}

} // verus!
