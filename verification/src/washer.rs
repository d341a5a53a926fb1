//! Washing a request: comments are taken out, then the white space at the two ends.

use vstd::prelude::*;
use crate::text::{chars_of, string_of, slice, trimmed, trim, span, span_back, lemma_span, lemma_span_back, Class, is_space};

verus! {

/// What opens a comment.
pub open spec fn open_mark() -> Seq<char> {
    seq!['<', '!', '-', '-']
}

/// What closes a comment.
pub open spec fn close_mark() -> Seq<char> {
    seq!['-', '-', '>']
}

/// Where `mark` first occurs in `s`; the length of `s` where it does not.
pub open spec fn first_at(s: Seq<char>, mark: Seq<char>) -> nat
    decreases s.len(),
{
    if s.len() < mark.len() || s.len() == 0 {
        s.len()
    } else if s.take(mark.len() as int) == mark {
        0
    } else {
        1 + first_at(s.drop_first(), mark)
    }
}

/// `s` without its comments. A comment runs from an opening mark to the
/// first closing mark that starts at or after it; comments do not nest, and
/// one that is never closed runs to the end.
pub open spec fn strip_comments(s: Seq<char>) -> Seq<char>
    decreases s.len(),
{
    let open = first_at(s, open_mark());
    if open >= s.len() {
        s
    } else {
        let rest = s.skip(open as int);
        let close = first_at(rest, close_mark());
        if close + 3 > rest.len() {
            s.take(open as int)
        } else {
            s.take(open as int) + strip_comments(rest.skip(close as int + 3))
        }
    }
}

/// A washed request: without comments, then without white space at its ends.
pub open spec fn washed(s: Seq<char>) -> Seq<char> {
    trim(strip_comments(s))
}

/// The mark lies where `first_at` says, and nowhere before.
pub proof fn lemma_first_at(s: Seq<char>, mark: Seq<char>)
    requires
        mark.len() > 0,
    ensures
        first_at(s, mark) <= s.len(),
        first_at(s, mark) < s.len() ==> first_at(s, mark) + mark.len() <= s.len() && s.subrange(
            first_at(s, mark) as int,
            first_at(s, mark) as int + mark.len(),
        ) == mark,
    decreases s.len(),
{
    if s.len() < mark.len() {
    } else if s.take(mark.len() as int) == mark {
        assert(s.take(mark.len() as int) =~= s.subrange(0, mark.len() as int));
    } else {
        let tail = s.drop_first();
        lemma_first_at(tail, mark);
        let k = first_at(tail, mark);
        if k < tail.len() {
            assert(tail.subrange(k as int, k as int + mark.len()) =~= s.subrange(k as int + 1, k as int + 1 + mark.len()));
        }
    }
}

/// Taking comments out never makes a text longer, and makes it shorter where there is one.
pub proof fn lemma_strip_len(s: Seq<char>)
    ensures
        strip_comments(s).len() <= s.len(),
        first_at(s, open_mark()) < s.len() ==> strip_comments(s).len() < s.len(),
        first_at(s, open_mark()) >= s.len() ==> strip_comments(s) == s,
    decreases s.len(),
{
    let open = first_at(s, open_mark());
    lemma_first_at(s, open_mark());
    if open < s.len() {
        let rest = s.skip(open as int);
        let close = first_at(rest, close_mark());
        if close + 3 <= rest.len() {
            lemma_strip_len(rest.skip(close as int + 3));
        }
    }
}

/// Trimming never makes a text longer, and leaves a trimmed text as it is.
pub proof fn lemma_trim(s: Seq<char>)
    ensures
        trim(s).len() <= s.len(),
        trim(trim(s)) == trim(s),
{
    let from = span(s, 0, Class::Space);
    lemma_span(s, 0, Class::Space);
    let to = span_back(s, s.len() as int, from);
    lemma_span_back(s, s.len() as int, from);
    let t = trim(s);
    assert(t.len() == to - from);
    lemma_span(t, 0, Class::Space);
    if t.len() > 0 {
        assert(from < s.len());
        assert(!is_space(s[from]));
        assert(t[0] == s[from]);
        assert(span(t, 0, Class::Space) == 0);
        assert(to > from);
        assert(!is_space(s[to - 1]));
        assert(t[t.len() - 1] == s[to - 1]);
        assert(span_back(t, t.len() as int, 0) == t.len());
        assert(t.subrange(0, t.len() as int) =~= t);
    } else {
        assert(span(t, 0, Class::Space) == 0);
        assert(span_back(t, 0, 0) == 0);
        assert(trim(t) =~= t);
    }
}

/// Washing a washed text changes nothing, unless the first washing has
/// brought the opening mark of a comment together: then the second takes
/// that comment out.
pub proof fn lemma_wash_twice(s: Seq<char>)
    ensures
        washed(washed(s)) == washed(s) <==> first_at(washed(s), open_mark()) >= washed(s).len(),
{
    let w = washed(s);
    lemma_strip_len(w);
    lemma_trim(strip_comments(s));
    lemma_trim(strip_comments(w));
}

/// Whether `mark` lies in `s` at `at`.
fn lies_at(s: &Vec<char>, at: usize, mark: &Vec<char>) -> (yes: bool)
    requires
        at + mark.len() <= s.len(),
    ensures
        yes == (s@.skip(at as int).take(mark.len() as int) == mark@),
{
    let mut j: usize = 0;
    while j < mark.len()
        invariant
            j <= mark.len(),
            at + mark.len() <= s.len(),
            forall|k: int| 0 <= k < j ==> s@[at + k] == mark@[k],
        decreases mark.len() - j,
    {
        if s[at + j] != mark[j] {
            assert(s@.skip(at as int).take(mark.len() as int)[j as int] != mark@[j as int]);
            return false;
        }
        j += 1;
    }
    assert(s@.skip(at as int).take(mark.len() as int) =~= mark@);
    true
}

/// Where `mark` first occurs in `s` at or after `from`; the length of `s` where it does not.
fn find(s: &Vec<char>, from: usize, mark: &Vec<char>) -> (at: usize)
    requires
        from <= s.len(),
        mark.len() > 0,
    ensures
        at == from + first_at(s@.skip(from as int), mark@),
        from <= at <= s.len(),
{
    let mut at = from;
    while mark.len() <= s.len() - at
        invariant
            from <= at <= s.len(),
            mark.len() > 0,
            first_at(s@.skip(from as int), mark@) == (at - from) + first_at(s@.skip(at as int), mark@),
        decreases s.len() - at,
    {
        if lies_at(s, at, mark) {
            return at;
        }
        assert(s@.skip(at as int).drop_first() =~= s@.skip(at + 1));
        at += 1;
    }
    s.len()
}

/// A request's text, to be washed.
pub struct Washer<'a> {
    pub src: &'a str,
}

/// The characters of `s` without its comments.
pub fn strip(s: &Vec<char>) -> (out: Vec<char>)
    ensures
        out@ == strip_comments(s@),
{
    let open_mark: Vec<char> = vec!['<', '!', '-', '-'];
    let close_mark: Vec<char> = vec!['-', '-', '>'];
    assert(open_mark@ =~= self::open_mark());
    assert(close_mark@ =~= self::close_mark());
    let mut out: Vec<char> = Vec::new();
    let mut at: usize = 0;
    assert(s@.skip(0) =~= s@);
    loop
        invariant_except_break
            at <= s.len(),
            open_mark@ == self::open_mark(),
            close_mark@ == self::close_mark(),
            strip_comments(s@) == out@ + strip_comments(s@.skip(at as int)),
        ensures
            out@ == strip_comments(s@),
        decreases s.len() - at,
    {
        let ghost left = s@.skip(at as int);
        let open = find(s, at, &open_mark);
        let mut text = slice(s, at, open);
        assert(text@ =~= left.take(open - at));
        let ghost before = out@;
        out.append(&mut text);
        if open >= s.len() {
            assert(left.take(left.len() as int) =~= left);
            break ;
        }
        let close = find(s, open, &close_mark);
        assert(left.skip(open - at) =~= s@.skip(open as int));
        if s.len() - close < 3 {
            break ;
        }
        proof {
            let rest = s@.skip(open as int);
            assert(rest.skip(close - open + 3) =~= s@.skip(close + 3));
            assert((before + left.take(open - at)) + strip_comments(s@.skip(close + 3)) =~= before + (left.take(
                open - at,
            ) + strip_comments(s@.skip(close + 3))));
        }
        at = close + 3;
    }
    out
}

impl<'a> Washer<'a> {
    /// The text without its comments, then without the white space at its two ends.
    pub fn wash(&self) -> (text: String)
        ensures
            text@ == washed(self.src@),
    {
        let chars = chars_of(self.src);
        let bare = strip(&chars);
        string_of(&trimmed(&bare))
    }

    /// The text without its comments: whatever lies between an opening mark
    /// and the first closing mark after it goes, marks included, and so does
    /// what follows an opening mark that is never closed.
    pub fn remove_comments(&self) -> (text: String)
        ensures
            text@ == strip_comments(self.src@),
    {
        let chars = chars_of(self.src);
        string_of(&strip(&chars))
    }
}

} // verus!
