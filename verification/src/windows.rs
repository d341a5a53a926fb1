//! Sets of seconds, held as the stretches of time that they are made of.

use vstd::prelude::*;

verus! {

/// A set of seconds, held as the closed intervals that the crate
/// `intervallum` keeps in order and joins where they touch.
#[verifier::external_body]
pub struct Seconds {
    set: interval::interval_set::IntervalSet<i64>,
}

/// A stretch of time: the seconds from `open` up to, and without, `close`.
#[derive(Debug, Clone, Copy, PartialEq, Eq, Structural)]
pub struct Window {
    pub open: i64,
    pub close: i64,
}

/// The seconds that the set holds.
pub uninterp spec fn seconds_of(set: Seconds) -> Set<int>;

/// The second `t` lies in one of the stretches.
pub open spec fn covered(stretches: Seq<Window>, t: int) -> bool {
    exists|k: int| 0 <= k < stretches.len() && (#[trigger] stretches[k]).open <= t < stretches[k].close
}

/// How many seconds of the stretches lie from `from` up to, and without, `to`.
pub open spec fn worked(stretches: Seq<Window>, from: int, to: int) -> nat {
    Set::new(|t: int| from <= t < to && covered(stretches, t)).len()
}

/// Each stretch holds a second at least, and none reaches the ends of what the machine counts.
pub open spec fn proper(stretches: Seq<Window>) -> bool {
    forall|k: int| 0 <= k < stretches.len() ==> i64::MIN < (#[trigger] stretches[k]).open < stretches[k].close
}

/// The stretches follow each other, with a second at least between one and the next.
pub open spec fn apart(stretches: Seq<Window>) -> bool {
    forall|k: int| 0 <= k < stretches.len() - 1 ==> (#[trigger] stretches[k]).close < stretches[k + 1].open
}

/// The stretches are in order and put together: each holds a second at
/// least, and a second at least lies between one and the next.
pub open spec fn settled(stretches: Seq<Window>) -> bool {
    proper(stretches) && apart(stretches)
}

/// Of stretches in order, a later one opens after an earlier one has closed.
pub proof fn lemma_apart(stretches: Seq<Window>, i: int, j: int)
    requires
        settled(stretches),
        0 <= i < j < stretches.len(),
    ensures
        stretches[i].close < stretches[j].open,
    decreases j - i,
{
    if i + 1 < j {
        lemma_apart(stretches, i, j - 1);
        assert(stretches[j - 1].open < stretches[j - 1].close);
        assert(stretches[j - 1].close < stretches[j - 1 + 1].open);
    } else {
        assert(stretches[i].close < stretches[i + 1].open);
    }
}

/// The first of the stretches opens at the first second that they hold,
/// and closes at the first second after it that they do not hold.
proof fn lemma_first_stretch(stretches: Seq<Window>, t: int)
    requires
        settled(stretches),
        stretches.len() > 0,
    ensures
        covered(stretches, t) ==> stretches[0].open <= t,
        stretches[0].open <= t < stretches[0].close ==> covered(stretches, t),
        !covered(stretches, stretches[0].close as int),
        covered(stretches.skip(1), t) <==> covered(stretches, t) && stretches[0].close <= t,
{
    let rest = stretches.skip(1);
    if covered(stretches, t) {
        let k = choose|k: int| 0 <= k < stretches.len() && (#[trigger] stretches[k]).open <= t < stretches[k].close;
        if k > 0 {
            lemma_apart(stretches, 0, k);
            assert(rest[k - 1] == stretches[k]);
            assert(rest[k - 1].open <= t < rest[k - 1].close);
        }
    }
    if stretches[0].open <= t < stretches[0].close {
        assert(stretches[0].open <= t < stretches[0].close);
    }
    if covered(stretches, stretches[0].close as int) {
        let k = choose|k: int|
            0 <= k < stretches.len() && (#[trigger] stretches[k]).open <= stretches[0].close < stretches[k].close;
        if k > 0 {
            lemma_apart(stretches, 0, k);
        }
    }
    if covered(rest, t) {
        let k = choose|k: int| 0 <= k < rest.len() && (#[trigger] rest[k]).open <= t < rest[k].close;
        assert(rest[k] == stretches[k + 1]);
        assert(stretches[k + 1].open <= t < stretches[k + 1].close);
        lemma_apart(stretches, 0, k + 1);
    }
}

/// Stretches in order without the first are in order.
proof fn lemma_settled_rest(a: Seq<Window>)
    requires
        settled(a),
        a.len() > 0,
    ensures
        settled(a.skip(1)),
{
    let ra = a.skip(1);
    assert forall|k: int| 0 <= k < ra.len() implies i64::MIN < (#[trigger] ra[k]).open < ra[k].close by {
        assert(ra[k] == a[k + 1]);
    }
    assert forall|k: int| 0 <= k < ra.len() - 1 implies (#[trigger] ra[k]).close < ra[k + 1].open by {
        assert(ra[k] == a[k + 1]);
        assert(ra[k + 1] == a[k + 1 + 1]);
        assert(a[k + 1].close < a[k + 1 + 1].open);
    }
}

/// Stretches in order that hold the same seconds start with the same stretch.
proof fn lemma_same_first(a: Seq<Window>, b: Seq<Window>)
    requires
        settled(a),
        settled(b),
        a.len() > 0,
        b.len() > 0,
        forall|t: int| covered(a, t) <==> covered(b, t),
    ensures
        a[0] == b[0],
{
    lemma_first_stretch(a, a[0].open as int);
    lemma_first_stretch(b, a[0].open as int);
    lemma_first_stretch(a, b[0].open as int);
    lemma_first_stretch(b, b[0].open as int);
    assert(a[0].open == b[0].open);
    if a[0].close < b[0].close {
        lemma_first_stretch(b, a[0].close as int);
        lemma_first_stretch(a, a[0].close as int);
    }
    if b[0].close < a[0].close {
        lemma_first_stretch(a, b[0].close as int);
        lemma_first_stretch(b, b[0].close as int);
    }
    assert(a[0].close == b[0].close);
}

/// Stretches that hold a second are not empty.
proof fn lemma_some_covered(a: Seq<Window>)
    requires
        proper(a),
        a.len() > 0,
    ensures
        covered(a, a[0].open as int),
{
    assert(a[0].open <= a[0].open < a[0].close);
}

/// No stretches hold no second.
proof fn lemma_none_covered(a: Seq<Window>, t: int)
    requires
        a.len() == 0,
    ensures
        !covered(a, t),
{
}

/// There is one way only to put seconds together into stretches in order.
pub proof fn lemma_settled_unique(a: Seq<Window>, b: Seq<Window>)
    requires
        settled(a),
        settled(b),
        forall|t: int| covered(a, t) <==> covered(b, t),
    ensures
        a == b,
    decreases a.len(),
{
    if a.len() == 0 {
        if b.len() > 0 {
            lemma_some_covered(b);
            lemma_none_covered(a, b[0].open as int);
        }
        assert(a =~= b);
    } else if b.len() == 0 {
        lemma_some_covered(a);
        lemma_none_covered(b, a[0].open as int);
    } else {
        lemma_unique_step(a, b);
        lemma_settled_unique(a.skip(1), b.skip(1));
        lemma_same_all(a, b);
    }
}

/// Stretches in order that hold the same seconds start with the same
/// stretch, and go on with stretches in order that hold the same seconds.
proof fn lemma_unique_step(a: Seq<Window>, b: Seq<Window>)
    requires
        settled(a),
        settled(b),
        a.len() > 0,
        b.len() > 0,
        forall|t: int| covered(a, t) <==> covered(b, t),
    ensures
        a[0] == b[0],
        settled(a.skip(1)),
        settled(b.skip(1)),
        forall|t: int| covered(a.skip(1), t) <==> covered(b.skip(1), t),
{
    lemma_same_first(a, b);
    lemma_settled_rest(a);
    lemma_settled_rest(b);
    lemma_same_rest(a, b);
}

/// Stretches with the same first and the same rest are the same.
proof fn lemma_same_all(a: Seq<Window>, b: Seq<Window>)
    requires
        a.len() > 0,
        b.len() > 0,
        a[0] == b[0],
        a.skip(1) == b.skip(1),
    ensures
        a == b,
{
    let ra = a.skip(1);
    let rb = b.skip(1);
    assert(a.len() == ra.len() + 1);
    assert(b.len() == rb.len() + 1);
    assert forall|k: int| 0 <= k < a.len() implies a[k] == b[k] by {
        if k > 0 {
            assert(ra[k - 1] == a[k]);
            assert(rb[k - 1] == b[k]);
        }
    }
    assert(a =~= b);
}

/// Stretches in order that hold the same seconds and start with the
/// same stretch hold the same seconds behind it.
proof fn lemma_same_rest(a: Seq<Window>, b: Seq<Window>)
    requires
        settled(a),
        settled(b),
        a.len() > 0,
        b.len() > 0,
        a[0] == b[0],
        forall|t: int| covered(a, t) <==> covered(b, t),
    ensures
        forall|t: int| covered(a.skip(1), t) <==> covered(b.skip(1), t),
{
    assert forall|t: int| covered(a.skip(1), t) <==> covered(b.skip(1), t) by {
        lemma_first_stretch(a, t);
        lemma_first_stretch(b, t);
    }
}

/// How many seconds of the stretch lie from `from` up to, and without, `to`.
pub open spec fn share(w: Window, from: int, to: int) -> int {
    let lo = if w.open > from {
        w.open as int
    } else {
        from
    };
    let hi = if w.close < to {
        w.close as int
    } else {
        to
    };
    if hi > lo {
        hi - lo
    } else {
        0
    }
}

/// The shares of the stretches from the `k`-th on, together.
pub open spec fn passed(stretches: Seq<Window>, k: int, from: int, to: int) -> int
    decreases stretches.len() - k,
{
    if k < 0 || k >= stretches.len() {
        0
    } else {
        share(stretches[k], from, to) + passed(stretches, k + 1, from, to)
    }
}

/// The second `t` lies in one of the stretches from the `k`-th on.
pub open spec fn covered_from(stretches: Seq<Window>, k: int, t: int) -> bool {
    exists|i: int| k <= i < stretches.len() && (#[trigger] stretches[i]).open <= t < stretches[i].close
}

/// Of stretches in order, the seconds between two instants are as many
/// as the shares of the stretches together.
pub proof fn lemma_passed(stretches: Seq<Window>, k: int, from: int, to: int)
    requires
        settled(stretches),
        0 <= k <= stretches.len(),
    ensures
        Set::new(|t: int| from <= t < to && covered_from(stretches, k, t)).finite(),
        Set::new(|t: int| from <= t < to && covered_from(stretches, k, t)).len() == passed(stretches, k, from, to),
        passed(stretches, k, from, to) >= 0,
    decreases stretches.len() - k,
{
    let all = Set::new(|t: int| from <= t < to && covered_from(stretches, k, t));
    if k == stretches.len() {
        assert(all =~= Set::<int>::empty());
    } else {
        lemma_passed(stretches, k + 1, from, to);
        let later = Set::new(|t: int| from <= t < to && covered_from(stretches, k + 1, t));
        let w = stretches[k];
        let lo = if w.open > from {
            w.open as int
        } else {
            from
        };
        let hi = if w.close < to {
            w.close as int
        } else {
            to
        };
        let top = if hi > lo {
            hi
        } else {
            lo
        };
        let own = vstd::set_lib::set_int_range(lo, top);
        vstd::set_lib::lemma_int_range(lo, top);
        assert(own.disjoint(later)) by {
            assert forall|t: int| own.contains(t) implies !later.contains(t) by {
                if later.contains(t) {
                    let i = choose|i: int|
                        k + 1 <= i < stretches.len() && (#[trigger] stretches[i]).open <= t < stretches[i].close;
                    lemma_apart(stretches, k, i);
                }
            }
        }
        assert(all =~= own + later) by {
            assert forall|t: int| all.contains(t) <==> (own + later).contains(t) by {
                if all.contains(t) {
                    let i = choose|i: int|
                        k <= i < stretches.len() && (#[trigger] stretches[i]).open <= t < stretches[i].close;
                    if i > k {
                        assert(covered_from(stretches, k + 1, t));
                    }
                }
                if later.contains(t) {
                    let i = choose|i: int|
                        k + 1 <= i < stretches.len() && (#[trigger] stretches[i]).open <= t < stretches[i].close;
                    assert(covered_from(stretches, k, t));
                }
                if own.contains(t) {
                    assert(stretches[k].open <= t < stretches[k].close);
                    assert(covered_from(stretches, k, t));
                }
            }
        }
        vstd::set_lib::lemma_set_disjoint_lens(own, later);
    }
}

/// Of stretches in order, the seconds of work between two instants are
/// as many as the shares of the stretches together.
pub proof fn lemma_worked(stretches: Seq<Window>, from: int, to: int)
    requires
        settled(stretches),
    ensures
        worked(stretches, from, to) == passed(stretches, 0, from, to),
{
    lemma_passed(stretches, 0, from, to);
    assert(Set::new(|t: int| from <= t < to && covered(stretches, t)) =~= Set::new(
        |t: int| from <= t < to && covered_from(stretches, 0, t),
    ));
}

/// Stretches that hold the same seconds hold as many between two instants.
pub proof fn lemma_worked_same(a: Seq<Window>, b: Seq<Window>, from: int, to: int)
    requires
        forall|t: int| covered(a, t) <==> covered(b, t),
    ensures
        worked(a, from, to) == worked(b, from, to),
{
    assert(Set::new(|t: int| from <= t < to && covered(a, t)) =~= Set::new(
        |t: int| from <= t < to && covered(b, t),
    ));
}

/// Stretches that open at or after `to` have no share before it.
pub proof fn lemma_passed_none(stretches: Seq<Window>, k: int, from: int, to: int)
    requires
        settled(stretches),
        0 <= k <= stretches.len(),
        k < stretches.len() ==> to <= stretches[k].open,
    ensures
        passed(stretches, k, from, to) == 0,
    decreases stretches.len() - k,
{
    if k < stretches.len() {
        if k + 1 < stretches.len() {
            lemma_apart(stretches, k, k + 1);
        }
        lemma_passed_none(stretches, k + 1, from, to);
    }
}

/// Stretches that open at or after two instants have the same share from either.
pub proof fn lemma_passed_same(stretches: Seq<Window>, k: int, a: int, b: int, to: int)
    requires
        settled(stretches),
        0 <= k <= stretches.len(),
        k < stretches.len() ==> a <= stretches[k].open && b <= stretches[k].open,
    ensures
        passed(stretches, k, a, to) == passed(stretches, k, b, to),
    decreases stretches.len() - k,
{
    if k < stretches.len() {
        if k + 1 < stretches.len() {
            lemma_apart(stretches, k, k + 1);
        }
        lemma_passed_same(stretches, k + 1, a, b, to);
    }
}

/// The shares of the stretches together are at least the share of one of them.
pub proof fn lemma_passed_least(stretches: Seq<Window>, k: int, j: int, from: int, to: int)
    requires
        0 <= k <= j < stretches.len(),
    ensures
        passed(stretches, k, from, to) >= share(stretches[j], from, to),
        passed(stretches, k, from, to) >= 0,
    decreases stretches.len() - k,
{
    if k < j {
        lemma_passed_least(stretches, k + 1, j, from, to);
    } else if k + 1 < stretches.len() {
        lemma_passed_least(stretches, k + 1, k + 1, from, to);
    }
}

/// The second `t` lies in one of the closed intervals, each from its first number to its second.
pub open spec fn held(pairs: Seq<(i64, i64)>, t: int) -> bool {
    exists|k: int| 0 <= k < pairs.len() && first_of(#[trigger] pairs[k]) <= t <= last_of(pairs[k])
}

/// The first second of a closed interval.
pub open spec fn first_of(pair: (i64, i64)) -> int {
    pair.0 as int
}

/// The last second of a closed interval.
pub open spec fn last_of(pair: (i64, i64)) -> int {
    pair.1 as int
}

/// Each closed interval holds a second at least, and none reaches the
/// ends of what the machine counts.
pub open spec fn closed(pairs: Seq<(i64, i64)>) -> bool {
    forall|k: int| 0 <= k < pairs.len() ==> i64::MIN < first_of(#[trigger] pairs[k]) <= last_of(pairs[k]) < i64::MAX
}

/// The set of the seconds that lie in the closed intervals. This is
/// `to_interval_set` of the crate: it sorts the intervals and joins those
/// that touch, so the set holds a second if and only if one of them does.
#[verifier::external_body]
fn gathered_closed(pairs: Vec<(i64, i64)>) -> (set: Seconds)
    requires
        closed(pairs@),
    ensures
        seconds_of(set).finite(),
        forall|t: int| seconds_of(set).contains(t) <==> held(pairs@, t),
{
    Seconds { set: interval::interval_set::ToIntervalSet::to_interval_set(pairs) }
}

/// The closed intervals that the set is made of, the earliest first:
/// the crate keeps its intervals in ascending order and joins those that
/// touch, so none is empty and a second at least, not in the set, lies
/// between one and the next.
#[verifier::external_body]
fn pieces_of(set: Seconds) -> (pairs: Vec<(i64, i64)>)
    ensures
        forall|k: int| 0 <= k < pairs@.len() ==> first_of(#[trigger] pairs@[k]) <= last_of(pairs@[k]),
        forall|k: int| 0 <= k < pairs@.len() - 1 ==> last_of(#[trigger] pairs@[k]) + 1 < first_of(pairs@[k + 1]),
        forall|t: int| seconds_of(set).contains(t) <==> held(pairs@, t),
{
    let mut pairs: Vec<(i64, i64)> = Vec::new();
    for piece in set.set {
        pairs.push((gcollections::ops::Bounded::lower(&piece), gcollections::ops::Bounded::upper(&piece)));
    }
    pairs
}

/// The set of the seconds that lie in the stretches: each stretch is
/// handed over as the closed interval from its first second to its last.
fn gathered(stretches: &Vec<Window>) -> (set: Seconds)
    requires
        proper(stretches@),
    ensures
        seconds_of(set).finite(),
        forall|t: int| seconds_of(set).contains(t) <==> covered(stretches@, t),
{
    let mut pairs: Vec<(i64, i64)> = Vec::new();
    let mut i: usize = 0;
    while i < stretches.len()
        invariant
            i <= stretches.len(),
            proper(stretches@),
            pairs@.len() == i,
            forall|k: int|
                0 <= k < i ==> first_of(#[trigger] pairs@[k]) == stretches@[k].open && last_of(pairs@[k])
                    == stretches@[k].close - 1,
        decreases stretches.len() - i,
    {
        let w = stretches[i];
        assert(i64::MIN < stretches@[i as int].open < stretches@[i as int].close);
        pairs.push((w.open, w.close - 1));
        i += 1;
    }
    let ghost all = pairs@;
    assert(closed(all)) by {
        assert forall|k: int| 0 <= k < all.len() implies i64::MIN < first_of(#[trigger] all[k]) <= last_of(all[k])
            < i64::MAX by {
            assert(i64::MIN < stretches@[k].open < stretches@[k].close);
        }
    }
    assert forall|t: int| held(all, t) <==> covered(stretches@, t) by {
        if held(all, t) {
            let k = choose|k: int| 0 <= k < all.len() && first_of(#[trigger] all[k]) <= t <= last_of(all[k]);
            assert(stretches@[k].open <= t < stretches@[k].close);
        }
        if covered(stretches@, t) {
            let k = choose|k: int| 0 <= k < stretches@.len() && (#[trigger] stretches@[k]).open <= t < stretches@[k].close;
            assert(first_of(all[k]) <= t <= last_of(all[k]));
        }
    }
    gathered_closed(pairs)
}

/// The seconds that two sets share: `intersection` of the crate.
#[verifier::external_body]
fn shared(a: &Seconds, b: &Seconds) -> (set: Seconds)
    ensures
        seconds_of(set).finite(),
        seconds_of(set) == seconds_of(*a).intersect(seconds_of(*b)),
{
    Seconds { set: gcollections::ops::Intersection::intersection(&a.set, &b.set) }
}

/// How many seconds the set holds: `size` of the crate, which counts
/// the integers of all its intervals.
#[verifier::external_body]
fn measure(set: &Seconds) -> (count: u64)
    ensures
        count == seconds_of(*set).len(),
{
    gcollections::ops::Cardinality::size(&set.set)
}

/// The stretches that the set is made of, the earliest first, each from
/// the first second of an interval of the set up to, and without, the
/// second behind its last. A second at least lies between one stretch and
/// the next.
fn stretches_of(set: Seconds) -> (stretches: Vec<Window>)
    requires
        forall|t: int| seconds_of(set).contains(t) ==> i64::MIN < t < i64::MAX,
    ensures
        proper(stretches@),
        apart(stretches@),
        forall|t: int| seconds_of(set).contains(t) <==> covered(stretches@, t),
{
    let pairs = pieces_of(set);
    let ghost all = pairs@;
    assert forall|k: int| 0 <= k < all.len() implies i64::MIN < first_of(#[trigger] all[k]) <= last_of(all[k])
        < i64::MAX by {
        assert(held(all, first_of(all[k])));
        assert(held(all, last_of(all[k])));
    }
    let mut stretches: Vec<Window> = Vec::new();
    let mut i: usize = 0;
    while i < pairs.len()
        invariant
            i <= pairs.len(),
            pairs@ == all,
            closed(all),
            stretches@.len() == i,
            forall|k: int|
                0 <= k < i ==> (#[trigger] stretches@[k]).open == first_of(all[k]) && stretches@[k].close == last_of(
                    all[k],
                ) + 1,
        decreases pairs.len() - i,
    {
        let pair = pairs[i];
        assert(i64::MIN < first_of(all[i as int]) <= last_of(all[i as int]) < i64::MAX);
        stretches.push(Window { open: pair.0, close: pair.1 + 1 });
        i += 1;
    }
    assert forall|k: int| 0 <= k < stretches@.len() implies i64::MIN < (#[trigger] stretches@[k]).open
        < stretches@[k].close by {
        assert(i64::MIN < first_of(all[k]) <= last_of(all[k]) < i64::MAX);
    }
    assert forall|k: int| 0 <= k < stretches@.len() - 1 implies (#[trigger] stretches@[k]).close < stretches@[k
        + 1].open by {
        assert(last_of(all[k]) + 1 < first_of(all[k + 1]));
    }
    assert forall|t: int| held(all, t) <==> covered(stretches@, t) by {
        if held(all, t) {
            let k = choose|k: int| 0 <= k < all.len() && first_of(#[trigger] all[k]) <= t <= last_of(all[k]);
            assert(stretches@[k].open <= t < stretches@[k].close);
        }
        if covered(stretches@, t) {
            let k = choose|k: int| 0 <= k < stretches@.len() && (#[trigger] stretches@[k]).open <= t < stretches@[k].close;
            assert(first_of(all[k]) <= t <= last_of(all[k]));
        }
    }
    stretches
}

/// The stretches put together: in order, those joined that touch or overlap.
pub(crate) fn put_together(stretches: &Vec<Window>) -> (joined: Vec<Window>)
    requires
        proper(stretches@),
    ensures
        settled(joined@),
        forall|t: int| covered(joined@, t) <==> covered(stretches@, t),
{
    let set = gathered(stretches);
    proof {
        assert forall|t: int| seconds_of(set).contains(t) implies i64::MIN < t < i64::MAX by {
            let k = choose|k: int| 0 <= k < stretches@.len() && (#[trigger] stretches@[k]).open <= t < stretches@[k].close;
            assert(i64::MIN < stretches@[k].open < stretches@[k].close);
        }
    }
    stretches_of(set)
}

/// How many seconds of the stretches lie from `from` up to, and without, `to`.
pub fn overlap(stretches: &Vec<Window>, from: i64, to: i64) -> (seconds: u64)
    requires
        proper(stretches@),
        i64::MIN < from,
    ensures
        seconds == worked(stretches@, from as int, to as int),
{
    if to <= from {
        assert(Set::new(|t: int| from <= t < to && covered(stretches@, t)) =~= Set::<int>::empty());
        return 0;
    }
    let all = gathered(stretches);
    let mut asked: Vec<Window> = Vec::new();
    asked.push(Window { open: from, close: to });
    let span = gathered(&asked);
    let both = shared(&span, &all);
    proof {
        assert(seconds_of(both) =~= Set::new(|t: int| from <= t < to && covered(stretches@, t))) by {
            assert forall|t: int| seconds_of(span).contains(t) <==> from <= t < to by {
                if from <= t < to {
                    assert(asked@[0].open <= t < asked@[0].close);
                }
            }
        }
    }
    measure(&both)
}

} // verus!
