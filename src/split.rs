//! Splitting a timeline into fights: clusters of moments separated by more
//! than a gap.
use vstd::prelude::*;
use vstd::relations::{sorted_by, total_ordering};
use crate::stamp::Stamp;

verus! {

/// A fight: its first and last second, both included.
#[derive(Clone, Copy, Debug, PartialEq, Eq, Structural)]
pub struct FightTimer {
    pub start: i64,
    pub end: i64,
}

/// A moment on the timeline: nanoseconds since the epoch, and whole seconds.
pub open spec fn moment_of(s: Stamp) -> (i128, i64) {
    (s.instant() as i128, s.secs)
}

pub open spec fn moments(list: Seq<Stamp>) -> Seq<(i128, i64)> {
    list.map_values(|s: Stamp| moment_of(s))
}

/// Moments in time order, ties by whole seconds.
pub open spec fn moment_leq() -> spec_fn((i128, i64), (i128, i64)) -> bool {
    |a: (i128, i64), b: (i128, i64)| a.0 < b.0 || (a.0 == b.0 && a.1 <= b.1)
}

/// The moments of `list`, in time order.
pub open spec fn sorted_moments(list: Seq<Stamp>) -> Seq<(i128, i64)> {
    moments(list).sort_by(moment_leq())
}

/// Two moments in a row are further apart than `gap` seconds.
pub open spec fn gap_exceeded(prev: (i128, i64), cur: (i128, i64), gap: i64) -> bool {
    cur.0 - prev.0 > gap * 1_000_000_000
}

/// The fights of the sorted moments `ps` from index `i` on, the current fight
/// having begun at index `s`.
pub open spec fn windows_from(ps: Seq<(i128, i64)>, gap: i64, s: int, i: int) -> Seq<(i64, i64)>
    decreases ps.len() - i,
{
    if i >= ps.len() || i < 1 {
        seq![(ps[s].1, ps[ps.len() - 1].1)]
    } else if gap_exceeded(ps[i - 1], ps[i], gap) {
        seq![(ps[s].1, ps[i - 1].1)] + windows_from(ps, gap, i, i + 1)
    } else {
        windows_from(ps, gap, s, i + 1)
    }
}

/// The fights of the sorted moments `ps`: a new one begins wherever two
/// moments in a row are more than `gap` seconds apart.
pub open spec fn fight_windows(ps: Seq<(i128, i64)>, gap: i64) -> Seq<(i64, i64)> {
    if ps.len() == 0 {
        Seq::empty()
    } else {
        windows_from(ps, gap, 0, 1)
    }
}

/// The nanosecond count of a moment is far from the ends of `i128`.
pub open spec fn moment_bounded(m: (i128, i64)) -> bool {
    -1_000_000_000_000_000_000_000_000_000_000 < m.0 < 1_000_000_000_000_000_000_000_000_000_000
}

pub proof fn lemma_moment_bounded(s: Stamp)
    ensures
        moment_bounded(moment_of(s)),
        moment_of(s).0 == s.instant(),
{
    let x = s.secs as int;
    assert(-9_223_372_036_854_775_808 <= x <= 9_223_372_036_854_775_807);
    assert(-9_223_372_036_854_775_808 * 1_000_000_000 <= x * 1_000_000_000 <= 9_223_372_036_854_775_807
        * 1_000_000_000) by (nonlinear_arith)
        requires
            -9_223_372_036_854_775_808 <= x <= 9_223_372_036_854_775_807,
    ;
}

pub open spec fn timer_pairs(v: Seq<FightTimer>) -> Seq<(i64, i64)> {
    v.map_values(|t: FightTimer| (t.start, t.end))
}

pub proof fn lemma_moment_leq_total()
    ensures
        total_ordering(moment_leq()),
{
}

/// Two sorted sequences with the same elements are the same sequence.
pub proof fn lemma_sorted_unique(a: Seq<(i128, i64)>, b: Seq<(i128, i64)>)
    requires
        sorted_by(a, moment_leq()),
        sorted_by(b, moment_leq()),
        a.to_multiset() == b.to_multiset(),
    ensures
        a == b,
    decreases a.len(),
{
    broadcast use vstd::seq_lib::group_to_multiset_ensures, vstd::multiset::group_multiset_axioms;

    vstd::seq_lib::to_multiset_len(a);
    vstd::seq_lib::to_multiset_len(b);
    if a.len() > 0 {
        let x = a[0];
        let y = b[0];
        vstd::seq_lib::to_multiset_contains(a, y);
        vstd::seq_lib::to_multiset_contains(b, x);
        assert(b.to_multiset().count(x) > 0);
        assert(a.to_multiset().count(y) > 0);
        let i = choose|i: int| 0 <= i < b.len() && b[i] == x;
        let j = choose|j: int| 0 <= j < a.len() && a[j] == y;
        assert((moment_leq())(y, x)) by {
            if i > 0 {
                assert((moment_leq())(b[0], b[i]));
            }
        }
        assert((moment_leq())(x, y)) by {
            if j > 0 {
                assert((moment_leq())(a[0], a[j]));
            }
        }
        assert(x == y);
        vstd::seq_lib::to_multiset_remove(a, 0);
        vstd::seq_lib::to_multiset_remove(b, 0);
        assert(a.remove(0) =~= a.drop_first());
        assert(b.remove(0) =~= b.drop_first());
        assert forall|p: int, q: int| 0 <= p < q < a.drop_first().len() implies #[trigger] (
        moment_leq())(a.drop_first()[p], a.drop_first()[q]) by {
            assert((moment_leq())(a[p + 1], a[q + 1]));
        }
        assert forall|p: int, q: int| 0 <= p < q < b.drop_first().len() implies #[trigger] (
        moment_leq())(b.drop_first()[p], b.drop_first()[q]) by {
            assert((moment_leq())(b[p + 1], b[q + 1]));
        }
        lemma_sorted_unique(a.drop_first(), b.drop_first());
        assert forall|k: int| 0 <= k < a.len() implies a[k] == b[k] by {
            if k > 0 {
                assert(a[k] == a.drop_first()[k - 1]);
                assert(b[k] == b.drop_first()[k - 1]);
            }
        }
        assert(a =~= b);
    } else {
        assert(a =~= b);
    }
}

/// Relies on std's `slice::sort_unstable`, which orders tuples of integers
/// lexicographically, ascending, keeping the same elements.
#[verifier::external_body]
fn sort_moments(v: &mut Vec<(i128, i64)>)
    ensures
        final(v)@.to_multiset() == old(v)@.to_multiset(),
        sorted_by(final(v)@, moment_leq()),
{
    v.sort_unstable()
}

/// Splits the moments of `list` into fights: a new fight begins wherever two
/// moments in a row, in time order, are more than `diff` seconds apart. Each
/// fight runs from the whole second of its first moment to that of its last.
pub fn split_in_fight(list: Vec<Stamp>, diff: i64) -> (r: Vec<FightTimer>)
    ensures
        timer_pairs(r@) == fight_windows(sorted_moments(list@), diff),
{
    let mut ms: Vec<(i128, i64)> = Vec::new();
    let mut k: usize = 0;
    while k < list.len()
        invariant
            k <= list.len(),
            ms@ == moments(list@).subrange(0, k as int),
        decreases list.len() - k,
    {
        proof {
            lemma_moment_bounded(list@[k as int]);
        }
        ms.push((list[k].instant_exec(), list[k].secs));
        k = k + 1;
        assert(ms@ =~= moments(list@).subrange(0, k as int));
    }
    assert(moments(list@).subrange(0, k as int) =~= moments(list@));
    let ghost unsorted = ms@;
    sort_moments(&mut ms);
    proof {
        assert forall|j: int| 0 <= j < ms@.len() implies moment_bounded(#[trigger] ms@[j]) by {
            vstd::seq_lib::to_multiset_contains(ms@, ms@[j]);
            vstd::seq_lib::to_multiset_contains(unsorted, ms@[j]);
            assert(ms@.contains(ms@[j]));
            let q = choose|q: int| 0 <= q < unsorted.len() && unsorted[q] == ms@[j];
            lemma_moment_bounded(list@[q]);
        }
        lemma_moment_leq_total();
        moments(list@).lemma_sort_by_ensures(moment_leq());
        lemma_sorted_unique(ms@, sorted_moments(list@));
    }
    let ghost ps = ms@;
    let mut res: Vec<FightTimer> = Vec::new();
    if ms.len() == 0 {
        assert(timer_pairs(res@) =~= Seq::<(i64, i64)>::empty());
        return res;
    }
    assert(-9_223_372_036_854_775_808 * 1_000_000_000 <= diff * 1_000_000_000 <= 9_223_372_036_854_775_807
        * 1_000_000_000) by (nonlinear_arith)
        requires
            -9_223_372_036_854_775_808 <= diff <= 9_223_372_036_854_775_807,
    ;
    let gap: i128 = diff as i128 * 1_000_000_000;
    let mut s: usize = 0;
    let mut i: usize = 1;
    while i < ms.len()
        invariant
            ps == ms@,
            ps.len() > 0,
            s < i <= ps.len(),
            gap == diff * 1_000_000_000,
            forall|j: int| 0 <= j < ps.len() ==> moment_bounded(#[trigger] ps[j]),
            timer_pairs(res@) + windows_from(ps, diff, s as int, i as int) == windows_from(
                ps,
                diff,
                0,
                1,
            ),
        decreases ps.len() - i,
    {
        assert(moment_bounded(ps[i as int]) && moment_bounded(ps[i - 1]));
        if ms[i].0 - ms[i - 1].0 > gap {
            let ghost before = timer_pairs(res@);
            res.push(FightTimer { start: ms[s].1, end: ms[i - 1].1 });
            assert(timer_pairs(res@) =~= before.push((ps[s as int].1, ps[i - 1].1)));
            assert(before.push((ps[s as int].1, ps[i - 1].1)) + windows_from(ps, diff, i as int, i + 1)
                =~= before + (seq![(ps[s as int].1, ps[i - 1].1)] + windows_from(ps, diff, i as int, i + 1)));
            s = i;
        }
        i = i + 1;
    }
    let ghost before = timer_pairs(res@);
    res.push(FightTimer { start: ms[s].1, end: ms[ms.len() - 1].1 });
    assert(timer_pairs(res@) =~= before + windows_from(ps, diff, s as int, i as int));
    res
}

/// A fight that lasts at least `minimum` seconds.
pub open spec fn long_enough(w: (i64, i64), minimum: i64) -> bool {
    w.1 - w.0 >= minimum
}

/// Keeps, in order, the fights that last at least `minimum` seconds
/// (`end - start >= minimum`).
pub fn drop_short_fights(fights: Vec<FightTimer>, minimum: i64) -> (r: Vec<FightTimer>)
    ensures
        timer_pairs(r@) == timer_pairs(fights@).filter(|w: (i64, i64)| long_enough(w, minimum)),
{
    let ghost ws = timer_pairs(fights@);
    let ghost keep = |w: (i64, i64)| long_enough(w, minimum);
    let mut r: Vec<FightTimer> = Vec::new();
    let mut i: usize = 0;
    proof {
        reveal(Seq::filter);
        assert(ws.subrange(0, 0).filter(keep) =~= Seq::<(i64, i64)>::empty());
        assert(timer_pairs(r@) =~= Seq::<(i64, i64)>::empty());
    }
    while i < fights.len()
        invariant
            ws == timer_pairs(fights@),
            keep == (|w: (i64, i64)| long_enough(w, minimum)),
            i <= fights.len(),
            timer_pairs(r@) == ws.subrange(0, i as int).filter(keep),
        decreases fights.len() - i,
    {
        let t = fights[i];
        proof {
            reveal(Seq::filter);
            assert(ws.subrange(0, i + 1).drop_last() =~= ws.subrange(0, i as int));
            assert(ws[i as int] == (t.start, t.end));
        }
        if t.end as i128 - t.start as i128 >= minimum as i128 {
            let ghost before = r@;
            r.push(t);
            assert(timer_pairs(r@) =~= timer_pairs(before).push((t.start, t.end)));
        }
        i = i + 1;
    }
    assert(ws.subrange(0, i as int) =~= ws);
    r
}

} // verus!
