//! Properties that relate several calls, or hold of every input.
use vstd::prelude::*;
use crate::dps::{
    dps_stats_spec, emit_enemy_key, emit_kind_key, emit_second_key, hit_absorbed, hit_raw,
    hit_total, opponents_of, received_enemy_key, received_kind_key, received_second_key,
    DamageLine, DpsStatsView,
};
use crate::heal::{
    emit_ally_key, emit_heal_second_key, heal_absorbed, heal_raw, heal_stats_spec, heal_total,
    received_ally_key, received_heal_second_key, HealLine, HealStatsView,
};
use crate::dps::{damage_line, word_damage, word_hit};
use crate::grammar::{self_emitter, word_for};
use crate::names::lower_of;
use crate::text::{decimal_value, digit_run, find_from, has_at, is_digit};
use crate::split::{fight_windows, lemma_moment_leq_total, moment_leq, moment_of, moments, sorted_moments};
use crate::stamp::Stamp;
use crate::tally::{
    has_key, in_window, keyed_series, keyed_totals, lemma_keyed_series_permutation,
    lemma_keyed_totals_permutation, lemma_sum_keyed_absent, window_len,
};

verus! {

/// Damage totals do not depend on the order of the events.
pub proof fn lemma_dps_stats_order_free(
    a: Seq<(Stamp, DamageLine)>,
    b: Seq<(Stamp, DamageLine)>,
    start: Option<i64>,
    end: Option<i64>,
)
    requires
        a.to_multiset() == b.to_multiset(),
    ensures
        dps_stats_spec(a, start, end) == dps_stats_spec(b, start, end),
{
    let n = window_len(start, end);
    lemma_keyed_totals_permutation(a, b, received_kind_key(start, end), hit_total());
    lemma_keyed_totals_permutation(a, b, emit_kind_key(start, end), hit_total());
    lemma_keyed_totals_permutation(a, b, received_enemy_key(start, end), hit_total());
    lemma_keyed_totals_permutation(a, b, emit_enemy_key(start, end), hit_total());
    lemma_keyed_series_permutation(a, b, emit_second_key(start, end), hit_raw(), n);
    lemma_keyed_series_permutation(a, b, emit_second_key(start, end), hit_absorbed(), n);
    lemma_keyed_series_permutation(a, b, received_second_key(start, end), hit_raw(), n);
    lemma_keyed_series_permutation(a, b, received_second_key(start, end), hit_absorbed(), n);
}

/// Healing totals do not depend on the order of the events.
pub proof fn lemma_heal_stats_order_free(
    a: Seq<(Stamp, HealLine)>,
    b: Seq<(Stamp, HealLine)>,
    start: Option<i64>,
    end: Option<i64>,
)
    requires
        a.to_multiset() == b.to_multiset(),
    ensures
        heal_stats_spec(a, start, end) == heal_stats_spec(b, start, end),
{
    let n = window_len(start, end);
    lemma_keyed_totals_permutation(a, b, received_ally_key(start, end), heal_total());
    lemma_keyed_totals_permutation(a, b, emit_ally_key(start, end), heal_total());
    lemma_keyed_series_permutation(a, b, emit_heal_second_key(start, end), heal_raw(), n);
    lemma_keyed_series_permutation(a, b, emit_heal_second_key(start, end), heal_absorbed(), n);
    lemma_keyed_series_permutation(a, b, received_heal_second_key(start, end), heal_raw(), n);
    lemma_keyed_series_permutation(a, b, received_heal_second_key(start, end), heal_absorbed(), n);
}

proof fn lemma_no_key_totals<E>(
    s: Seq<E>,
    key: spec_fn(E) -> Option<Seq<char>>,
    amount: spec_fn(E) -> int,
)
    requires
        forall|i: int| 0 <= i < s.len() ==> #[trigger] key(s[i]) is None,
    ensures
        keyed_totals(s, key, amount) == Map::<Seq<char>, int>::empty(),
{
    assert(keyed_totals(s, key, amount) =~= Map::<Seq<char>, int>::empty());
}

proof fn lemma_no_key_series<E>(
    s: Seq<E>,
    key: spec_fn(E) -> Option<int>,
    amount: spec_fn(E) -> int,
    n: nat,
)
    requires
        forall|i: int| 0 <= i < s.len() ==> #[trigger] key(s[i]) is None,
    ensures
        keyed_series(s, key, amount, n) == Seq::new(n, |t: int| 0int),
{
    assert forall|t: int| 0 <= t < n implies #[trigger] keyed_series(s, key, amount, n)[t] == 0 by {
        assert(!has_key(s, key, t));
        lemma_sum_keyed_absent(s, key, amount, t);
    }
    assert(keyed_series(s, key, amount, n) =~= Seq::new(n, |t: int| 0int));
}

/// Over a window that holds no damage event, every table is empty and every
/// per-second series is all zeros, one per second of the window.
pub proof fn lemma_dps_stats_empty_window(
    events: Seq<(Stamp, DamageLine)>,
    start: i64,
    end: i64,
)
    requires
        start <= end,
        forall|i: int| 0 <= i < events.len() ==> !in_window(#[trigger] events[i].0, Some(start), Some(end)),
    ensures
        dps_stats_spec(events, Some(start), Some(end)) == (DpsStatsView {
            received_by_kind: Map::empty(),
            emit_by_kind: Map::empty(),
            received_by_enemy: Map::empty(),
            emit_by_enemy: Map::empty(),
            emit_by_seconds: Seq::new((end - start + 1) as nat, |t: int| 0int),
            emit_by_seconds_absorbed: Seq::new((end - start + 1) as nat, |t: int| 0int),
            received_by_seconds: Seq::new((end - start + 1) as nat, |t: int| 0int),
            received_by_seconds_absorbed: Seq::new((end - start + 1) as nat, |t: int| 0int),
        }),
{
    let (s, e) = (Some(start), Some(end));
    let n = window_len(s, e);
    assert forall|i: int| 0 <= i < events.len() implies #[trigger] (received_kind_key(s, e))(
        events[i],
    ) is None && (emit_kind_key(s, e))(events[i]) is None && (received_enemy_key(s, e))(
        events[i],
    ) is None && (emit_enemy_key(s, e))(events[i]) is None && (emit_second_key(s, e))(
        events[i],
    ) is None && (received_second_key(s, e))(events[i]) is None by {
        assert(!in_window(events[i].0, s, e));
    }
    lemma_no_key_totals(events, received_kind_key(s, e), hit_total());
    lemma_no_key_totals(events, emit_kind_key(s, e), hit_total());
    lemma_no_key_totals(events, received_enemy_key(s, e), hit_total());
    lemma_no_key_totals(events, emit_enemy_key(s, e), hit_total());
    lemma_no_key_series(events, emit_second_key(s, e), hit_raw(), n);
    lemma_no_key_series(events, emit_second_key(s, e), hit_absorbed(), n);
    lemma_no_key_series(events, received_second_key(s, e), hit_raw(), n);
    lemma_no_key_series(events, received_second_key(s, e), hit_absorbed(), n);
}

/// Over a window that holds no healing event, both tables are empty and
/// every per-second series is all zeros, one per second of the window.
pub proof fn lemma_heal_stats_empty_window(
    events: Seq<(Stamp, HealLine)>,
    start: i64,
    end: i64,
)
    requires
        start <= end,
        forall|i: int| 0 <= i < events.len() ==> !in_window(#[trigger] events[i].0, Some(start), Some(end)),
    ensures
        heal_stats_spec(events, Some(start), Some(end)) == (HealStatsView {
            received_by_ally: Map::empty(),
            emit_by_ally: Map::empty(),
            emit_by_seconds: Seq::new((end - start + 1) as nat, |t: int| 0int),
            emit_by_seconds_absorbed: Seq::new((end - start + 1) as nat, |t: int| 0int),
            received_by_seconds: Seq::new((end - start + 1) as nat, |t: int| 0int),
            received_by_seconds_absorbed: Seq::new((end - start + 1) as nat, |t: int| 0int),
        }),
{
    let (s, e) = (Some(start), Some(end));
    let n = window_len(s, e);
    assert forall|i: int| 0 <= i < events.len() implies #[trigger] (received_ally_key(s, e))(
        events[i],
    ) is None && (emit_ally_key(s, e))(events[i]) is None && (emit_heal_second_key(s, e))(
        events[i],
    ) is None && (received_heal_second_key(s, e))(events[i]) is None by {
        assert(!in_window(events[i].0, s, e));
    }
    lemma_no_key_totals(events, received_ally_key(s, e), heal_total());
    lemma_no_key_totals(events, emit_ally_key(s, e), heal_total());
    lemma_no_key_series(events, emit_heal_second_key(s, e), heal_raw(), n);
    lemma_no_key_series(events, emit_heal_second_key(s, e), heal_absorbed(), n);
    lemma_no_key_series(events, received_heal_second_key(s, e), heal_raw(), n);
    lemma_no_key_series(events, received_heal_second_key(s, e), heal_absorbed(), n);
}

/// A single moment makes a single fight, which begins and ends at its second.
pub proof fn lemma_single_moment_fight(t: Stamp, gap: i64)
    ensures
        fight_windows(sorted_moments(seq![t]), gap) == seq![(t.secs, t.secs)],
{
    let ms = moments(seq![t]);
    assert(ms =~= seq![moment_of(t)]);
    lemma_moment_leq_total();
    ms.lemma_sort_by_ensures(moment_leq());
    let ps = sorted_moments(seq![t]);
    vstd::seq_lib::to_multiset_len(ms);
    vstd::seq_lib::to_multiset_len(ps);
    assert(ps.len() == 1);
    assert(ps.contains(ps[0]));
    assert(ms.contains(ps[0]));
    assert(ps[0] == moment_of(t));
    assert(fight_windows(ps, gap) == seq![(ps[0].1, ps[0].1)]);
}

/// The opponent list holds no name twice, and each name in it is the
/// lower-cased form of a name in one of the two tables.
pub proof fn lemma_opponents_distinct_lowered(
    names: Seq<Seq<char>>,
    a: Map<Seq<char>, int>,
    b: Map<Seq<char>, int>,
)
    requires
        opponents_of(names, a, b),
    ensures
        names.no_duplicates(),
        forall|y: Seq<char>|
            names.contains(y) ==> exists|k: Seq<char>|
                (a.contains_key(k) || b.contains_key(k)) && y == lower_of(k),
{
    crate::names::lemma_strictly_sorted_distinct(names);
}

/// `w` occurs nowhere in `s`.
pub open spec fn free_of(s: Seq<char>, w: Seq<char>) -> bool {
    forall|j: int| !#[trigger] has_at(s, j, w)
}

pub proof fn lemma_find_from_exact(s: Seq<char>, w: Seq<char>, from: int, pos: int)
    requires
        0 <= from <= pos,
        has_at(s, pos, w),
        forall|j: int| from <= j < pos ==> !#[trigger] has_at(s, j, w),
    ensures
        find_from(s, w, from) == Some(pos),
    decreases pos - from,
{
    if from < pos {
        lemma_find_from_exact(s, w, from + 1, pos);
    }
}

pub proof fn lemma_digit_run_exact(s: Seq<char>, i: int, d: int)
    requires
        0 <= i,
        0 <= d,
        i + d <= s.len(),
        forall|j: int| i <= j < i + d ==> is_digit(#[trigger] s[j]),
        i + d == s.len() || !is_digit(s[i + d]),
    ensures
        digit_run(s, i) == d,
    decreases d,
{
    if d > 0 {
        lemma_digit_run_exact(s, i + 1, d - 1);
    }
}

/// A word with no space but at its two ends does not occur across a space
/// that would fall strictly inside it.
proof fn lemma_word_straddle(s: Seq<char>, w: Seq<char>, j: int, p: int)
    requires
        w.len() >= 2,
        forall|k: int| 0 < k < w.len() - 1 ==> w[k] != ' ',
        0 <= p < s.len(),
        s[p] == ' ',
        j < p < j + w.len() - 1,
    ensures
        !has_at(s, j, w),
{
    if has_at(s, j, w) {
        assert(s.subrange(j, j + w.len())[p - j] == s[p]);
    }
}

/// Where each part of a self-hit line stands in its body.
pub open spec fn hit_layout(
    body: Seq<char>,
    spell: Seq<char>,
    target: Seq<char>,
    amount: Seq<char>,
    kind: Seq<char>,
) -> bool {
    let hh = 5 + spell.len() as int;
    let t0 = hh + 5;
    let ff = t0 + target.len() as int;
    let aa = ff + 5;
    let la = amount.len() as int;
    &&& body.len() == aa + la + 1 + kind.len() + 7
    &&& body.subrange(0, 4) == self_emitter()
    &&& body[4] == ' '
    &&& body.subrange(5, hh) == spell
    &&& body.subrange(hh, t0) == word_hit()
    &&& body.subrange(t0, ff) == target
    &&& body.subrange(ff, aa) == word_for()
    &&& body.subrange(aa, aa + la) == amount
    &&& body.subrange(aa + la, body.len() as int) == seq![' '] + kind + word_damage()
}

pub proof fn lemma_concat_subrange(a: Seq<char>, b: Seq<char>, i: int, j: int)
    requires
        0 <= i <= j <= a.len() + b.len(),
    ensures
        j <= a.len() ==> (a + b).subrange(i, j) == a.subrange(i, j),
        a.len() <= i ==> (a + b).subrange(i, j) == b.subrange(i - a.len(), j - a.len()),
{
    if j <= a.len() {
        assert((a + b).subrange(i, j) =~= a.subrange(i, j));
    }
    if a.len() <= i {
        assert((a + b).subrange(i, j) =~= b.subrange(i - a.len(), j - a.len()));
    }
}

proof fn lemma_hit_layout(spell: Seq<char>, target: Seq<char>, amount: Seq<char>, kind: Seq<char>)
    ensures
        hit_layout(
            self_emitter() + seq![' '] + spell + word_hit() + target + word_for() + amount
                + seq![' '] + kind + word_damage(),
            spell,
            target,
            amount,
            kind,
        ),
{
    let p1 = self_emitter() + seq![' '] + spell + word_hit() + target + word_for();
    let p2 = seq![' '] + kind + word_damage();
    let body = self_emitter() + seq![' '] + spell + word_hit() + target + word_for() + amount
        + seq![' '] + kind + word_damage();
    assert(body =~= p1 + amount + p2);
    let q1 = self_emitter() + seq![' '] + spell;
    let q2 = word_hit() + target + word_for();
    assert(p1 =~= q1 + q2);
    let hh = 5 + spell.len() as int;
    let t0 = hh + 5;
    let ff = t0 + target.len() as int;
    let aa = ff + 5;
    let la = amount.len() as int;
    assert(p1.len() == aa);
    lemma_concat_subrange(p1 + amount, p2, 0, aa);
    lemma_concat_subrange(p1, amount, 0, aa);
    assert(body.subrange(0, aa) == p1);
    lemma_concat_subrange(p1 + amount, p2, aa, aa + la);
    lemma_concat_subrange(p1, amount, aa, aa + la);
    assert(body.subrange(aa, aa + la) =~= amount);
    lemma_concat_subrange(p1 + amount, p2, aa + la, body.len() as int);
    assert(body.subrange(aa + la, body.len() as int) =~= p2);
    assert(q1.subrange(0, 4) =~= self_emitter());
    assert(q1.subrange(5, hh) =~= spell);
    assert(q2.subrange(0, 5) =~= word_hit());
    assert(q2.subrange(5, 5 + target.len() as int) =~= target);
    assert(q2.subrange(5 + target.len() as int, 10 + target.len() as int) =~= word_for());
    assert(body.subrange(0, 4) =~= self_emitter());
    assert(body[4] == ' ');
    assert(body.subrange(5, hh) =~= spell);
    assert(body.subrange(hh, t0) =~= word_hit());
    assert(body.subrange(t0, ff) =~= target);
    assert(body.subrange(ff, aa) =~= word_for());
}

/// The text of a line in which the tracked player hits `target` with
/// `spell` for `amount` damage of kind `kind`, up to its final period.
pub open spec fn self_hit_body(
    spell: Seq<char>,
    target: Seq<char>,
    amount: Seq<char>,
    kind: Seq<char>,
) -> Seq<char> {
    self_emitter() + seq![' '] + spell + word_hit() + target + word_for() + amount + seq![' '] + kind
        + word_damage()
}

/// What follows the spell's `" hit "` in such a line, from its space on.
pub open spec fn after_spell(target: Seq<char>, amount: Seq<char>, kind: Seq<char>) -> Seq<char> {
    seq![' '] + target + word_for() + amount + seq![' '] + kind + word_damage()
}

/// A line in which the tracked player hits `target` with `spell` for
/// `amount` damage of kind `kind`, with no absorbed or critical group, reads
/// as exactly that: absorbed zero and not critical. The spell may be
/// anything; no `" hit "` may follow it, the target holds no `" for "`
/// (even across its end), and the kind has no `(`.
pub proof fn lemma_self_hit_line(
    spell: Seq<char>,
    target: Seq<char>,
    amount: Seq<char>,
    kind: Seq<char>,
)
    requires
        free_of(after_spell(target, amount, kind), word_hit()),
        target.len() > 0,
        free_of(target + seq![' '], word_for()),
        amount.len() > 0,
        forall|i: int| 0 <= i < amount.len() ==> is_digit(#[trigger] amount[i]),
        kind.len() > 0,
        forall|i: int| 0 <= i < kind.len() ==> #[trigger] kind[i] != '(',
    ensures
        damage_line(self_hit_body(spell, target, amount, kind) + seq!['.']) == Some(
            DamageLine {
                emitter: self_emitter(),
                spell,
                receiver: target,
                damage: decimal_value(amount),
                absorbed: 0,
                kind,
                critical: false,
            },
        ),
{
    lemma_hit_layout(spell, target, amount, kind);
    lemma_self_hit_body(self_hit_body(spell, target, amount, kind), spell, target, amount, kind);
}

proof fn lemma_receiver_end_exact(body: Seq<char>, from: int, f0: int, r: int, heal: bool)
    requires
        0 <= f0 <= r,
        from < r,
        crate::grammar::for_fits(body, r, heal),
        forall|j: int| f0 <= j < r && from < j ==> !#[trigger] crate::grammar::for_fits(body, j, heal),
    ensures
        crate::grammar::receiver_end(body, from, f0, heal) == Some(r),
    decreases r - f0,
{
    assert(has_at(body, r, word_for()));
    if f0 < r {
        lemma_receiver_end_exact(body, from, f0 + 1, r, heal);
    }
}

proof fn lemma_spell_end_exact(body: Seq<char>, lo: int, k: int, r: int, word: Seq<char>, heal: bool)
    requires
        lo <= r <= k,
        has_at(body, r, word),
        crate::grammar::receiver_end(body, r + word.len(), r + word.len(), heal) is Some,
        forall|j: int| r < j <= k ==> !#[trigger] has_at(body, j, word),
    ensures
        crate::grammar::spell_end(body, lo, k, word, heal) == Some(r),
    decreases k - r,
{
    if r < k {
        lemma_spell_end_exact(body, lo, k - 1, r, word, heal);
    }
}

#[verifier::rlimit(60)]
proof fn lemma_self_hit_body(
    body: Seq<char>,
    spell: Seq<char>,
    target: Seq<char>,
    amount: Seq<char>,
    kind: Seq<char>,
)
    requires
        hit_layout(body, spell, target, amount, kind),
        free_of(after_spell(target, amount, kind), word_hit()),
        target.len() > 0,
        free_of(target + seq![' '], word_for()),
        amount.len() > 0,
        forall|i: int| 0 <= i < amount.len() ==> is_digit(#[trigger] amount[i]),
        kind.len() > 0,
        forall|i: int| 0 <= i < kind.len() ==> #[trigger] kind[i] != '(',
    ensures
        damage_line(body + seq!['.']) == Some(
            DamageLine {
                emitter: self_emitter(),
                spell,
                receiver: target,
                damage: decimal_value(amount),
                absorbed: 0,
                kind,
                critical: false,
            },
        ),
{
    let row = body + seq!['.'];
    assert(row.drop_last() =~= body);
    let ls = spell.len() as int;
    let lt = target.len() as int;
    let la = amount.len() as int;
    let hh = 5 + ls;
    let t0 = hh + 5;
    let ff = t0 + lt;
    let aa = ff + 5;
    let end = body.len() as int;
    let t = body.subrange(aa + la, end);
    // The emitter ends at the first space.
    assert forall|j: int| 0 <= j < 4 implies !#[trigger] has_at(body, j, seq![' ']) by {
        assert(body.subrange(j, j + 1)[0] == body[j]);
        assert(body[j] == body.subrange(0, 4)[j]);
    }
    assert(body.subrange(4, 5) =~= seq![' ']);
    lemma_find_from_exact(body, seq![' '], 0, 4);
    // The amount and what follows it fit.
    assert forall|j: int| aa <= j < aa + la implies is_digit(#[trigger] body[j]) by {
        assert(body[j] == body.subrange(aa, aa + la)[j - aa]);
    }
    assert(body[aa + la] == t[0]);
    lemma_digit_run_exact(body, aa, la);
    assert(t =~= seq![' '] + kind + word_damage());
    assert(!has_at(t, 0, crate::grammar::word_open())) by {
        assert(t[1] == kind[0]);
        assert(t.subrange(0, 2)[1] == t[1]);
    }
    assert(crate::grammar::absorbed_len(t) == 0);
    assert(crate::grammar::after_absorbed(t) =~= t);
    assert(!crate::grammar::is_critical(t)) by {
        assert(t[t.len() - 1] == 'e');
        if crate::grammar::is_critical(t) {
            assert(t.subrange(t.len() - 11, t.len() as int)[10] == t[t.len() - 1]);
        }
    }
    assert(crate::grammar::middle(t) == t);
    assert(t.subrange(t.len() - 7, t.len() as int) =~= word_damage());
    assert forall|i: int| 1 <= i < t.len() - 7 implies t[i] != '(' by {
        assert(t[i] == kind[i - 1]);
    }
    assert(t.subrange(1, t.len() - 7) =~= kind);
    assert(crate::dps::damage_kind(t) == Some(kind));
    assert(crate::grammar::for_fits(body, ff, false));
    // The receiver ends at the first " for ".
    let y = target + seq![' '];
    assert(body[ff] == body.subrange(ff, aa)[0]);
    assert forall|k: int| 0 <= k < y.len() implies y[k] == body[t0 + k] by {
        if k < lt {
            assert(body[t0 + k] == body.subrange(t0, ff)[k]);
        }
    }
    assert(y =~= body.subrange(t0, ff + 1));
    assert forall|j: int| t0 <= j < ff && t0 < j implies !#[trigger] crate::grammar::for_fits(
        body,
        j,
        false,
    ) by {
        if j + 5 <= ff + 1 {
            assert(y.subrange(j - t0, j - t0 + 5) =~= body.subrange(j, j + 5));
            assert(!has_at(y, j - t0, word_for()));
        } else {
            lemma_word_straddle(body, word_for(), j, ff);
        }
    }
    lemma_receiver_end_exact(body, t0, t0, ff, false);
    // The spell ends at the last " hit ".
    let z = after_spell(target, amount, kind);
    assert(body[hh + 4] == body.subrange(hh, t0)[4]);
    assert forall|k: int| 0 <= k < z.len() implies z[k] == body[hh + 4 + k] by {
        let k1 = k - 1;
        if 1 <= k && k1 < lt {
            assert(body[t0 + k1] == body.subrange(t0, ff)[k1]);
        } else if lt <= k1 && k1 < lt + 5 {
            assert(body[t0 + k1] == body.subrange(ff, aa)[k1 - lt]);
        } else if lt + 5 <= k1 && k1 < lt + 5 + la {
            assert(body[t0 + k1] == body.subrange(aa, aa + la)[k1 - lt - 5]);
        } else if lt + 5 + la <= k1 {
            assert(body[t0 + k1] == t[k1 - lt - 5 - la]);
        }
    }
    assert(z =~= body.subrange(hh + 4, end));
    assert forall|j: int| hh < j <= end implies !#[trigger] has_at(body, j, word_hit()) by {
        if j < hh + 4 {
            assert(body[j] == body.subrange(hh, t0)[j - hh]);
            if has_at(body, j, word_hit()) {
                assert(body.subrange(j, j + 5)[0] == body[j]);
            }
        } else if has_at(body, j, word_hit()) {
            assert(z.subrange(j - hh - 4, j - hh + 1) =~= body.subrange(j, j + 5));
            assert(has_at(z, j - hh - 4, word_hit()));
        }
    }
    assert(has_at(body, hh, word_hit()));
    lemma_spell_end_exact(body, 4, end, hh, word_hit(), false);
}

pub open spec fn word_critical_end() -> Seq<char> {
    crate::grammar::word_critical() + seq!['.']
}

proof fn lemma_row_ends_critical(row: Seq<char>)
    requires
        row.len() > 0,
        row.last() == '.',
    ensures
        crate::text::ends_with(row, word_critical_end()) == crate::text::ends_with(
            row.drop_last(),
            crate::grammar::word_critical(),
        ),
{
    let body = row.drop_last();
    let crit = crate::grammar::word_critical();
    assert(crit.len() == 11);
    assert(word_critical_end().len() == 12);
    assert(word_critical_end() =~= crit + seq!['.']);
    if row.len() >= 12 {
        assert(row.subrange(row.len() - 12, row.len() as int) =~= body.subrange(
            body.len() - 11,
            body.len() as int,
        ) + seq!['.']);
        if crate::text::ends_with(row, word_critical_end()) {
            assert(body.subrange(body.len() - 11, body.len() as int) =~= row.subrange(
                row.len() - 12,
                row.len() as int,
            ).subrange(0, 11));
            assert(word_critical_end().subrange(0, 11) =~= crit);
        }
        if crate::text::ends_with(body, crit) {
            assert(row.subrange(row.len() - 12, row.len() as int) =~= word_critical_end());
        }
    }
}

/// What follows an amount whose last digit is at `p - 1`: it ends with the
/// critical group exactly when the whole body does.
proof fn lemma_tail_critical(body: Seq<char>, p: int, heal: bool)
    requires
        1 <= p <= body.len(),
        is_digit(body[p - 1]),
        crate::grammar::tail_fits(body.subrange(p, body.len() as int), heal),
    ensures
        crate::grammar::is_critical(
            crate::grammar::after_absorbed(body.subrange(p, body.len() as int)),
        ) == crate::text::ends_with(body, crate::grammar::word_critical()),
{
    let crit = crate::grammar::word_critical();
    let t = body.subrange(p, body.len() as int);
    let n = crate::grammar::absorbed_len(t);
    let after = crate::grammar::after_absorbed(t);
    crate::text::lemma_digit_run_facts(t, 2);
    assert(0 <= n <= t.len());
    assert(after.len() == t.len() - n);
    if after.len() >= 11 {
        assert(after.subrange(after.len() - 11, after.len() as int) =~= body.subrange(
            body.len() - 11,
            body.len() as int,
        ));
    } else {
        assert(!crate::grammar::is_critical(after));
        assert(crate::grammar::middle(after) == after);
        if crate::text::ends_with(body, crit) {
            let tail = body.subrange(body.len() - 11, body.len() as int);
            assert(tail == crit);
            if after.len() > 0 {
                assert(!heal) by {
                    if heal {
                        assert(after.len() == crate::heal::word_hit_points().len());
                    }
                }
                assert(after[0] == body[body.len() - after.len()]);
                assert(body[body.len() - after.len()] == tail[11 - after.len()]);
            } else if n > 0 {
                let w = crate::grammar::word_absorbed();
                assert(t.subrange(2 + digit_run(t, 2), 2 + digit_run(t, 2) + 10) == w);
                assert(t[t.len() - 2] == t.subrange(2 + digit_run(t, 2), 2 + digit_run(t, 2) + 10)[8]);
                assert(body[body.len() - 2] == t[t.len() - 2]);
                assert(body[body.len() - 2] == tail[9]);
            } else {
                assert(body[body.len() - 1] == tail[10]);
            }
        }
    }
}

/// A damage line is critical exactly when it ends with `" (Critical)."`,
/// whichever of the absorbed and kind groups it holds.
pub proof fn lemma_critical_suffix(row: Seq<char>)
    requires
        damage_line(row) is Some,
    ensures
        damage_line(row)->0.critical == crate::text::ends_with(row, word_critical_end()),
{
    let body = row.drop_last();
    let e = crate::grammar::emitter_end(body)->0;
    crate::text::lemma_find_from_facts(body, seq![' '], 0);
    crate::grammar::lemma_spell_end_facts(body, e, body.len() as int, word_hit(), false);
    let h = crate::grammar::spell_end(body, e, body.len() as int, word_hit(), false)->0;
    crate::grammar::lemma_receiver_end_facts(body, h + 5, h + 5, false);
    let f = crate::grammar::receiver_end(body, h + 5, h + 5, false)->0;
    let a = f + 5;
    let d = digit_run(body, a);
    crate::text::lemma_digit_run_facts(body, a);
    assert(is_digit(body[a + d - 1]));
    lemma_row_ends_critical(row);
    lemma_tail_critical(body, a + d, false);
}

/// A healing line is critical exactly when it ends with `" (Critical)."`,
/// whichever of the absorbed and hit-points groups it holds.
pub proof fn lemma_heal_critical_suffix(row: Seq<char>)
    requires
        crate::heal::heal_line(row) is Some,
    ensures
        crate::heal::heal_line(row)->0.critical == crate::text::ends_with(row, word_critical_end()),
{
    let body = row.drop_last();
    let e = crate::grammar::emitter_end(body)->0;
    crate::text::lemma_find_from_facts(body, seq![' '], 0);
    let w = crate::heal::word_healed();
    crate::grammar::lemma_spell_end_facts(body, e + 2, body.len() as int, w, true);
    let h = crate::grammar::spell_end(body, e + 2, body.len() as int, w, true)->0;
    crate::grammar::lemma_receiver_end_facts(body, h + 8, h + 8, true);
    let f = crate::grammar::receiver_end(body, h + 8, h + 8, true)->0;
    let a = f + 5;
    let d = digit_run(body, a);
    crate::text::lemma_digit_run_facts(body, a);
    assert(is_digit(body[a + d - 1]));
    lemma_row_ends_critical(row);
    lemma_tail_critical(body, a + d, true);
}

proof fn lemma_digit_run_extended(body: Seq<char>, i: int)
    requires
        0 <= i <= body.len(),
    ensures
        digit_run(body + crate::grammar::word_critical(), i) == digit_run(body, i),
    decreases body.len() - i,
{
    let b2 = body + crate::grammar::word_critical();
    if i < body.len() {
        assert(b2[i] == body[i]);
        lemma_digit_run_extended(body, i + 1);
    } else {
        assert(b2[i] == ' ');
    }
}

proof fn lemma_find_from_extended(body: Seq<char>, w: Seq<char>, from: int, p: int)
    requires
        0 <= from,
        find_from(body, w, from) == Some(p),
    ensures
        find_from(body + crate::grammar::word_critical(), w, from) == Some(p),
    decreases p - from,
{
    let b2 = body + crate::grammar::word_critical();
    crate::text::lemma_find_from_facts(body, w, from);
    assert(b2.subrange(from, from + w.len()) =~= body.subrange(from, from + w.len()));
    if from < p {
        lemma_find_from_extended(body, w, from + 1, p);
    }
}

/// The absorbed group reads the same once the critical group is added.
proof fn lemma_absorbed_extended(t: Seq<char>)
    ensures
        crate::grammar::absorbed_len(t + crate::grammar::word_critical())
            == crate::grammar::absorbed_len(t),
        crate::grammar::absorbed_value(t + crate::grammar::word_critical())
            == crate::grammar::absorbed_value(t),
{
    let c = crate::grammar::word_critical();
    let t2 = t + c;
    let o = crate::grammar::word_open();
    let ab = crate::grammar::word_absorbed();
    if t.len() >= 2 {
        lemma_digit_run_extended(t, 2);
        crate::text::lemma_digit_run_facts(t, 2);
        assert(t2.subrange(0, 2) =~= t.subrange(0, 2));
        let d = digit_run(t, 2);
        if d > 0 {
            assert(t2.subrange(2, 2 + d) =~= t.subrange(2, 2 + d));
            if 2 + d + 10 <= t.len() {
                assert(t2.subrange(2 + d, 2 + d + 10) =~= t.subrange(2 + d, 2 + d + 10));
            } else if has_at(t2, 2 + d, ab) {
                // The group would run into the added one, whose first character is a space.
                let k = t.len() - (2 + d);
                assert(0 <= k < 10);
                assert(t2[t.len() as int] == ' ');
                assert(t2.subrange(2 + d, 2 + d + 10)[k] == t2[t.len() as int]);
                assert(ab[k] == ' ');
            }
        }
    } else if t.len() == 1 {
        assert(t2[1] == ' ');
        assert(!has_at(t2, 0, o)) by {
            if has_at(t2, 0, o) {
                assert(t2.subrange(0, 2)[1] == t2[1]);
            }
        }
    } else {
        assert(t2 =~= c);
        assert(digit_run(t2, 2) == 0) by {
            assert(t2[2] == 'C');
        }
    }
}

/// Once the critical group is added, a tail that did not end with it fits
/// exactly when it did before, and now reads as critical, with the same
/// middle part.
proof fn lemma_tail_extended(t: Seq<char>, heal: bool)
    requires
        !crate::text::ends_with(t, crate::grammar::word_critical()),
    ensures
        crate::grammar::after_absorbed(t + crate::grammar::word_critical())
            == crate::grammar::after_absorbed(t) + crate::grammar::word_critical(),
        crate::grammar::is_critical(
            crate::grammar::after_absorbed(t + crate::grammar::word_critical()),
        ),
        crate::grammar::middle(crate::grammar::after_absorbed(t + crate::grammar::word_critical()))
            == crate::grammar::middle(crate::grammar::after_absorbed(t)),
        crate::grammar::tail_fits(t + crate::grammar::word_critical(), heal)
            == crate::grammar::tail_fits(t, heal),
{
    let c = crate::grammar::word_critical();
    lemma_absorbed_extended(t);
    let n = crate::grammar::absorbed_len(t);
    crate::text::lemma_digit_run_facts(t, 2);
    assert(0 <= n <= t.len());
    let after = crate::grammar::after_absorbed(t);
    let a2 = crate::grammar::after_absorbed(t + c);
    assert(a2 =~= after + c);
    assert(a2.subrange(a2.len() - 11, a2.len() as int) =~= c);
    assert(a2.subrange(0, a2.len() - 11) =~= after);
    assert(!crate::grammar::is_critical(after)) by {
        if crate::grammar::is_critical(after) {
            assert(after.subrange(after.len() - 11, after.len() as int) =~= t.subrange(
                t.len() - 11,
                t.len() as int,
            ));
        }
    }
}

proof fn lemma_for_fits_extended(body: Seq<char>, f: int, heal: bool)
    requires
        !crate::text::ends_with(body, crate::grammar::word_critical()),
        0 <= f,
    ensures
        f + 5 <= body.len() ==> crate::grammar::for_fits(body + crate::grammar::word_critical(), f, heal)
            == crate::grammar::for_fits(body, f, heal),
        f + 5 > body.len() ==> !crate::grammar::for_fits(
            body + crate::grammar::word_critical(),
            f,
            heal,
        ),
{
    let c = crate::grammar::word_critical();
    let b2 = body + c;
    if f + 5 <= body.len() {
        assert(b2.subrange(f, f + 5) =~= body.subrange(f, f + 5));
        lemma_digit_run_extended(body, f + 5);
        crate::text::lemma_digit_run_facts(body, f + 5);
        let d = digit_run(body, f + 5);
        let t = body.subrange(f + 5 + d, body.len() as int);
        assert(b2.subrange(f + 5 + d, b2.len() as int) =~= t + c);
        assert(!crate::text::ends_with(t, c)) by {
            if crate::text::ends_with(t, c) {
                assert(t.subrange(t.len() - 11, t.len() as int) =~= body.subrange(
                    body.len() - 11,
                    body.len() as int,
                ));
            }
        }
        lemma_tail_extended(t, heal);
    } else if has_at(b2, f, word_for()) {
        // A " for " reaching into the added group must end at its first
        // space, and a '(' follows, not a digit.
        if f < body.len() {
            let k = body.len() - f;
            assert(b2[body.len() as int] == ' ');
            assert(b2.subrange(f, f + 5)[k] == b2[body.len() as int]);
            assert(k == 4);
            assert(b2[f + 5] == '(');
        } else {
            assert(b2.subrange(f, f + 5)[1] == b2[f + 1]);
            assert(b2[f + 1] == c[f + 1 - body.len()]);
        }
    }
}

proof fn lemma_receiver_end_extended(body: Seq<char>, from: int, f: int, heal: bool)
    requires
        !crate::text::ends_with(body, crate::grammar::word_critical()),
        0 <= f,
    ensures
        crate::grammar::receiver_end(body + crate::grammar::word_critical(), from, f, heal)
            == crate::grammar::receiver_end(body, from, f, heal),
    decreases body.len() + 12 - f,
{
    let b2 = body + crate::grammar::word_critical();
    lemma_for_fits_extended(body, f, heal);
    if f + 5 <= b2.len() {
        lemma_receiver_end_extended(body, from, f + 1, heal);
        if f + 5 > body.len() {
            assert(crate::grammar::receiver_end(body, from, f + 1, heal) is None);
        }
    }
}

proof fn lemma_spell_end_extended(body: Seq<char>, lo: int, k: int, word: Seq<char>, heal: bool)
    requires
        !crate::text::ends_with(body, crate::grammar::word_critical()),
        0 <= lo,
        word.len() > 0,
    ensures
        crate::grammar::spell_end(body + crate::grammar::word_critical(), lo, k, word, heal)
            == crate::grammar::spell_end(body, lo, k, word, heal),
    decreases k - lo + 1,
{
    let b2 = body + crate::grammar::word_critical();
    if k >= lo {
        lemma_receiver_end_extended(body, k + word.len(), k + word.len(), heal);
        if k + word.len() <= body.len() {
            assert(b2.subrange(k, k + word.len()) =~= body.subrange(k, k + word.len()));
        } else {
            assert(crate::grammar::receiver_end(body, k + word.len(), k + word.len(), heal) is None);
        }
        lemma_spell_end_extended(body, lo, k - 1, word, heal);
    }
}

proof fn lemma_spell_end_past_end(body: Seq<char>, lo: int, k: int, word: Seq<char>, heal: bool)
    requires
        body.len() <= k,
        word.len() > 0,
    ensures
        crate::grammar::spell_end(body, lo, k, word, heal) == crate::grammar::spell_end(
            body,
            lo,
            body.len() as int,
            word,
            heal,
        ),
    decreases k - body.len(),
{
    if k > body.len() && k >= lo {
        lemma_spell_end_past_end(body, lo, k - 1, word, heal);
    }
}

/// The emitter, spell and receiver are found at the same places once the
/// critical group is added.
proof fn lemma_places_extended(body: Seq<char>, lo_off: int, word: Seq<char>, heal: bool)
    requires
        !crate::text::ends_with(body, crate::grammar::word_critical()),
        crate::grammar::emitter_end(body) is Some,
        word.len() > 0,
        0 <= lo_off,
    ensures
        ({
            let b2 = body + crate::grammar::word_critical();
            let e = crate::grammar::emitter_end(body)->0;
            &&& crate::grammar::emitter_end(b2) == Some(e)
            &&& crate::grammar::spell_end(b2, e + lo_off, b2.len() as int, word, heal)
                == crate::grammar::spell_end(body, e + lo_off, body.len() as int, word, heal)
            &&& forall|from: int| 0 <= from ==> #[trigger] crate::grammar::receiver_end(b2, from, from, heal)
                == crate::grammar::receiver_end(body, from, from, heal)
        }),
{
    let c = crate::grammar::word_critical();
    let b2 = body + c;
    let e = crate::grammar::emitter_end(body)->0;
    lemma_find_from_extended(body, seq![' '], 0, e);
    crate::text::lemma_find_from_facts(body, seq![' '], 0);
    lemma_spell_end_past_end(body, e + lo_off, b2.len() as int, word, heal);
    lemma_spell_end_extended(body, e + lo_off, b2.len() as int, word, heal);
    assert forall|from: int| 0 <= from implies #[trigger] crate::grammar::receiver_end(b2, from, from, heal)
        == crate::grammar::receiver_end(body, from, from, heal) by {
        lemma_receiver_end_extended(body, from, from, heal);
    }
}

/// The tail after the amount, once the critical group is added: the same
/// absorbed group and middle part, and now critical.
proof fn lemma_amount_tail_extended(body: Seq<char>, a: int, heal: bool)
    requires
        !crate::text::ends_with(body, crate::grammar::word_critical()),
        0 <= a <= body.len(),
    ensures
        ({
            let b2 = body + crate::grammar::word_critical();
            let d = digit_run(body, a);
            let t = body.subrange(a + d, body.len() as int);
            let t2 = b2.subrange(a + d, b2.len() as int);
            &&& digit_run(b2, a) == d
            &&& a + d <= body.len()
            &&& b2.subrange(a, a + d) == body.subrange(a, a + d)
            &&& crate::grammar::absorbed_value(t2) == crate::grammar::absorbed_value(t)
            &&& crate::grammar::middle(crate::grammar::after_absorbed(t2))
                == crate::grammar::middle(crate::grammar::after_absorbed(t))
            &&& crate::grammar::is_critical(crate::grammar::after_absorbed(t2))
        }),
{
    let c = crate::grammar::word_critical();
    let b2 = body + c;
    crate::text::lemma_digit_run_facts(body, a);
    lemma_digit_run_extended(body, a);
    let d = digit_run(body, a);
    let t = body.subrange(a + d, body.len() as int);
    assert(b2.subrange(a + d, b2.len() as int) =~= t + c);
    assert(b2.subrange(a, a + d) =~= body.subrange(a, a + d));
    assert(!crate::text::ends_with(t, c)) by {
        if crate::text::ends_with(t, c) {
            assert(t.subrange(t.len() - 11, t.len() as int) =~= body.subrange(
                body.len() - 11,
                body.len() as int,
            ));
        }
    }
    lemma_tail_extended(t, heal);
    lemma_absorbed_extended(t);
}

/// Adding `" (Critical)"` before the period of a damage line that lacks it
/// sets the critical flag and leaves every other field as it was, whichever
/// optional groups the line holds.
pub proof fn lemma_critical_added(body: Seq<char>)
    requires
        damage_line(body + seq!['.']) is Some,
        !crate::text::ends_with(body, crate::grammar::word_critical()),
    ensures
        damage_line(body + crate::grammar::word_critical() + seq!['.']) == Some(
            DamageLine { critical: true, ..damage_line(body + seq!['.'])->0 },
        ),
{
    let c = crate::grammar::word_critical();
    let b2 = body + c;
    assert((body + seq!['.']).drop_last() =~= body);
    assert((b2 + seq!['.']).drop_last() =~= b2);
    let e = crate::grammar::emitter_end(body)->0;
    crate::text::lemma_find_from_facts(body, seq![' '], 0);
    lemma_places_extended(body, 0, word_hit(), false);
    crate::grammar::lemma_spell_end_facts(body, e, body.len() as int, word_hit(), false);
    let h = crate::grammar::spell_end(body, e, body.len() as int, word_hit(), false)->0;
    crate::grammar::lemma_receiver_end_facts(body, h + 5, h + 5, false);
    let f = crate::grammar::receiver_end(body, h + 5, h + 5, false)->0;
    assert(crate::grammar::receiver_end(b2, h + 5, h + 5, false) == Some(f));
    assert(has_at(body, f, word_for()));
    lemma_amount_tail_extended(body, f + 5, false);
    assert(b2.subrange(0, e) =~= body.subrange(0, e));
    if h > e {
        assert(b2.subrange(e + 1, h) =~= body.subrange(e + 1, h));
    }
    assert(b2.subrange(h + 5, f) =~= body.subrange(h + 5, f));
}

/// Adding `" (Critical)"` before the period of a healing line that lacks it
/// sets the critical flag and leaves every other field as it was, whichever
/// optional groups the line holds.
pub proof fn lemma_heal_critical_added(body: Seq<char>)
    requires
        crate::heal::heal_line(body + seq!['.']) is Some,
        !crate::text::ends_with(body, crate::grammar::word_critical()),
    ensures
        crate::heal::heal_line(body + crate::grammar::word_critical() + seq!['.']) == Some(
            HealLine { critical: true, ..crate::heal::heal_line(body + seq!['.'])->0 },
        ),
{
    let c = crate::grammar::word_critical();
    let w = crate::heal::word_healed();
    let b2 = body + c;
    assert((body + seq!['.']).drop_last() =~= body);
    assert((b2 + seq!['.']).drop_last() =~= b2);
    let e = crate::grammar::emitter_end(body)->0;
    crate::text::lemma_find_from_facts(body, seq![' '], 0);
    lemma_places_extended(body, 2, w, true);
    crate::grammar::lemma_spell_end_facts(body, e + 2, body.len() as int, w, true);
    let h = crate::grammar::spell_end(body, e + 2, body.len() as int, w, true)->0;
    crate::grammar::lemma_receiver_end_facts(body, h + 8, h + 8, true);
    let f = crate::grammar::receiver_end(body, h + 8, h + 8, true)->0;
    assert(crate::grammar::receiver_end(b2, h + 8, h + 8, true) == Some(f));
    assert(has_at(body, f, word_for()));
    lemma_amount_tail_extended(body, f + 5, true);
    assert(b2.subrange(0, e) =~= body.subrange(0, e));
    assert(b2.subrange(e + 1, h) =~= body.subrange(e + 1, h));
    assert(b2.subrange(h + 8, f) =~= body.subrange(h + 8, f));
}

/// The opponent list is fixed by the two tables it is drawn from: given the
/// same tables, two lists that meet its contract are the same list. With
/// the order-free totals above, two calls on the same events in any order
/// return the same name list.
pub proof fn lemma_opponents_determined(
    n1: Seq<Seq<char>>,
    n2: Seq<Seq<char>>,
    a: Map<Seq<char>, int>,
    b: Map<Seq<char>, int>,
)
    requires
        opponents_of(n1, a, b),
        opponents_of(n2, a, b),
    ensures
        n1 == n2,
{
    crate::names::lemma_strictly_sorted_unique(n1, n2);
}

} // verus!
