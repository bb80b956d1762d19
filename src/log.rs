//! Reading a whole log: its events, their totals, and its fights.
use vstd::prelude::*;
use crate::classify::{classify, line_kind, LineKind};
use crate::dps::{
    damage_events, damage_fits, damage_line, dps_stats_spec, read_damage, stats_dps, DamageLine,
    Dps, DpsStats,
};
use crate::grammar::LineRead;
use crate::extract::{extract, extract_event, lines_of, split_lines};
use crate::heal::{
    heal_events, heal_fits, heal_line, heal_stats_spec, read_heal, stats_heal, Heal, HealLine,
    HealStats,
};
use crate::names::{char_views, lower_of, merged_names, string_views};
use crate::split::{
    drop_short_fights, fight_windows, long_enough, sorted_moments, split_in_fight, timer_pairs,
    FightTimer,
};
use crate::stamp::{parse_stamp, stamp_from_text, Stamp};
use crate::text::{chars_of, string_of, strictly_sorted};

verus! {

/// Whether a payload is accepted: it follows one of the grammars, and a
/// damage or healing line has numbers that fit.
pub open spec fn row_ok(row: Seq<char>) -> bool {
    match line_kind(row) {
        LineKind::Unrecognized => false,
        LineKind::Damage => damage_fits(damage_line(row)->0),
        LineKind::Heal => heal_fits(heal_line(row)->0),
        _ => true,
    }
}

/// The damage event a payload gives, if any.
pub open spec fn row_damage(row: Seq<char>, at: Stamp) -> Option<(Stamp, DamageLine)> {
    if line_kind(row) == LineKind::Damage && damage_fits(damage_line(row)->0) {
        Some((at, damage_line(row)->0))
    } else {
        None
    }
}

/// The healing event a payload gives, if any.
pub open spec fn row_heal(row: Seq<char>, at: Stamp) -> Option<(Stamp, HealLine)> {
    if line_kind(row) == LineKind::Heal && heal_fits(heal_line(row)->0) {
        Some((at, heal_line(row)->0))
    } else {
        None
    }
}

pub open spec fn opt_seq<T>(o: Option<T>) -> Seq<T> {
    match o {
        Some(x) => seq![x],
        None => Seq::empty(),
    }
}

/// The events read so far.
struct Data {
    pub dps: Vec<Dps>,
    pub heal: Vec<Heal>,
}

impl Data {
    /// Reads one payload; records a damage or healing event, and says whether
    /// the payload was accepted.
    fn parse_row(&mut self, row: &str, dt: Stamp) -> (ok: bool)
        ensures
            ok == row_ok(row@),
            damage_events(final(self).dps@) == damage_events(old(self).dps@) + opt_seq(
                row_damage(row@, dt),
            ),
            heal_events(final(self).heal@) == heal_events(old(self).heal@) + opt_seq(
                row_heal(row@, dt),
            ),
    {
        let ghost d0 = damage_events(self.dps@);
        let ghost h0 = heal_events(self.heal@);
        let kind = classify(row);
        let ok = match kind {
            LineKind::Damage => match read_damage(row, dt) {
                LineRead::Parsed(d) => {
                    self.dps.push(d);
                    true
                },
                _ => false,
            },
            LineKind::Heal => match read_heal(row, dt) {
                LineRead::Parsed(h) => {
                    self.heal.push(h);
                    true
                },
                _ => false,
            },
            LineKind::Unrecognized => false,
            _ => true,
        };
        assert(damage_events(self.dps@) =~= d0 + opt_seq(row_damage(row@, dt)));
        assert(heal_events(self.heal@) =~= h0 + opt_seq(row_heal(row@, dt)));
        ok
    }
}

/// The event of one log line: its timestamp read as a date-time, and its payload.
pub open spec fn line_event(line: Seq<char>) -> Option<(Stamp, Seq<char>)> {
    match extract_event(line) {
        Some((ts, p)) => match stamp_from_text(ts) {
            Some(st) => Some((st, p)),
            None => None,
        },
        None => None,
    }
}

pub open spec fn events_of_lines(ls: Seq<Seq<char>>) -> Seq<(Stamp, Seq<char>)> {
    ls.filter_map(|l: Seq<char>| line_event(l))
}

pub open spec fn damage_of(evs: Seq<(Stamp, Seq<char>)>) -> Seq<(Stamp, DamageLine)> {
    evs.filter_map(|e: (Stamp, Seq<char>)| row_damage(e.1, e.0))
}

pub open spec fn heal_of(evs: Seq<(Stamp, Seq<char>)>) -> Seq<(Stamp, HealLine)> {
    evs.filter_map(|e: (Stamp, Seq<char>)| row_heal(e.1, e.0))
}

pub open spec fn errors_of(evs: Seq<(Stamp, Seq<char>)>) -> Seq<Seq<char>> {
    evs.filter_map(
        |e: (Stamp, Seq<char>)|
            if row_ok(e.1) {
                None
            } else {
                Some(e.1)
            },
    )
}

pub open spec fn dates_of(evs: Seq<(Stamp, Seq<char>)>) -> Seq<Stamp> {
    evs.filter_map(
        |e: (Stamp, Seq<char>)|
            if row_ok(e.1) {
                Some(e.0)
            } else {
                None
            },
    )
}

/// The events of a log, in order: lines that carry an `Event=[...]` wrapper
/// and a readable timestamp.
pub open spec fn log_events(text: Seq<char>) -> Seq<(Stamp, Seq<char>)> {
    events_of_lines(lines_of(text))
}

/// A fight whose seconds can be indexed.
pub open spec fn indexable(w: (i64, i64)) -> bool {
    w.0 <= w.1 && w.1 - w.0 < usize::MAX
}

/// The fights of a log: its accepted events split at gaps of more than
/// `gap` seconds, those shorter than `minimum` seconds dropped, and those
/// whose seconds cannot be indexed left out.
pub open spec fn log_fights(text: Seq<char>, gap: i64, minimum: i64) -> Seq<(i64, i64)> {
    fight_windows(sorted_moments(dates_of(log_events(text))), gap).filter(
        |w: (i64, i64)| long_enough(w, minimum),
    ).filter(|w: (i64, i64)| indexable(w))
}

/// Everything read from a log.
#[derive(Clone, Debug)]
pub struct ExportedData {
    pub dps_stats: DpsStats,
    pub heal_stats: HealStats,
    pub errors: Vec<String>,
    pub fights: Vec<Fight>,
}

/// One fight: when it was, its totals, and who took part besides the player.
#[derive(Clone, Debug)]
pub struct Fight {
    pub opponent: Vec<String>,
    pub time: FightTimer,
    pub dps_stats: DpsStats,
    pub heal_stats: HealStats,
}

pub open spec fn fight_times(v: Seq<Fight>) -> Seq<(i64, i64)> {
    v.map_values(|f: Fight| (f.time.start, f.time.end))
}

/// A fight holds the totals of its window, and the sorted, lower-cased names
/// of everyone in its damage and healing tables.
pub open spec fn fight_ok(
    f: Fight,
    damage: Seq<(Stamp, DamageLine)>,
    heal: Seq<(Stamp, HealLine)>,
) -> bool {
    let s = Some(f.time.start);
    let e = Some(f.time.end);
    &&& f.dps_stats.wf()
    &&& f.dps_stats@ == dps_stats_spec(damage, s, e)
    &&& f.heal_stats.wf()
    &&& f.heal_stats@ == heal_stats_spec(heal, s, e)
    &&& strictly_sorted(string_views(f.opponent@))
    &&& forall|y: Seq<char>|
        string_views(f.opponent@).contains(y) <==> exists|k: Seq<char>|
            (f.dps_stats@.received_by_enemy.contains_key(k)
                || f.dps_stats@.emit_by_enemy.contains_key(k)
                || f.heal_stats@.received_by_ally.contains_key(k)
                || f.heal_stats@.emit_by_ally.contains_key(k)) && y == lower_of(k)
}

pub proof fn lemma_filter_map_push<A, B>(s: Seq<A>, x: A, f: spec_fn(A) -> Option<B>)
    ensures
        s.push(x).filter_map(f) == s.filter_map(f) + opt_seq(f(x)),
{
    assert(s.push(x).drop_last() =~= s);
    assert(s.push(x).last() == x);
    match f(x) {
        Some(v) => {},
        None => {
            assert(s.filter_map(f) + opt_seq(f(x)) =~= s.filter_map(f));
        },
    }
}

/// Reads a whole log: every event line is classified and parsed; the damage
/// and healing events are totalled over the whole log; the accepted events
/// are split into fights at gaps of more than `time_between` seconds, those
/// shorter than `minimum_time` seconds are dropped, and each fight that is
/// left gets its own totals and list of opponents. Payloads that follow no
/// grammar, or whose numbers exceed `u32`, are listed as errors.
pub fn parse_rust(contents: &str, time_between: i64, minimum_time: i64) -> (r: ExportedData)
    ensures
        r.dps_stats.wf(),
        r.dps_stats@ == dps_stats_spec(damage_of(log_events(contents@)), None, None),
        r.heal_stats.wf(),
        r.heal_stats@ == heal_stats_spec(heal_of(log_events(contents@)), None, None),
        string_views(r.errors@) == errors_of(log_events(contents@)),
        fight_times(r.fights@) == log_fights(contents@, time_between, minimum_time),
        forall|i: int|
            0 <= i < r.fights.len() ==> fight_ok(
                #[trigger] r.fights@[i],
                damage_of(log_events(contents@)),
                heal_of(log_events(contents@)),
            ),
{
    let chars = chars_of(contents);
    let lines = split_lines(&chars);
    let ghost ls = char_views(lines@);
    let mut data = Data { dps: Vec::new(), heal: Vec::new() };
    let mut dates: Vec<Stamp> = Vec::new();
    let mut errors: Vec<String> = Vec::new();
    let mut i: usize = 0;
    proof {
        assert(ls.subrange(0, 0) =~= Seq::<Seq<char>>::empty());
        assert(damage_events(data.dps@) =~= Seq::<(Stamp, DamageLine)>::empty());
        assert(heal_events(data.heal@) =~= Seq::<(Stamp, HealLine)>::empty());
        assert(string_views(errors@) =~= Seq::<Seq<char>>::empty());
    }
    while i < lines.len()
        invariant
            ls == char_views(lines@),
            ls == lines_of(contents@),
            i <= lines.len(),
            damage_events(data.dps@) == damage_of(events_of_lines(ls.subrange(0, i as int))),
            heal_events(data.heal@) == heal_of(events_of_lines(ls.subrange(0, i as int))),
            string_views(errors@) == errors_of(events_of_lines(ls.subrange(0, i as int))),
            dates@ == dates_of(events_of_lines(ls.subrange(0, i as int))),
        decreases lines.len() - i,
    {
        let ghost pre = events_of_lines(ls.subrange(0, i as int));
        let ghost line = ls[i as int];
        proof {
            assert(ls.subrange(0, i + 1) =~= ls.subrange(0, i as int).push(line));
            lemma_filter_map_push(ls.subrange(0, i as int), line, |l: Seq<char>| line_event(l));
        }
        let ghost ev = line_event(line);
        match extract(&lines[i]) {
            Some((ts, payload)) => {
                let ts_text = string_of(ts.as_slice());
                match parse_stamp(ts_text.as_str()) {
                    Some(st) => {
                        let p = string_of(payload.as_slice());
                        assert(ev == Some((st, p@)));
                        let ghost e = (st, p@);
                        let ghost old_errors = string_views(errors@);
                        proof {
                            lemma_filter_map_push(pre, e, |e: (Stamp, Seq<char>)| row_damage(e.1, e.0));
                            lemma_filter_map_push(pre, e, |e: (Stamp, Seq<char>)| row_heal(e.1, e.0));
                            lemma_filter_map_push(
                                pre,
                                e,
                                |e: (Stamp, Seq<char>)|
                                    if row_ok(e.1) {
                                        None
                                    } else {
                                        Some(e.1)
                                    },
                            );
                            lemma_filter_map_push(
                                pre,
                                e,
                                |e: (Stamp, Seq<char>)|
                                    if row_ok(e.1) {
                                        Some(e.0)
                                    } else {
                                        None
                                    },
                            );
                        }
                        if data.parse_row(p.as_str(), st) {
                            dates.push(st);
                            assert(string_views(errors@) =~= old_errors + opt_seq(
                                if row_ok(p@) {
                                    None
                                } else {
                                    Some(p@)
                                },
                            ));
                        } else {
                            errors.push(p);
                            assert(string_views(errors@) =~= old_errors + opt_seq(
                                if row_ok(e.1) {
                                    None
                                } else {
                                    Some(e.1)
                                },
                            ));
                        }
                        assert(damage_of(pre.push(e)) == damage_of(pre) + opt_seq(row_damage(e.1, e.0)));
                        assert(heal_of(pre.push(e)) == heal_of(pre) + opt_seq(row_heal(e.1, e.0)));
                        assert(events_of_lines(ls.subrange(0, i + 1)) == pre.push(e));
                        assert(damage_events(data.dps@) == damage_of(pre.push(e)));
                        assert(dates@ =~= dates_of(pre) + opt_seq(
                            if row_ok(e.1) {
                                Some(e.0)
                            } else {
                                None
                            },
                        ));
                    },
                    None => {},
                }
            },
            None => {},
        }
        i = i + 1;
    }
    proof {
        assert(ls.subrange(0, i as int) =~= ls);
    }
    let ghost evs = log_events(contents@);
    let (dps_stats, _) = stats_dps(&data.dps, None, None);
    let (heal_stats, _) = stats_heal(&data.heal, None, None);
    let windows = drop_short_fights(split_in_fight(dates, time_between), minimum_time);
    let ghost ws = timer_pairs(windows@);
    let ghost keep = |w: (i64, i64)| indexable(w);
    let mut fights: Vec<Fight> = Vec::new();
    let mut j: usize = 0;
    proof {
        reveal(Seq::filter);
        assert(ws.subrange(0, 0).filter(keep) =~= Seq::<(i64, i64)>::empty());
        assert(fight_times(fights@) =~= Seq::<(i64, i64)>::empty());
    }
    while j < windows.len()
        invariant
            ws == timer_pairs(windows@),
            ws == fight_windows(sorted_moments(dates_of(evs)), time_between).filter(
                |w: (i64, i64)| long_enough(w, minimum_time),
            ),
            evs == log_events(contents@),
            damage_events(data.dps@) == damage_of(evs),
            heal_events(data.heal@) == heal_of(evs),
            keep == (|w: (i64, i64)| indexable(w)),
            j <= windows.len(),
            fight_times(fights@) == ws.subrange(0, j as int).filter(keep),
            forall|q: int|
                0 <= q < fights.len() ==> fight_ok(
                    #[trigger] fights@[q],
                    damage_of(evs),
                    heal_of(evs),
                ),
        decreases windows.len() - j,
    {
        let w = windows[j];
        proof {
            reveal(Seq::filter);
            assert(ws.subrange(0, j + 1).drop_last() =~= ws.subrange(0, j as int));
            assert(ws[j as int] == (w.start, w.end));
        }
        let length = w.end as i128 - w.start as i128;
        if w.start <= w.end && length < usize::MAX as i128 {
            let (ds, dop) = stats_dps(&data.dps, Some(w.start), Some(w.end));
            let (hs, hop) = stats_heal(&data.heal, Some(w.start), Some(w.end));
            let opponent = merged_names(&dop, &hop);
            let f = Fight { opponent, time: w, dps_stats: ds, heal_stats: hs };
            let ghost before = fights@;
            fights.push(f);
            proof {
                assert(fight_times(fights@) =~= fight_times(before).push((w.start, w.end)));
                assert forall|q: int| 0 <= q < fights.len() implies fight_ok(
                    #[trigger] fights@[q],
                    damage_of(evs),
                    heal_of(evs),
                ) by {
                    if q < before.len() {
                        assert(fights@[q] == before[q]);
                    }
                }
            }
        } else {
            assert(!keep(ws[j as int]));
        }
        j = j + 1;
    }
    proof {
        assert(ws.subrange(0, j as int) =~= ws);
    }
    ExportedData { dps_stats, heal_stats, errors, fights }
}

} // verus!
