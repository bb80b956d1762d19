//! Healing lines: their grammar, the events read from them, and their totals.
use vstd::prelude::*;
use crate::dps::opponents_of;
use crate::grammar::{
    after_absorbed, emitter_end, find_receiver, find_spell, is_critical, lemma_receiver_end_facts,
    lemma_spell_end_facts, line_body, middle, read_tail, read_u32, receiver_end, spell_end,
    word_space, absorbed_value, LineRead,
};
use crate::grammar::{self_emitter, self_emitter_chars, self_receiver, self_receiver_chars};
use crate::names::{lowered_names, string_views};
use crate::stamp::Stamp;
use crate::tally::{
    in_window, keyed_series, keyed_totals, lemma_empty_totals, lemma_keyed_series_push,
    lemma_keyed_totals_push, lemma_series_bounded, lemma_totals_bounded, lemma_zero_series,
    series_view, window_len, window_ok, window_size, window_start, zeros, Tally,
};
use crate::text::{
    chars_of, copy_range, decimal_value, digit_run, find_word, lemma_digit_run_facts,
    lemma_find_from_facts, same_chars, string_of,
};

verus! {

/// What a healing line says, read as mathematical values.
pub struct HealLine {
    pub emitter: Seq<char>,
    pub spell: Seq<char>,
    pub receiver: Seq<char>,
    pub heal: int,
    pub absorbed: int,
    pub critical: bool,
}

pub open spec fn word_healed() -> Seq<char> {
    seq![' ', 'h', 'e', 'a', 'l', 'e', 'd', ' ']
}

pub open spec fn word_hit_points() -> Seq<char> {
    seq![' ', 'h', 'i', 't', ' ', 'p', 'o', 'i', 'n', 't', 's']
}

/// The healing grammar:
/// `<emitter> <spell> healed <receiver> for <amount> [(<absorbed> absorbed)] [hit points] [(Critical)].`
/// The emitter is the first word. The spell, never empty, is the longest
/// after which the rest of the line fits, so it runs to the last `" healed "`
/// that allows it; the receiver is the shortest, up to the first `" for "`
/// after which the amount and the optional groups fit.
pub open spec fn heal_line(row: Seq<char>) -> Option<HealLine> {
    match line_body(row) {
        None => None,
        Some(body) => match emitter_end(body) {
            None => None,
            Some(e) => match spell_end(body, e + 2, body.len() as int, word_healed(), true) {
                None => None,
                Some(h) => {
                    let f = receiver_end(body, h + 8, h + 8, true)->0;
                    let a = f + 5;
                    let d = digit_run(body, a);
                    let t = body.subrange(a + d, body.len() as int);
                    Some(
                        HealLine {
                            emitter: body.subrange(0, e),
                            spell: body.subrange(e + 1, h),
                            receiver: body.subrange(h + 8, f),
                            heal: decimal_value(body.subrange(a, a + d)),
                            absorbed: absorbed_value(t),
                            critical: is_critical(after_absorbed(t)),
                        },
                    )
                },
            },
        },
    }
}

/// Both numbers of the line fit in `u32`.
pub open spec fn heal_fits(l: HealLine) -> bool {
    l.heal <= u32::MAX && l.absorbed <= u32::MAX
}

/// One healing event.
#[derive(Clone, Debug, PartialEq)]
pub struct Heal {
    pub date: Stamp,
    pub emitter: String,
    pub spell: String,
    pub receiver: String,
    pub heal: u32,
    pub absorbed: u32,
    pub critical: bool,
}

impl View for Heal {
    type V = (Stamp, HealLine);

    open spec fn view(&self) -> (Stamp, HealLine) {
        (
            self.date,
            HealLine {
                emitter: self.emitter@,
                spell: self.spell@,
                receiver: self.receiver@,
                heal: self.heal as int,
                absorbed: self.absorbed as int,
                critical: self.critical,
            },
        )
    }
}

/// Whether the middle part is empty or `" hit points"`.
fn middle_ok(m: &Vec<char>) -> (b: bool)
    ensures
        b == (m@.len() == 0 || m@ == word_hit_points()),
{
    let w = vec![' ', 'h', 'i', 't', ' ', 'p', 'o', 'i', 'n', 't', 's'];
    assert(w@ =~= word_hit_points());
    if m.len() == 0 {
        return true;
    }
    if m.len() != 11 {
        return false;
    }
    let b = crate::text::occurs_at(m, 0, &w);
    assert(m@.subrange(0, 11) =~= m@);
    b
}

/// Reads a healing line, telling apart a line that does not follow the
/// grammar from one whose numbers are too large.
pub fn read_heal(row: &str, dt: Stamp) -> (r: LineRead<Heal>)
    ensures
        match heal_line(row@) {
            Some(l) => if heal_fits(l) {
                r matches LineRead::Parsed(x) && x@ == (dt, l)
            } else {
                r is TooLarge
            },
            None => r is NoMatch,
        },
{
    let chars = chars_of(row);
    if chars.len() == 0 || chars[chars.len() - 1] != '.' {
        return LineRead::NoMatch;
    }
    let body = copy_range(&chars, 0, chars.len() - 1);
    assert(body@ =~= chars@.drop_last());
    let w_space = vec![' '];
    assert(w_space@ =~= word_space());
    let e = match find_word(&body, &w_space, 0) {
        Some(e) => e,
        None => {
            return LineRead::NoMatch;
        },
    };
    if e == 0 {
        return LineRead::NoMatch;
    }
    proof {
        lemma_find_from_facts(body@, word_space(), 0);
    }
    let w_healed = vec![' ', 'h', 'e', 'a', 'l', 'e', 'd', ' '];
    assert(w_healed@ =~= word_healed());
    let h = match find_spell(&body, e + 2, &w_healed, true) {
        Some(h) => h,
        None => {
            return LineRead::NoMatch;
        },
    };
    proof {
        lemma_spell_end_facts(body@, e + 2, body.len() as int, word_healed(), true);
        assert(body@.subrange(h as int, h + word_healed().len()) == word_healed());
    }
    assert(h + 8 <= body.len());
    let f = match find_receiver(&body, h + 8, true) {
        Some(f) => f,
        None => {
            return LineRead::NoMatch;
        },
    };
    proof {
        lemma_receiver_end_facts(body@, h + 8, h + 8, true);
        assert(body@.subrange(f as int, f + crate::grammar::word_for().len())
            == crate::grammar::word_for());
    }
    let a = f + 5;
    let d = crate::grammar::digit_count(&body, a);
    proof {
        lemma_digit_run_facts(body@, a as int);
    }
    let t = copy_range(&body, a + d, body.len());
    let (absorbed, m, critical) = match read_tail(&t) {
        Some(x) => x,
        None => {
            return LineRead::TooLarge;
        },
    };
    if !middle_ok(&m) {
        return LineRead::NoMatch;
    }
    let heal = match read_u32(&body, a, d) {
        Some(v) => v,
        None => {
            return LineRead::TooLarge;
        },
    };
    let emitter = copy_range(&body, 0, e);
    let spell = copy_range(&body, e + 1, h);
    let receiver = copy_range(&body, h + 8, f);
    LineRead::Parsed(
        Heal {
            date: dt,
            emitter: string_of(emitter.as_slice()),
            spell: string_of(spell.as_slice()),
            receiver: string_of(receiver.as_slice()),
            heal,
            absorbed,
            critical,
        },
    )
}

/// Whether the part after the absorbed group is as the grammar asks.
pub(crate) fn heal_middle_of_tail(t: &Vec<char>) -> (b: bool)
    ensures
        b == {
            let m = middle(after_absorbed(t@));
            m.len() == 0 || m == word_hit_points()
        },
{
    let n = crate::grammar::absorbed_length(t);
    let rest = copy_range(t, n, t.len());
    let c = crate::grammar::ends_critical(&rest);
    let m = if c {
        copy_range(&rest, 0, rest.len() - 11)
    } else {
        rest
    };
    middle_ok(&m)
}

/// Reads a healing line. Gives `None` when the line does not follow the
/// healing grammar, or when its amount or absorbed number exceeds `u32`.
pub fn parse_heal(row: &str, dt: Stamp) -> (r: Option<Heal>)
    ensures
        match heal_line(row@) {
            Some(l) => if heal_fits(l) {
                r matches Some(x) && x@ == (dt, l)
            } else {
                r is None
            },
            None => r is None,
        },
{
    match read_heal(row, dt) {
        LineRead::Parsed(x) => Some(x),
        _ => None,
    }
}

pub open spec fn heal_events(list: Seq<Heal>) -> Seq<(Stamp, HealLine)> {
    list.map_values(|h: Heal| h@)
}

/// Healing plus absorbed.
pub open spec fn heal_total() -> spec_fn((Stamp, HealLine)) -> int {
    |e: (Stamp, HealLine)| e.1.heal + e.1.absorbed
}

pub open spec fn heal_raw() -> spec_fn((Stamp, HealLine)) -> int {
    |e: (Stamp, HealLine)| e.1.heal
}

pub open spec fn heal_absorbed() -> spec_fn((Stamp, HealLine)) -> int {
    |e: (Stamp, HealLine)| e.1.absorbed
}

/// A heal in the window on the tracked player: keyed by who cast it.
pub open spec fn received_ally_key(start: Option<i64>, end: Option<i64>) -> spec_fn(
    (Stamp, HealLine),
) -> Option<Seq<char>> {
    |e: (Stamp, HealLine)|
        if in_window(e.0, start, end) && e.1.receiver == self_receiver() {
            Some(e.1.emitter)
        } else {
            None
        }
}

/// A heal in the window by the tracked player: keyed by who took it.
pub open spec fn emit_ally_key(start: Option<i64>, end: Option<i64>) -> spec_fn(
    (Stamp, HealLine),
) -> Option<Seq<char>> {
    |e: (Stamp, HealLine)|
        if in_window(e.0, start, end) && e.1.emitter == self_emitter() {
            Some(e.1.receiver)
        } else {
            None
        }
}

/// A heal in the window on the tracked player: keyed by its second in the window.
pub open spec fn received_heal_second_key(start: Option<i64>, end: Option<i64>) -> spec_fn(
    (Stamp, HealLine),
) -> Option<int> {
    |e: (Stamp, HealLine)|
        if in_window(e.0, start, end) && e.1.receiver == self_receiver() {
            Some(e.0.secs - window_start(start))
        } else {
            None
        }
}

/// A heal in the window by the tracked player: keyed by its second in the window.
pub open spec fn emit_heal_second_key(start: Option<i64>, end: Option<i64>) -> spec_fn(
    (Stamp, HealLine),
) -> Option<int> {
    |e: (Stamp, HealLine)|
        if in_window(e.0, start, end) && e.1.emitter == self_emitter() {
            Some(e.0.secs - window_start(start))
        } else {
            None
        }
}

/// Healing totals as mathematical values.
pub struct HealStatsView {
    pub received_by_ally: Map<Seq<char>, int>,
    pub emit_by_ally: Map<Seq<char>, int>,
    pub emit_by_seconds: Seq<int>,
    pub emit_by_seconds_absorbed: Seq<int>,
    pub received_by_seconds: Seq<int>,
    pub received_by_seconds_absorbed: Seq<int>,
}

/// Healing totals: by ally, healing plus absorbed; and, when a window is
/// given, per second of it, healing and absorbed apart.
#[derive(Clone, Debug)]
pub struct HealStats {
    pub received_by_ally: Tally,
    pub emit_by_ally: Tally,
    pub emit_by_seconds: Vec<u128>,
    pub emit_by_seconds_absorbed: Vec<u128>,
    pub received_by_seconds: Vec<u128>,
    pub received_by_seconds_absorbed: Vec<u128>,
}

impl View for HealStats {
    type V = HealStatsView;

    open spec fn view(&self) -> HealStatsView {
        HealStatsView {
            received_by_ally: self.received_by_ally@,
            emit_by_ally: self.emit_by_ally@,
            emit_by_seconds: series_view(self.emit_by_seconds@),
            emit_by_seconds_absorbed: series_view(self.emit_by_seconds_absorbed@),
            received_by_seconds: series_view(self.received_by_seconds@),
            received_by_seconds_absorbed: series_view(self.received_by_seconds_absorbed@),
        }
    }
}

impl HealStats {
    /// Each table has one entry per name.
    pub open spec fn wf(&self) -> bool {
        self.received_by_ally.wf() && self.emit_by_ally.wf()
    }
}

/// The healing totals of `events` over the window.
pub open spec fn heal_stats_spec(
    events: Seq<(Stamp, HealLine)>,
    start: Option<i64>,
    end: Option<i64>,
) -> HealStatsView {
    let n = window_len(start, end);
    HealStatsView {
        received_by_ally: keyed_totals(events, received_ally_key(start, end), heal_total()),
        emit_by_ally: keyed_totals(events, emit_ally_key(start, end), heal_total()),
        emit_by_seconds: keyed_series(events, emit_heal_second_key(start, end), heal_raw(), n),
        emit_by_seconds_absorbed: keyed_series(
            events,
            emit_heal_second_key(start, end),
            heal_absorbed(),
            n,
        ),
        received_by_seconds: keyed_series(
            events,
            received_heal_second_key(start, end),
            heal_raw(),
            n,
        ),
        received_by_seconds_absorbed: keyed_series(
            events,
            received_heal_second_key(start, end),
            heal_absorbed(),
            n,
        ),
    }
}

const HEAL_BOUND: u128 = 0x1_FFFF_FFFE;

/// Totals the healing events that fall in the window `[start, end]` (a
/// missing bound leaves that side open), and lists the allies met there.
pub fn stats_heal(list: &Vec<Heal>, start: Option<i64>, end: Option<i64>) -> (r: (
    HealStats,
    Vec<String>,
))
    requires
        window_ok(start, end),
    ensures
        r.0.wf(),
        r.0@ == heal_stats_spec(heal_events(list@), start, end),
        opponents_of(string_views(r.1@), r.0@.received_by_ally, r.0@.emit_by_ally),
{
    let ghost ev = heal_events(list@);
    let n = window_size(start, end);
    let mut received_by_ally = Tally::new();
    let mut emit_by_ally = Tally::new();
    let mut emit_by_seconds = zeros(n);
    let mut emit_by_seconds_absorbed = zeros(n);
    let mut received_by_seconds = zeros(n);
    let mut received_by_seconds_absorbed = zeros(n);
    let you = self_receiver_chars();
    let your = self_emitter_chars();
    proof {
        let e0 = ev.subrange(0, 0);
        assert(e0 =~= Seq::<(Stamp, HealLine)>::empty());
        lemma_empty_totals(received_ally_key(start, end), heal_total());
        lemma_empty_totals(emit_ally_key(start, end), heal_total());
        lemma_zero_series(emit_heal_second_key(start, end), heal_raw(), n as nat, emit_by_seconds@);
        lemma_zero_series(emit_heal_second_key(start, end), heal_absorbed(), n as nat, emit_by_seconds_absorbed@);
        lemma_zero_series(received_heal_second_key(start, end), heal_raw(), n as nat, received_by_seconds@);
        lemma_zero_series(received_heal_second_key(start, end), heal_absorbed(), n as nat, received_by_seconds_absorbed@);
    }
    let mut i: usize = 0;
    while i < list.len()
        invariant
            ev == heal_events(list@),
            window_ok(start, end),
            n == window_len(start, end),
            i <= list.len(),
            you@ == self_receiver(),
            your@ == self_emitter(),
            received_by_ally.wf(),
            emit_by_ally.wf(),
            emit_by_seconds.len() == n,
            emit_by_seconds_absorbed.len() == n,
            received_by_seconds.len() == n,
            received_by_seconds_absorbed.len() == n,
            received_by_ally@ == keyed_totals(ev.subrange(0, i as int), received_ally_key(start, end), heal_total()),
            emit_by_ally@ == keyed_totals(ev.subrange(0, i as int), emit_ally_key(start, end), heal_total()),
            series_view(emit_by_seconds@) == keyed_series(ev.subrange(0, i as int), emit_heal_second_key(start, end), heal_raw(), n as nat),
            series_view(emit_by_seconds_absorbed@) == keyed_series(ev.subrange(0, i as int), emit_heal_second_key(start, end), heal_absorbed(), n as nat),
            series_view(received_by_seconds@) == keyed_series(ev.subrange(0, i as int), received_heal_second_key(start, end), heal_raw(), n as nat),
            series_view(received_by_seconds_absorbed@) == keyed_series(ev.subrange(0, i as int), received_heal_second_key(start, end), heal_absorbed(), n as nat),
        decreases list.len() - i,
    {
        let h = &list[i];
        let ghost e = h@;
        let ghost pre = ev.subrange(0, i as int);
        proof {
            assert(ev.subrange(0, i + 1) =~= pre.push(e));
            assert forall|j: int| 0 <= j < pre.len() implies 0 <= #[trigger] heal_total()(pre[j]) <= HEAL_BOUND by {
                assert(pre[j] == list@[j]@);
            }
            assert forall|j: int| 0 <= j < pre.len() implies 0 <= #[trigger] heal_raw()(pre[j]) <= u32::MAX by {
                assert(pre[j] == list@[j]@);
            }
            assert forall|j: int| 0 <= j < pre.len() implies 0 <= #[trigger] heal_absorbed()(pre[j]) <= u32::MAX by {
                assert(pre[j] == list@[j]@);
            }
            lemma_keyed_totals_push(pre, e, received_ally_key(start, end), heal_total());
            lemma_keyed_totals_push(pre, e, emit_ally_key(start, end), heal_total());
            lemma_keyed_series_push(pre, e, emit_heal_second_key(start, end), heal_raw(), n as nat);
            lemma_keyed_series_push(pre, e, emit_heal_second_key(start, end), heal_absorbed(), n as nat);
            lemma_keyed_series_push(pre, e, received_heal_second_key(start, end), heal_raw(), n as nat);
            lemma_keyed_series_push(pre, e, received_heal_second_key(start, end), heal_absorbed(), n as nat);
            lemma_totals_bounded(pre, received_ally_key(start, end), heal_total(), HEAL_BOUND as int);
            lemma_totals_bounded(pre, emit_ally_key(start, end), heal_total(), HEAL_BOUND as int);
            lemma_series_bounded(pre, emit_heal_second_key(start, end), heal_raw(), n as nat, u32::MAX as int);
            lemma_series_bounded(pre, emit_heal_second_key(start, end), heal_absorbed(), n as nat, u32::MAX as int);
            lemma_series_bounded(pre, received_heal_second_key(start, end), heal_raw(), n as nat, u32::MAX as int);
            lemma_series_bounded(pre, received_heal_second_key(start, end), heal_absorbed(), n as nat, u32::MAX as int);
            assert(pre.len() * (HEAL_BOUND as int) + HEAL_BOUND <= u128::MAX) by (nonlinear_arith)
                requires
                    pre.len() < usize::MAX,
                    usize::MAX <= u64::MAX,
            ;
            assert(pre.len() * (u32::MAX as int) + u32::MAX <= u128::MAX) by (nonlinear_arith)
                requires
                    pre.len() < usize::MAX,
                    usize::MAX <= u64::MAX,
            ;
        }
        let after_start = match start {
            Some(s) => h.date.secs >= s,
            None => true,
        };
        let before_end = match end {
            Some(t) => h.date.secs <= t,
            None => true,
        };
        if after_start && before_end {
            let to_me = same_chars(h.receiver.as_str(), &you);
            let from_me = same_chars(h.emitter.as_str(), &your);
            let total = h.heal as u128 + h.absorbed as u128;
            if to_me {
                received_by_ally.add(&h.emitter, total);
                if let (Some(s), Some(_)) = (start, end) {
                    let t = (h.date.secs as i128 - s as i128) as usize;
                    let v = received_by_seconds[t] + h.heal as u128;
                    received_by_seconds.set(t, v);
                    let w = received_by_seconds_absorbed[t] + h.absorbed as u128;
                    received_by_seconds_absorbed.set(t, w);
                }
            }
            if from_me {
                emit_by_ally.add(&h.receiver, total);
                if let (Some(s), Some(_)) = (start, end) {
                    let t = (h.date.secs as i128 - s as i128) as usize;
                    let v = emit_by_seconds[t] + h.heal as u128;
                    emit_by_seconds.set(t, v);
                    let w = emit_by_seconds_absorbed[t] + h.absorbed as u128;
                    emit_by_seconds_absorbed.set(t, w);
                }
            }
        }
        proof {
            assert(series_view(emit_by_seconds@) =~= keyed_series(ev.subrange(0, i + 1), emit_heal_second_key(start, end), heal_raw(), n as nat));
            assert(series_view(emit_by_seconds_absorbed@) =~= keyed_series(ev.subrange(0, i + 1), emit_heal_second_key(start, end), heal_absorbed(), n as nat));
            assert(series_view(received_by_seconds@) =~= keyed_series(ev.subrange(0, i + 1), received_heal_second_key(start, end), heal_raw(), n as nat));
            assert(series_view(received_by_seconds_absorbed@) =~= keyed_series(ev.subrange(0, i + 1), received_heal_second_key(start, end), heal_absorbed(), n as nat));
        }
        i = i + 1;
    }
    proof {
        assert(ev.subrange(0, i as int) =~= ev);
    }
    let opponent = lowered_names(&received_by_ally, &emit_by_ally);
    (
        HealStats {
            received_by_ally,
            emit_by_ally,
            emit_by_seconds,
            emit_by_seconds_absorbed,
            received_by_seconds,
            received_by_seconds_absorbed,
        },
        opponent,
    )
}

} // verus!
