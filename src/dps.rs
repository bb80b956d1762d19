//! Damage lines: their grammar, the events read from them, and their totals.
use vstd::prelude::*;
use crate::grammar::{
    after_absorbed, emitter_end, find_receiver, find_spell, is_critical, lemma_receiver_end_facts,
    lemma_spell_end_facts, line_body, middle, read_tail, read_u32, receiver_end, spell_end,
    word_space, absorbed_value, LineRead,
};
use crate::grammar::{self_emitter, self_emitter_chars, self_receiver, self_receiver_chars};
use crate::names::{lower_of, lowered_names, string_views};
use crate::stamp::Stamp;
use crate::tally::{
    in_window, keyed_series, keyed_totals, lemma_empty_totals, lemma_keyed_series_push,
    lemma_keyed_totals_push, lemma_series_bounded, lemma_totals_bounded, lemma_zero_series,
    series_view, window_len, window_ok, window_size, window_start, zeros, Tally,
};
use crate::text::{
    same_chars, strictly_sorted,
    chars_of, copy_range, decimal_value, digit_run, ends_with, find_word, lemma_digit_run_facts,
    lemma_find_from_facts, occurs_at, string_of,
};

verus! {

/// What a damage line says, read as mathematical values.
pub struct DamageLine {
    pub emitter: Seq<char>,
    pub spell: Seq<char>,
    pub receiver: Seq<char>,
    pub damage: int,
    pub absorbed: int,
    pub kind: Seq<char>,
    pub critical: bool,
}

pub open spec fn word_hit() -> Seq<char> {
    seq![' ', 'h', 'i', 't', ' ']
}

pub open spec fn word_damage() -> Seq<char> {
    seq![' ', 'd', 'a', 'm', 'a', 'g', 'e']
}

/// The kind named by the part between the absorbed and critical groups:
/// empty when that part is, else it reads `" <kind> damage"`, with no `(` in
/// the kind.
pub open spec fn damage_kind(m: Seq<char>) -> Option<Seq<char>> {
    if m.len() == 0 {
        Some(Seq::empty())
    } else if m.len() > 8 && m[0] == ' ' && ends_with(m, word_damage()) && (forall|i: int|
        1 <= i < m.len() - 7 ==> m[i] != '(') {
        Some(m.subrange(1, m.len() - 7))
    } else {
        None
    }
}

/// The damage grammar:
/// `<emitter> [<spell>] hit <receiver> for <amount> [(<absorbed> absorbed)] [<kind> damage] [(Critical)].`
/// The emitter is the first word. The spell is the longest after which the
/// rest of the line fits, so it runs to the last `" hit "` that allows it;
/// the receiver is the shortest, up to the first `" for "` after which the
/// amount and the optional groups fit.
pub open spec fn damage_line(row: Seq<char>) -> Option<DamageLine> {
    match line_body(row) {
        None => None,
        Some(body) => match emitter_end(body) {
            None => None,
            Some(e) => match spell_end(body, e, body.len() as int, word_hit(), false) {
                None => None,
                Some(h) => {
                    let f = receiver_end(body, h + 5, h + 5, false)->0;
                    let a = f + 5;
                    let d = digit_run(body, a);
                    let t = body.subrange(a + d, body.len() as int);
                    Some(
                        DamageLine {
                            emitter: body.subrange(0, e),
                            spell: if h == e {
                                Seq::empty()
                            } else {
                                body.subrange(e + 1, h)
                            },
                            receiver: body.subrange(h + 5, f),
                            damage: decimal_value(body.subrange(a, a + d)),
                            absorbed: absorbed_value(t),
                            kind: damage_kind(middle(after_absorbed(t)))->0,
                            critical: is_critical(after_absorbed(t)),
                        },
                    )
                },
            },
        },
    }
}

/// Both numbers of the line fit in `u32`.
pub open spec fn damage_fits(l: DamageLine) -> bool {
    l.damage <= u32::MAX && l.absorbed <= u32::MAX
}

/// One damage event.
#[derive(Clone, Debug, PartialEq)]
pub struct Dps {
    pub date: Stamp,
    pub emitter: String,
    pub spell: String,
    pub receiver: String,
    pub damage: u32,
    pub kind: String,
    pub absorbed: u32,
    pub critical: bool,
}

impl View for Dps {
    type V = (Stamp, DamageLine);

    open spec fn view(&self) -> (Stamp, DamageLine) {
        (
            self.date,
            DamageLine {
                emitter: self.emitter@,
                spell: self.spell@,
                receiver: self.receiver@,
                damage: self.damage as int,
                absorbed: self.absorbed as int,
                kind: self.kind@,
                critical: self.critical,
            },
        )
    }
}

fn kind_of(m: &Vec<char>) -> (r: Option<Vec<char>>)
    ensures
        r matches Some(k) ==> damage_kind(m@) == Some(k@),
        r is None ==> damage_kind(m@) is None,
{
    if m.len() == 0 {
        let k: Vec<char> = Vec::new();
        assert(k@ =~= Seq::<char>::empty());
        return Some(k);
    }
    let w = vec![' ', 'd', 'a', 'm', 'a', 'g', 'e'];
    assert(w@ =~= word_damage());
    if m.len() <= 8 || m[0] != ' ' || !occurs_at(m, m.len() - 7, &w) {
        return None;
    }
    let mut i: usize = 1;
    while i < m.len() - 7
        invariant
            8 < m.len(),
            1 <= i <= m.len() - 7,
            forall|j: int| 1 <= j < i ==> m@[j] != '(',
        decreases m.len() - i,
    {
        if m[i] == '(' {
            return None;
        }
        i = i + 1;
    }
    Some(copy_range(m, 1, m.len() - 7))
}

/// Reads a damage line, telling apart a line that does not follow the
/// grammar from one whose numbers are too large.
pub fn read_damage(row: &str, dt: Stamp) -> (r: LineRead<Dps>)
    ensures
        match damage_line(row@) {
            Some(l) => if damage_fits(l) {
                r matches LineRead::Parsed(d) && d@ == (dt, l)
            } else {
                r is TooLarge
            },
            None => r is NoMatch,
        },
{
    let chars = chars_of(row);
    if chars.len() == 0 || chars[chars.len() - 1] != '.' {
        return LineRead::NoMatch;
    }
    let body = copy_range(&chars, 0, chars.len() - 1);
    assert(body@ =~= chars@.drop_last());
    let w_space = vec![' '];
    assert(w_space@ =~= word_space());
    let e = match find_word(&body, &w_space, 0) {
        Some(e) => e,
        None => {
            return LineRead::NoMatch;
        },
    };
    if e == 0 {
        return LineRead::NoMatch;
    }
    proof {
        lemma_find_from_facts(body@, word_space(), 0);
    }
    let w_hit = vec![' ', 'h', 'i', 't', ' '];
    assert(w_hit@ =~= word_hit());
    let h = match find_spell(&body, e, &w_hit, false) {
        Some(h) => h,
        None => {
            return LineRead::NoMatch;
        },
    };
    proof {
        lemma_spell_end_facts(body@, e as int, body.len() as int, word_hit(), false);
        assert(body@.subrange(h as int, h + word_hit().len()) == word_hit());
    }
    assert(h + 5 <= body.len());
    let f = match find_receiver(&body, h + 5, false) {
        Some(f) => f,
        None => {
            return LineRead::NoMatch;
        },
    };
    proof {
        lemma_receiver_end_facts(body@, h + 5, h + 5, false);
        assert(body@.subrange(f as int, f + crate::grammar::word_for().len())
            == crate::grammar::word_for());
    }
    let a = f + 5;
    let d = crate::grammar::digit_count(&body, a);
    proof {
        lemma_digit_run_facts(body@, a as int);
    }
    let t = copy_range(&body, a + d, body.len());
    let (absorbed, m, critical) = match read_tail(&t) {
        Some(x) => x,
        None => {
            return LineRead::TooLarge;
        },
    };
    let kind = match kind_of(&m) {
        Some(k) => k,
        None => {
            return LineRead::NoMatch;
        },
    };
    let damage = match read_u32(&body, a, d) {
        Some(v) => v,
        None => {
            return LineRead::TooLarge;
        },
    };
    let spell = if h == e {
        Vec::new()
    } else {
        copy_range(&body, e + 1, h)
    };
    assert(h == e ==> spell@ =~= Seq::<char>::empty());
    let emitter = copy_range(&body, 0, e);
    let receiver = copy_range(&body, h + 5, f);
    LineRead::Parsed(
        Dps {
            date: dt,
            emitter: string_of(emitter.as_slice()),
            spell: string_of(spell.as_slice()),
            receiver: string_of(receiver.as_slice()),
            damage,
            kind: string_of(kind.as_slice()),
            absorbed,
            critical,
        },
    )
}

/// Whether the part after the absorbed group names a kind as the grammar asks.
pub(crate) fn damage_kind_of_tail(t: &Vec<char>) -> (b: bool)
    ensures
        b == damage_kind(middle(after_absorbed(t@))) is Some,
{
    let n = crate::grammar::absorbed_length(t);
    let rest = copy_range(t, n, t.len());
    let c = crate::grammar::ends_critical(&rest);
    let m = if c {
        copy_range(&rest, 0, rest.len() - 11)
    } else {
        rest
    };
    kind_of(&m).is_some()
}

/// Reads a damage line. Gives `None` when the line does not follow the
/// damage grammar, or when its amount or absorbed number exceeds `u32`.
pub fn parse_dps(row: &str, dt: Stamp) -> (r: Option<Dps>)
    ensures
        match damage_line(row@) {
            Some(l) => if damage_fits(l) {
                r matches Some(d) && d@ == (dt, l)
            } else {
                r is None
            },
            None => r is None,
        },
{
    match read_damage(row, dt) {
        LineRead::Parsed(d) => Some(d),
        _ => None,
    }
}

pub open spec fn damage_events(list: Seq<Dps>) -> Seq<(Stamp, DamageLine)> {
    list.map_values(|d: Dps| d@)
}

/// Damage plus absorbed.
pub open spec fn hit_total() -> spec_fn((Stamp, DamageLine)) -> int {
    |e: (Stamp, DamageLine)| e.1.damage + e.1.absorbed
}

pub open spec fn hit_raw() -> spec_fn((Stamp, DamageLine)) -> int {
    |e: (Stamp, DamageLine)| e.1.damage
}

pub open spec fn hit_absorbed() -> spec_fn((Stamp, DamageLine)) -> int {
    |e: (Stamp, DamageLine)| e.1.absorbed
}

/// A hit in the window, with a kind, on the tracked player: keyed by kind.
pub open spec fn received_kind_key(start: Option<i64>, end: Option<i64>) -> spec_fn(
    (Stamp, DamageLine),
) -> Option<Seq<char>> {
    |e: (Stamp, DamageLine)|
        if in_window(e.0, start, end) && e.1.kind.len() > 0 && e.1.receiver == self_receiver() {
            Some(e.1.kind)
        } else {
            None
        }
}

/// A hit in the window, with a kind, by the tracked player: keyed by kind.
pub open spec fn emit_kind_key(start: Option<i64>, end: Option<i64>) -> spec_fn(
    (Stamp, DamageLine),
) -> Option<Seq<char>> {
    |e: (Stamp, DamageLine)|
        if in_window(e.0, start, end) && e.1.kind.len() > 0 && e.1.emitter == self_emitter() {
            Some(e.1.kind)
        } else {
            None
        }
}

/// A hit in the window on the tracked player: keyed by who dealt it.
pub open spec fn received_enemy_key(start: Option<i64>, end: Option<i64>) -> spec_fn(
    (Stamp, DamageLine),
) -> Option<Seq<char>> {
    |e: (Stamp, DamageLine)|
        if in_window(e.0, start, end) && e.1.receiver == self_receiver() {
            Some(e.1.emitter)
        } else {
            None
        }
}

/// A hit in the window by the tracked player: keyed by who took it.
pub open spec fn emit_enemy_key(start: Option<i64>, end: Option<i64>) -> spec_fn(
    (Stamp, DamageLine),
) -> Option<Seq<char>> {
    |e: (Stamp, DamageLine)|
        if in_window(e.0, start, end) && e.1.emitter == self_emitter() {
            Some(e.1.receiver)
        } else {
            None
        }
}

/// A hit in the window on the tracked player: keyed by its second in the window.
pub open spec fn received_second_key(start: Option<i64>, end: Option<i64>) -> spec_fn(
    (Stamp, DamageLine),
) -> Option<int> {
    |e: (Stamp, DamageLine)|
        if in_window(e.0, start, end) && e.1.receiver == self_receiver() {
            Some(e.0.secs - window_start(start))
        } else {
            None
        }
}

/// A hit in the window by the tracked player: keyed by its second in the window.
pub open spec fn emit_second_key(start: Option<i64>, end: Option<i64>) -> spec_fn(
    (Stamp, DamageLine),
) -> Option<int> {
    |e: (Stamp, DamageLine)|
        if in_window(e.0, start, end) && e.1.emitter == self_emitter() {
            Some(e.0.secs - window_start(start))
        } else {
            None
        }
}

/// Damage totals as mathematical values.
pub struct DpsStatsView {
    pub received_by_kind: Map<Seq<char>, int>,
    pub emit_by_kind: Map<Seq<char>, int>,
    pub received_by_enemy: Map<Seq<char>, int>,
    pub emit_by_enemy: Map<Seq<char>, int>,
    pub emit_by_seconds: Seq<int>,
    pub emit_by_seconds_absorbed: Seq<int>,
    pub received_by_seconds: Seq<int>,
    pub received_by_seconds_absorbed: Seq<int>,
}

/// Damage totals: by kind and by opponent, damage plus absorbed; and, when a
/// window is given, per second of it, damage and absorbed apart.
#[derive(Clone, Debug)]
pub struct DpsStats {
    pub received_by_kind: Tally,
    pub emit_by_kind: Tally,
    pub received_by_enemy: Tally,
    pub emit_by_enemy: Tally,
    pub emit_by_seconds: Vec<u128>,
    pub emit_by_seconds_absorbed: Vec<u128>,
    pub received_by_seconds: Vec<u128>,
    pub received_by_seconds_absorbed: Vec<u128>,
}

impl View for DpsStats {
    type V = DpsStatsView;

    open spec fn view(&self) -> DpsStatsView {
        DpsStatsView {
            received_by_kind: self.received_by_kind@,
            emit_by_kind: self.emit_by_kind@,
            received_by_enemy: self.received_by_enemy@,
            emit_by_enemy: self.emit_by_enemy@,
            emit_by_seconds: series_view(self.emit_by_seconds@),
            emit_by_seconds_absorbed: series_view(self.emit_by_seconds_absorbed@),
            received_by_seconds: series_view(self.received_by_seconds@),
            received_by_seconds_absorbed: series_view(self.received_by_seconds_absorbed@),
        }
    }
}

impl DpsStats {
    /// Each table has one entry per name.
    pub open spec fn wf(&self) -> bool {
        self.received_by_kind.wf() && self.emit_by_kind.wf() && self.received_by_enemy.wf()
            && self.emit_by_enemy.wf()
    }
}

/// The damage totals of `events` over the window.
pub open spec fn dps_stats_spec(
    events: Seq<(Stamp, DamageLine)>,
    start: Option<i64>,
    end: Option<i64>,
) -> DpsStatsView {
    let n = window_len(start, end);
    DpsStatsView {
        received_by_kind: keyed_totals(events, received_kind_key(start, end), hit_total()),
        emit_by_kind: keyed_totals(events, emit_kind_key(start, end), hit_total()),
        received_by_enemy: keyed_totals(events, received_enemy_key(start, end), hit_total()),
        emit_by_enemy: keyed_totals(events, emit_enemy_key(start, end), hit_total()),
        emit_by_seconds: keyed_series(events, emit_second_key(start, end), hit_raw(), n),
        emit_by_seconds_absorbed: keyed_series(
            events,
            emit_second_key(start, end),
            hit_absorbed(),
            n,
        ),
        received_by_seconds: keyed_series(events, received_second_key(start, end), hit_raw(), n),
        received_by_seconds_absorbed: keyed_series(
            events,
            received_second_key(start, end),
            hit_absorbed(),
            n,
        ),
    }
}

/// `names` is sorted, has no repeats, and holds the lower-cased names of both maps.
pub open spec fn opponents_of(
    names: Seq<Seq<char>>,
    a: Map<Seq<char>, int>,
    b: Map<Seq<char>, int>,
) -> bool {
    &&& strictly_sorted(names)
    &&& forall|y: Seq<char>|
        names.contains(y) <==> exists|k: Seq<char>|
            (a.contains_key(k) || b.contains_key(k)) && y == lower_of(k)
}

const HIT_BOUND: u128 = 0x1_FFFF_FFFE;

/// Totals the damage events that fall in the window `[start, end]` (a missing
/// bound leaves that side open), and lists the opponents met there.
pub fn stats_dps(list: &Vec<Dps>, start: Option<i64>, end: Option<i64>) -> (r: (
    DpsStats,
    Vec<String>,
))
    requires
        window_ok(start, end),
    ensures
        r.0.wf(),
        r.0@ == dps_stats_spec(damage_events(list@), start, end),
        opponents_of(string_views(r.1@), r.0@.received_by_enemy, r.0@.emit_by_enemy),
{
    let ghost ev = damage_events(list@);
    let n = window_size(start, end);
    let mut received_by_kind = Tally::new();
    let mut emit_by_kind = Tally::new();
    let mut received_by_enemy = Tally::new();
    let mut emit_by_enemy = Tally::new();
    let mut emit_by_seconds = zeros(n);
    let mut emit_by_seconds_absorbed = zeros(n);
    let mut received_by_seconds = zeros(n);
    let mut received_by_seconds_absorbed = zeros(n);
    let you = self_receiver_chars();
    let your = self_emitter_chars();
    proof {
        let e0 = ev.subrange(0, 0);
        assert(e0 =~= Seq::<(Stamp, DamageLine)>::empty());
        lemma_empty_totals(received_kind_key(start, end), hit_total());
        lemma_empty_totals(emit_kind_key(start, end), hit_total());
        lemma_empty_totals(received_enemy_key(start, end), hit_total());
        lemma_empty_totals(emit_enemy_key(start, end), hit_total());
        lemma_zero_series(emit_second_key(start, end), hit_raw(), n as nat, emit_by_seconds@);
        lemma_zero_series(emit_second_key(start, end), hit_absorbed(), n as nat, emit_by_seconds_absorbed@);
        lemma_zero_series(received_second_key(start, end), hit_raw(), n as nat, received_by_seconds@);
        lemma_zero_series(received_second_key(start, end), hit_absorbed(), n as nat, received_by_seconds_absorbed@);
    }
    let mut i: usize = 0;
    while i < list.len()
        invariant
            ev == damage_events(list@),
            window_ok(start, end),
            n == window_len(start, end),
            i <= list.len(),
            you@ == self_receiver(),
            your@ == self_emitter(),
            received_by_kind.wf(),
            emit_by_kind.wf(),
            received_by_enemy.wf(),
            emit_by_enemy.wf(),
            emit_by_seconds.len() == n,
            emit_by_seconds_absorbed.len() == n,
            received_by_seconds.len() == n,
            received_by_seconds_absorbed.len() == n,
            received_by_kind@ == keyed_totals(ev.subrange(0, i as int), received_kind_key(start, end), hit_total()),
            emit_by_kind@ == keyed_totals(ev.subrange(0, i as int), emit_kind_key(start, end), hit_total()),
            received_by_enemy@ == keyed_totals(ev.subrange(0, i as int), received_enemy_key(start, end), hit_total()),
            emit_by_enemy@ == keyed_totals(ev.subrange(0, i as int), emit_enemy_key(start, end), hit_total()),
            series_view(emit_by_seconds@) == keyed_series(ev.subrange(0, i as int), emit_second_key(start, end), hit_raw(), n as nat),
            series_view(emit_by_seconds_absorbed@) == keyed_series(ev.subrange(0, i as int), emit_second_key(start, end), hit_absorbed(), n as nat),
            series_view(received_by_seconds@) == keyed_series(ev.subrange(0, i as int), received_second_key(start, end), hit_raw(), n as nat),
            series_view(received_by_seconds_absorbed@) == keyed_series(ev.subrange(0, i as int), received_second_key(start, end), hit_absorbed(), n as nat),
        decreases list.len() - i,
    {
        let d = &list[i];
        let ghost e = d@;
        let ghost pre = ev.subrange(0, i as int);
        proof {
            assert(ev.subrange(0, i + 1) =~= pre.push(e));
            assert forall|j: int| 0 <= j < pre.len() implies pre[j] == list@[j]@ by {}
            assert forall|j: int| 0 <= j < pre.len() implies 0 <= #[trigger] hit_total()(pre[j]) <= HIT_BOUND by {
                assert(pre[j] == list@[j]@);
            }
            assert forall|j: int| 0 <= j < pre.len() implies 0 <= #[trigger] hit_raw()(pre[j]) <= u32::MAX by {
                assert(pre[j] == list@[j]@);
            }
            assert forall|j: int| 0 <= j < pre.len() implies 0 <= #[trigger] hit_absorbed()(pre[j]) <= u32::MAX by {
                assert(pre[j] == list@[j]@);
            }
            lemma_keyed_totals_push(pre, e, received_kind_key(start, end), hit_total());
            lemma_keyed_totals_push(pre, e, emit_kind_key(start, end), hit_total());
            lemma_keyed_totals_push(pre, e, received_enemy_key(start, end), hit_total());
            lemma_keyed_totals_push(pre, e, emit_enemy_key(start, end), hit_total());
            lemma_keyed_series_push(pre, e, emit_second_key(start, end), hit_raw(), n as nat);
            lemma_keyed_series_push(pre, e, emit_second_key(start, end), hit_absorbed(), n as nat);
            lemma_keyed_series_push(pre, e, received_second_key(start, end), hit_raw(), n as nat);
            lemma_keyed_series_push(pre, e, received_second_key(start, end), hit_absorbed(), n as nat);
            lemma_totals_bounded(pre, received_kind_key(start, end), hit_total(), HIT_BOUND as int);
            lemma_totals_bounded(pre, emit_kind_key(start, end), hit_total(), HIT_BOUND as int);
            lemma_totals_bounded(pre, received_enemy_key(start, end), hit_total(), HIT_BOUND as int);
            lemma_totals_bounded(pre, emit_enemy_key(start, end), hit_total(), HIT_BOUND as int);
            lemma_series_bounded(pre, emit_second_key(start, end), hit_raw(), n as nat, u32::MAX as int);
            lemma_series_bounded(pre, emit_second_key(start, end), hit_absorbed(), n as nat, u32::MAX as int);
            lemma_series_bounded(pre, received_second_key(start, end), hit_raw(), n as nat, u32::MAX as int);
            lemma_series_bounded(pre, received_second_key(start, end), hit_absorbed(), n as nat, u32::MAX as int);
            assert(pre.len() * (HIT_BOUND as int) + HIT_BOUND <= u128::MAX) by (nonlinear_arith)
                requires
                    pre.len() < usize::MAX,
                    usize::MAX <= u64::MAX,
            ;
            assert(pre.len() * (u32::MAX as int) + u32::MAX <= u128::MAX) by (nonlinear_arith)
                requires
                    pre.len() < usize::MAX,
                    usize::MAX <= u64::MAX,
            ;
        }
        let after_start = match start {
            Some(s) => d.date.secs >= s,
            None => true,
        };
        let before_end = match end {
            Some(t) => d.date.secs <= t,
            None => true,
        };
        if after_start && before_end {
            let to_me = same_chars(d.receiver.as_str(), &you);
            let from_me = same_chars(d.emitter.as_str(), &your);
            let has_kind = !d.kind.as_str().is_empty();
            let total = d.damage as u128 + d.absorbed as u128;
            if has_kind && to_me {
                received_by_kind.add(&d.kind, total);
            }
            if has_kind && from_me {
                emit_by_kind.add(&d.kind, total);
            }
            if to_me {
                received_by_enemy.add(&d.emitter, total);
                if let (Some(s), Some(_)) = (start, end) {
                    let t = (d.date.secs as i128 - s as i128) as usize;
                    let v = received_by_seconds[t] + d.damage as u128;
                    received_by_seconds.set(t, v);
                    let w = received_by_seconds_absorbed[t] + d.absorbed as u128;
                    received_by_seconds_absorbed.set(t, w);
                }
            }
            if from_me {
                emit_by_enemy.add(&d.receiver, total);
                if let (Some(s), Some(_)) = (start, end) {
                    let t = (d.date.secs as i128 - s as i128) as usize;
                    let v = emit_by_seconds[t] + d.damage as u128;
                    emit_by_seconds.set(t, v);
                    let w = emit_by_seconds_absorbed[t] + d.absorbed as u128;
                    emit_by_seconds_absorbed.set(t, w);
                }
            }
        }
        proof {
            assert(series_view(emit_by_seconds@) =~= keyed_series(ev.subrange(0, i + 1), emit_second_key(start, end), hit_raw(), n as nat));
            assert(series_view(emit_by_seconds_absorbed@) =~= keyed_series(ev.subrange(0, i + 1), emit_second_key(start, end), hit_absorbed(), n as nat));
            assert(series_view(received_by_seconds@) =~= keyed_series(ev.subrange(0, i + 1), received_second_key(start, end), hit_raw(), n as nat));
            assert(series_view(received_by_seconds_absorbed@) =~= keyed_series(ev.subrange(0, i + 1), received_second_key(start, end), hit_absorbed(), n as nat));
        }
        i = i + 1;
    }
    proof {
        assert(ev.subrange(0, i as int) =~= ev);
    }
    let opponent = lowered_names(&received_by_enemy, &emit_by_enemy);
    (
        DpsStats {
            received_by_kind,
            emit_by_kind,
            received_by_enemy,
            emit_by_enemy,
            emit_by_seconds,
            emit_by_seconds_absorbed,
            received_by_seconds,
            received_by_seconds_absorbed,
        },
        opponent,
    )
}

} // verus!
