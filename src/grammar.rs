//! Pieces shared by the combat-line grammars: their fixed words, numbers, and
//! the optional groups that may follow an amount.
use vstd::prelude::*;
use crate::text::{
    copy_range, decimal_value, digit_run, ends_with, find_from, has_at, is_digit,
    lemma_digit_run_facts, occurs_at,
};

verus! {

pub open spec fn word_space() -> Seq<char> {
    seq![' ']
}

pub open spec fn word_for() -> Seq<char> {
    seq![' ', 'f', 'o', 'r', ' ']
}

pub open spec fn word_open() -> Seq<char> {
    seq![' ', '(']
}

pub open spec fn word_absorbed() -> Seq<char> {
    seq![' ', 'a', 'b', 's', 'o', 'r', 'b', 'e', 'd', ')']
}

pub open spec fn word_critical() -> Seq<char> {
    seq![' ', '(', 'C', 'r', 'i', 't', 'i', 'c', 'a', 'l', ')']
}

/// The name that marks the tracked player as emitter.
pub open spec fn self_emitter() -> Seq<char> {
    seq!['Y', 'o', 'u', 'r']
}

/// The name that marks the tracked player as receiver.
pub open spec fn self_receiver() -> Seq<char> {
    seq!['Y', 'o', 'u']
}

pub fn self_emitter_chars() -> (r: Vec<char>)
    ensures
        r@ == self_emitter(),
{
    let r = vec!['Y', 'o', 'u', 'r'];
    assert(r@ =~= self_emitter());
    r
}

pub fn self_receiver_chars() -> (r: Vec<char>)
    ensures
        r@ == self_receiver(),
{
    let r = vec!['Y', 'o', 'u'];
    assert(r@ =~= self_receiver());
    r
}

/// The outcome of reading one line against a grammar.
pub enum LineRead<T> {
    /// The line follows the grammar and its numbers fit.
    Parsed(T),
    /// The line follows the grammar, but one of its numbers exceeds `u32`.
    TooLarge,
    /// The line does not follow the grammar.
    NoMatch,
}

/// A line without its final period; the grammars all end with one.
pub open spec fn line_body(row: Seq<char>) -> Option<Seq<char>> {
    if row.len() > 0 && row.last() == '.' {
        Some(row.drop_last())
    } else {
        None
    }
}

/// The leading name of a line, which runs up to its first space: its length.
pub open spec fn emitter_end(body: Seq<char>) -> Option<int> {
    match find_from(body, word_space(), 0) {
        Some(e) => if e > 0 {
            Some(e)
        } else {
            None
        },
        None => None,
    }
}

/// What follows the amount fits the grammar: for damage a kind group or
/// nothing, for healing `" hit points"` or nothing, between the optional
/// absorbed and critical groups.
pub open spec fn tail_fits(t: Seq<char>, heal: bool) -> bool {
    let m = middle(after_absorbed(t));
    if heal {
        m.len() == 0 || m == crate::heal::word_hit_points()
    } else {
        crate::dps::damage_kind(m) is Some
    }
}

/// A `" for "` at `f`, then digits, then a tail that fits.
pub open spec fn for_fits(body: Seq<char>, f: int, heal: bool) -> bool {
    let d = digit_run(body, f + 5);
    has_at(body, f, word_for()) && d > 0 && tail_fits(
        body.subrange(f + 5 + d, body.len() as int),
        heal,
    )
}

/// Where a receiver that begins at `from` ends: the first `" for "` past
/// `from`, from `f` on, after which the amount and the rest of the line fit.
pub open spec fn receiver_end(body: Seq<char>, from: int, f: int, heal: bool) -> Option<int>
    decreases body.len() + 1 - f,
{
    if f < 0 || f + 5 > body.len() {
        None
    } else if f > from && for_fits(body, f, heal) {
        Some(f)
    } else {
        receiver_end(body, from, f + 1, heal)
    }
}

/// Where the spell ends: the last `word` at `h` or before, and not before
/// `lo`, after which a receiver and the rest of the line fit.
pub open spec fn spell_end(body: Seq<char>, lo: int, h: int, word: Seq<char>, heal: bool) -> Option<
    int,
>
    decreases h - lo + 1,
{
    if h < lo {
        None
    } else if has_at(body, h, word) && receiver_end(body, h + word.len(), h + word.len(), heal) is Some {
        Some(h)
    } else {
        spell_end(body, lo, h - 1, word, heal)
    }
}

pub proof fn lemma_receiver_end_facts(body: Seq<char>, from: int, f: int, heal: bool)
    requires
        0 <= f,
    ensures
        receiver_end(body, from, f, heal) matches Some(r) ==> f <= r && from < r && for_fits(
            body,
            r,
            heal,
        ) && forall|j: int| f <= j < r && from < j ==> !#[trigger] for_fits(body, j, heal),
        receiver_end(body, from, f, heal) is None ==> forall|j: int|
            f <= j && from < j ==> !#[trigger] for_fits(body, j, heal),
    decreases body.len() + 1 - f,
{
    if f + 5 > body.len() {
        assert forall|j: int| f <= j implies !#[trigger] for_fits(body, j, heal) by {
            assert(!has_at(body, j, word_for()));
        }
    } else if f > from && for_fits(body, f, heal) {
    } else {
        lemma_receiver_end_facts(body, from, f + 1, heal);
    }
}

pub proof fn lemma_spell_end_facts(body: Seq<char>, lo: int, h: int, word: Seq<char>, heal: bool)
    ensures
        spell_end(body, lo, h, word, heal) matches Some(r) ==> lo <= r <= h && has_at(body, r, word)
            && receiver_end(body, r + word.len(), r + word.len(), heal) is Some,
    decreases h - lo + 1,
{
    if h >= lo && !(has_at(body, h, word) && receiver_end(
        body,
        h + word.len(),
        h + word.len(),
        heal,
    ) is Some) {
        lemma_spell_end_facts(body, lo, h - 1, word, heal);
    }
}

/// The length of an `" (<n> absorbed)"` group at the start of `t`, or zero.
pub open spec fn absorbed_len(t: Seq<char>) -> int {
    let d = digit_run(t, 2);
    if has_at(t, 0, word_open()) && d > 0 && has_at(t, 2 + d, word_absorbed()) {
        2 + d + 10
    } else {
        0
    }
}

/// The number in an `" (<n> absorbed)"` group at the start of `t`, or zero.
pub open spec fn absorbed_value(t: Seq<char>) -> int {
    if absorbed_len(t) > 0 {
        decimal_value(t.subrange(2, 2 + digit_run(t, 2)))
    } else {
        0
    }
}

/// What follows the absorbed group.
pub open spec fn after_absorbed(t: Seq<char>) -> Seq<char> {
    t.subrange(absorbed_len(t), t.len() as int)
}

/// Whether `r` ends with the `" (Critical)"` group.
pub open spec fn is_critical(r: Seq<char>) -> bool {
    ends_with(r, word_critical())
}

/// What lies between the absorbed group and the critical group.
pub open spec fn middle(r: Seq<char>) -> Seq<char> {
    if is_critical(r) {
        r.subrange(0, r.len() - 11)
    } else {
        r
    }
}

pub proof fn lemma_decimal_value_step(s: Seq<char>, a: int, k: int)
    requires
        0 <= a,
        0 <= k,
        a + k < s.len(),
    ensures
        decimal_value(s.subrange(a, a + k + 1)) == decimal_value(s.subrange(a, a + k)) * 10 + (
        s[a + k] as int - '0' as int),
{
    assert(s.subrange(a, a + k + 1).drop_last() =~= s.subrange(a, a + k));
}

pub proof fn lemma_decimal_value_nonneg(s: Seq<char>)
    requires
        forall|i: int| 0 <= i < s.len() ==> is_digit(#[trigger] s[i]),
    ensures
        decimal_value(s) >= 0,
    decreases s.len(),
{
    if s.len() > 0 {
        assert forall|i: int| 0 <= i < s.drop_last().len() implies is_digit(
            #[trigger] s.drop_last()[i],
        ) by {
            assert(s.drop_last()[i] == s[i]);
        }
        lemma_decimal_value_nonneg(s.drop_last());
        assert(is_digit(s[s.len() - 1]));
    }
}

/// Appending digits never makes a number smaller.
pub proof fn lemma_decimal_value_grows(s: Seq<char>, a: int, k: int, n: int)
    requires
        0 <= a,
        0 <= k <= n,
        a + n <= s.len(),
        forall|i: int| a <= i < a + n ==> is_digit(#[trigger] s[i]),
    ensures
        decimal_value(s.subrange(a, a + n)) >= decimal_value(s.subrange(a, a + k)),
    decreases n - k,
{
    if k < n {
        lemma_decimal_value_grows(s, a, k + 1, n);
        lemma_decimal_value_step(s, a, k);
        assert forall|i: int| 0 <= i < s.subrange(a, a + k).len() implies is_digit(
            #[trigger] s.subrange(a, a + k)[i],
        ) by {
            assert(s.subrange(a, a + k)[i] == s[a + i]);
        }
        lemma_decimal_value_nonneg(s.subrange(a, a + k));
        assert(is_digit(s[a + k]));
    }
}

/// Reads the `n` digits at `from` as a number, or nothing when it exceeds `u32`.
pub fn read_u32(s: &Vec<char>, from: usize, n: usize) -> (r: Option<u32>)
    requires
        from + n <= s.len(),
        forall|i: int| from <= i < from + n ==> is_digit(#[trigger] s@[i]),
    ensures
        r matches Some(v) ==> v as int == decimal_value(s@.subrange(from as int, from + n)),
        r is None ==> decimal_value(s@.subrange(from as int, from + n)) > u32::MAX,
{
    let mut v: u64 = 0;
    let mut k: usize = 0;
    assert(s@.subrange(from as int, from as int) =~= Seq::<char>::empty());
    while k < n
        invariant
            from + n <= s.len(),
            forall|i: int| from <= i < from + n ==> is_digit(#[trigger] s@[i]),
            k <= n,
            v <= u32::MAX,
            v as int == decimal_value(s@.subrange(from as int, from + k)),
        decreases n - k,
    {
        proof {
            lemma_decimal_value_step(s@, from as int, k as int);
        }
        let digit = (s[from + k] as u32 - '0' as u32) as u64;
        assert(is_digit(s@[from + k]));
        v = v * 10 + digit;
        k = k + 1;
        if v > 0xFFFF_FFFF {
            // Further digits only make the number larger.
            proof {
                lemma_decimal_value_grows(s@, from as int, k as int, n as int);
            }
            return None;
        }
    }
    Some(v as u32)
}

/// Whether the part after the amount fits the grammar.
pub fn tail_fits_exec(t: &Vec<char>, heal: bool) -> (b: bool)
    ensures
        b == tail_fits(t@, heal),
{
    if heal {
        crate::heal::heal_middle_of_tail(t)
    } else {
        crate::dps::damage_kind_of_tail(t)
    }
}

/// Whether a `" for "` at `f` is followed by an amount and a tail that fit.
fn for_fits_exec(body: &Vec<char>, f: usize, heal: bool) -> (b: bool)
    ensures
        b == for_fits(body@, f as int, heal),
{
    let w_for = vec![' ', 'f', 'o', 'r', ' '];
    assert(w_for@ =~= word_for());
    if !occurs_at(body, f, &w_for) {
        return false;
    }
    assert(body@.subrange(f as int, f + word_for().len()) == word_for());
    assert(word_for().len() == 5);
    assert(f + 5 <= body.len());
    let d = digit_count(body, f + 5);
    proof {
        lemma_digit_run_facts(body@, f + 5);
    }
    if d == 0 {
        return false;
    }
    let t = copy_range(body, f + 5 + d, body.len());
    tail_fits_exec(&t, heal)
}

/// Where a receiver that begins at `from` ends.
pub fn find_receiver(body: &Vec<char>, from: usize, heal: bool) -> (r: Option<usize>)
    ensures
        r matches Some(f) ==> receiver_end(body@, from as int, from as int, heal) == Some(f as int),
        r is None ==> receiver_end(body@, from as int, from as int, heal) is None,
{
    let mut f = from;
    while f <= body.len() && 5 <= body.len() - f
        invariant
            from <= f,
            receiver_end(body@, from as int, from as int, heal) == receiver_end(
                body@,
                from as int,
                f as int,
                heal,
            ),
        decreases body.len() + 1 - f,
    {
        if f > from && for_fits_exec(body, f, heal) {
            return Some(f);
        }
        f = f + 1;
    }
    None
}

/// Where the spell ends: the last `word` from `lo` on after which a receiver
/// and the rest of the line fit.
pub fn find_spell(body: &Vec<char>, lo: usize, word: &Vec<char>, heal: bool) -> (r: Option<usize>)
    ensures
        r matches Some(h) ==> spell_end(body@, lo as int, body.len() as int, word@, heal) == Some(
            h as int,
        ),
        r is None ==> spell_end(body@, lo as int, body.len() as int, word@, heal) is None,
{
    if lo > body.len() {
        return None;
    }
    let mut h = body.len();
    loop
        invariant
            lo <= h <= body.len(),
            spell_end(body@, lo as int, body.len() as int, word@, heal) == spell_end(
                body@,
                lo as int,
                h as int,
                word@,
                heal,
            ),
        decreases h,
    {
        if occurs_at(body, h, word) {
            assert(body@.subrange(h as int, h + word@.len()) == word@);
            if find_receiver(body, h + word.len(), heal).is_some() {
                return Some(h);
            }
        }
        if h == lo {
            assert(spell_end(body@, lo as int, lo - 1, word@, heal) is None);
            return None;
        }
        h = h - 1;
    }
}

/// The length of the run of digits at `i`.
pub fn digit_count(s: &Vec<char>, i: usize) -> (r: usize)
    ensures
        r as int == digit_run(s@, i as int),
{
    let mut j = i;
    while j < s.len() && '0' <= s[j] && s[j] <= '9'
        invariant
            i <= j,
            j <= s.len() || j == i,
            digit_run(s@, i as int) == (j - i) + digit_run(s@, j as int),
        decreases s.len() - j,
    {
        j = j + 1;
    }
    j - i
}

/// The length of the absorbed group at the start of `t`.
pub fn absorbed_length(t: &Vec<char>) -> (n: usize)
    ensures
        n as int == absorbed_len(t@),
        n <= t.len(),
{
    let w_open = vec![' ', '('];
    assert(w_open@ =~= word_open());
    let w_absorbed = vec![' ', 'a', 'b', 's', 'o', 'r', 'b', 'e', 'd', ')'];
    assert(w_absorbed@ =~= word_absorbed());
    if !occurs_at(t, 0, &w_open) {
        return 0;
    }
    let d = digit_count(t, 2);
    proof {
        crate::text::lemma_digit_run_facts(t@, 2);
    }
    if d == 0 {
        return 0;
    }
    assert(2 + d <= t.len());
    if !occurs_at(t, 2 + d, &w_absorbed) {
        return 0;
    }
    assert(has_at(t@, 2 + d, word_absorbed()));
    assert(word_absorbed().len() == 10);
    2 + d + 10
}

/// Reads the absorbed group at the start of `t`: its length and number, or
/// `None` when the number exceeds `u32`.
pub fn read_absorbed(t: &Vec<char>) -> (r: Option<(usize, u32)>)
    ensures
        r matches Some((n, v)) ==> n as int == absorbed_len(t@) && v as int == absorbed_value(
            t@,
        ),
        r is None ==> absorbed_len(t@) > 0 && absorbed_value(t@) > u32::MAX,
{
    let w_open = vec![' ', '('];
    assert(w_open@ =~= word_open());
    let w_absorbed = vec![' ', 'a', 'b', 's', 'o', 'r', 'b', 'e', 'd', ')'];
    assert(w_absorbed@ =~= word_absorbed());
    if !occurs_at(t, 0, &w_open) {
        return Some((0, 0));
    }
    let d = digit_count(t, 2);
    proof {
        lemma_digit_run_facts(t@, 2);
    }
    if d == 0 {
        return Some((0, 0));
    }
    assert(2 + d <= t.len());
    if !occurs_at(t, 2 + d, &w_absorbed) {
        return Some((0, 0));
    }
    assert(has_at(t@, 2 + d, word_absorbed()));
    assert(word_absorbed().len() == 10);
    match read_u32(t, 2, d) {
        Some(v) => Some((2 + d + 10, v)),
        None => None,
    }
}

/// Whether `r` ends with the critical group.
pub fn ends_critical(r: &Vec<char>) -> (b: bool)
    ensures
        b == is_critical(r@),
{
    let w = vec![' ', '(', 'C', 'r', 'i', 't', 'i', 'c', 'a', 'l', ')'];
    assert(w@ =~= word_critical());
    if r.len() < 11 {
        return false;
    }
    occurs_at(r, r.len() - 11, &w)
}

/// Splits what follows the amount into the absorbed number, the middle part
/// and the critical flag.
pub fn read_tail(t: &Vec<char>) -> (r: Option<(u32, Vec<char>, bool)>)
    ensures
        r matches Some((v, m, c)) ==> v as int == absorbed_value(t@) && m@ == middle(
            after_absorbed(t@),
        ) && c == is_critical(after_absorbed(t@)),
        r is None ==> absorbed_len(t@) > 0 && absorbed_value(t@) > u32::MAX,
{
    match read_absorbed(t) {
        Some((n, v)) => {
            proof {
                lemma_digit_run_facts(t@, 2);
            }
            let rest = copy_range(t, n, t.len());
            let c = ends_critical(&rest);
            let m = if c {
                copy_range(&rest, 0, rest.len() - 11)
            } else {
                rest
            };
            Some((v, m, c))
        },
        None => None,
    }
}

} // verus!
