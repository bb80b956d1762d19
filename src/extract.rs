//! Cutting raw log text into lines, and lines into a timestamp and the
//! payload of their `Event=[...]` wrapper.
use vstd::prelude::*;
use crate::names::char_views;
use crate::text::{copy_range, has_at, is_digit, occurs_at};

verus! {

/// A line without a final carriage return.
pub open spec fn strip_cr(l: Seq<char>) -> Seq<char> {
    if l.len() > 0 && l.last() == '\r' {
        l.drop_last()
    } else {
        l
    }
}

/// The lines of `s` from the one that begins at `start`, scanning from `pos`.
pub open spec fn lines_from(s: Seq<char>, start: int, pos: int) -> Seq<Seq<char>>
    decreases s.len() - pos,
{
    if pos >= s.len() || pos < 0 {
        if 0 <= start < s.len() {
            seq![strip_cr(s.subrange(start, s.len() as int))]
        } else {
            Seq::empty()
        }
    } else if s[pos] == '\n' {
        seq![strip_cr(s.subrange(start, pos))] + lines_from(s, pos + 1, pos + 1)
    } else {
        lines_from(s, start, pos + 1)
    }
}

/// The lines of `s`: split at each `\n`, a `\r` before it dropped, and no
/// empty line after a final `\n`.
pub open spec fn lines_of(s: Seq<char>) -> Seq<Seq<char>> {
    lines_from(s, 0, 0)
}

pub fn split_lines(s: &Vec<char>) -> (r: Vec<Vec<char>>)
    ensures
        char_views(r@) == lines_of(s@),
{
    let mut r: Vec<Vec<char>> = Vec::new();
    let mut start: usize = 0;
    let mut pos: usize = 0;
    assert(char_views(r@) =~= Seq::<Seq<char>>::empty());
    assert(Seq::<Seq<char>>::empty() + lines_of(s@) =~= lines_of(s@));
    while pos < s.len()
        invariant
            start <= pos <= s.len(),
            char_views(r@) + lines_from(s@, start as int, pos as int) == lines_of(s@),
        decreases s.len() - pos,
    {
        if s[pos] == '\n' {
            let line = strip_line(copy_range(s, start, pos));
            let ghost before = char_views(r@);
            r.push(line);
            assert(char_views(r@) =~= before.push(strip_cr(s@.subrange(start as int, pos as int))));
            assert(before + lines_from(s@, start as int, pos as int) =~= char_views(r@) + lines_from(
                s@,
                pos + 1,
                pos + 1,
            ));
            start = pos + 1;
        }
        pos = pos + 1;
    }
    if start < s.len() {
        let line = strip_line(copy_range(s, start, s.len()));
        let ghost before = char_views(r@);
        r.push(line);
        assert(char_views(r@) =~= before.push(strip_cr(s@.subrange(start as int, s.len() as int))));
        assert(char_views(r@) =~= before + lines_from(s@, start as int, pos as int));
    } else {
        assert(char_views(r@) =~= char_views(r@) + lines_from(s@, start as int, pos as int));
    }
    r
}

fn strip_line(l: Vec<char>) -> (r: Vec<char>)
    ensures
        r@ == strip_cr(l@),
{
    if l.len() > 0 && l[l.len() - 1] == '\r' {
        let r = copy_range(&l, 0, l.len() - 1);
        assert(r@ =~= l@.drop_last());
        r
    } else {
        l
    }
}

/// A character that may stand in a timestamp before its final `Z`.
pub open spec fn is_stamp_char(c: char) -> bool {
    c == '-' || is_digit(c) || c == 'T' || c == ':' || c == '.'
}

/// The first `Z` at or after `i` that ends a timestamp.
pub open spec fn stamp_end_from(line: Seq<char>, i: int) -> Option<int>
    decreases line.len() - i,
{
    if i >= line.len() || i < 0 {
        None
    } else if line[i] == 'Z' && i >= 1 && is_stamp_char(line[i - 1]) {
        Some(i)
    } else {
        stamp_end_from(line, i + 1)
    }
}

/// Where the run of timestamp characters that ends before `j` begins.
pub open spec fn run_start(line: Seq<char>, j: int) -> int
    decreases j,
{
    if 0 < j <= line.len() && is_stamp_char(line[j - 1]) {
        run_start(line, j - 1)
    } else {
        j
    }
}

/// The last `]` at or before `i`.
pub open spec fn last_close(line: Seq<char>, i: int) -> Option<int>
    decreases i + 1,
{
    if i < 0 || i >= line.len() {
        None
    } else if line[i] == ']' {
        Some(i)
    } else {
        last_close(line, i - 1)
    }
}

pub open spec fn word_event() -> Seq<char> {
    seq!['E', 'v', 'e', 'n', 't', '=', '[']
}

/// The last `Event=[` that begins between `lo` and `k`.
pub open spec fn last_marker(line: Seq<char>, lo: int, k: int) -> Option<int>
    decreases k - lo + 1,
{
    if k < lo {
        None
    } else if has_at(line, k, word_event()) {
        Some(k)
    } else {
        last_marker(line, lo, k - 1)
    }
}

/// The timestamp and the payload of an event line: the timestamp is the
/// first run of `[-0-9T:.]` characters closed by a `Z` (the `Z` included);
/// after it comes the last `Event=[` that a `]` follows, and the payload runs
/// from there to the line's last `]`.
pub open spec fn extract_event(line: Seq<char>) -> Option<(Seq<char>, Seq<char>)> {
    match stamp_end_from(line, 0) {
        None => None,
        Some(q) => match last_close(line, line.len() - 1) {
            None => None,
            Some(r) => match last_marker(line, q + 1, r - 7) {
                None => None,
                Some(k) => Some((line.subrange(run_start(line, q), q + 1), line.subrange(k + 7, r))),
            },
        },
    }
}

fn stamp_char(c: char) -> (b: bool)
    ensures
        b == is_stamp_char(c),
{
    c == '-' || ('0' <= c && c <= '9') || c == 'T' || c == ':' || c == '.'
}

pub proof fn lemma_run_start_bounds(line: Seq<char>, j: int)
    requires
        0 <= j <= line.len(),
    ensures
        0 <= run_start(line, j) <= j,
    decreases j,
{
    if 0 < j && is_stamp_char(line[j - 1]) {
        lemma_run_start_bounds(line, j - 1);
    }
}

/// Cuts an event line into its timestamp and its payload.
pub fn extract(line: &Vec<char>) -> (r: Option<(Vec<char>, Vec<char>)>)
    ensures
        r matches Some((a, b)) ==> extract_event(line@) == Some((a@, b@)),
        r is None ==> extract_event(line@) is None,
{
    // The end of the timestamp.
    let mut i: usize = 0;
    let mut q: usize = 0;
    let mut found = false;
    while !found && i < line.len()
        invariant
            i <= line.len(),
            found ==> stamp_end_from(line@, 0) == Some(q as int) && 1 <= q < line.len(),
            !found ==> stamp_end_from(line@, 0) == stamp_end_from(line@, i as int),
        decreases line.len() - i + (if found { 0int } else { 1int }),
    {
        if line[i] == 'Z' && i >= 1 && stamp_char(line[i - 1]) {
            q = i;
            found = true;
        } else {
            i = i + 1;
        }
    }
    if !found {
        return None;
    }
    // The beginning of the timestamp.
    let mut p: usize = q;
    while p > 0 && stamp_char(line[p - 1])
        invariant
            p <= q < line.len(),
            run_start(line@, q as int) == run_start(line@, p as int),
        decreases p,
    {
        p = p - 1;
    }
    proof {
        lemma_run_start_bounds(line@, p as int);
        assert(run_start(line@, p as int) == p as int);
    }
    // The last `]`.
    let mut r: usize = line.len();
    let mut closed = false;
    while !closed && r > 0
        invariant
            r <= line.len(),
            p <= q < line.len(),
            run_start(line@, q as int) == p as int,
            stamp_end_from(line@, 0) == Some(q as int),
            closed ==> r < line.len() && last_close(line@, line.len() - 1) == Some(r as int),
            !closed ==> last_close(line@, line.len() - 1) == last_close(line@, r - 1),
        decreases r + (if closed { 0int } else { 1int }),
    {
        if line[r - 1] == ']' {
            r = r - 1;
            closed = true;
        } else {
            r = r - 1;
        }
    }
    if !closed {
        return None;
    }
    // The last `Event=[` after the timestamp and before that `]`.
    let marker = vec!['E', 'v', 'e', 'n', 't', '=', '['];
    assert(marker@ =~= word_event());
    if r < 7 || r - 7 < q + 1 {
        return None;
    }
    let mut k: usize = r - 7;
    loop
        invariant
            q + 1 <= k <= r - 7,
            r < line.len(),
            p <= q < line.len(),
            run_start(line@, q as int) == p as int,
            stamp_end_from(line@, 0) == Some(q as int),
            last_close(line@, line.len() - 1) == Some(r as int),
            marker@ == word_event(),
            last_marker(line@, q + 1, r - 7) == last_marker(line@, q + 1, k as int),
        decreases k,
    {
        if occurs_at(line, k, &marker) {
            let stamp = copy_range(line, p, q + 1);
            let payload = copy_range(line, k + 7, r);
            return Some((stamp, payload));
        }
        if k == q + 1 {
            assert(last_marker(line@, q + 1, q as int) is None);
            return None;
        }
        k = k - 1;
    }
}

} // verus!
