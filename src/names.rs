//! Sorted lists of distinct names.
use vstd::prelude::*;
use crate::text::{
    lemma_seq_less_trichotomy,
    chars_of, compare_chars, lemma_seq_less_irreflexive, lemma_seq_less_transitive,
    seq_less, string_of, strictly_sorted,
};
use crate::tally::Tally;

verus! {

/// What std's `str::to_lowercase` makes of a string.
pub uninterp spec fn lower_of(s: Seq<char>) -> Seq<char>;

/// Relies on std's `str::to_lowercase`, whose result depends on the
/// characters alone.
#[verifier::external_body]
fn lowercase(s: &str) -> (r: String)
    ensures
        r@ == lower_of(s@),
{
    s.to_lowercase()
}

pub open spec fn char_views(v: Seq<Vec<char>>) -> Seq<Seq<char>> {
    v.map_values(|x: Vec<char>| x@)
}

pub open spec fn string_views(v: Seq<String>) -> Seq<Seq<char>> {
    v.map_values(|x: String| x@)
}

/// Adds `x` to a strictly sorted list, unless it is there already.
fn insert_sorted(names: &mut Vec<Vec<char>>, x: Vec<char>)
    requires
        strictly_sorted(char_views(old(names)@)),
    ensures
        strictly_sorted(char_views(final(names)@)),
        forall|y: Seq<char>|
            char_views(final(names)@).contains(y) <==> (char_views(old(names)@).contains(y) || y
                == x@),
{
    let ghost before = char_views(names@);
    let mut p: usize = 0;
    let mut stop = false;
    while !stop && p < names.len()
        invariant
            p <= names.len(),
            names@ == old(names)@,
            before == char_views(names@),
            strictly_sorted(before),
            forall|q: int| 0 <= q < p ==> seq_less(#[trigger] before[q], x@),
            stop ==> p < names.len() && seq_less(x@, before[p as int]),
        decreases names.len() - p + (if stop { 0int } else { 1int }),
    {
        let c = compare_chars(&names[p], &x);
        if c == 0 {
            assert(before[p as int] == x@);
            return ;
        }
        if c > 0 {
            stop = true;
        } else {
            p = p + 1;
        }
    }
    // Every name from `p` on comes after `x`.
    proof {
        if p < names.len() {
            assert forall|q: int| p <= q < before.len() implies seq_less(x@, #[trigger] before[q]) by {
                if q > p {
                    lemma_seq_less_transitive(x@, before[p as int], before[q]);
                }
            }
        }
    }
    let ghost xv = x@;
    names.insert(p, x);
    proof {
        let after = char_views(names@);
        assert(after =~= before.insert(p as int, xv));
        assert forall|i: int, j: int| 0 <= i < j < after.len() implies seq_less(
            #[trigger] after[i],
            #[trigger] after[j],
        ) by {
            if j < p {
            } else if j == p {
            } else if i < p {
                assert(after[j] == before[j - 1]);
                lemma_seq_less_transitive(after[i], xv, after[j]);
            } else if i == p {
                assert(after[j] == before[j - 1]);
            } else {
                assert(after[i] == before[i - 1] && after[j] == before[j - 1]);
            }
        }
        assert forall|y: Seq<char>| after.contains(y) <==> (before.contains(y) || y == xv) by {
            if after.contains(y) {
                let i = choose|i: int| 0 <= i < after.len() && after[i] == y;
                if i < p {
                    assert(before[i] == y);
                } else if i > p {
                    assert(before[i - 1] == y);
                }
            }
            if before.contains(y) {
                let i = choose|i: int| 0 <= i < before.len() && before[i] == y;
                if i < p {
                    assert(after[i] == y);
                } else {
                    assert(after[i + 1] == y);
                }
            }
            if y == xv {
                assert(after[p as int] == y);
            }
        }
    }
}

/// The names as strings.
fn strings_of(v: &Vec<Vec<char>>) -> (r: Vec<String>)
    ensures
        string_views(r@) == char_views(v@),
{
    let mut r: Vec<String> = Vec::new();
    let mut i: usize = 0;
    while i < v.len()
        invariant
            i <= v.len(),
            string_views(r@) == char_views(v@).subrange(0, i as int),
        decreases v.len() - i,
    {
        let s = string_of(v[i].as_slice());
        let ghost prev = r@;
        r.push(s);
        proof {
            assert(r@ == prev.push(s));
            assert(string_views(r@) =~= string_views(prev).push(v@[i as int]@));
            assert(char_views(v@).subrange(0, i + 1) =~= char_views(v@).subrange(0, i as int).push(v@[i as int]@));
        }
        i = i + 1;
    }
    assert(char_views(v@).subrange(0, i as int) =~= char_views(v@));
    r
}

/// The names of both tables, lower-cased, sorted and without repeats.
pub fn lowered_names(a: &Tally, b: &Tally) -> (r: Vec<String>)
    ensures
        strictly_sorted(string_views(r@)),
        forall|y: Seq<char>|
            string_views(r@).contains(y) <==> exists|k: Seq<char>|
                (a@.contains_key(k) || b@.contains_key(k)) && y == lower_of(k),
{
    let mut acc: Vec<Vec<char>> = Vec::new();
    assert(char_views(acc@) =~= Seq::<Seq<char>>::empty());
    let mut i: usize = 0;
    while i < a.entries.len()
        invariant
            i <= a.entries.len(),
            strictly_sorted(char_views(acc@)),
            forall|y: Seq<char>|
                char_views(acc@).contains(y) <==> exists|q: int|
                    0 <= q < i && y == lower_of(#[trigger] a.entries@[q].0@),
        decreases a.entries.len() - i,
    {
        let low = lowercase(a.entries[i].0.as_str());
        let x = chars_of(low.as_str());
        insert_sorted(&mut acc, x);
        proof {
            assert forall|y: Seq<char>|
                char_views(acc@).contains(y) <==> exists|q: int|
                    0 <= q < i + 1 && y == lower_of(#[trigger] a.entries@[q].0@) by {
                if y == lower_of(a.entries@[i as int].0@) {
                    assert(exists|q: int| 0 <= q < i + 1 && y == lower_of(#[trigger] a.entries@[q].0@));
                }
            }
        }
        i = i + 1;
    }
    let mut j: usize = 0;
    while j < b.entries.len()
        invariant
            j <= b.entries.len(),
            strictly_sorted(char_views(acc@)),
            forall|y: Seq<char>|
                char_views(acc@).contains(y) <==> (exists|q: int|
                    0 <= q < a.entries.len() && y == lower_of(#[trigger] a.entries@[q].0@)) || (
                exists|q: int| 0 <= q < j && y == lower_of(#[trigger] b.entries@[q].0@)),
        decreases b.entries.len() - j,
    {
        let low = lowercase(b.entries[j].0.as_str());
        let x = chars_of(low.as_str());
        insert_sorted(&mut acc, x);
        proof {
            assert forall|y: Seq<char>|
                char_views(acc@).contains(y) <==> (exists|q: int|
                    0 <= q < a.entries.len() && y == lower_of(#[trigger] a.entries@[q].0@)) || (
                exists|q: int| 0 <= q < j + 1 && y == lower_of(#[trigger] b.entries@[q].0@)) by {
                if y == lower_of(b.entries@[j as int].0@) {
                    assert(exists|q: int| 0 <= q < j + 1 && y == lower_of(#[trigger] b.entries@[q].0@));
                }
            }
        }
        j = j + 1;
    }
    let r = strings_of(&acc);
    proof {
        assert forall|y: Seq<char>|
            string_views(r@).contains(y) <==> exists|k: Seq<char>|
                (a@.contains_key(k) || b@.contains_key(k)) && y == lower_of(k) by {
            crate::tally::lemma_entry_lookup_index(a.entries@, a.entries@[0].0@);
            if exists|q: int| 0 <= q < a.entries.len() && y == lower_of(#[trigger] a.entries@[q].0@) {
                let q = choose|q: int| 0 <= q < a.entries.len() && y == lower_of(#[trigger] a.entries@[q].0@);
                crate::tally::lemma_entry_lookup_index(a.entries@, a.entries@[q].0@);
                assert(a@.contains_key(a.entries@[q].0@));
            }
            if exists|q: int| 0 <= q < b.entries.len() && y == lower_of(#[trigger] b.entries@[q].0@) {
                let q = choose|q: int| 0 <= q < b.entries.len() && y == lower_of(#[trigger] b.entries@[q].0@);
                crate::tally::lemma_entry_lookup_index(b.entries@, b.entries@[q].0@);
                assert(b@.contains_key(b.entries@[q].0@));
            }
            if exists|k: Seq<char>| (a@.contains_key(k) || b@.contains_key(k)) && y == lower_of(k) {
                let k = choose|k: Seq<char>| (a@.contains_key(k) || b@.contains_key(k)) && y == lower_of(k);
                crate::tally::lemma_entry_lookup_index(a.entries@, k);
                crate::tally::lemma_entry_lookup_index(b.entries@, k);
                if a@.contains_key(k) {
                    let q = choose|q: int| 0 <= q < a.entries@.len() && a.entries@[q].0@ == k && a.entries@[q].1 == entry_value(a, k);
                    assert(y == lower_of(a.entries@[q].0@));
                } else {
                    let q = choose|q: int| 0 <= q < b.entries@.len() && b.entries@[q].0@ == k && b.entries@[q].1 == entry_value(b, k);
                    assert(y == lower_of(b.entries@[q].0@));
                }
            }
        }
    }
    r
}

spec fn entry_value(t: &Tally, k: Seq<char>) -> int {
    crate::tally::entry_lookup(t.entries@, k)->0
}

/// The names of both lists, sorted and without repeats.
pub fn merged_names(a: &Vec<String>, b: &Vec<String>) -> (r: Vec<String>)
    ensures
        strictly_sorted(string_views(r@)),
        forall|y: Seq<char>|
            string_views(r@).contains(y) <==> (string_views(a@).contains(y) || string_views(
                b@,
            ).contains(y)),
{
    let mut acc: Vec<Vec<char>> = Vec::new();
    assert(char_views(acc@) =~= Seq::<Seq<char>>::empty());
    let mut i: usize = 0;
    while i < a.len()
        invariant
            i <= a.len(),
            strictly_sorted(char_views(acc@)),
            forall|y: Seq<char>|
                char_views(acc@).contains(y) <==> string_views(a@).subrange(0, i as int).contains(y),
        decreases a.len() - i,
    {
        let x = chars_of(a[i].as_str());
        insert_sorted(&mut acc, x);
        proof {
            let s0 = string_views(a@).subrange(0, i as int);
            assert(string_views(a@).subrange(0, i + 1) =~= s0.push(a@[i as int]@));
            assert forall|y: Seq<char>| s0.push(a@[i as int]@).contains(y) <==> (s0.contains(y) || y == a@[i as int]@) by {
                if s0.push(a@[i as int]@).contains(y) {
                    let q = choose|q: int| 0 <= q < s0.len() + 1 && s0.push(a@[i as int]@)[q] == y;
                    if q < s0.len() { assert(s0[q] == y); }
                }
                if s0.contains(y) {
                    let q = choose|q: int| 0 <= q < s0.len() && s0[q] == y;
                    assert(s0.push(a@[i as int]@)[q] == y);
                }
                if y == a@[i as int]@ {
                    assert(s0.push(a@[i as int]@)[s0.len() as int] == y);
                }
            }
        }
        i = i + 1;
    }
    assert(string_views(a@).subrange(0, i as int) =~= string_views(a@));
    let mut j: usize = 0;
    while j < b.len()
        invariant
            j <= b.len(),
            strictly_sorted(char_views(acc@)),
            forall|y: Seq<char>|
                char_views(acc@).contains(y) <==> (string_views(a@).contains(y) || string_views(b@).subrange(0, j as int).contains(y)),
        decreases b.len() - j,
    {
        let x = chars_of(b[j].as_str());
        insert_sorted(&mut acc, x);
        proof {
            let s0 = string_views(b@).subrange(0, j as int);
            assert(string_views(b@).subrange(0, j + 1) =~= s0.push(b@[j as int]@));
            assert forall|y: Seq<char>| s0.push(b@[j as int]@).contains(y) <==> (s0.contains(y) || y == b@[j as int]@) by {
                if s0.push(b@[j as int]@).contains(y) {
                    let q = choose|q: int| 0 <= q < s0.len() + 1 && s0.push(b@[j as int]@)[q] == y;
                    if q < s0.len() { assert(s0[q] == y); }
                }
                if s0.contains(y) {
                    let q = choose|q: int| 0 <= q < s0.len() && s0[q] == y;
                    assert(s0.push(b@[j as int]@)[q] == y);
                }
                if y == b@[j as int]@ {
                    assert(s0.push(b@[j as int]@)[s0.len() as int] == y);
                }
            }
        }
        j = j + 1;
    }
    assert(string_views(b@).subrange(0, j as int) =~= string_views(b@));
    strings_of(&acc)
}

/// A strictly sorted list holds each name once.
pub proof fn lemma_strictly_sorted_distinct(s: Seq<Seq<char>>)
    requires
        strictly_sorted(s),
    ensures
        s.no_duplicates(),
{
    assert forall|i: int, j: int| 0 <= i < s.len() && 0 <= j < s.len() && i != j implies s[i]
        != s[j] by {
        lemma_seq_less_irreflexive(s[i]);
        if i < j {
            assert(seq_less(s[i], s[j]));
        } else {
            assert(seq_less(s[j], s[i]));
        }
    }
}

/// Two strictly sorted lists that hold the same names are the same list.
pub proof fn lemma_strictly_sorted_unique(s1: Seq<Seq<char>>, s2: Seq<Seq<char>>)
    requires
        strictly_sorted(s1),
        strictly_sorted(s2),
        forall|y: Seq<char>| s1.contains(y) <==> s2.contains(y),
    ensures
        s1 == s2,
    decreases s1.len(),
{
    if s1.len() == 0 {
        if s2.len() > 0 {
            assert(s2.contains(s2[0]));
        }
        assert(s1 =~= s2);
    } else {
        assert(s1.contains(s1[0]));
        assert(s2.len() > 0);
        let x = s1[0];
        let y = s2[0];
        assert(s2.contains(y));
        let i = choose|i: int| 0 <= i < s2.len() && s2[i] == x;
        let j = choose|j: int| 0 <= j < s1.len() && s1[j] == y;
        lemma_seq_less_trichotomy(x, y);
        if i > 0 && j > 0 {
            assert(seq_less(y, x) && seq_less(x, y));
        }
        assert(x == y);
        let t1 = s1.drop_first();
        let t2 = s2.drop_first();
        assert forall|z: Seq<char>| t1.contains(z) <==> t2.contains(z) by {
            if t1.contains(z) {
                let k = choose|k: int| 0 <= k < t1.len() && t1[k] == z;
                assert(s1[k + 1] == z);
                assert(seq_less(x, z));
                lemma_seq_less_irreflexive(z);
                assert(s1.contains(z));
                let q = choose|q: int| 0 <= q < s2.len() && s2[q] == z;
                assert(q != 0);
                assert(t2[q - 1] == z);
            }
            if t2.contains(z) {
                let k = choose|k: int| 0 <= k < t2.len() && t2[k] == z;
                assert(s2[k + 1] == z);
                assert(seq_less(y, z));
                lemma_seq_less_irreflexive(z);
                assert(s2.contains(z));
                let q = choose|q: int| 0 <= q < s1.len() && s1[q] == z;
                assert(q != 0);
                assert(t1[q - 1] == z);
            }
        }
        assert forall|a: int, b: int| 0 <= a < b < t1.len() implies seq_less(#[trigger] t1[a], #[trigger] t1[b]) by {
            assert(seq_less(s1[a + 1], s1[b + 1]));
        }
        assert forall|a: int, b: int| 0 <= a < b < t2.len() implies seq_less(#[trigger] t2[a], #[trigger] t2[b]) by {
            assert(seq_less(s2[a + 1], s2[b + 1]));
        }
        lemma_strictly_sorted_unique(t1, t2);
        assert forall|k: int| 0 <= k < s1.len() implies s1[k] == s2[k] by {
            if k > 0 {
                assert(s1[k] == t1[k - 1]);
                assert(s2[k] == t2[k - 1]);
            }
        }
        assert(s1 =~= s2);
    }
}

} // verus!
