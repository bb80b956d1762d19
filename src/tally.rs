//! Totals accumulated per key over a sequence of events, and the table that
//! holds them.
use vstd::prelude::*;
use crate::stamp::Stamp;

verus! {

/// The sum of `amount(e)` over the events `e` of `s` whose key is `k`.
pub open spec fn sum_keyed<E, K>(
    s: Seq<E>,
    key: spec_fn(E) -> Option<K>,
    amount: spec_fn(E) -> int,
    k: K,
) -> int
    decreases s.len(),
{
    if s.len() == 0 {
        0
    } else {
        sum_keyed(s.drop_last(), key, amount, k) + if key(s.last()) == Some(k) {
            amount(s.last())
        } else {
            0
        }
    }
}

/// Some event of `s` has the key `k`.
pub open spec fn has_key<E, K>(s: Seq<E>, key: spec_fn(E) -> Option<K>, k: K) -> bool {
    exists|i: int| 0 <= i < s.len() && key(s[i]) == Some(k)
}

/// One entry for each key that some event of `s` has, holding the sum of
/// their amounts.
pub open spec fn keyed_totals<E>(
    s: Seq<E>,
    key: spec_fn(E) -> Option<Seq<char>>,
    amount: spec_fn(E) -> int,
) -> Map<Seq<char>, int> {
    Map::new(|k: Seq<char>| has_key(s, key, k), |k: Seq<char>| sum_keyed(s, key, amount, k))
}

/// For each slot `t` below `n`, the sum of the amounts of the events whose key
/// is `t`.
pub open spec fn keyed_series<E>(
    s: Seq<E>,
    key: spec_fn(E) -> Option<int>,
    amount: spec_fn(E) -> int,
    n: nat,
) -> Seq<int> {
    Seq::new(n, |t: int| sum_keyed(s, key, amount, t))
}

pub proof fn lemma_sum_keyed_push<E, K>(
    s: Seq<E>,
    e: E,
    key: spec_fn(E) -> Option<K>,
    amount: spec_fn(E) -> int,
    k: K,
)
    ensures
        sum_keyed(s.push(e), key, amount, k) == sum_keyed(s, key, amount, k) + if key(e) == Some(
            k,
        ) {
            amount(e)
        } else {
            0
        },
{
    assert(s.push(e).drop_last() =~= s);
}

pub proof fn lemma_sum_keyed_absent<E, K>(
    s: Seq<E>,
    key: spec_fn(E) -> Option<K>,
    amount: spec_fn(E) -> int,
    k: K,
)
    requires
        !has_key(s, key, k),
    ensures
        sum_keyed(s, key, amount, k) == 0,
    decreases s.len(),
{
    if s.len() > 0 {
        assert(key(s[s.len() - 1]) != Some(k));
        assert forall|i: int| 0 <= i < s.drop_last().len() implies key(s.drop_last()[i]) != Some(
            k,
        ) by {
            assert(s.drop_last()[i] == s[i]);
        }
        lemma_sum_keyed_absent(s.drop_last(), key, amount, k);
    }
}

pub proof fn lemma_sum_keyed_bounds<E, K>(
    s: Seq<E>,
    key: spec_fn(E) -> Option<K>,
    amount: spec_fn(E) -> int,
    k: K,
    bound: int,
)
    requires
        forall|i: int| 0 <= i < s.len() ==> 0 <= #[trigger] amount(s[i]) <= bound,
    ensures
        0 <= sum_keyed(s, key, amount, k) <= s.len() * bound,
    decreases s.len(),
{
    if s.len() > 0 {
        assert forall|i: int| 0 <= i < s.drop_last().len() implies 0 <= #[trigger] amount(
            s.drop_last()[i],
        ) <= bound by {
            assert(s.drop_last()[i] == s[i]);
        }
        lemma_sum_keyed_bounds(s.drop_last(), key, amount, k, bound);
        assert(amount(s[s.len() - 1]) <= bound);
        assert(s.drop_last().len() * bound + bound == s.len() * bound) by (nonlinear_arith)
            requires
                s.drop_last().len() + 1 == s.len(),
        ;
    }
}

pub proof fn lemma_keyed_totals_push<E>(
    s: Seq<E>,
    e: E,
    key: spec_fn(E) -> Option<Seq<char>>,
    amount: spec_fn(E) -> int,
)
    ensures
        keyed_totals(s.push(e), key, amount) == (match key(e) {
            Some(k) => keyed_totals(s, key, amount).insert(
                k,
                (if keyed_totals(s, key, amount).contains_key(k) {
                    keyed_totals(s, key, amount)[k]
                } else {
                    0
                }) + amount(e),
            ),
            None => keyed_totals(s, key, amount),
        }),
{
    let old_m = keyed_totals(s, key, amount);
    let new_m = keyed_totals(s.push(e), key, amount);
    assert forall|k: Seq<char>| has_key(s.push(e), key, k) <==> (has_key(s, key, k) || key(e)
        == Some(k)) by {
        if has_key(s, key, k) {
            let i = choose|i: int| 0 <= i < s.len() && key(s[i]) == Some(k);
            assert(s.push(e)[i] == s[i]);
        }
        if key(e) == Some(k) {
            assert(s.push(e)[s.len() as int] == e);
        }
        if has_key(s.push(e), key, k) {
            let i = choose|i: int| 0 <= i < s.push(e).len() && key(s.push(e)[i]) == Some(k);
            if i < s.len() {
                assert(s.push(e)[i] == s[i]);
            }
        }
    }
    assert forall|k: Seq<char>| #[trigger]
        sum_keyed(s.push(e), key, amount, k) == sum_keyed(s, key, amount, k) + if key(e) == Some(
            k,
        ) {
            amount(e)
        } else {
            0
        } by {
        lemma_sum_keyed_push(s, e, key, amount, k);
    }
    match key(e) {
        Some(k0) => {
            if !old_m.contains_key(k0) {
                lemma_sum_keyed_absent(s, key, amount, k0);
            }
            assert(new_m =~= old_m.insert(
                k0,
                (if old_m.contains_key(k0) {
                    old_m[k0]
                } else {
                    0
                }) + amount(e),
            ));
        },
        None => {
            assert(new_m =~= old_m);
        },
    }
}

pub proof fn lemma_keyed_series_push<E>(
    s: Seq<E>,
    e: E,
    key: spec_fn(E) -> Option<int>,
    amount: spec_fn(E) -> int,
    n: nat,
)
    ensures
        keyed_series(s.push(e), key, amount, n) == (match key(e) {
            Some(t) => if 0 <= t < n {
                keyed_series(s, key, amount, n).update(
                    t,
                    keyed_series(s, key, amount, n)[t] + amount(e),
                )
            } else {
                keyed_series(s, key, amount, n)
            },
            None => keyed_series(s, key, amount, n),
        }),
{
    assert forall|t: int| #[trigger]
        sum_keyed(s.push(e), key, amount, t) == sum_keyed(s, key, amount, t) + if key(e) == Some(
            t,
        ) {
            amount(e)
        } else {
            0
        } by {
        lemma_sum_keyed_push(s, e, key, amount, t);
    }
    let a = keyed_series(s.push(e), key, amount, n);
    let b = keyed_series(s, key, amount, n);
    match key(e) {
        Some(t) => {
            if 0 <= t < n {
                assert(a =~= b.update(t, b[t] + amount(e)));
            } else {
                assert(a =~= b);
            }
        },
        None => {
            assert(a =~= b);
        },
    }
}

pub proof fn lemma_sum_keyed_remove<E, K>(
    s: Seq<E>,
    i: int,
    key: spec_fn(E) -> Option<K>,
    amount: spec_fn(E) -> int,
    k: K,
)
    requires
        0 <= i < s.len(),
    ensures
        sum_keyed(s, key, amount, k) == sum_keyed(s.remove(i), key, amount, k) + if key(s[i])
            == Some(k) {
            amount(s[i])
        } else {
            0
        },
    decreases s.len(),
{
    if i == s.len() - 1 {
        assert(s.remove(i) =~= s.drop_last());
    } else {
        lemma_sum_keyed_remove(s.drop_last(), i, key, amount, k);
        assert(s.remove(i).drop_last() =~= s.drop_last().remove(i));
        assert(s.remove(i).last() == s.last());
    }
}

/// Sums per key do not depend on the order of the events.
pub proof fn lemma_sum_keyed_permutation<E, K>(
    s1: Seq<E>,
    s2: Seq<E>,
    key: spec_fn(E) -> Option<K>,
    amount: spec_fn(E) -> int,
    k: K,
)
    requires
        s1.to_multiset() == s2.to_multiset(),
    ensures
        sum_keyed(s1, key, amount, k) == sum_keyed(s2, key, amount, k),
    decreases s1.len(),
{
    broadcast use vstd::seq_lib::group_to_multiset_ensures, vstd::multiset::group_multiset_axioms;

    vstd::seq_lib::to_multiset_len(s1);
    vstd::seq_lib::to_multiset_len(s2);
    if s1.len() > 0 {
        let x = s1.last();
        let rest = s1.drop_last();
        assert(rest.push(x) == s1);
        vstd::seq_lib::to_multiset_build(rest, x);
        assert(s2.to_multiset().count(x) > 0);
        vstd::seq_lib::to_multiset_contains(s2, x);
        let j = choose|j: int| 0 <= j < s2.len() && s2[j] == x;
        vstd::seq_lib::to_multiset_remove(s2, j);
        assert(rest.to_multiset() =~= s1.to_multiset().remove(x));
        lemma_sum_keyed_permutation(rest, s2.remove(j), key, amount, k);
        lemma_sum_keyed_remove(s2, j, key, amount, k);
    } else {
        assert(s2.len() == 0);
    }
}

/// Which keys are present does not depend on the order of the events.
pub proof fn lemma_has_key_permutation<E, K>(
    s1: Seq<E>,
    s2: Seq<E>,
    key: spec_fn(E) -> Option<K>,
    k: K,
)
    requires
        s1.to_multiset() == s2.to_multiset(),
    ensures
        has_key(s1, key, k) == has_key(s2, key, k),
{
    broadcast use vstd::seq_lib::to_multiset_contains;

    if has_key(s1, key, k) {
        let i = choose|i: int| 0 <= i < s1.len() && key(s1[i]) == Some(k);
        assert(s1.contains(s1[i]));
        assert(s2.to_multiset().count(s1[i]) > 0);
        assert(s2.contains(s1[i]));
    }
    if has_key(s2, key, k) {
        let i = choose|i: int| 0 <= i < s2.len() && key(s2[i]) == Some(k);
        assert(s2.contains(s2[i]));
        assert(s1.to_multiset().count(s2[i]) > 0);
        assert(s1.contains(s2[i]));
    }
}

pub proof fn lemma_keyed_totals_permutation<E>(
    s1: Seq<E>,
    s2: Seq<E>,
    key: spec_fn(E) -> Option<Seq<char>>,
    amount: spec_fn(E) -> int,
)
    requires
        s1.to_multiset() == s2.to_multiset(),
    ensures
        keyed_totals(s1, key, amount) == keyed_totals(s2, key, amount),
{
    assert forall|k: Seq<char>|
        #![auto]
        has_key(s1, key, k) == has_key(s2, key, k) && sum_keyed(s1, key, amount, k) == sum_keyed(
            s2,
            key,
            amount,
            k,
        ) by {
        lemma_has_key_permutation(s1, s2, key, k);
        lemma_sum_keyed_permutation(s1, s2, key, amount, k);
    }
    assert(keyed_totals(s1, key, amount) =~= keyed_totals(s2, key, amount));
}

pub proof fn lemma_keyed_series_permutation<E>(
    s1: Seq<E>,
    s2: Seq<E>,
    key: spec_fn(E) -> Option<int>,
    amount: spec_fn(E) -> int,
    n: nat,
)
    requires
        s1.to_multiset() == s2.to_multiset(),
    ensures
        keyed_series(s1, key, amount, n) == keyed_series(s2, key, amount, n),
{
    assert forall|t: int| 0 <= t < n implies #[trigger] sum_keyed(s1, key, amount, t) == sum_keyed(
        s2,
        key,
        amount,
        t,
    ) by {
        lemma_sum_keyed_permutation(s1, s2, key, amount, t);
    }
    assert(keyed_series(s1, key, amount, n) =~= keyed_series(s2, key, amount, n));
}

/// The amount recorded for `k` in a list of entries, searched from the end.
pub open spec fn entry_lookup(s: Seq<(String, u128)>, k: Seq<char>) -> Option<int>
    decreases s.len(),
{
    if s.len() == 0 {
        None
    } else if s.last().0@ == k {
        Some(s.last().1 as int)
    } else {
        entry_lookup(s.drop_last(), k)
    }
}

/// A table of totals keyed by name, with one entry per name.
#[derive(Clone, Debug)]
pub struct Tally {
    pub entries: Vec<(String, u128)>,
}

impl View for Tally {
    type V = Map<Seq<char>, int>;

    open spec fn view(&self) -> Map<Seq<char>, int> {
        Map::new(
            |k: Seq<char>| entry_lookup(self.entries@, k) is Some,
            |k: Seq<char>| entry_lookup(self.entries@, k)->0,
        )
    }
}

pub proof fn lemma_entry_lookup_index(s: Seq<(String, u128)>, k: Seq<char>)
    ensures
        entry_lookup(s, k) matches Some(v) ==> exists|i: int|
            0 <= i < s.len() && s[i].0@ == k && s[i].1 == v,
        entry_lookup(s, k) is None ==> forall|i: int| 0 <= i < s.len() ==> s[i].0@ != k,
    decreases s.len(),
{
    if s.len() > 0 {
        lemma_entry_lookup_index(s.drop_last(), k);
        if s.last().0@ != k {
            if let Some(v) = entry_lookup(s, k) {
                let i = choose|i: int|
                    0 <= i < s.drop_last().len() && s.drop_last()[i].0@ == k && s.drop_last()[i].1
                        == v;
                assert(s[i] == s.drop_last()[i]);
            }
            if entry_lookup(s, k) is None {
                assert forall|i: int| 0 <= i < s.len() implies s[i].0@ != k by {
                    if i < s.len() - 1 {
                        assert(s[i] == s.drop_last()[i]);
                    }
                }
            }
        }
    }
}

pub proof fn lemma_entry_lookup_update(s: Seq<(String, u128)>, j: int, x: (String, u128), k: Seq<char>)
    requires
        0 <= j < s.len(),
        x.0@ == s[j].0@,
        forall|a: int, b: int| 0 <= a < b < s.len() ==> s[a].0@ != s[b].0@,
    ensures
        entry_lookup(s.update(j, x), k) == if k == x.0@ {
            Some(x.1 as int)
        } else {
            entry_lookup(s, k)
        },
    decreases s.len(),
{
    let t = s.update(j, x);
    if j == s.len() - 1 {
        assert(t.drop_last() =~= s.drop_last());
    } else {
        assert(t.drop_last() =~= s.drop_last().update(j, x));
        lemma_entry_lookup_update(s.drop_last(), j, x, k);
        assert(s.last().0@ != x.0@);
    }
}

impl Tally {
    /// One entry per name.
    pub open spec fn wf(&self) -> bool {
        forall|a: int, b: int|
            0 <= a < b < self.entries.len() ==> self.entries@[a].0@ != self.entries@[b].0@
    }

    pub fn new() -> (r: Tally)
        ensures
            r.wf(),
            r@ == Map::<Seq<char>, int>::empty(),
    {
        let r = Tally { entries: Vec::new() };
        assert(r@ =~= Map::<Seq<char>, int>::empty());
        r
    }

    /// The position of the entry for `key`.
    fn position(&self, key: &String) -> (r: Option<usize>)
        ensures
            r matches Some(j) ==> j < self.entries.len() && self.entries@[j as int].0@ == key@,
            r is None ==> forall|i: int|
                0 <= i < self.entries.len() ==> self.entries@[i].0@ != key@,
    {
        let mut j: usize = 0;
        while j < self.entries.len()
            invariant
                j <= self.entries.len(),
                forall|i: int| 0 <= i < j ==> self.entries@[i].0@ != key@,
            decreases self.entries.len() - j,
        {
            if self.entries[j].0 == *key {
                return Some(j);
            }
            j = j + 1;
        }
        None
    }

    /// Adds `amount` to the total of `key`, starting from zero for a new key.
    pub fn add(&mut self, key: &String, amount: u128)
        requires
            old(self).wf(),
            (if old(self)@.contains_key(key@) {
                old(self)@[key@]
            } else {
                0
            }) + amount <= u128::MAX,
        ensures
            final(self).wf(),
            final(self)@ == old(self)@.insert(
                key@,
                (if old(self)@.contains_key(key@) {
                    old(self)@[key@]
                } else {
                    0
                }) + amount,
            ),
    {
        let ghost s = self.entries@;
        match self.position(key) {
            Some(j) => {
                proof {
                    lemma_entry_lookup_index(s, key@);
                    if entry_lookup(s, key@) is Some {
                        let i = choose|i: int|
                            0 <= i < s.len() && s[i].0@ == key@ && s[i].1 == entry_lookup(
                                s,
                                key@,
                            )->0;
                        assert(i == j as int);
                    }
                }
                let v = self.entries[j].1 + amount;
                self.entries.set(j, (key.clone(), v));
                proof {
                    assert(self.entries@ == s.update(j as int, self.entries@[j as int]));
                    assert forall|k: Seq<char>|
                        #![auto]
                        entry_lookup(self.entries@, k) == if k == key@ {
                            Some(v as int)
                        } else {
                            entry_lookup(s, k)
                        } by {
                        lemma_entry_lookup_update(s, j as int, self.entries@[j as int], k);
                    }
                    assert(self@ =~= old(self)@.insert(key@, old(self)@[key@] + amount));
                }
            },
            None => {
                proof {
                    lemma_entry_lookup_index(s, key@);
                }
                self.entries.push((key.clone(), amount));
                proof {
                    assert forall|k: Seq<char>|
                        #![auto]
                        entry_lookup(self.entries@, k) == if k == key@ {
                            Some(amount as int)
                        } else {
                            entry_lookup(s, k)
                        } by {
                        assert(self.entries@.drop_last() =~= s);
                    }
                    assert(self@ =~= old(self)@.insert(key@, amount as int));
                }
            },
        }
    }

    /// The total recorded for `key`.
    pub fn get(&self, key: &String) -> (r: Option<u128>)
        requires
            self.wf(),
        ensures
            r matches Some(v) ==> self@.contains_key(key@) && self@[key@] == v,
            r is None ==> !self@.contains_key(key@),
    {
        proof {
            lemma_entry_lookup_index(self.entries@, key@);
        }
        match self.position(key) {
            Some(j) => {
                proof {
                    if let Some(v) = entry_lookup(self.entries@, key@) {
                        let i = choose|i: int|
                            0 <= i < self.entries@.len() && self.entries@[i].0@ == key@
                                && self.entries@[i].1 == v;
                        assert(i == j as int);
                    }
                }
                Some(self.entries[j].1)
            },
            None => None,
        }
    }

    /// The number of names in the table.
    pub fn len(&self) -> (r: usize)
        requires
            self.wf(),
        ensures
            r == self@.dom().len(),
    {
        proof {
            self.lemma_dom_len();
        }
        self.entries.len()
    }

    pub proof fn lemma_dom_len(&self)
        requires
            self.wf(),
        ensures
            self@.dom().len() == self.entries.len(),
            self@.dom().finite(),
    {
        let keys = self.entries@.map_values(|e: (String, u128)| e.0@);
        assert forall|k: Seq<char>| #[trigger] self@.dom().contains(k) <==> keys.contains(k) by {
            lemma_entry_lookup_index(self.entries@, k);
            if keys.contains(k) {
                let i = choose|i: int| 0 <= i < keys.len() && keys[i] == k;
                assert(self.entries@[i].0@ == k);
            }
            if self@.dom().contains(k) {
                let i = choose|i: int|
                    0 <= i < self.entries@.len() && self.entries@[i].0@ == k && self.entries@[i].1
                        == entry_lookup(self.entries@, k)->0;
                assert(keys[i] == k);
            }
        }
        assert(self@.dom() =~= keys.to_set());
        assert(keys.no_duplicates()) by {
            assert forall|a: int, b: int| 0 <= a < keys.len() && 0 <= b < keys.len() && a != b
                implies keys[a] != keys[b] by {
                if a < b {
                } else {
                }
            }
        }
        keys.unique_seq_to_set();
    }
}

/// The stamp lies within the bounds that are given, both included.
pub open spec fn in_window(at: Stamp, start: Option<i64>, end: Option<i64>) -> bool {
    (start matches Some(s) ==> s <= at.secs) && (end matches Some(e) ==> at.secs <= e)
}

/// The number of seconds in the window, or zero when a bound is missing.
pub open spec fn window_len(start: Option<i64>, end: Option<i64>) -> nat {
    match (start, end) {
        (Some(s), Some(e)) => if s <= e {
            (e - s + 1) as nat
        } else {
            0
        },
        _ => 0,
    }
}

/// The first second of the window.
pub open spec fn window_start(start: Option<i64>) -> int {
    match start {
        Some(s) => s as int,
        None => 0,
    }
}

/// The bounds, when both are given, are in order and the window can be indexed.
pub open spec fn window_ok(start: Option<i64>, end: Option<i64>) -> bool {
    match (start, end) {
        (Some(s), Some(e)) => s <= e && e - s < usize::MAX,
        _ => true,
    }
}

pub open spec fn series_view(v: Seq<u128>) -> Seq<int> {
    v.map_values(|x: u128| x as int)
}

/// The length of the window's per-second series, as an index.
pub fn window_size(start: Option<i64>, end: Option<i64>) -> (n: usize)
    requires
        window_ok(start, end),
    ensures
        n == window_len(start, end),
{
    match (start, end) {
        (Some(s), Some(e)) => (e as i128 - s as i128 + 1) as usize,
        _ => 0,
    }
}

/// `n` zeros.
pub fn zeros(n: usize) -> (r: Vec<u128>)
    ensures
        r.len() == n,
        forall|i: int| 0 <= i < n ==> r@[i] == 0,
{
    let mut r: Vec<u128> = Vec::new();
    while r.len() < n
        invariant
            r.len() <= n,
            forall|i: int| 0 <= i < r.len() ==> r@[i] == 0,
        decreases n - r.len(),
    {
        r.push(0);
    }
    r
}

pub proof fn lemma_zero_series<E>(key: spec_fn(E) -> Option<int>, amount: spec_fn(E) -> int, n: nat, v: Seq<u128>)
    requires
        v.len() == n,
        forall|i: int| 0 <= i < n ==> v[i] == 0,
    ensures
        series_view(v) == keyed_series(Seq::<E>::empty(), key, amount, n),
{
    assert(series_view(v) =~= keyed_series(Seq::<E>::empty(), key, amount, n));
}

pub proof fn lemma_empty_totals<E>(key: spec_fn(E) -> Option<Seq<char>>, amount: spec_fn(E) -> int)
    ensures
        keyed_totals(Seq::<E>::empty(), key, amount) == Map::<Seq<char>, int>::empty(),
{
    assert(keyed_totals(Seq::<E>::empty(), key, amount) =~= Map::<Seq<char>, int>::empty());
}

/// Every total of a table is at most `bound` for each event.
pub proof fn lemma_totals_bounded<E>(
    s: Seq<E>,
    key: spec_fn(E) -> Option<Seq<char>>,
    amount: spec_fn(E) -> int,
    bound: int,
)
    requires
        forall|i: int| 0 <= i < s.len() ==> 0 <= #[trigger] amount(s[i]) <= bound,
    ensures
        forall|k: Seq<char>| #[trigger] keyed_totals(s, key, amount).contains_key(k) ==> 0 <= keyed_totals(s, key, amount)[k] <= s.len() * bound,
{
    assert forall|k: Seq<char>| #[trigger] keyed_totals(s, key, amount).contains_key(k) implies 0 <= keyed_totals(s, key, amount)[k] <= s.len() * bound by {
        lemma_sum_keyed_bounds(s, key, amount, k, bound);
    }
}

/// Every slot of a series is at most `bound` for each event.
pub proof fn lemma_series_bounded<E>(
    s: Seq<E>,
    key: spec_fn(E) -> Option<int>,
    amount: spec_fn(E) -> int,
    n: nat,
    bound: int,
)
    requires
        forall|i: int| 0 <= i < s.len() ==> 0 <= #[trigger] amount(s[i]) <= bound,
    ensures
        forall|t: int| 0 <= t < n ==> 0 <= #[trigger] keyed_series(s, key, amount, n)[t] <= s.len() * bound,
{
    assert forall|t: int| 0 <= t < n implies 0 <= #[trigger] keyed_series(s, key, amount, n)[t] <= s.len() * bound by {
        lemma_sum_keyed_bounds(s, key, amount, t, bound);
    }
}

} // verus!
