//! A map from keys to values kept as a vector in ascending key order.
//!
//! It serves as the buffer into which a compaction folds the log, one entry
//! per key holding the last word of the log about it, and as an ordered
//! in-memory store.
use crate::index::{ascending, find, has_key, lemma_find_at, position};
use crate::order::{
    key_lt, lemma_key_lt_asymmetric, lemma_key_lt_total, lemma_key_lt_transitive,
    lemma_rank_meaning, rank, Rank,
};
use vstd::prelude::*;

verus! {

/// The sequence that holds `value` under `key` and is otherwise as `s`:
/// the entry is replaced where the key is present, and put in its place in
/// the key order where it is not.
pub open spec fn upsert<V>(s: Seq<(Seq<char>, V)>, key: Seq<char>, value: V) -> Seq<
    (Seq<char>, V),
>
    decreases s.len(),
{
    if s.len() == 0 {
        seq![(key, value)]
    } else if s.last().0 == key {
        s.drop_last().push((key, value))
    } else if key_lt(s.last().0, key) {
        s.push((key, value))
    } else {
        upsert(s.drop_last(), key, value).push(s.last())
    }
}

/// The sequence that is as `s` without the entry under `key`.
pub open spec fn erase<V>(s: Seq<(Seq<char>, V)>, key: Seq<char>) -> Seq<(Seq<char>, V)> {
    if has_key(s, key) {
        s.remove(position(s, key))
    } else {
        s
    }
}

/// Whether `at` is where `key` belongs in `s`: all entries before it have
/// smaller keys, and the entry at it, if any, has the key or a larger one.
pub open spec fn is_place<V>(s: Seq<(Seq<char>, V)>, key: Seq<char>, at: int) -> bool {
    &&& 0 <= at <= s.len()
    &&& forall|i: int| 0 <= i < at ==> key_lt((#[trigger] s[i]).0, key)
    &&& forall|i: int|
        at <= i < s.len() ==> (#[trigger] s[i]).0 == key && i == at || key_lt(key, s[i].0)
}

/// Every key has a place in an ascending sequence.
pub proof fn lemma_place_exists<V>(s: Seq<(Seq<char>, V)>, key: Seq<char>) -> (at: int)
    requires
        ascending(s),
    ensures
        is_place(s, key, at),
    decreases s.len(),
{
    if s.len() == 0 {
        0
    } else if key_lt(s.last().0, key) {
        assert forall|i: int| 0 <= i < s.len() implies key_lt((#[trigger] s[i]).0, key) by {
            if i < s.len() - 1 {
                lemma_key_lt_transitive(s[i].0, s.last().0, key);
            }
        }
        s.len() as int
    } else {
        let front = s.drop_last();
        let at = lemma_place_exists(front, key);
        assert forall|i: int| at <= i < s.len() implies (#[trigger] s[i]).0 == key && i == at
            || key_lt(key, s[i].0) by {
            if i == s.len() - 1 {
                if s[i].0 != key {
                    lemma_key_lt_total(s[i].0, key);
                } else if at < i {
                    assert(front[at].0 == key || key_lt(key, front[at].0));
                    assert(key_lt(s[at].0, s[i].0));
                    lemma_key_lt_asymmetric(s[at].0, s[i].0);
                    if front[at].0 != key {
                        lemma_key_lt_asymmetric(key, front[at].0);
                    }
                }
            } else {
                assert(front[i] == s[i]);
            }
        }
        assert forall|i: int| 0 <= i < at implies key_lt((#[trigger] s[i]).0, key) by {
            assert(front[i] == s[i]);
        }
        at
    }
}

/// Where the key is absent, `upsert` inserts at its place.
pub proof fn lemma_upsert_inserts<V>(s: Seq<(Seq<char>, V)>, key: Seq<char>, value: V, at: int)
    requires
        is_place(s, key, at),
        at == s.len() || s[at].0 != key,
    ensures
        upsert(s, key, value) == s.insert(at, (key, value)),
    decreases s.len(),
{
    if s.len() == 0 {
        assert(upsert(s, key, value) =~= s.insert(at, (key, value)));
    } else {
        let last = s.last();
        let front = s.drop_last();
        if at == s.len() {
            lemma_key_lt_asymmetric(last.0, key);
            assert(upsert(s, key, value) =~= s.insert(at, (key, value)));
        } else {
            assert(key_lt(key, last.0));
            lemma_key_lt_asymmetric(key, last.0);
            assert forall|i: int| 0 <= i < at implies key_lt((#[trigger] front[i]).0, key) by {
                assert(front[i] == s[i]);
            }
            assert forall|i: int| at <= i < front.len() implies (#[trigger] front[i]).0 == key && i
                == at || key_lt(key, front[i].0) by {
                assert(front[i] == s[i]);
            }
            if at < front.len() {
                assert(front[at] == s[at]);
            }
            lemma_upsert_inserts(front, key, value, at);
            assert(upsert(s, key, value) =~= s.insert(at, (key, value)));
        }
    }
}

/// Where the key is present, `upsert` replaces the entry at its place.
pub proof fn lemma_upsert_replaces<V>(s: Seq<(Seq<char>, V)>, key: Seq<char>, value: V, at: int)
    requires
        is_place(s, key, at),
        at < s.len(),
        s[at].0 == key,
    ensures
        upsert(s, key, value) == s.update(at, (key, value)),
    decreases s.len(),
{
    let last = s.last();
    let front = s.drop_last();
    if at == s.len() - 1 {
        assert(upsert(s, key, value) =~= s.update(at, (key, value)));
    } else {
        assert(key_lt(key, last.0));
        lemma_key_lt_asymmetric(key, last.0);
        assert forall|i: int| 0 <= i < at implies key_lt((#[trigger] front[i]).0, key) by {
            assert(front[i] == s[i]);
        }
        assert forall|i: int| at <= i < front.len() implies (#[trigger] front[i]).0 == key && i
            == at || key_lt(key, front[i].0) by {
            assert(front[i] == s[i]);
        }
        assert(front[at] == s[at]);
        lemma_upsert_replaces(front, key, value, at);
        assert(upsert(s, key, value) =~= s.update(at, (key, value)));
    }
}

/// `upsert` keeps the sequence ascending, puts the value under the key and
/// leaves every other key as it was.
pub proof fn lemma_upsert<V>(s: Seq<(Seq<char>, V)>, key: Seq<char>, value: V)
    requires
        ascending(s),
    ensures
        ascending(upsert(s, key, value)),
        forall|k: Seq<char>|
            #![trigger find(upsert(s, key, value), k)]
            find(upsert(s, key, value), k) == if k == key {
                Some(value)
            } else {
                find(s, k)
            },
{
    let at = lemma_place_exists(s, key);
    let u = upsert(s, key, value);
    if at < s.len() && s[at].0 == key {
        lemma_upsert_replaces(s, key, value, at);
        assert forall|i: int, j: int| 0 <= i < j < u.len() implies key_lt(
            (#[trigger] u[i]).0,
            (#[trigger] u[j]).0,
        ) by {
            assert(u[i].0 == s[i].0 && u[j].0 == s[j].0);
        }
        assert forall|k: Seq<char>| #![trigger find(u, k)] find(u, k) == if k == key {
            Some(value)
        } else {
            find(s, k)
        } by {
            assert(u[at] == (key, value));
            if has_key(u, k) {
                let p = position(u, k);
                lemma_find_at(u, p);
                lemma_find_at(u, at);
                assert(s[p].0 == k);
                lemma_find_at(s, p);
            } else if has_key(s, k) {
                let p = position(s, k);
                assert(u[p].0 == k);
            }
        }
    } else {
        lemma_upsert_inserts(s, key, value, at);
        assert forall|i: int, j: int| 0 <= i < j < u.len() implies key_lt(
            (#[trigger] u[i]).0,
            (#[trigger] u[j]).0,
        ) by {
            let a = if i < at { s[i] } else if i == at { (key, value) } else { s[i - 1] };
            let b = if j < at { s[j] } else if j == at { (key, value) } else { s[j - 1] };
            assert(u[i] == a && u[j] == b);
        }
        assert forall|k: Seq<char>| #![trigger find(u, k)] find(u, k) == if k == key {
            Some(value)
        } else {
            find(s, k)
        } by {
            if has_key(u, k) {
                let p = position(u, k);
                lemma_find_at(u, p);
                if p < at {
                    assert(u[p] == s[p]);
                    assert(s[p].0 == k);
                    lemma_find_at(s, p);
                    lemma_key_lt_asymmetric(k, key);
                } else if p > at {
                    assert(u[p] == s[p - 1]);
                    assert(s[p - 1].0 == k);
                    lemma_find_at(s, p - 1);
                    lemma_key_lt_asymmetric(key, k);
                } else {
                    assert(u[p] == (key, value));
                }
            } else if has_key(s, k) {
                let p = position(s, k);
                if p < at {
                    assert(u[p].0 == k);
                } else {
                    assert(u[p + 1].0 == k);
                }
            } else {
                assert(u[at].0 == key);
            }
        }
    }
}

/// A property that holds of every entry of `s` and of the new entry holds
/// of every entry of the result of `upsert`.
pub proof fn lemma_upsert_keeps<V>(
    s: Seq<(Seq<char>, V)>,
    key: Seq<char>,
    value: V,
    pred: spec_fn((Seq<char>, V)) -> bool,
)
    requires
        forall|p: int| 0 <= p < s.len() ==> pred(#[trigger] s[p]),
        pred((key, value)),
    ensures
        forall|p: int|
            0 <= p < upsert(s, key, value).len() ==> pred(#[trigger] upsert(s, key, value)[p]),
    decreases s.len(),
{
    let u = upsert(s, key, value);
    if s.len() > 0 {
        let front = s.drop_last();
        assert forall|p: int| 0 <= p < front.len() implies pred(#[trigger] front[p]) by {
            assert(front[p] == s[p]);
        }
        if s.last().0 != key && !key_lt(s.last().0, key) {
            lemma_upsert_keeps(front, key, value, pred);
            let inner = upsert(front, key, value);
            assert forall|p: int| 0 <= p < u.len() implies pred(#[trigger] u[p]) by {
                if p < inner.len() {
                    assert(u[p] == inner[p]);
                } else {
                    assert(u[p] == s.last());
                }
            }
        } else if s.last().0 == key {
            assert forall|p: int| 0 <= p < u.len() implies pred(#[trigger] u[p]) by {
                if p < front.len() {
                    assert(u[p] == front[p]);
                }
            }
        } else {
            assert forall|p: int| 0 <= p < u.len() implies pred(#[trigger] u[p]) by {
                if p < s.len() {
                    assert(u[p] == s[p]);
                }
            }
        }
    }
}

/// `erase` keeps the sequence ascending, leaves nothing under the key and
/// every other key as it was.
pub proof fn lemma_erase<V>(s: Seq<(Seq<char>, V)>, key: Seq<char>)
    requires
        ascending(s),
    ensures
        ascending(erase(s, key)),
        forall|k: Seq<char>|
            #![trigger find(erase(s, key), k)]
            find(erase(s, key), k) == if k == key {
                None
            } else {
                find(s, k)
            },
{
    let e = erase(s, key);
    if has_key(s, key) {
        let at = position(s, key);
        assert forall|i: int, j: int| 0 <= i < j < e.len() implies key_lt(
            (#[trigger] e[i]).0,
            (#[trigger] e[j]).0,
        ) by {
            let a = if i < at { s[i] } else { s[i + 1] };
            let b = if j < at { s[j] } else { s[j + 1] };
            assert(e[i] == a && e[j] == b);
        }
        assert forall|k: Seq<char>| #![trigger find(e, k)] find(e, k) == if k == key {
            None
        } else {
            find(s, k)
        } by {
            if has_key(e, k) {
                let p = position(e, k);
                lemma_find_at(e, p);
                let q = if p < at { p } else { p + 1 };
                assert(s[q].0 == k);
                lemma_find_at(s, q);
                if q < at {
                    lemma_key_lt_asymmetric(s[q].0, s[at].0);
                } else {
                    lemma_key_lt_asymmetric(s[at].0, s[q].0);
                }
            } else if has_key(s, k) {
                let p = position(s, k);
                if p < at {
                    assert(e[p].0 == k);
                } else if p > at {
                    assert(e[p - 1].0 == k);
                }
            }
        }
    }
}

/// The keys and values of a vector of entries, as mathematical values.
pub open spec fn entries_view<V: DeepView>(entries: Seq<(String, V)>) -> Seq<(Seq<char>, V::V)> {
    Seq::new(entries.len(), |i: int| (entries[i].0@, entries[i].1.deep_view()))
}

/// A map from string keys to values, kept in ascending key order.
pub struct SortedMap<V: DeepView> {
    entries: Vec<(String, V)>,
}

impl<V: DeepView> View for SortedMap<V> {
    type V = Seq<(Seq<char>, V::V)>;

    closed spec fn view(&self) -> Seq<(Seq<char>, V::V)> {
        entries_view(self.entries@)
    }
}

impl<V: DeepView> SortedMap<V> {
    #[verifier::type_invariant]
    spec fn keys_ascend(self) -> bool {
        ascending(self@)
    }

    /// An empty map.
    pub fn new() -> (m: Self)
        ensures
            m@ == Seq::<(Seq<char>, V::V)>::empty(),
    {
        let m = SortedMap { entries: Vec::new() };
        assert(m@ =~= Seq::<(Seq<char>, V::V)>::empty());
        m
    }

    /// Number of entries.
    pub fn len(&self) -> (n: usize)
        ensures
            n == self@.len(),
            ascending(self@),
    {
        proof {
            use_type_invariant(self);
        }
        self.entries.len()
    }

    /// The key of the `i`-th entry in key order.
    pub fn key_at(&self, i: usize) -> (k: &String)
        requires
            i < self@.len(),
        ensures
            k@ == self@[i as int].0,
    {
        &self.entries[i].0
    }

    /// The value of the `i`-th entry in key order.
    pub fn value_at(&self, i: usize) -> (v: &V)
        requires
            i < self@.len(),
        ensures
            v.deep_view() == self@[i as int].1,
    {
        &self.entries[i].1
    }

    /// The place of `key` in the map, and whether the key stands there.
    fn locate(&self, key: &str) -> (r: (usize, bool))
        ensures
            is_place(self@, key@, r.0 as int),
            r.1 <==> r.0 < self@.len() && self@[r.0 as int].0 == key@,
    {
        proof {
            use_type_invariant(self);
        }
        let mut lo: usize = 0;
        let mut hi: usize = self.entries.len();
        while lo < hi
            invariant
                ascending(self@),
                0 <= lo <= hi <= self@.len(),
                self@.len() == self.entries@.len(),
                forall|i: int| 0 <= i < lo ==> key_lt((#[trigger] self@[i]).0, key@),
                forall|i: int| hi <= i < self@.len() ==> key_lt(key@, (#[trigger] self@[i]).0),
            decreases hi - lo,
        {
            let mid = lo + (hi - lo) / 2;
            let probe = self.entries[mid].0.as_str();
            assert(probe@ == self@[mid as int].0);
            proof {
                lemma_rank_meaning(key@, probe@);
            }
            match rank(key, probe) {
                Rank::Same => {
                    assert forall|i: int| 0 <= i < mid implies key_lt(
                        (#[trigger] self@[i]).0,
                        key@,
                    ) by {
                        assert(key_lt(self@[i].0, self@[mid as int].0));
                    }
                    assert forall|i: int| mid <= i < self@.len() implies (#[trigger] self@[i]).0
                        == key@ && i == mid || key_lt(key@, self@[i].0) by {
                        if i > mid {
                            assert(key_lt(self@[mid as int].0, self@[i].0));
                        }
                    }
                    return (mid, true);
                },
                Rank::Before => {
                    assert forall|i: int| mid <= i < self@.len() implies key_lt(
                        key@,
                        (#[trigger] self@[i]).0,
                    ) by {
                        if i > mid {
                            assert(key_lt(self@[mid as int].0, self@[i].0));
                            lemma_key_lt_transitive(key@, self@[mid as int].0, self@[i].0);
                        }
                    }
                    hi = mid;
                },
                Rank::After => {
                    assert forall|i: int| 0 <= i < mid + 1 implies key_lt(
                        (#[trigger] self@[i]).0,
                        key@,
                    ) by {
                        if i < mid {
                            assert(key_lt(self@[i].0, self@[mid as int].0));
                            lemma_key_lt_transitive(self@[i].0, self@[mid as int].0, key@);
                        }
                    }
                    lo = mid + 1;
                },
            }
        }
        proof {
            if lo < self@.len() {
                lemma_key_lt_asymmetric(key@, self@[lo as int].0);
            }
        }
        (lo, false)
    }

    /// The value under `key`, if the map holds one.
    pub fn get(&self, key: &str) -> (r: Option<&V>)
        ensures
            ascending(self@),
            r is Some <==> find(self@, key@) is Some,
            r matches Some(v) ==> find(self@, key@) == Some(v.deep_view()),
    {
        proof {
            use_type_invariant(self);
        }
        let (at, hit) = self.locate(key);
        if hit {
            proof {
                lemma_find_at(self@, at as int);
            }
            Some(&self.entries[at].1)
        } else {
            proof {
                if has_key(self@, key@) {
                    let p = position(self@, key@);
                    if p < at {
                        lemma_key_lt_asymmetric(self@[p].0, key@);
                    } else {
                        lemma_key_lt_asymmetric(key@, self@[p].0);
                    }
                }
            }
            None
        }
    }

    /// Puts `value` under `key`, replacing what was there.
    pub fn insert(&mut self, key: String, value: V)
        ensures
            final(self)@ == upsert(old(self)@, key@, value.deep_view()),
            ascending(old(self)@),
            ascending(final(self)@),
    {
        proof {
            use_type_invariant(&*self);
        }
        let ghost before = self@;
        let ghost entry = (key@, value.deep_view());
        let (at, hit) = self.locate(key.as_str());
        proof {
            lemma_upsert(before, key@, value.deep_view());
        }
        if hit {
            proof {
                lemma_upsert_replaces(before, key@, value.deep_view(), at as int);
            }
            let mut entries: Vec<(String, V)> = Vec::new();
            core::mem::swap(&mut self.entries, &mut entries);
            entries.set(at, (key, value));
            assert(entries_view(entries@) =~= before.update(at as int, entry));
            core::mem::swap(&mut self.entries, &mut entries);
        } else {
            proof {
                lemma_upsert_inserts(before, key@, value.deep_view(), at as int);
            }
            let mut entries: Vec<(String, V)> = Vec::new();
            core::mem::swap(&mut self.entries, &mut entries);
            entries.insert(at, (key, value));
            assert(entries_view(entries@) =~= before.insert(at as int, entry));
            core::mem::swap(&mut self.entries, &mut entries);
        }
    }

    /// Takes out the entry under `key` and returns its value, if there was
    /// one.
    pub fn remove(&mut self, key: &str) -> (r: Option<V>)
        ensures
            final(self)@ == erase(old(self)@, key@),
            ascending(old(self)@),
            ascending(final(self)@),
            r is Some <==> find(old(self)@, key@) is Some,
            r matches Some(v) ==> find(old(self)@, key@) == Some(v.deep_view()),
    {
        proof {
            use_type_invariant(&*self);
        }
        let ghost before = self@;
        let (at, hit) = self.locate(key);
        proof {
            lemma_erase(before, key@);
        }
        if hit {
            proof {
                lemma_find_at(before, at as int);
                let p = position(before, key@);
                if p < at {
                    lemma_key_lt_asymmetric(before[p].0, key@);
                } else if p > at {
                    lemma_key_lt_asymmetric(key@, before[p].0);
                }
            }
            let mut entries: Vec<(String, V)> = Vec::new();
            core::mem::swap(&mut self.entries, &mut entries);
            let (_, value) = entries.remove(at);
            assert(entries_view(entries@) =~= before.remove(at as int));
            core::mem::swap(&mut self.entries, &mut entries);
            Some(value)
        } else {
            proof {
                if has_key(before, key@) {
                    let p = position(before, key@);
                    if p < at {
                        lemma_key_lt_asymmetric(before[p].0, key@);
                    } else {
                        lemma_key_lt_asymmetric(key@, before[p].0);
                    }
                }
            }
            None
        }
    }
}

} // verus!
