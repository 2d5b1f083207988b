//! Stores of fixed-width keys and values in memory.
//!
//! A key is eight bytes and a value 256 bytes. Besides put, get and delete
//! a store can be scanned: a scan hands out keys from a cursor on and tells
//! the cursor at which the next scan goes on.
use crate::order::bytes_lt;
use std::collections::HashMap;
use vstd::bytes::*;
use vstd::prelude::*;
use vstd::std_specs::iter::IteratorSpec;

verus! {

broadcast use vstd::std_specs::hash::group_hash_axioms;

/// The number that stands for a key: its eight bytes read as a big-endian
/// integer, so that numbers compare as the keys do byte by byte.
pub open spec fn key_number(key: Seq<u8>) -> u64 {
    spec_u64_from_le_bytes(key.reverse())
}

/// The key that a number stands for.
pub open spec fn number_key(n: u64) -> Seq<u8> {
    spec_u64_to_le_bytes(n).reverse()
}

/// Keys of eight bytes and numbers stand for each other one to one.
pub proof fn lemma_key_number(key: Seq<u8>, n: u64)
    ensures
        number_key(n).len() == 8,
        key_number(number_key(n)) == n,
        key.len() == 8 ==> number_key(key_number(key)) == key,
{
    lemma_auto_spec_u64_to_from_le_bytes();
    let le = spec_u64_to_le_bytes(n);
    assert(le.reverse().reverse() =~= le);
    if key.len() == 8 {
        assert(key.reverse().len() == 8);
        assert(key.reverse().reverse() =~= key);
    }
}

/// Numbers compare as their keys do byte by byte: a key comes before
/// another in the order of byte strings exactly when its number is the
/// smaller.
pub proof fn lemma_key_number_order(a: Seq<u8>, b: Seq<u8>)
    requires
        a.len() == 8,
        b.len() == 8,
    ensures
        key_number(a) < key_number(b) <==> bytes_lt(a, b),
{
    let n = key_number(a);
    let m = key_number(b);
    lemma_key_number(a, n);
    lemma_key_number(b, m);
    spec_u64_to_le_bytes_to_open(n);
    spec_u64_to_le_bytes_to_open(m);
    let x = spec_u64_to_le_bytes_open(n);
    let y = spec_u64_to_le_bytes_open(m);
    assert(forall|i: int| 0 <= i < 8 ==> a[i] == x[7 - i]);
    assert(forall|i: int| 0 <= i < 8 ==> b[i] == y[7 - i]);
    lemma_lexicographic(a, b, 0);
    assert(a.skip(0) =~= a && b.skip(0) =~= b);
    assert(n < m <==> lex_from(a, b, 0)) by {
        let (a0, a1, a2, a3) = (a[0], a[1], a[2], a[3]);
        let (a4, a5, a6, a7) = (a[4], a[5], a[6], a[7]);
        let (b0, b1, b2, b3) = (b[0], b[1], b[2], b[3]);
        let (b4, b5, b6, b7) = (b[4], b[5], b[6], b[7]);
        assert(lex_from(a, b, 0) == lex8(
            (a0, a1, a2, a3, a4, a5, a6, a7),
            (b0, b1, b2, b3, b4, b5, b6, b7),
        )) by {
            reveal_with_fuel(lex_from, 9);
        }
        assert(a0 == ((n >> 56) & 0xff) as u8 && a1 == ((n >> 48) & 0xff) as u8
            && a2 == ((n >> 40) & 0xff) as u8 && a3 == ((n >> 32) & 0xff) as u8
            && a4 == ((n >> 24) & 0xff) as u8 && a5 == ((n >> 16) & 0xff) as u8
            && a6 == ((n >> 8) & 0xff) as u8 && a7 == (n & 0xff) as u8);
        assert(b0 == ((m >> 56) & 0xff) as u8 && b1 == ((m >> 48) & 0xff) as u8
            && b2 == ((m >> 40) & 0xff) as u8 && b3 == ((m >> 32) & 0xff) as u8
            && b4 == ((m >> 24) & 0xff) as u8 && b5 == ((m >> 16) & 0xff) as u8
            && b6 == ((m >> 8) & 0xff) as u8 && b7 == (m & 0xff) as u8);
        assert(n < m <==> (if a0 != b0 {
            a0 < b0
        } else if a1 != b1 {
            a1 < b1
        } else if a2 != b2 {
            a2 < b2
        } else if a3 != b3 {
            a3 < b3
        } else if a4 != b4 {
            a4 < b4
        } else if a5 != b5 {
            a5 < b5
        } else if a6 != b6 {
            a6 < b6
        } else {
            a7 < b7
        })) by (bit_vector)
            requires
                a0 == ((n >> 56) & 0xff) as u8,
                a1 == ((n >> 48) & 0xff) as u8,
                a2 == ((n >> 40) & 0xff) as u8,
                a3 == ((n >> 32) & 0xff) as u8,
                a4 == ((n >> 24) & 0xff) as u8,
                a5 == ((n >> 16) & 0xff) as u8,
                a6 == ((n >> 8) & 0xff) as u8,
                a7 == (n & 0xff) as u8,
                b0 == ((m >> 56) & 0xff) as u8,
                b1 == ((m >> 48) & 0xff) as u8,
                b2 == ((m >> 40) & 0xff) as u8,
                b3 == ((m >> 32) & 0xff) as u8,
                b4 == ((m >> 24) & 0xff) as u8,
                b5 == ((m >> 16) & 0xff) as u8,
                b6 == ((m >> 8) & 0xff) as u8,
                b7 == (m & 0xff) as u8,
        ;
    }
}

/// Whether `a` comes before `b` from place `i` on, both of one length.
spec fn lex_from(a: Seq<u8>, b: Seq<u8>, i: int) -> bool
    decreases a.len() - i,
{
    if i < 0 || i >= a.len() {
        false
    } else if a[i] != b[i] {
        a[i] < b[i]
    } else {
        lex_from(a, b, i + 1)
    }
}

/// Whether the eight bytes `a` come before the eight bytes `b`, byte by
/// byte.
spec fn lex8(a: (u8, u8, u8, u8, u8, u8, u8, u8), b: (u8, u8, u8, u8, u8, u8, u8, u8)) -> bool {
    if a.0 != b.0 {
        a.0 < b.0
    } else if a.1 != b.1 {
        a.1 < b.1
    } else if a.2 != b.2 {
        a.2 < b.2
    } else if a.3 != b.3 {
        a.3 < b.3
    } else if a.4 != b.4 {
        a.4 < b.4
    } else if a.5 != b.5 {
        a.5 < b.5
    } else if a.6 != b.6 {
        a.6 < b.6
    } else {
        a.7 < b.7
    }
}

/// The order of byte strings of one length, told place by place.
proof fn lemma_lexicographic(a: Seq<u8>, b: Seq<u8>, i: int)
    requires
        a.len() == b.len(),
        0 <= i <= a.len(),
    ensures
        bytes_lt(a.skip(i), b.skip(i)) == lex_from(a, b, i),
    decreases a.len() - i,
{
    if i < a.len() {
        lemma_lexicographic(a, b, i + 1);
        assert(a.skip(i).drop_first() =~= a.skip(i + 1));
        assert(b.skip(i).drop_first() =~= b.skip(i + 1));
    }
}

/// The number that stands for `key`.
pub fn to_number(key: &[u8; 8]) -> (n: u64)
    ensures
        n == key_number(key@),
{
    let mut reversed: [u8; 8] = [0u8; 8];
    let mut i: usize = 0;
    while i < 8
        invariant
            i <= 8,
            forall|j: int| 0 <= j < i ==> reversed@[j] == key@[7 - j],
        decreases 8 - i,
    {
        reversed[i] = key[7 - i];
        i += 1;
    }
    assert(reversed@ =~= key@.reverse());
    u64_from_le_bytes(reversed.as_slice())
}

/// The key that `n` stands for.
pub fn to_key(n: u64) -> (key: [u8; 8])
    ensures
        key@ == number_key(n),
{
    let le = u64_to_le_bytes(n);
    let mut key: [u8; 8] = [0u8; 8];
    let mut i: usize = 0;
    while i < 8
        invariant
            i <= 8,
            le@.len() == 8,
            forall|j: int| 0 <= j < i ==> key@[j] == le@[7 - j],
        decreases 8 - i,
    {
        key[i] = le[7 - i];
        i += 1;
    }
    assert(key@ =~= le@.reverse());
    key
}

/// Number of keys a scan hands out from a store of `len` keys, from the
/// cursor `at` on and at most `count` of them.
pub open spec fn scan_len(len: nat, at: usize, count: usize) -> nat {
    if at >= len {
        0
    } else if len - at < count {
        (len - at) as nat
    } else {
        count as nat
    }
}

/// An abstraction of key/value storage in memory. It works like a map from
/// keys of eight bytes to values of 256 bytes that can also be scanned.
pub trait MemStore {
    /// The values that the store holds, each under its key.
    spec fn contents(&self) -> Map<Seq<u8>, Seq<u8>>;

    /// Puts `value` under `key`, replacing what was there.
    fn put(&mut self, key: [u8; 8], value: [u8; 256])
        ensures
            final(self).contents() == old(self).contents().insert(key@, value@),
    ;

    /// The value under `key`, or `None` where there is none.
    fn get(&self, key: &[u8; 8]) -> (r: Option<&[u8; 256]>)
        ensures
            match r {
                Some(value) => self.contents().contains_key(key@) && self.contents()[key@]
                    == value@,
                None => !self.contents().contains_key(key@),
            },
    ;

    /// Takes `key` out of the store and returns the value it had, if any.
    fn delete(&mut self, key: [u8; 8]) -> (r: Option<[u8; 256]>)
        ensures
            final(self).contents() == old(self).contents().remove(key@),
            match r {
                Some(value) => old(self).contents().contains_key(key@) && old(self).contents()[key@] == value@,
                None => !old(self).contents().contains_key(key@),
            },
    ;

    /// Scans at most `count` keys from the cursor `at` on. Returns the
    /// cursor for the next scan and the keys scanned: keys of the store,
    /// no key twice, and as many as are left from the cursor on, up to
    /// `count`.
    fn scan(&self, at: usize, count: usize) -> (r: (usize, Vec<[u8; 8]>))
        ensures
            self.contents().dom().finite(),
            r.1@.len() == scan_len(self.contents().dom().len(), at, count),
            forall|i: int| 0 <= i < r.1@.len() ==> self.contents().contains_key(#[trigger] r.1@[i]@),
            forall|i: int, j: int|
                0 <= i < j < r.1@.len() ==> (#[trigger] r.1@[i])@ != (#[trigger] r.1@[j])@,
            r.0 == 0 || r.0 == at + r.1@.len(),
    ;
}

/// The store that a map from key numbers to values stands for: each
/// value under the key whose number it is held under.
pub open spec fn held(m: Map<u64, [u8; 256]>) -> Map<Seq<u8>, Seq<u8>> {
    Map::new(
        |k: Seq<u8>| k.len() == 8 && m.contains_key(key_number(k)),
        |k: Seq<u8>| m[key_number(k)]@,
    )
}

/// The keys of the store that a map stands for are in one-to-one
/// correspondence with the numbers of the map.
pub proof fn lemma_held_dom(m: Map<u64, [u8; 256]>)
    requires
        m.dom().finite(),
    ensures
        held(m).dom().finite(),
        held(m).dom().len() == m.dom().len(),
        forall|n: u64| m.contains_key(n) ==> held(m).contains_key(#[trigger] number_key(n)),
{
    let f = |n: u64| number_key(n);
    assert forall|a: u64, b: u64| #[trigger] f(a) == #[trigger] f(b) implies a == b by {
        lemma_key_number(Seq::empty(), a);
        lemma_key_number(Seq::empty(), b);
    }
    assert forall|n: u64| m.contains_key(n) implies held(m).contains_key(
        #[trigger] number_key(n),
    ) by {
        lemma_key_number(Seq::empty(), n);
    }
    assert(m.dom().map(f) =~= held(m).dom()) by {
        assert forall|k: Seq<u8>| held(m).dom().contains(k) implies m.dom().map(f).contains(
            k,
        ) by {
            lemma_key_number(k, 0);
            assert(f(key_number(k)) == k);
            assert(m.dom().contains(key_number(k)));
        }
        assert forall|k: Seq<u8>| m.dom().map(f).contains(k) implies held(m).dom().contains(
            k,
        ) by {
            let n = choose|n: u64| m.dom().contains(n) && f(n) == k;
            lemma_key_number(Seq::empty(), n);
        }
    }
    vstd::set_lib::lemma_map_size(m.dom(), held(m).dom(), f);
}

/// Putting a value under the number of a key puts it under the key.
pub proof fn lemma_held_insert(m: Map<u64, [u8; 256]>, key: Seq<u8>, value: [u8; 256])
    requires
        key.len() == 8,
    ensures
        held(m.insert(key_number(key), value)) == held(m).insert(key, value@),
{
    assert forall|k: Seq<u8>| k.len() == 8 && k != key implies key_number(k) != key_number(
        key,
    ) by {
        lemma_key_number(k, 0);
        lemma_key_number(key, 0);
    }
    assert(held(m.insert(key_number(key), value)) =~= held(m).insert(key, value@));
}

/// Taking out the number of a key takes out the key.
pub proof fn lemma_held_remove(m: Map<u64, [u8; 256]>, key: Seq<u8>)
    requires
        key.len() == 8,
    ensures
        held(m.remove(key_number(key))) == held(m).remove(key),
{
    assert forall|k: Seq<u8>| k.len() == 8 && k != key implies key_number(k) != key_number(
        key,
    ) by {
        lemma_key_number(k, 0);
        lemma_key_number(key, 0);
    }
    assert(held(m.remove(key_number(key))) =~= held(m).remove(key));
}

/// A store in memory over a hash map.
pub struct HashMemStore {
    map: HashMap<u64, [u8; 256]>,
}

impl HashMemStore {
    /// An empty store.
    pub fn new() -> (store: Self)
        ensures
            store.contents() == Map::<Seq<u8>, Seq<u8>>::empty(),
    {
        let store = HashMemStore { map: HashMap::new() };
        assert(store.contents() =~= Map::<Seq<u8>, Seq<u8>>::empty());
        store
    }
}

impl MemStore for HashMemStore {
    closed spec fn contents(&self) -> Map<Seq<u8>, Seq<u8>> {
        held(self.map@)
    }

    fn put(&mut self, key: [u8; 8], value: [u8; 256]) {
        let n = to_number(&key);
        self.map.insert(n, value);
        proof {
            lemma_held_insert(old(self).map@, key@, value);
        }
    }

    fn get(&self, key: &[u8; 8]) -> (r: Option<&[u8; 256]>) {
        let n = to_number(key);
        self.map.get(&n)
    }

    fn delete(&mut self, key: [u8; 8]) -> (r: Option<[u8; 256]>) {
        let n = to_number(&key);
        let r = self.map.remove(&n);
        proof {
            lemma_held_remove(old(self).map@, key@);
        }
        r
    }

    /// The cursor for the next scan is the one just after the last key
    /// scanned, and 0 once the scan has reached the end of the store.
    fn scan(&self, at: usize, count: usize) -> (r: (usize, Vec<[u8; 8]>))
        ensures
            r.0 == if at + r.1@.len() >= self.contents().dom().len() {
                0
            } else {
                at + r.1@.len()
            },
    {
        proof {
            lemma_held_dom(self.map@);
        }
        let len = self.map.len();
        let mut result: Vec<[u8; 8]> = Vec::new();
        let mut index: usize = 0;
        let ghost keys = vstd::std_specs::hash::spec_keys_iter(&self.map).remaining();
        for k in iter: self.map.keys()
            invariant
                index == iter.index(),
                len == self.map@.dom().len(),
                iter.seq() == keys,
                keys.len() == len,
                result@.len() == scan_len(index as nat, at, count),
                forall|p: int|
                    0 <= p < result@.len() ==> (#[trigger] result@[p])@ == number_key(
                        *keys[at + p],
                    ),
        {
            if index >= at && result.len() < count {
                result.push(to_key(*k));
            }
            index += 1;
        }
        proof {
            assert forall|i: int| 0 <= i < result@.len() implies self.contents().contains_key(
                #[trigger] result@[i]@,
            ) by {
                assert(keys.unref().to_set().contains(keys.unref()[at + i]));
            }
            assert forall|i: int, j: int| 0 <= i < j < result@.len() implies (
            #[trigger] result@[i])@ != (#[trigger] result@[j])@ by {
                assert(keys[at + i] != keys[at + j]);
                lemma_key_number(Seq::empty(), *keys[at + i]);
                lemma_key_number(Seq::empty(), *keys[at + j]);
            }
        }
        let next_cursor = if at >= len {
            at
        } else {
            at + result.len()
        };
        if next_cursor >= len {
            (0, result)
        } else {
            (next_cursor, result)
        }
    }
}

} // verus!
