//! The map of a JSON object: string keys to values, kept in the byte order of
//! the keys.

use vstd::prelude::*;
use vstd::utf8::*;
use vstd::string::StringSliceAdditionalSpecFns;
use crate::value::Value;

verus! {

/// The UTF-8 bytes of a key, by which keys are ordered.
pub open spec fn key_bytes(k: Seq<char>) -> Seq<u8> {
    encode_utf8(k)
}

/// `a` comes before `b`, comparing from offset `i` on.
pub open spec fn lex_lt_from(a: Seq<u8>, b: Seq<u8>, i: int) -> bool
    decreases a.len() - i,
{
    if i >= a.len() {
        i < b.len()
    } else if i >= b.len() {
        false
    } else if a[i] < b[i] {
        true
    } else if a[i] > b[i] {
        false
    } else {
        lex_lt_from(a, b, i + 1)
    }
}

/// Lexicographic order on byte strings.
pub open spec fn lex_lt(a: Seq<u8>, b: Seq<u8>) -> bool {
    lex_lt_from(a, b, 0)
}

pub proof fn lemma_lex_transitive_from(a: Seq<u8>, b: Seq<u8>, c: Seq<u8>, i: int)
    requires
        0 <= i,
        lex_lt_from(a, b, i),
        lex_lt_from(b, c, i),
    ensures
        lex_lt_from(a, c, i),
    decreases a.len() - i,
{
    if i < a.len() && i < b.len() && i < c.len() && a[i] == b[i] && b[i] == c[i] {
        lemma_lex_transitive_from(a, b, c, i + 1);
    }
}

pub proof fn lemma_lex_irreflexive_from(a: Seq<u8>, b: Seq<u8>, i: int)
    requires
        0 <= i,
        lex_lt_from(a, b, i),
    ensures
        !lex_lt_from(b, a, i),
    decreases a.len() - i,
{
    if i < a.len() && i < b.len() && a[i] == b[i] {
        lemma_lex_irreflexive_from(a, b, i + 1);
    }
}

/// Two distinct byte strings are ordered one way or the other.
pub proof fn lemma_lex_total_from(a: Seq<u8>, b: Seq<u8>, i: int)
    requires
        0 <= i <= a.len(),
        i <= b.len(),
        a.subrange(0, i) == b.subrange(0, i),
        !lex_lt_from(a, b, i),
        !lex_lt_from(b, a, i),
    ensures
        a == b,
    decreases a.len() - i,
{
    if i < a.len() && i < b.len() {
        assert(a.subrange(0, i + 1) =~= a.subrange(0, i).push(a[i]));
        assert(b.subrange(0, i + 1) =~= b.subrange(0, i).push(b[i]));
        lemma_lex_total_from(a, b, i + 1);
    } else {
        assert(a =~= a.subrange(0, i));
        assert(b =~= b.subrange(0, i));
    }
}

/// The keys of `es` are strictly increasing.
pub open spec fn sorted_keys<V>(es: Seq<(String, V)>) -> bool {
    forall|i: int, j: int|
        0 <= i < j < es.len() ==> lex_lt(key_bytes(#[trigger] es[i].0@), key_bytes(#[trigger] es[j].0@))
}

/// The value under key `k`.
pub open spec fn get_spec<V>(es: Seq<(String, V)>, k: Seq<char>) -> Option<V>
    decreases es.len(),
{
    if es.len() == 0 {
        None
    } else if es[0].0@ == k {
        Some(es[0].1)
    } else {
        get_spec(es.drop_first(), k)
    }
}

/// The index of the first entry with key `k`, or -1.
pub open spec fn key_index<V>(es: Seq<(String, V)>, k: Seq<char>) -> int
    decreases es.len(),
{
    if es.len() == 0 {
        -1
    } else if es[0].0@ == k {
        0
    } else if key_index(es.drop_first(), k) < 0 {
        -1
    } else {
        key_index(es.drop_first(), k) + 1
    }
}

/// The entries after putting `v` under `k`, in key order.
pub open spec fn insert_spec<V>(es: Seq<(String, V)>, k: String, v: V) -> Seq<(String, V)>
    decreases es.len(),
{
    if es.len() == 0 {
        seq![(k, v)]
    } else if lex_lt(key_bytes(es[0].0@), key_bytes(k@)) {
        seq![es[0]] + insert_spec(es.drop_first(), k, v)
    } else if es[0].0@ == k@ {
        seq![(es[0].0, v)] + es.drop_first()
    } else {
        seq![(k, v)] + es
    }
}

/// The entries without key `k`.
pub open spec fn remove_spec<V>(es: Seq<(String, V)>, k: Seq<char>) -> Seq<(String, V)>
    decreases es.len(),
{
    if es.len() == 0 {
        es
    } else if es[0].0@ == k {
        es.drop_first()
    } else {
        seq![es[0]] + remove_spec(es.drop_first(), k)
    }
}

pub proof fn lemma_key_bytes_injective(a: Seq<char>, b: Seq<char>)
    requires
        key_bytes(a) == key_bytes(b),
    ensures
        a == b,
{
    encode_utf8_decode_utf8(a);
    encode_utf8_decode_utf8(b);
}

/// A map from string keys to values, its entries kept in increasing key order.
#[derive(Debug, PartialEq)]
pub struct JsonMap<K, V> {
    entries: Vec<(K, V)>,
}

#[derive(Clone, Copy, PartialEq, Eq, Structural)]
enum KeyOrder {
    Less,
    Equal,
    Greater,
}

/// How two byte strings compare.
fn compare_bytes(x: &[u8], y: &[u8]) -> (r: KeyOrder)
    ensures
        r == KeyOrder::Less <==> lex_lt(x@, y@),
        r == KeyOrder::Greater <==> lex_lt(y@, x@),
        r == KeyOrder::Equal <==> x@ == y@,
{
    let ghost xa = x@;
    let ghost yb = y@;
    let mut i: usize = 0;
    while i < x.len() && i < y.len() && x[i] == y[i]
        invariant
            x@ == xa,
            y@ == yb,
            i <= x@.len(),
            i <= y@.len(),
            xa.subrange(0, i as int) == yb.subrange(0, i as int),
            lex_lt(xa, yb) == lex_lt_from(xa, yb, i as int),
            lex_lt(yb, xa) == lex_lt_from(yb, xa, i as int),
        decreases x@.len() - i,
    {
        assert(xa.subrange(0, i + 1) =~= xa.subrange(0, i as int).push(xa[i as int]));
        assert(yb.subrange(0, i + 1) =~= yb.subrange(0, i as int).push(yb[i as int]));
        i = i + 1;
    }
    proof {
        if !lex_lt_from(xa, yb, i as int) && !lex_lt_from(yb, xa, i as int) {
            lemma_lex_total_from(xa, yb, i as int);
        }
        if lex_lt_from(xa, yb, i as int) {
            lemma_lex_irreflexive_from(xa, yb, i as int);
        }
    }
    if i < x.len() && i < y.len() {
        if x[i] < y[i] {
            KeyOrder::Less
        } else {
            KeyOrder::Greater
        }
    } else if i < y.len() {
        KeyOrder::Less
    } else if i < x.len() {
        KeyOrder::Greater
    } else {
        KeyOrder::Equal
    }
}

/// How two keys compare.
fn compare_keys(a: &str, b: &str) -> (r: KeyOrder)
    ensures
        r == KeyOrder::Less <==> lex_lt(key_bytes(a@), key_bytes(b@)),
        r == KeyOrder::Greater <==> lex_lt(key_bytes(b@), key_bytes(a@)),
        r == KeyOrder::Equal <==> a@ == b@,
{
    let r = compare_bytes(a.as_bytes(), b.as_bytes());
    proof {
        if key_bytes(a@) == key_bytes(b@) {
            lemma_key_bytes_injective(a@, b@);
        }
    }
    r
}

/// The value of the first entry whose key has the bytes `kb`.
pub open spec fn get_bytes_spec<V>(es: Seq<(String, V)>, kb: Seq<u8>) -> Option<V>
    decreases es.len(),
{
    if es.len() == 0 {
        None
    } else if key_bytes(es[0].0@) == kb {
        Some(es[0].1)
    } else {
        get_bytes_spec(es.drop_first(), kb)
    }
}

/// Looking a key up by its bytes is looking it up by its characters.
pub proof fn lemma_get_bytes<V>(es: Seq<(String, V)>, k: Seq<char>)
    ensures
        get_bytes_spec(es, key_bytes(k)) == get_spec(es, k),
    decreases es.len(),
{
    if es.len() > 0 {
        if key_bytes(es[0].0@) == key_bytes(k) {
            lemma_key_bytes_injective(es[0].0@, k);
        }
        lemma_get_bytes(es.drop_first(), k);
    }
}

impl JsonMap<String, Value> {
    /// The entries in key order.
    pub closed spec fn spec_entries(&self) -> Seq<(String, Value)> {
        self.entries@
    }

    pub closed spec fn well_formed(&self) -> bool {
        sorted_keys(self.entries@)
    }

    /// The entries of a map are smaller than the map.
    pub proof fn lemma_entries_decrease(&self)
        ensures
            decreases_to!(*self => self.spec_entries()),
    {
        assert(decreases_to!(self.entries => self.entries@));
    }

    /// An empty map.
    pub fn new() -> (r: Self)
        ensures
            r.well_formed(),
            r.spec_entries() == Seq::<(String, Value)>::empty(),
    {
        JsonMap { entries: Vec::new() }
    }

    /// An empty map with room for `capacity` entries.
    pub fn with_capacity(capacity: usize) -> (r: Self)
        ensures
            r.well_formed(),
            r.spec_entries() == Seq::<(String, Value)>::empty(),
    {
        JsonMap { entries: Vec::with_capacity(capacity) }
    }

    /// Removes every entry.
    pub fn clear(&mut self)
        ensures
            final(self).well_formed(),
            final(self).spec_entries() == Seq::<(String, Value)>::empty(),
    {
        self.entries.clear();
    }

    /// The entries, in key order.
    pub fn entries(&self) -> (r: &[(String, Value)])
        ensures
            r@ == self.spec_entries(),
    {
        self.entries.as_slice()
    }

    /// The number of entries.
    pub fn len(&self) -> (r: usize)
        ensures
            r == self.spec_entries().len(),
    {
        self.entries.len()
    }

    /// Whether there are no entries.
    pub fn is_empty(&self) -> (r: bool)
        ensures
            r == (self.spec_entries().len() == 0),
    {
        self.entries.len() == 0
    }

    /// The index of the first entry with key `key`, if any.
    fn find(&self, key: &str) -> (r: Option<usize>)
        ensures
            match r {
                Some(i) => i < self.spec_entries().len() && self.spec_entries()[i as int].0@ == key@
                    && key_index(self.spec_entries(), key@) == i
                    && get_spec(self.spec_entries(), key@) == Some(self.spec_entries()[i as int].1)
                    && forall|j: int| 0 <= j < i ==> (#[trigger] self.spec_entries()[j]).0@ != key@,
                None => get_spec(self.spec_entries(), key@) is None
                    && key_index(self.spec_entries(), key@) == -1
                    && forall|j: int| 0 <= j < self.spec_entries().len() ==> (#[trigger] self.spec_entries()[j]).0@ != key@,
            },
    {
        let ghost es = self.entries@;
        let mut i: usize = 0;
        while i < self.entries.len()
            invariant
                es == self.entries@,
                i <= es.len(),
                forall|j: int| 0 <= j < i ==> (#[trigger] es[j]).0@ != key@,
            decreases es.len() - i,
        {
            if compare_keys(self.entries[i].0.as_str(), key) == KeyOrder::Equal {
                proof {
                    lemma_get_first(es, key@, i as int);
                }
                return Some(i);
            }
            i = i + 1;
        }
        proof {
            lemma_get_absent(es, key@);
        }
        None
    }

    /// The value of the entry whose key has the UTF-8 bytes `key`.
    pub fn get_by_bytes(&self, key: &[u8]) -> (r: Option<&Value>)
        ensures
            r matches Some(v) ==> get_bytes_spec(self.spec_entries(), key@) == Some(*v),
            r is None ==> get_bytes_spec(self.spec_entries(), key@) is None,
    {
        let ghost es = self.entries@;
        let mut i: usize = 0;
        assert(es.subrange(0, es.len() as int) =~= es);
        while i < self.entries.len()
            invariant
                es == self.entries@,
                i <= es.len(),
                get_bytes_spec(es, key@) == get_bytes_spec(es.subrange(i as int, es.len() as int), key@),
            decreases es.len() - i,
        {
            let ghost rest = es.subrange(i as int, es.len() as int);
            assert(rest.drop_first() =~= es.subrange(i + 1, es.len() as int));
            assert(rest[0] == es[i as int]);
            let kb = self.entries[i].0.as_str().as_bytes();
            if compare_bytes(kb, key) == KeyOrder::Equal {
                return Some(&self.entries[i].1);
            }
            i = i + 1;
        }
        None
    }

    /// The value under `key`.
    pub fn get(&self, key: &str) -> (r: Option<&Value>)
        ensures
            r matches Some(v) ==> get_spec(self.spec_entries(), key@) == Some(*v),
            r is None ==> get_spec(self.spec_entries(), key@) is None,
    {
        match self.find(key) {
            Some(i) => Some(&self.entries[i].1),
            None => None,
        }
    }

    /// The value under `key`, to change in place.
    pub fn get_mut(&mut self, key: &str) -> (r: Option<&mut Value>)
        requires
            old(self).well_formed(),
        ensures
            final(self).well_formed(),
            match get_spec(old(self).spec_entries(), key@) {
                Some(v) => r matches Some(x) && *x == v && final(self).spec_entries() == old(self).spec_entries().update(
                    key_index(old(self).spec_entries(), key@),
                    (old(self).spec_entries()[key_index(old(self).spec_entries(), key@)].0, *final(x)),
                ),
                None => r is None && *final(self) == *old(self),
            },
    {
        let ghost es = self.entries@;
        match self.find(key) {
            Some(i) => {
                proof {
                    lemma_update_value_sorted(es, i as int);
                }
                let entry = &mut self.entries[i];
                let r = &mut entry.1;
                Some(r)
            },
            None => None,
        }
    }

    /// Whether some entry has key `key`.
    pub fn contains_key(&self, key: &str) -> (r: bool)
        ensures
            r == get_spec(self.spec_entries(), key@) is Some,
    {
        self.find(key).is_some()
    }

    /// The key and value of the entry with key `key`.
    pub fn get_key_value(&self, key: &str) -> (r: Option<(&String, &Value)>)
        ensures
            r matches Some(p) ==> p.0@ == key@ && get_spec(self.spec_entries(), key@) == Some(*p.1),
            r is None ==> get_spec(self.spec_entries(), key@) is None,
    {
        match self.find(key) {
            Some(i) => Some((&self.entries[i].0, &self.entries[i].1)),
            None => None,
        }
    }

    /// Puts `v` under `k`, handing back the value that was there.
    #[verifier::spinoff_prover]
    #[verifier::rlimit(60)]
    pub fn insert(&mut self, k: String, v: Value) -> (r: Option<Value>)
        requires
            old(self).well_formed(),
        ensures
            final(self).well_formed(),
            final(self).spec_entries() == insert_spec(old(self).spec_entries(), k, v),
            r == get_spec(old(self).spec_entries(), k@),
    {
        let ghost es = self.entries@;
        let mut i: usize = 0;
        assert(es.subrange(0, es.len() as int) =~= es);
        assert(es.subrange(0, 0) + insert_spec(es, k, v) =~= insert_spec(es, k, v));
        while i < self.entries.len() && compare_keys(self.entries[i].0.as_str(), k.as_str())
            == KeyOrder::Less
            invariant
                es == self.entries@,
                es == old(self).entries@,
                sorted_keys(es),
                i <= es.len(),
                insert_spec(es, k, v) == es.subrange(0, i as int) + insert_spec(es.subrange(i as int, es.len() as int), k, v),
                get_spec(es, k@) == get_spec(es.subrange(i as int, es.len() as int), k@),
                forall|j: int| 0 <= j < i ==> lex_lt(key_bytes(#[trigger] es[j].0@), key_bytes(k@)),
            decreases es.len() - i,
        {
            let ghost rest = es.subrange(i as int, es.len() as int);
            assert(rest.drop_first() =~= es.subrange(i + 1, es.len() as int));
            assert(es.subrange(0, i + 1) =~= es.subrange(0, i as int) + seq![es[i as int]]);
            assert(rest[0] == es[i as int]);
            proof {
                lemma_lex_irreflexive_from(key_bytes(es[i as int].0@), key_bytes(k@), 0);
            }
            assert(es[i as int].0@ != k@);
            assert(insert_spec(rest, k, v) == seq![es[i as int]] + insert_spec(es.subrange(i + 1, es.len() as int), k, v));
            assert(es.subrange(0, i as int) + (seq![es[i as int]] + insert_spec(es.subrange(i + 1, es.len() as int), k, v))
                =~= es.subrange(0, i + 1) + insert_spec(es.subrange(i + 1, es.len() as int), k, v));
            i = i + 1;
        }
        let ghost rest = es.subrange(i as int, es.len() as int);
        if i < self.entries.len() && compare_keys(self.entries[i].0.as_str(), k.as_str())
            == KeyOrder::Equal {
            let (key, old_v) = self.entries.remove(i);
            self.entries.insert(i, (key, v));
            proof {
                assert(rest.drop_first() =~= es.subrange(i + 1, es.len() as int));
                assert(self.entries@ =~= es.subrange(0, i as int) + (seq![(es[i as int].0, v)] + rest.drop_first()));
                assert forall|a: int, b: int| 0 <= a < b < self.entries@.len() implies lex_lt(
                    key_bytes(#[trigger] self.entries@[a].0@),
                    key_bytes(#[trigger] self.entries@[b].0@),
                ) by {
                    assert(self.entries@[a].0 == es[a].0);
                    assert(self.entries@[b].0 == es[b].0);
                }
            }
            Some(old_v)
        } else {
            proof {
                if i < es.len() {
                    assert(rest[0] == es[i as int]);
                    assert(es[i as int].0@ != k@);
                    assert(!lex_lt(key_bytes(es[i as int].0@), key_bytes(k@)));
                    assert(lex_lt(key_bytes(k@), key_bytes(es[i as int].0@))) by {
                        if !lex_lt(key_bytes(k@), key_bytes(es[i as int].0@)) {
                            lemma_lex_total_from(key_bytes(k@), key_bytes(es[i as int].0@), 0);
                            lemma_key_bytes_injective(k@, es[i as int].0@);
                        }
                    }
                    assert(insert_spec(rest, k, v) == seq![(k, v)] + rest);
                    assert forall|j: int| i <= j < es.len() implies lex_lt(key_bytes(k@), key_bytes(#[trigger] es[j].0@)) by {
                        if j > i {
                            lemma_lex_transitive_from(key_bytes(k@), key_bytes(es[i as int].0@), key_bytes(es[j].0@), 0);
                        }
                    }
                    assert forall|j: int| i <= j < es.len() implies es[j].0@ != k@ by {
                        lemma_lex_irreflexive_from(key_bytes(k@), key_bytes(es[j].0@), 0);
                    }
                    lemma_get_absent(rest, k@);
                } else {
                    assert(rest =~= Seq::<(String, Value)>::empty());
                }
            }
            let ghost kk = k;
            self.entries.insert(i, (k, v));
            proof {
                assert(self.entries@ =~= es.subrange(0, i as int) + (seq![(kk, v)] + rest));
                assert forall|a: int, b: int| 0 <= a < b < self.entries@.len() implies lex_lt(
                    key_bytes(#[trigger] self.entries@[a].0@),
                    key_bytes(#[trigger] self.entries@[b].0@),
                ) by {
                    if b == i {
                        assert(self.entries@[a] == es[a]);
                    } else if a == i {
                        assert(self.entries@[b] == es[b - 1]);
                    } else {
                        let a0 = if a < i { a } else { a - 1 };
                        let b0 = if b < i { b } else { b - 1 };
                        assert(self.entries@[a] == es[a0]);
                        assert(self.entries@[b] == es[b0]);
                    }
                }
            }
            None
        }
    }

    /// Removes the entry with key `key`, handing back its value.
    pub fn remove(&mut self, key: &str) -> (r: Option<Value>)
        requires
            old(self).well_formed(),
        ensures
            final(self).well_formed(),
            final(self).spec_entries() == remove_spec(old(self).spec_entries(), key@),
            r == get_spec(old(self).spec_entries(), key@),
    {
        match self.remove_entry(key) {
            Some((_, v)) => Some(v),
            None => None,
        }
    }

    /// Removes the entry with key `key`, handing back its key and value.
    pub fn remove_entry(&mut self, key: &str) -> (r: Option<(String, Value)>)
        requires
            old(self).well_formed(),
        ensures
            final(self).well_formed(),
            final(self).spec_entries() == remove_spec(old(self).spec_entries(), key@),
            r matches Some(p) ==> p.0@ == key@ && get_spec(old(self).spec_entries(), key@) == Some(p.1),
            r is None ==> get_spec(old(self).spec_entries(), key@) is None,
    {
        let ghost es = self.entries@;
        match self.find(key) {
            Some(i) => {
                proof {
                    lemma_get_first(es, key@, i as int);
                }
                let e = self.entries.remove(i);
                assert forall|a: int, b: int| 0 <= a < b < self.entries@.len() implies lex_lt(
                    key_bytes(#[trigger] self.entries@[a].0@),
                    key_bytes(#[trigger] self.entries@[b].0@),
                ) by {
                    let a0 = if a < i { a } else { a + 1 };
                    let b0 = if b < i { b } else { b + 1 };
                    assert(self.entries@[a] == es[a0]);
                    assert(self.entries@[b] == es[b0]);
                }
                Some(e)
            },
            None => {
                proof {
                    lemma_remove_absent(es, key@);
                }
                None
            },
        }
    }

    /// Moves every entry of `other` into this map; an entry of `other` replaces
    /// one of this map with the same key.
    pub fn append(&mut self, other: &mut Self)
        requires
            old(self).well_formed(),
        ensures
            final(self).well_formed(),
            final(other).spec_entries() == Seq::<(String, Value)>::empty(),
            final(self).spec_entries() == insert_all(old(self).spec_entries(), old(other).spec_entries()),
    {
        let mut taken: Vec<(String, Value)> = Vec::new();
        core::mem::swap(&mut taken, &mut other.entries);
        while taken.len() > 0
            invariant
                self.well_formed(),
                other.entries@ == Seq::<(String, Value)>::empty(),
                insert_all(old(self).spec_entries(), old(other).entries@) == insert_all(self.spec_entries(), taken@),
            decreases taken@.len(),
        {
            let ghost t = taken@;
            let (k, v) = taken.remove(0);
            assert(taken@ =~= t.drop_first());
            self.insert(k, v);
        }
    }
}

proof fn lemma_update_value_sorted(es: Seq<(String, Value)>, i: int)
    requires
        sorted_keys(es),
        0 <= i < es.len(),
    ensures
        forall|v: Value| sorted_keys(#[trigger] es.update(i, (es[i].0, v))),
{
    assert forall|v: Value| sorted_keys(#[trigger] es.update(i, (es[i].0, v))) by {
        let u = es.update(i, (es[i].0, v));
        assert forall|a: int, b: int| 0 <= a < b < u.len() implies lex_lt(
            key_bytes(#[trigger] u[a].0@),
            key_bytes(#[trigger] u[b].0@),
        ) by {
            assert(u[a].0 == es[a].0);
            assert(u[b].0 == es[b].0);
        }
    }
}

/// The entries after putting each entry of `src` in turn.
pub open spec fn insert_all(es: Seq<(String, Value)>, src: Seq<(String, Value)>) -> Seq<(String, Value)>
    decreases src.len(),
{
    if src.len() == 0 {
        es
    } else {
        insert_all(insert_spec(es, src[0].0, src[0].1), src.drop_first())
    }
}

proof fn lemma_get_absent<V>(es: Seq<(String, V)>, k: Seq<char>)
    requires
        forall|j: int| 0 <= j < es.len() ==> (#[trigger] es[j]).0@ != k,
    ensures
        get_spec(es, k) is None,
        key_index(es, k) == -1,
    decreases es.len(),
{
    if es.len() > 0 {
        assert(es[0].0@ != k);
        assert forall|j: int| 0 <= j < es.drop_first().len() implies (#[trigger] es.drop_first()[j]).0@ != k by {
            assert(es.drop_first()[j] == es[j + 1]);
        }
        lemma_get_absent(es.drop_first(), k);
    }
}

proof fn lemma_get_first<V>(es: Seq<(String, V)>, k: Seq<char>, i: int)
    requires
        0 <= i < es.len(),
        es[i].0@ == k,
        forall|j: int| 0 <= j < i ==> (#[trigger] es[j]).0@ != k,
    ensures
        get_spec(es, k) == Some(es[i].1),
        remove_spec(es, k) == es.remove(i),
        key_index(es, k) == i,
    decreases i,
{
    if i > 0 {
        assert(es[0].0@ != k);
        assert forall|j: int| 0 <= j < i - 1 implies (#[trigger] es.drop_first()[j]).0@ != k by {
            assert(es.drop_first()[j] == es[j + 1]);
        }
        lemma_get_first(es.drop_first(), k, i - 1);
        assert(es.remove(i) =~= seq![es[0]] + es.drop_first().remove(i - 1));
    } else {
        assert(es.remove(0) =~= es.drop_first());
    }
}

proof fn lemma_remove_absent<V>(es: Seq<(String, V)>, k: Seq<char>)
    requires
        forall|j: int| 0 <= j < es.len() ==> (#[trigger] es[j]).0@ != k,
    ensures
        remove_spec(es, k) == es,
    decreases es.len(),
{
    if es.len() > 0 {
        assert(es[0].0@ != k);
        assert forall|j: int| 0 <= j < es.drop_first().len() implies (#[trigger] es.drop_first()[j]).0@ != k by {
            assert(es.drop_first()[j] == es[j + 1]);
        }
        lemma_remove_absent(es.drop_first(), k);
        assert(seq![es[0]] + es.drop_first() =~= es);
    }
}

} // verus!
