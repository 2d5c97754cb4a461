//! An insertion-ordered map from strings to JSON values.

use crate::bytestring::ByteString;
use crate::value::{Json, Value};
use vstd::prelude::*;

verus! {

/// The index of the first of the first `n` entries whose key is `key`.
pub open spec fn key_index_upto(entries: Seq<(Seq<char>, Json)>, key: Seq<char>, n: nat) -> Option<
    int,
>
    decreases n,
{
    if n == 0 {
        None
    } else {
        match key_index_upto(entries, key, (n - 1) as nat) {
            Some(i) => Some(i),
            None => if entries[n - 1].0 == key {
                Some(n - 1)
            } else {
                None
            },
        }
    }
}

/// The index of the first entry whose key is `key`.
pub open spec fn key_index(entries: Seq<(Seq<char>, Json)>, key: Seq<char>) -> Option<int> {
    key_index_upto(entries, key, entries.len())
}

/// The value that the entries hold under `key`.
pub open spec fn lookup(entries: Seq<(Seq<char>, Json)>, key: Seq<char>) -> Option<Json> {
    match key_index(entries, key) {
        Some(i) => Some(entries[i].1),
        None => None,
    }
}

/// No two entries share a key.
pub open spec fn unique_keys(entries: Seq<(Seq<char>, Json)>) -> bool {
    forall|i: int, j: int| 0 <= i < j < entries.len() ==> entries[i].0 != entries[j].0
}

/// The entries after `key` has been set to `value`: a key that is present
/// keeps its position and gets the new value, a new key goes to the end.
pub open spec fn inserted(entries: Seq<(Seq<char>, Json)>, key: Seq<char>, value: Json) -> Seq<
    (Seq<char>, Json),
> {
    match key_index(entries, key) {
        Some(i) => entries.update(i, (key, value)),
        None => entries.push((key, value)),
    }
}

/// What `key_index_upto` returns: the least index below `n` with that key.
pub proof fn lemma_key_index_upto(entries: Seq<(Seq<char>, Json)>, key: Seq<char>, n: nat)
    requires
        n <= entries.len(),
    ensures
        match key_index_upto(entries, key, n) {
            Some(i) => 0 <= i < n && entries[i].0 == key && forall|j: int|
                0 <= j < i ==> entries[j].0 != key,
            None => forall|j: int| 0 <= j < n ==> entries[j].0 != key,
        },
    decreases n,
{
    if n > 0 {
        lemma_key_index_upto(entries, key, (n - 1) as nat);
    }
}

/// The first index with the key is what `key_index` returns.
pub proof fn lemma_key_index_first(entries: Seq<(Seq<char>, Json)>, key: Seq<char>, i: int)
    requires
        0 <= i < entries.len(),
        entries[i].0 == key,
        forall|j: int| 0 <= j < i ==> entries[j].0 != key,
    ensures
        key_index(entries, key) == Some(i),
        lookup(entries, key) == Some(entries[i].1),
{
    lemma_key_index_upto(entries, key, entries.len());
}

/// Without an entry for the key, `key_index` returns nothing.
pub proof fn lemma_key_index_none(entries: Seq<(Seq<char>, Json)>, key: Seq<char>)
    requires
        forall|j: int| 0 <= j < entries.len() ==> entries[j].0 != key,
    ensures
        key_index(entries, key) is None,
        lookup(entries, key) is None,
{
    lemma_key_index_upto(entries, key, entries.len());
}

/// An insertion-ordered map with unique keys.
#[derive(Debug)]
pub struct OrderedMap {
    entries: Vec<(ByteString, Value)>,
}

impl View for OrderedMap {
    type V = Seq<(Seq<char>, Json)>;

    /// The entries in insertion order.
    closed spec fn view(&self) -> Seq<(Seq<char>, Json)>
        decreases self, 1nat, 0nat,
    {
        entries_view(*self, self.entries@.len())
    }
}

/// The views of the first `n` entries of a map.
closed spec fn entries_view(m: OrderedMap, n: nat) -> Seq<(Seq<char>, Json)>
    decreases m, 0nat, n,
{
    if n == 0 || n > m.entries@.len() {
        Seq::empty()
    } else {
        entries_view(m, (n - 1) as nat).push((m.entries@[n - 1].0@, m.entries@[n - 1].1@))
    }
}

proof fn lemma_entries_view(m: OrderedMap, n: nat)
    requires
        n <= m.entries@.len(),
    ensures
        entries_view(m, n).len() == n,
        forall|i: int|
            0 <= i < n ==> #[trigger] entries_view(m, n)[i] == (m.entries@[i].0@, m.entries@[i].1@),
    decreases n,
{
    if n > 0 {
        lemma_entries_view(m, (n - 1) as nat);
        assert(entries_view(m, n) == entries_view(m, (n - 1) as nat).push(
            (m.entries@[n - 1].0@, m.entries@[n - 1].1@),
        ));
    } else {
        assert(entries_view(m, n) == Seq::<(Seq<char>, Json)>::empty());
    }
}

impl OrderedMap {
    #[verifier::type_invariant]
    spec fn well_formed(&self) -> bool {
        forall|i: int, j: int|
            0 <= i < j < self.entries@.len() ==> self.entries@[i].0@ != self.entries@[j].0@
    }

    /// The view, entry by entry.
    proof fn lemma_view(&self)
        ensures
            self@.len() == self.entries@.len(),
            forall|i: int|
                0 <= i < self.entries@.len() ==> #[trigger] self@[i] == (
                    self.entries@[i].0@,
                    self.entries@[i].1@,
                ),
    {
        lemma_entries_view(*self, self.entries@.len());
        assert(self@ == entries_view(*self, self.entries@.len()));
    }

    /// A map without entries.
    pub fn new() -> (m: OrderedMap)
        ensures
            m@ == Seq::<(Seq<char>, Json)>::empty(),
    {
        let m = OrderedMap { entries: Vec::new() };
        proof {
            m.lemma_view();
            assert(m@ =~= Seq::<(Seq<char>, Json)>::empty());
        }
        m
    }

    /// The number of entries.
    pub fn len(&self) -> (n: usize)
        ensures
            n == self@.len(),
            unique_keys(self@),
    {
        proof {
            use_type_invariant(self);
            self.lemma_view();
        }
        self.entries.len()
    }

    /// Whether the map has no entry.
    pub fn is_empty(&self) -> (b: bool)
        ensures
            b == (self@.len() == 0),
    {
        proof {
            self.lemma_view();
        }
        self.entries.len() == 0
    }

    /// The position of the entry for `key`.
    pub fn index_of(&self, key: &str) -> (r: Option<usize>)
        ensures
            match key_index(self@, key@) {
                Some(i) => r is Some && r->Some_0 == i && 0 <= i < self@.len(),
                None => r is None,
            },
    {
        let mut i: usize = 0;
        proof {
            self.lemma_view();
        }
        while i < self.entries.len()
            invariant
                i <= self.entries@.len(),
                forall|j: int| 0 <= j < i ==> self@[j].0 != key@,
                self@.len() == self.entries@.len(),
                forall|j: int|
                    0 <= j < self.entries@.len() ==> #[trigger] self@[j] == (
                        self.entries@[j].0@,
                        self.entries@[j].1@,
                    ),
            decreases self.entries@.len() - i,
        {
            assert(self@[i as int].0 == self.entries@[i as int].0@);
            if self.entries[i].0.eq_str(key) {
                proof {
                    lemma_key_index_first(self@, key@, i as int);
                }
                return Some(i);
            }
            i = i + 1;
        }
        proof {
            lemma_key_index_none(self@, key@);
        }
        None
    }

    /// The value under `key`.
    pub fn get(&self, key: &str) -> (r: Option<&Value>)
        ensures
            match lookup(self@, key@) {
                Some(v) => r is Some && r->Some_0@ == v,
                None => r is None,
            },
    {
        proof {
            self.lemma_view();
        }
        match self.index_of(key) {
            Some(i) => {
                assert(self@[i as int].1 == self.entries@[i as int].1@);
                Some(&self.entries[i].1)
            },
            None => None,
        }
    }

    /// The key of the entry at position `i` in insertion order.
    pub fn key_at(&self, i: usize) -> (k: &ByteString)
        requires
            i < self@.len(),
        ensures
            k@ == self@[i as int].0,
    {
        proof {
            self.lemma_view();
        }
        &self.entries[i].0
    }

    /// The value of the entry at position `i` in insertion order.
    pub fn value_at(&self, i: usize) -> (v: &Value)
        requires
            i < self@.len(),
        ensures
            v@ == self@[i as int].1,
    {
        proof {
            self.lemma_view();
        }
        &self.entries[i].1
    }

    /// The values in insertion order.
    pub fn values(&self) -> (r: Vec<&Value>)
        ensures
            r@.len() == self@.len(),
            forall|i: int| 0 <= i < r@.len() ==> (#[trigger] r@[i])@ == self@[i].1,
    {
        proof {
            self.lemma_view();
        }
        let mut r: Vec<&Value> = Vec::new();
        let mut i: usize = 0;
        while i < self.entries.len()
            invariant
                i <= self.entries@.len() == self@.len(),
                r@.len() == i,
                forall|j: int| 0 <= j < i ==> (#[trigger] r@[j])@ == self@[j].1,
                forall|j: int|
                    0 <= j < self.entries@.len() ==> #[trigger] self@[j] == (
                        self.entries@[j].0@,
                        self.entries@[j].1@,
                    ),
            decreases self.entries@.len() - i,
        {
            assert(self@[i as int].1 == self.entries@[i as int].1@);
            r.push(&self.entries[i].1);
            i = i + 1;
        }
        r
    }

    /// The entries in insertion order, each as its key and its value.
    pub fn iter(&self) -> (r: Vec<(&ByteString, &Value)>)
        ensures
            r@.len() == self@.len(),
            forall|i: int|
                0 <= i < r@.len() ==> (#[trigger] r@[i]).0@ == self@[i].0 && r@[i].1@ == self@[i].1,
    {
        proof {
            self.lemma_view();
        }
        let mut r: Vec<(&ByteString, &Value)> = Vec::new();
        let mut i: usize = 0;
        while i < self.entries.len()
            invariant
                i <= self.entries@.len() == self@.len(),
                r@.len() == i,
                forall|j: int|
                    0 <= j < i ==> (#[trigger] r@[j]).0@ == self@[j].0 && r@[j].1@ == self@[j].1,
                forall|j: int|
                    0 <= j < self.entries@.len() ==> #[trigger] self@[j] == (
                        self.entries@[j].0@,
                        self.entries@[j].1@,
                    ),
            decreases self.entries@.len() - i,
        {
            assert(self@[i as int] == (self.entries@[i as int].0@, self.entries@[i as int].1@));
            r.push((&self.entries[i].0, &self.entries[i].1));
            i = i + 1;
        }
        r
    }

    /// Sets `key` to `value`. A key that is present keeps its position and
    /// hands back the value it had; a new key goes to the end.
    pub fn insert(&mut self, key: ByteString, value: Value) -> (r: Option<Value>)
        ensures
            final(self)@ == inserted(old(self)@, key@, value@),
            match key_index(old(self)@, key@) {
                Some(i) => r is Some && r->Some_0@ == old(self)@[i].1,
                None => r is None,
            },
    {
        let found = self.index_of(key.as_str());
        let ghost before = self.entries@;
        let ghost model = self@;
        proof {
            use_type_invariant(&*self);
            self.lemma_view();
            lemma_key_index_upto(model, key@, model.len());
            assert forall|j: int| 0 <= j < before.len() implies #[trigger] before[j].0@
                == model[j].0 && before[j].1@ == model[j].1 by {
                assert(model[j] == (before[j].0@, before[j].1@));
            }
        }
        let mut entries: Vec<(ByteString, Value)> = Vec::new();
        core::mem::swap(&mut self.entries, &mut entries);
        let displaced = match found {
            Some(i) => {
                let mut entry = (key, value);
                core::mem::swap(&mut entries[i], &mut entry);
                assert(entries@ == before.update(i as int, (key, value)));
                assert(entry == before[i as int]);
                Some(entry.1)
            },
            None => {
                entries.push((key, value));
                assert(entries@ == before.push((key, value)));
                None
            },
        };
        assert forall|i: int, j: int| 0 <= i < j < entries@.len() implies entries@[i].0@
            != entries@[j].0@ by {
            if i < before.len() {
                assert(entries@[i].0@ == before[i].0@);
            }
            if j < before.len() {
                assert(entries@[j].0@ == before[j].0@);
            }
        }
        self.entries = entries;
        proof {
            self.lemma_view();
            let after = inserted(model, key@, value@);
            assert(self@.len() == after.len());
            assert forall|j: int| 0 <= j < after.len() implies self@[j] == after[j] by {
                assert(self@[j] == (self.entries@[j].0@, self.entries@[j].1@));
            }
        }
        assert(self@ =~= inserted(old(self)@, key@, value@));
        displaced
    }
}

} // verus!
