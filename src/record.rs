//! Records: header names mapped to JSON values, in header order.
use crate::value::{JsonValue, JsonView};
use vstd::prelude::*;

verus! {

pub type Entry = (Seq<char>, JsonView);

/// No key stands twice.
pub open spec fn keys_unique(es: Seq<Entry>) -> bool {
    forall|i: int, j: int| 0 <= i < j < es.len() ==> (#[trigger] es[i]).0 != (#[trigger] es[j]).0
}

pub open spec fn has_key(es: Seq<Entry>, k: Seq<char>) -> bool {
    exists|i: int| 0 <= i < es.len() && (#[trigger] es[i]).0 == k
}

/// Mapping semantics on an ordered entry list: a present key has its value
/// replaced where it stands; a new key goes to the end.
pub open spec fn insert_entry(es: Seq<Entry>, k: Seq<char>, v: JsonView) -> Seq<Entry> {
    if has_key(es, k) {
        es.update(choose|i: int| 0 <= i < es.len() && (#[trigger] es[i]).0 == k, (k, v))
    } else {
        es.push((k, v))
    }
}

/// The keys of an entry list, as a set.
pub open spec fn key_set(es: Seq<Entry>) -> Set<Seq<char>> {
    Set::new(|k: Seq<char>| has_key(es, k))
}

/// One normalised row: header names mapped to values, ordered by the
/// position at which each name first appears.
#[derive(Debug)]
pub struct Record {
    entries: Vec<(String, JsonValue)>,
}

impl View for Record {
    type V = Seq<Entry>;

    closed spec fn view(&self) -> Seq<Entry> {
        self.entries@.map_values(|e: (String, JsonValue)| (e.0@, e.1@))
    }
}

impl Record {
    pub open spec fn wf(&self) -> bool {
        keys_unique(self@)
    }

    pub fn new() -> (r: Record)
        ensures
            r@ == Seq::<Entry>::empty(),
            r.wf(),
    {
        let r = Record { entries: Vec::new() };
        assert(r@ =~= Seq::<Entry>::empty());
        r
    }

    pub fn len(&self) -> (r: usize)
        ensures
            r == self@.len(),
    {
        self.entries.len()
    }

    /// The key and value at position `i`.
    pub fn entry(&self, i: usize) -> (r: (&String, &JsonValue))
        requires
            i < self@.len(),
        ensures
            r.0@ == self@[i as int].0,
            r.1@ == self@[i as int].1,
    {
        let e = &self.entries[i];
        (&e.0, &e.1)
    }

    /// Sets `key` to `value`: in place where the key is present, else at the end.
    pub fn insert(&mut self, key: String, value: JsonValue)
        requires
            old(self).wf(),
        ensures
            final(self).wf(),
            final(self)@ == insert_entry(old(self)@, key@, value@),
    {
        let ghost es = self@;
        let ghost kv = key@;
        let ghost vv = value@;
        let n = self.entries.len();
        let mut i: usize = 0;
        while i < n
            invariant
                n == self.entries.len(),
                self@ == es,
                es == old(self)@,
                kv == key@,
                vv == value@,
                keys_unique(es),
                i <= n,
                forall|j: int| 0 <= j < i ==> (#[trigger] es[j]).0 != key@,
            decreases n - i,
        {
            if self.entries[i].0 == key {
                assert(es[i as int].0 == key@);
                let ghost c = choose|j: int| 0 <= j < es.len() && (#[trigger] es[j]).0 == key@;
                assert(c == i);
                let ghost before = self.entries@;
                self.entries.set(i, (key, value));
                assert(self@.len() == es.len());
                assert forall|j: int| 0 <= j < es.len() implies self@[j] == insert_entry(es, kv, vv)[j] by {
                    if j != i {
                        assert(self.entries@[j] == before[j]);
                    }
                }
                assert(self@ =~= insert_entry(es, kv, vv));
                return;
            }
            i = i + 1;
        }
        assert(!has_key(es, key@));
        self.entries.push((key, value));
        assert(self@ =~= es.push((key@, value@)));
    }
}

/// Inserting keeps the keys distinct, and adds exactly the inserted key.
pub proof fn lemma_insert_entry(es: Seq<Entry>, k: Seq<char>, v: JsonView)
    requires
        keys_unique(es),
    ensures
        keys_unique(insert_entry(es, k, v)),
        key_set(insert_entry(es, k, v)) == key_set(es).insert(k),
        insert_entry(es, k, v).len() == es.len() + if has_key(es, k) {
            0int
        } else {
            1int
        },
{
    let r = insert_entry(es, k, v);
    if has_key(es, k) {
        let c = choose|i: int| 0 <= i < es.len() && (#[trigger] es[i]).0 == k;
        assert forall|key: Seq<char>| key == k || has_key(es, key) implies has_key(r, key) by {
            if key == k {
                assert(r[c].0 == k);
            } else {
                let j = choose|j: int| 0 <= j < es.len() && (#[trigger] es[j]).0 == key;
                assert(r[j].0 == key);
            }
        }
        assert forall|key: Seq<char>| has_key(r, key) && key != k implies has_key(es, key) by {
            {
                let j = choose|j: int| 0 <= j < r.len() && (#[trigger] r[j]).0 == key;
                assert(es[j].0 == key);
            }
        }
    } else {
        assert forall|key: Seq<char>| key == k || has_key(es, key) implies has_key(r, key) by {
            if key == k {
                assert(r[es.len() as int].0 == k);
            } else {
                let j = choose|j: int| 0 <= j < es.len() && (#[trigger] es[j]).0 == key;
                assert(r[j].0 == key);
            }
        }
        assert forall|key: Seq<char>| has_key(r, key) && key != k implies has_key(es, key) by {
            {
                let j = choose|j: int| 0 <= j < r.len() && (#[trigger] r[j]).0 == key;
                assert(es[j].0 == key);
            }
        }
    }
    assert(key_set(r) =~= key_set(es).insert(k));
}

} // verus!
