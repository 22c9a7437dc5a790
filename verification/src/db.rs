//! The store: one mapping from text keys to byte-string values.

use vstd::prelude::*;
use vstd::slice::slice_to_vec;

verus! {

/// One binding of the store.
struct Entry {
    key: String,
    value: Vec<u8>,
}

/// The keys of the first `n` entries hold `key` at index `i`.
spec fn key_at(entries: Seq<Entry>, key: Seq<char>, i: int) -> bool {
    0 <= i < entries.len() && entries[i].key@ == key
}

/// The index of the entry that binds `key`, if one does.
fn position(entries: &Vec<Entry>, key: &String) -> (found: Option<usize>)
    ensures
        match found {
            Some(i) => key_at(entries@, key@, i as int),
            None => forall|i: int| !key_at(entries@, key@, i),
        },
{
    let mut i: usize = 0;
    while i < entries.len()
        invariant
            forall|j: int| 0 <= j < i ==> !key_at(entries@, key@, j),
        decreases entries.len() - i,
    {
        if entries[i].key == *key {
            return Some(i);
        }
        i += 1;
    }
    None
}

/// The store. Its model is the map from each bound key to its value.
pub struct Db {
    entries: Vec<Entry>,
}

impl View for Db {
    type V = Map<Seq<char>, Seq<u8>>;

    closed spec fn view(&self) -> Map<Seq<char>, Seq<u8>> {
        Map::new(
            |key: Seq<char>| exists|i: int| key_at(self.entries@, key, i),
            |key: Seq<char>| self.entries@[choose|i: int| key_at(self.entries@, key, i)].value@,
        )
    }
}

impl Db {
    /// No key is bound twice.
    #[verifier::type_invariant]
    spec fn keys_are_unique(self) -> bool {
        forall|i: int, j: int|
            0 <= i < j < self.entries@.len() ==> self.entries@[i].key@ != self.entries@[j].key@
    }

    /// A store without bindings.
    pub fn new() -> (db: Db)
        ensures
            db@ == Map::<Seq<char>, Seq<u8>>::empty(),
    {
        let db = Db { entries: Vec::new() };
        assert(db@ =~= Map::<Seq<char>, Seq<u8>>::empty());
        db
    }

    /// Binds `key` to `value`, in place of what it was bound to before.
    /// Every other binding stays.
    pub fn set(&mut self, key: String, value: Vec<u8>)
        ensures
            final(self)@ == old(self)@.insert(key@, value@),
    {
        proof {
            use_type_invariant(&*self);
        }
        let ghost before = self.entries@;
        let ghost key_view = key@;
        let ghost value_view = value@;
        let mut entries: Vec<Entry> = Vec::new();
        core::mem::swap(&mut self.entries, &mut entries);
        let ghost place: int;
        match position(&entries, &key) {
            Some(i) => {
                entries.set(i, Entry { key, value });
                proof {
                    place = i as int;
                }
            },
            None => {
                entries.push(Entry { key, value });
                proof {
                    place = before.len() as int;
                }
            },
        }
        let ghost after = entries@;
        proof {
            assert(key_at(after, key_view, place) && after[place].value@ == value_view);
            assert forall|j: int| 0 <= j < after.len() && j != place implies j < before.len()
                && after[j] == before[j] && before[j].key@ != key_view by {
                if before[j].key@ == key_view {
                    assert(key_at(before, key_view, j));
                }
            }
            assert forall|i: int, j: int| 0 <= i < j < after.len() implies after[i].key@
                != after[j].key@ by {
                if i != place && j != place {
                    assert(before[i].key@ != before[j].key@);
                }
            }
        }
        core::mem::swap(&mut self.entries, &mut entries);
        proof {
            let wanted = old(self)@.insert(key_view, value_view);
            assert forall|k: Seq<char>| #[trigger] wanted.contains_key(k) implies self@.contains_key(
                k,
            ) by {
                if k != key_view {
                    let j = choose|j: int| key_at(before, k, j);
                    assert(key_at(before, k, j));
                    assert(key_at(after, k, j));
                }
            }
            assert forall|k: Seq<char>| #[trigger] self@.contains_key(k) implies wanted.contains_key(
                k,
            ) && self@[k] == wanted[k] by {
                let j = choose|j: int| key_at(after, k, j);
                assert(key_at(after, k, j));
                if k != key_view {
                    assert(j != place);
                    assert(key_at(before, k, j));
                    let j0 = choose|j0: int| key_at(before, k, j0);
                    assert(key_at(before, k, j0));
                    assert(j0 == j);
                } else {
                    assert(j == place);
                }
            }
            assert(self@ =~= wanted);
        }
    }

    /// A copy of the value that `key` is bound to, if it is bound.
    pub fn get(&self, key: String) -> (found: Option<Vec<u8>>)
        ensures
            match found {
                Some(value) => self@.contains_key(key@) && value@ == self@[key@],
                None => !self@.contains_key(key@),
            },
    {
        proof {
            use_type_invariant(self);
        }
        match position(&self.entries, &key) {
            Some(i) => {
                let value = slice_to_vec(self.entries[i].value.as_slice());
                Some(value)
            },
            None => None,
        }
    }
}

/// The store after a run of writes, each a key and the value that it is
/// bound to, in the order in which they take effect.
pub open spec fn after_writes(
    store: Map<Seq<char>, Seq<u8>>,
    writes: Seq<(Seq<char>, Seq<u8>)>,
) -> Map<Seq<char>, Seq<u8>>
    decreases writes.len(),
{
    if writes.len() == 0 {
        store
    } else {
        after_writes(store, writes.drop_last()).insert(writes.last().0, writes.last().1)
    }
}

/// No write is lost and none is mixed with another: after a run of writes,
/// in whatever order they took effect, each key that was written is bound to
/// a value that was written to that very key.
pub proof fn lemma_writes_visible(
    store: Map<Seq<char>, Seq<u8>>,
    writes: Seq<(Seq<char>, Seq<u8>)>,
    i: int,
)
    requires
        0 <= i < writes.len(),
    ensures
        after_writes(store, writes).contains_key(writes[i].0),
        exists|j: int|
            i <= j < writes.len() && (#[trigger] writes[j]).0 == writes[i].0 && after_writes(
                store,
                writes,
            )[writes[i].0] == writes[j].1,
    decreases writes.len(),
{
    let last = writes.len() - 1;
    if writes[last].0 == writes[i].0 {
        assert(writes[last].0 == writes[i].0 && after_writes(store, writes)[writes[i].0]
            == writes[last].1);
    } else {
        let before = writes.drop_last();
        lemma_writes_visible(store, before, i);
        let j = choose|j: int|
            i <= j < before.len() && (#[trigger] before[j]).0 == before[i].0 && after_writes(
                store,
                before,
            )[before[i].0] == before[j].1;
        assert(writes[j] == before[j]);
    }
}

/// Writes to keys that differ from each other are all visible afterwards,
/// in whatever order they took effect.
pub proof fn lemma_writes_to_distinct_keys(
    store: Map<Seq<char>, Seq<u8>>,
    writes: Seq<(Seq<char>, Seq<u8>)>,
    i: int,
)
    requires
        0 <= i < writes.len(),
        forall|a: int, b: int| 0 <= a < b < writes.len() ==> writes[a].0 != writes[b].0,
    ensures
        after_writes(store, writes).contains_key(writes[i].0),
        after_writes(store, writes)[writes[i].0] == writes[i].1,
{
    lemma_writes_visible(store, writes, i);
}

} // verus!
