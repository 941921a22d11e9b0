//! The in-memory store and its errors.

use vstd::prelude::*;
use crate::codec;
use crate::codec::Entry;
use crate::codec::entries_view;
use crate::codec::entries_keys_ok;
use crate::codec::entries_keys_unique;
use crate::codec::spec_encode;
use crate::codec::spec_decode;

verus! {

/// What can go wrong in a store operation. `IoError` is raised only by the
/// surrounding program when the backing file itself fails; the in-memory
/// operations here raise the other two.
#[derive(Clone, Copy, Debug, PartialEq, Eq, Structural)]
pub enum DatabaseError {
    IoError,
    SerializationError,
    DeserializationError,
}

/// The mapping a sequence of entries describes: each entry inserted in
/// order, a later entry overwriting an earlier one with the same key.
pub open spec fn entries_map(es: Seq<(Seq<u8>, u64)>) -> Map<Seq<u8>, u64>
    decreases es.len(),
{
    if es.len() == 0 {
        Map::empty()
    } else {
        entries_map(es.drop_last()).insert(es.last().0, es.last().1)
    }
}

/// A key is in the mapping exactly when some entry holds it.
proof fn lemma_entries_map_contains(es: Seq<(Seq<u8>, u64)>, k: Seq<u8>)
    ensures
        entries_map(es).contains_key(k) <==> exists|i: int|
            0 <= i < es.len() && (#[trigger] es[i]).0 == k,
    decreases es.len(),
{
    if es.len() == 0 {
    } else {
        lemma_entries_map_contains(es.drop_last(), k);
        if es.last().0 == k {
            assert(es[es.len() - 1].0 == k);
        } else {
            assert forall|i: int| 0 <= i < es.drop_last().len() implies (#[trigger] es.drop_last()[
                i
            ]) == es[i] by {}
            if entries_map(es).contains_key(k) {
            } else {
                if exists|i: int| 0 <= i < es.len() && (#[trigger] es[i]).0 == k {
                    let i = choose|i: int| 0 <= i < es.len() && (#[trigger] es[i]).0 == k;
                    assert(i < es.len() - 1);
                    assert(es.drop_last()[i].0 == k);
                }
            }
        }
    }
}

/// With unique keys, the mapping holds each entry's key at its value.
proof fn lemma_entries_map_value(es: Seq<(Seq<u8>, u64)>, i: int)
    requires
        entries_keys_unique(es),
        0 <= i < es.len(),
    ensures
        entries_map(es).contains_key(es[i].0),
        entries_map(es)[es[i].0] == es[i].1,
    decreases es.len(),
{
    if i == es.len() - 1 {
    } else {
        assert(es[i].0 != es.last().0);
        assert forall|a: int, b: int|
            #![trigger es.drop_last()[a], es.drop_last()[b]]
            0 <= a < b < es.drop_last().len() implies es.drop_last()[a].0 != es.drop_last()[
            b
        ].0 by {
            assert(es[a] == es.drop_last()[a]);
            assert(es[b] == es.drop_last()[b]);
        }
        assert(es.drop_last()[i] == es[i]);
        lemma_entries_map_value(es.drop_last(), i);
    }
}

/// Overwriting the entry at `i` in place changes the mapping as one insert
/// of that entry's key would.
proof fn lemma_entries_map_update(es: Seq<(Seq<u8>, u64)>, i: int, v: u64)
    requires
        entries_keys_unique(es),
        0 <= i < es.len(),
    ensures
        entries_map(es.update(i, (es[i].0, v))) == entries_map(es).insert(es[i].0, v),
    decreases es.len(),
{
    let k = es[i].0;
    let es2 = es.update(i, (k, v));
    if i == es.len() - 1 {
        assert(es2.drop_last() =~= es.drop_last());
        assert(es2.last() == (k, v));
        assert(entries_map(es.drop_last()).insert(k, v) =~= entries_map(es.drop_last()).insert(
            k,
            es.last().1,
        ).insert(k, v));
    } else {
        assert(es2.drop_last() =~= es.drop_last().update(i, (k, v)));
        assert(es2.last() == es.last());
        assert forall|a: int, b: int|
            #![trigger es.drop_last()[a], es.drop_last()[b]]
            0 <= a < b < es.drop_last().len() implies es.drop_last()[a].0 != es.drop_last()[
            b
        ].0 by {
            assert(es[a] == es.drop_last()[a]);
            assert(es[b] == es.drop_last()[b]);
        }
        assert(es.drop_last()[i] == es[i]);
        lemma_entries_map_update(es.drop_last(), i, v);
        assert(k != es.last().0);
        assert(entries_map(es.drop_last()).insert(k, v).insert(es.last().0, es.last().1)
            =~= entries_map(es.drop_last()).insert(es.last().0, es.last().1).insert(k, v));
    }
}

/// Round trip at the mapping level: for any entries whose keys fit the
/// length prefix, decoding their encoding succeeds and describes exactly
/// the mapping the entries did, whatever order they were held in.
pub proof fn lemma_round_trip_map(es: Seq<(Seq<u8>, u64)>)
    requires
        entries_keys_ok(es),
    ensures
        spec_decode(spec_encode(es)) is Some,
        entries_map(spec_decode(spec_encode(es)).unwrap()) == entries_map(es),
{
    codec::lemma_decode_encode_round_trip(es);
}

/// The persistent store's in-memory state: the entries, in insertion order,
/// with unique keys that fit the length prefix.
pub struct Database {
    data: Vec<Entry>,
}

impl View for Database {
    type V = Map<Seq<u8>, u64>;

    open spec fn view(&self) -> Map<Seq<u8>, u64> {
        entries_map(self.entries())
    }
}

impl Database {
    /// The entries the store holds, in insertion order.
    pub closed spec fn entries(self) -> Seq<(Seq<u8>, u64)> {
        entries_view(self.data@)
    }

    /// Well-formed: every key fits the one-byte length prefix, and no two
    /// entries share a key.
    pub open spec fn wf(self) -> bool {
        entries_keys_ok(self.entries()) && entries_keys_unique(self.entries())
    }

    /// A store with no entries.
    pub fn empty() -> (db: Database)
        ensures
            db.wf(),
            db@ == Map::<Seq<u8>, u64>::empty(),
            db.entries() == Seq::<(Seq<u8>, u64)>::empty(),
    {
        let db = Database { data: Vec::new() };
        proof {
            assert(db.entries() =~= Seq::<(Seq<u8>, u64)>::empty());
        }
        db
    }

    /// Builds a store from the backing file's raw contents, as the
    /// surrounding program read them. A buffer that ends in the middle of
    /// an entry is rejected with `DeserializationError`; any other buffer
    /// decodes, a later entry overwriting an earlier one with the same key.
    pub fn new(bytes: &Vec<u8>) -> (r: Result<Database, DatabaseError>)
        ensures
            match r {
                Ok(db) => ({
                    &&& spec_decode(bytes@) is Some
                    &&& db.wf()
                    &&& db@ == entries_map(spec_decode(bytes@).unwrap())
                }),
                Err(e) => ({
                    &&& spec_decode(bytes@) is None
                    &&& e == DatabaseError::DeserializationError
                }),
            },
    {
        match codec::decode(bytes) {
            None => Err(DatabaseError::DeserializationError),
            Some(es) => {
                proof {
                    codec::lemma_decode_keys_ok(bytes@);
                }
                let ghost ev = entries_view(es@);
                let mut db = Database::empty();
                let n: usize = es.len();
                let mut i: usize = 0;
                proof {
                    assert(ev.take(0) =~= Seq::<(Seq<u8>, u64)>::empty());
                }
                while i < n
                    invariant
                        n == es@.len(),
                        i <= n,
                        ev == entries_view(es@),
                        entries_keys_ok(ev),
                        db.wf(),
                        db@ == entries_map(ev.take(i as int)),
                    decreases n - i,
                {
                    let e = &es[i];
                    let k = vstd::slice::slice_to_vec(e.key.as_slice());
                    proof {
                        assert(ev[i as int] == (es@[i as int].key@, es@[i as int].value));
                        assert(ev[i as int].0.len() <= 255);
                    }
                    db.insert_entry(k, e.value);
                    proof {
                        assert(ev.take(i as int + 1).drop_last() =~= ev.take(i as int));
                        assert(ev.take(i as int + 1).last() == ev[i as int]);
                    }
                    i += 1;
                }
                proof {
                    assert(ev.take(n as int) =~= ev);
                }
                Ok(db)
            },
        }
    }

    /// Serializes the whole in-memory state into the bytes the backing
    /// file must hold; the surrounding program overwrites the file with
    /// them. The result decodes back to exactly the entries it was made
    /// from.
    pub fn save_data(&self) -> (r: Vec<u8>)
        requires
            self.wf(),
        ensures
            r@ == spec_encode(self.entries()),
            spec_decode(r@) == Some(self.entries()),
    {
        proof {
            codec::lemma_decode_encode_round_trip(self.entries());
        }
        codec::encode(&self.data)
    }

    /// Inserts the pair, overwriting in place where the key is present.
    fn insert_entry(&mut self, key: Vec<u8>, value: u64)
        requires
            old(self).wf(),
            key@.len() <= 255,
        ensures
            final(self).wf(),
            final(self)@ == old(self)@.insert(key@, value),
    {
        let ghost es0 = self.entries();
        let ghost kv = key@;
        match find_index(&self.data, &key) {
            Some(i) => {
                let e = &mut self.data[i];
                e.value = value;
                proof {
                    let es1 = self.entries();
                    assert forall|j: int| 0 <= j < es1.len() implies #[trigger] es1[j] == es0.update(
                        i as int,
                        (kv, value),
                    )[j] by {
                        assert(es1[j] == (self.data@[j].key@, self.data@[j].value));
                        assert(es0[j] == (old(self).data@[j].key@, old(self).data@[j].value));
                    }
                    assert(es1 =~= es0.update(i as int, (kv, value)));
                    assert(es0[i as int].0 == kv);
                    lemma_entries_map_update(es0, i as int, value);
                    assert forall|a: int, b: int|
                        #![trigger es1[a], es1[b]]
                        0 <= a < b < es1.len() implies es1[a].0 != es1[b].0 by {
                        assert(es1[a].0 == es0[a].0);
                        assert(es1[b].0 == es0[b].0);
                    }
                    assert forall|a: int| 0 <= a < es1.len() implies (#[trigger] es1[a]).0.len()
                        <= 255 by {
                        assert(es1[a].0 == es0[a].0);
                    }
                }
            },
            None => {
                self.data.push(Entry { key, value });
                proof {
                    let es1 = self.entries();
                    assert forall|j: int| 0 <= j < es1.len() implies #[trigger] es1[j] == es0.push(
                        (kv, value),
                    )[j] by {
                        assert(es1[j] == (self.data@[j].key@, self.data@[j].value));
                        if j < es0.len() {
                            assert(es0[j] == (old(self).data@[j].key@, old(self).data@[j].value));
                        }
                    }
                    assert(es1 =~= es0.push((kv, value)));
                    assert(es1.drop_last() =~= es0);
                    assert(es1.last() == (kv, value));
                    assert forall|j: int| 0 <= j < es0.len() implies (#[trigger] es0[j]).0
                        != kv by {
                        assert(es0[j] == (old(self).data@[j].key@, old(self).data@[j].value));
                    }
                }
            },
        }
    }

    /// Inserts or overwrites the key's value in memory. A key longer than
    /// the length prefix allows is rejected with `SerializationError` and
    /// the store is left unchanged; the caller then persists the new state
    /// with `save_data`.
    pub fn set(&mut self, key: Vec<u8>, value: u64) -> (r: Result<(), DatabaseError>)
        requires
            old(self).wf(),
        ensures
            final(self).wf(),
            key@.len() <= 255 ==> r == Ok::<(), DatabaseError>(()) && final(self)@ == old(
                self,
            )@.insert(key@, value),
            key@.len() > 255 ==> r == Err::<(), DatabaseError>(DatabaseError::SerializationError)
                && *final(self) == *old(self),
    {
        if key.len() > codec::MAX_KEY_LEN {
            return Err(DatabaseError::SerializationError);
        }
        self.insert_entry(key, value);
        Ok(())
    }

    /// Looks the key up in memory; never touches the backing file and
    /// never fails.
    pub fn get(&self, key: &Vec<u8>) -> (r: Option<u64>)
        requires
            self.wf(),
        ensures
            r == if self@.contains_key(key@) {
                Some(self@[key@])
            } else {
                None::<u64>
            },
    {
        let n: usize = self.data.len();
        let mut i: usize = 0;
        while i < n
            invariant
                self.wf(),
                n == self.data@.len(),
                i <= n,
                forall|j: int| 0 <= j < i ==> (#[trigger] self.data@[j]).key@ != key@,
            decreases n - i,
        {
            if bytes_eq(&self.data[i].key, key) {
                proof {
                    assert(self.entries()[i as int] == (self.data@[i as int].key@, self.data@[
                        i as int
                    ].value));
                    lemma_entries_map_value(self.entries(), i as int);
                }
                return Some(self.data[i].value);
            }
            i += 1;
        }
        proof {
            lemma_entries_map_contains(self.entries(), key@);
            assert forall|j: int| 0 <= j < self.entries().len() implies (#[trigger] self.entries()[
                j
            ]).0 != key@ by {
                assert(self.entries()[j] == (self.data@[j].key@, self.data@[j].value));
            }
        }
        None
    }
}

/// The index of the entry holding the key, if any.
fn find_index(data: &Vec<Entry>, key: &Vec<u8>) -> (r: Option<usize>)
    ensures
        match r {
            Some(i) => i < data@.len() && data@[i as int].key@ == key@,
            None => forall|j: int| 0 <= j < data@.len() ==> (#[trigger] data@[j]).key@ != key@,
        },
{
    let n: usize = data.len();
    let mut i: usize = 0;
    while i < n
        invariant
            n == data@.len(),
            i <= n,
            forall|j: int| 0 <= j < i ==> (#[trigger] data@[j]).key@ != key@,
        decreases n - i,
    {
        if bytes_eq(&data[i].key, key) {
            return Some(i);
        }
        i += 1;
    }
    None
}

/// Byte-for-byte equality of two keys.
fn bytes_eq(a: &Vec<u8>, b: &Vec<u8>) -> (r: bool)
    ensures
        r <==> a@ == b@,
{
    if a.len() != b.len() {
        return false;
    }
    let n: usize = a.len();
    let mut i: usize = 0;
    while i < n
        invariant
            n == a@.len(),
            n == b@.len(),
            i <= n,
            forall|j: int| 0 <= j < i ==> a@[j] == b@[j],
        decreases n - i,
    {
        if a[i] != b[i] {
            return false;
        }
        i += 1;
    }
    proof {
        assert(a@ =~= b@);
    }
    true
}

} // verus!

