//! The sample store: an ordered map from timestamp keys to sensor records,
//! kept in a sled tree.
use vstd::prelude::*;

use crate::key::{
    be_value, decode_key, key_bytes, key_rank, lemma_key_bytes, lemma_key_timestamp_rank,
    lemma_lex_value, lex_le, lex_lt, timestamp_key, KEY_LEN,
};
use crate::reading::{data_views, entry_reading, readings_of, time_ascending, Data};

verus! {

#[verifier::external_type_specification]
#[verifier::external_body]
pub struct ExTree(sled::Tree);

#[verifier::external_type_specification]
#[verifier::external_body]
pub struct ExSledError(sled::Error);

/// Entries whose keys strictly ascend in byte order.
pub open spec fn keys_ascending(es: Seq<(Vec<u8>, Vec<u8>)>) -> bool {
    forall|i: int, j: int| 0 <= i < j < es.len() ==> lex_lt(#[trigger] es[i].0@, #[trigger] es[j].0@)
}

/// Relies on sled::Tree::insert: stores `value` under `key`, replacing what
/// the key held.
#[verifier::external_body]
fn tree_insert(t: &sled::Tree, key: &[u8], value: &[u8]) -> (r: Result<(), sled::Error>) {
    t.insert(key, value).map(|_| ())
}

/// Relies on sled::Tree::last: the entry with the greatest key, if any.
#[verifier::external_body]
fn tree_last(t: &sled::Tree) -> (r: Result<Option<(Vec<u8>, Vec<u8>)>, sled::Error>) {
    t.last().map(|e| e.map(|(k, v)| (k.to_vec(), v.to_vec())))
}

/// Relies on sled::Tree::range over `lo..` and on sled's Iter, which yields
/// each entry with a key at or above `lo` in strictly ascending key order;
/// reading stops at the first error.
#[verifier::external_body]
fn tree_range_from(t: &sled::Tree, lo: &[u8]) -> (r: Vec<(Vec<u8>, Vec<u8>)>)
    ensures
        keys_ascending(r@),
        forall|i: int| 0 <= i < r@.len() ==> lex_le(lo@, #[trigger] r@[i].0@),
{
    let mut out = Vec::new();
    let mut it = t.range::<&[u8], _>(lo..);
    while let Some(Ok((k, v))) = it.next() {
        out.push((k.to_vec(), v.to_vec()));
    }
    out
}

/// Why a store operation failed.
#[derive(Clone, Copy, Debug, PartialEq, Eq, Structural)]
pub enum StoreError {
    /// The underlying storage reported an error.
    Io,
    /// A stored key is not a timestamp key.
    MalformedKey,
}

/// The reading that a stored entry holds, if its key is a timestamp key.
pub fn entry_data(key: &[u8], value: &Vec<u8>) -> (r: Option<Data>)
    ensures
        match r {
            Some(d) => entry_reading(key@, value@) == Some(d@),
            None => entry_reading(key@, value@) is None,
        },
{
    match decode_key(key) {
        Some(ts) => Some(Data { timestamp: ts, sensors: value.clone() }),
        None => None,
    }
}

/// The readings of a run of stored entries, in their order, passing over
/// entries whose key is not a timestamp key. Entries in ascending key order
/// give readings in ascending time order.
pub fn readings_from_entries(es: &Vec<(Vec<u8>, Vec<u8>)>) -> (r: Vec<Data>)
    ensures
        data_views(r@) == readings_of(es@),
        keys_ascending(es@) ==> time_ascending(data_views(r@)),
{
    collect_readings(es, Ghost(Seq::empty()))
}

/// As `readings_from_entries`; besides, where the keys are bounded below by
/// the key-length string `lo`, the readings' key values are bounded below by
/// its value.
fn collect_readings(es: &Vec<(Vec<u8>, Vec<u8>)>, lo: Ghost<Seq<u8>>) -> (r: Vec<Data>)
    ensures
        data_views(r@) == readings_of(es@),
        keys_ascending(es@) ==> time_ascending(data_views(r@)),
        lo@.len() == KEY_LEN && (forall|i: int| 0 <= i < es@.len() ==> lex_le(lo@, #[trigger] es@[i].0@))
            ==> forall|j: int| 0 <= j < r@.len() ==> be_value(lo@) <= key_rank(#[trigger] r@[j].timestamp),
{
    let mut out: Vec<Data> = Vec::new();
    let mut i: usize = 0;
    while i < es.len()
        invariant
            0 <= i <= es@.len(),
            data_views(out@) == readings_of(es@.take(i as int)),
            keys_ascending(es@) ==> time_ascending(data_views(out@)),
            keys_ascending(es@) ==> forall|j: int, m: int|
                0 <= j < out@.len() && i <= m < es@.len() && es@[m].0@.len() == KEY_LEN
                    ==> key_rank(#[trigger] out@[j].timestamp) < be_value(#[trigger] es@[m].0@),
            lo@.len() == KEY_LEN && (forall|k: int| 0 <= k < es@.len() ==> lex_le(lo@, #[trigger] es@[k].0@))
                ==> forall|j: int| 0 <= j < out@.len() ==> be_value(lo@) <= key_rank(#[trigger] out@[j].timestamp),
        decreases es@.len() - i,
    {
        let e = &es[i];
        let ghost prev = out@;
        proof {
            assert(es@.take(i + 1).drop_last() =~= es@.take(i as int));
            assert(es@.take(i + 1).last() == es@[i as int]);
        }
        match entry_data(&e.0, &e.1) {
            Some(d) => {
                proof {
                    let ts = d.timestamp;
                    lemma_key_timestamp_rank(e.0@);
                    if keys_ascending(es@) {
                        assert forall|m: int| i < m < es@.len() && es@[m].0@.len() == KEY_LEN
                            implies key_rank(ts) < be_value(#[trigger] es@[m].0@) by {
                            assert(lex_lt(es@[i as int].0@, es@[m].0@));
                            lemma_lex_value(es@[i as int].0@, es@[m].0@);
                        }
                    }
                    if lo@.len() == KEY_LEN && (forall|k: int| 0 <= k < es@.len() ==> lex_le(lo@, #[trigger] es@[k].0@)) {
                        assert(lex_le(lo@, es@[i as int].0@));
                        lemma_lex_value(lo@, es@[i as int].0@);
                    }
                }
                out.push(d);
                proof {
                    assert(data_views(out@) =~= data_views(prev).push(d@));
                }
            },
            None => {},
        }
        i = i + 1;
    }
    proof {
        assert(es@.take(es@.len() as int) =~= es@);
    }
    out
}

} // verus!

verus! {

/// The entry a reading is stored as: the key of its timestamp and its
/// sensor record.
pub fn entry_of(reading: &Data) -> (r: (Vec<u8>, Vec<u8>))
    ensures
        r.0@ == key_bytes(reading.timestamp),
        r.1@ == reading.sensors@,
        entry_reading(r.0@, r.1@) == Some(reading@),
{
    proof {
        lemma_key_bytes(reading.timestamp);
    }
    (timestamp_key(reading.timestamp), reading.sensors.clone())
}

/// The last reading, given the last entry that the tree returned: an entry
/// whose key is not a timestamp key is an error.
pub fn reading_of_last(last: Option<(Vec<u8>, Vec<u8>)>) -> (r: Result<Option<Data>, StoreError>)
    ensures
        match last {
            None => r == Ok::<Option<Data>, StoreError>(None),
            Some(e) => match entry_reading(e.0@, e.1@) {
                Some(d) => r matches Ok(Some(x)) && x@ == d,
                None => r == Err::<Option<Data>, StoreError>(StoreError::MalformedKey),
            },
        },
{
    match last {
        Some((k, v)) => match entry_data(k.as_slice(), &v) {
            Some(d) => Ok(Some(d)),
            None => Err(StoreError::MalformedKey),
        },
        None => Ok(None),
    }
}

/// The sample store. Its tree may be shared, so one task may append while
/// others read.
pub struct Store {
    tree: sled::Tree,
}

impl Store {
    /// A store kept in the given tree.
    pub fn new(tree: sled::Tree) -> (r: Store) {
        Store { tree }
    }

    /// Stores a reading as `entry_of` gives it, replacing a reading of the
    /// same second; an error of the storage is `Io`.
    pub fn append(&self, reading: &Data) -> (r: Result<(), StoreError>)
        ensures
            r matches Err(e) ==> e == StoreError::Io,
    {
        let (key, value) = entry_of(reading);
        match tree_insert(&self.tree, key.as_slice(), value.as_slice()) {
            Ok(()) => Ok(()),
            Err(_) => Err(StoreError::Io),
        }
    }

    /// The reading with the greatest key, or `None` on an empty store, as
    /// `reading_of_last` reads the tree's last entry; an error of the storage
    /// is `Io`.
    pub fn last(&self) -> (r: Result<Option<Data>, StoreError>) {
        match tree_last(&self.tree) {
            Ok(e) => reading_of_last(e),
            Err(_) => Err(StoreError::Io),
        }
    }

    /// Every reading, in ascending time order.
    pub fn scan_all(&self) -> (r: Vec<Data>)
        ensures
            time_ascending(data_views(r@)),
    {
        let lo: Vec<u8> = Vec::new();
        let es = tree_range_from(&self.tree, lo.as_slice());
        readings_from_entries(&es)
    }

    /// The readings at or after second `from`, in ascending time order.
    pub fn scan_from(&self, from: i64) -> (r: Vec<Data>)
        ensures
            time_ascending(data_views(r@)),
            forall|i: int| 0 <= i < r@.len() ==> from <= #[trigger] r@[i].timestamp,
    {
        let lo = timestamp_key(from);
        let es = tree_range_from(&self.tree, lo.as_slice());
        proof {
            lemma_key_bytes(from);
        }
        collect_readings(&es, Ghost(lo@))
    }
}

} // verus!
