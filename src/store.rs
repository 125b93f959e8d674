//! The store: an append-only log of records and the index derived from it.
use vstd::prelude::*;
use crate::codec::{
    crc32_ieee, decode, decode_at, encode, lemma_decode_encoded, record_bytes, KeyValuePair,
    KvError, HEADER_LEN,
};
use crate::index::{bytes_eq, KeyIndex};

verus! {

/// The index that replaying `log` from `pos` onwards builds on top of `idx`:
/// each record points its key at the record's own offset, so later records win.
/// Replay stops cleanly at the end of the log and fails on the first record
/// that is cut short or corrupt.
pub open spec fn replay(log: Seq<u8>, pos: int, idx: Map<Seq<u8>, u64>) -> Result<
    Map<Seq<u8>, u64>,
    KvError,
>
    decreases log.len() - pos,
{
    if pos < 0 || pos >= log.len() {
        Ok(idx)
    } else {
        match decode_at(log, pos) {
            Ok(Some((key, _value, next))) => replay(log, next, idx.insert(key, pos as u64)),
            Ok(None) => Ok(idx),
            Err(e) => Err(e),
        }
    }
}

/// The index that loading `log` builds.
pub open spec fn loaded_index(log: Seq<u8>) -> Result<Map<Seq<u8>, u64>, KvError> {
    replay(log, 0, Map::empty())
}

/// What reading the record at `offset` yields: the record, or an error where
/// the log ends there or the record is cut short or corrupt.
pub open spec fn record_at(log: Seq<u8>, offset: u64) -> Result<(Seq<u8>, Seq<u8>), KvError> {
    match decode_at(log, offset as int) {
        Ok(Some((key, value, _next))) => Ok((key, value)),
        Ok(None) => Err(KvError::Truncated),
        Err(e) => Err(e),
    }
}

/// What looking `key` up yields: nothing where the index lacks it, else the
/// value of the record that the index points at.
pub open spec fn lookup(log: Seq<u8>, index: Map<Seq<u8>, u64>, key: Seq<u8>) -> Result<
    Option<Seq<u8>>,
    KvError,
> {
    if !index.contains_key(key) {
        Ok(None)
    } else {
        match record_at(log, index[key]) {
            Ok((_k, value)) => Ok(Some(value)),
            Err(e) => Err(e),
        }
    }
}

/// What scanning for `target` from `from` yields: the record there when its
/// value is `target`; nothing when its value differs or the log has ended.
pub open spec fn scan_for(log: Seq<u8>, target: Seq<u8>, from: u64) -> Result<
    Option<(Seq<u8>, Seq<u8>)>,
    KvError,
> {
    match decode_at(log, from as int) {
        Ok(Some((key, value, _next))) => if value == target {
            Ok(Some((key, value)))
        } else {
            Ok(None)
        },
        Ok(None) => Ok(None),
        Err(e) => Err(e),
    }
}

/// The key and value of a record, as sequences.
pub open spec fn pair_view(kv: KeyValuePair) -> (Seq<u8>, Seq<u8>) {
    (kv.key@, kv.value@)
}

/// A log-structured key/value store.
pub struct ActionKV {
    log: Vec<u8>,
    index: KeyIndex,
}

impl ActionKV {
    /// The bytes of the log.
    pub closed spec fn contents(&self) -> Seq<u8> {
        self.log@
    }

    /// The key to offset mapping of the index.
    pub closed spec fn indexed(&self) -> Map<Seq<u8>, u64> {
        self.index@
    }

    /// The index is well formed.
    pub closed spec fn wf(&self) -> bool {
        self.index.wf()
    }

    /// The index is the one that loading the log builds.
    pub open spec fn is_loaded(&self) -> bool {
        loaded_index(self.contents()) == Ok::<Map<Seq<u8>, u64>, KvError>(self.indexed())
    }

    /// A store over the log `log`, with an empty index that `load` fills.
    pub fn open(log: Vec<u8>) -> (r: Self)
        ensures
            r.wf(),
            r.contents() == log@,
            r.indexed() == Map::<Seq<u8>, u64>::empty(),
    {
        ActionKV { log, index: KeyIndex::new() }
    }

    /// The index, from each key to the offset of its latest record.
    pub fn index(&self) -> (r: &KeyIndex)
        requires
            self.wf(),
        ensures
            r.wf(),
            r@ == self.indexed(),
    {
        &self.index
    }

    /// The bytes of the log.
    pub fn log(&self) -> (r: &[u8])
        ensures
            r@ == self.contents(),
    {
        self.log.as_slice()
    }

    /// Rebuilds the index by replaying the log from its start. On failure the
    /// index is left as it was.
    pub fn load(&mut self) -> (r: Result<(), KvError>)
        requires
            old(self).wf(),
        ensures
            final(self).wf(),
            final(self).contents() == old(self).contents(),
            match r {
                Ok(()) => loaded_index(old(self).contents()) == Ok::<
                    Map<Seq<u8>, u64>,
                    KvError,
                >(final(self).indexed()),
                Err(e) => loaded_index(old(self).contents()) == Err::<Map<Seq<u8>, u64>, KvError>(
                    e,
                ) && final(self).indexed() == old(self).indexed(),
            },
            old(self).is_loaded() ==> r.is_ok() && final(self).indexed() == old(self).indexed(),
    {
        let mut idx = KeyIndex::new();
        let mut pos: usize = 0;
        loop
            invariant
                idx.wf(),
                self.wf(),
                self.log@ == old(self).log@,
                self.index@ == old(self).index@,
                pos <= self.log@.len(),
                replay(self.log@, pos as int, idx@) == loaded_index(self.log@),
            ensures
                idx.wf(),
                self.wf(),
                self.log@ == old(self).log@,
                self.index@ == old(self).index@,
                loaded_index(self.log@) == Ok::<Map<Seq<u8>, u64>, KvError>(idx@),
            decreases self.log@.len() - pos,
        {
            match decode(self.log.as_slice(), pos) {
                Ok(None) => {
                    break;
                },
                Ok(Some((kv, next))) => {
                    idx.insert(kv.key.as_slice(), pos as u64);
                    pos = next;
                },
                Err(e) => {
                    return Err(e);
                },
            }
        }
        self.index = idx;
        Ok(())
    }

    /// The record that starts at `pos`.
    fn get_at(&self, pos: u64) -> (r: Result<KeyValuePair, KvError>)
        ensures
            match r {
                Ok(kv) => record_at(self.contents(), pos) == Ok::<
                    (Seq<u8>, Seq<u8>),
                    KvError,
                >(pair_view(kv)),
                Err(e) => record_at(self.contents(), pos) == Err::<(Seq<u8>, Seq<u8>), KvError>(e),
            },
    {
        if pos >= self.log.len() as u64 {
            return Err(KvError::Truncated);
        }
        match decode(self.log.as_slice(), pos as usize) {
            Ok(Some((kv, _next))) => Ok(kv),
            Ok(None) => Err(KvError::Truncated),
            Err(e) => Err(e),
        }
    }

    /// The value of the latest record for `key`; `Ok(None)` where the index
    /// lacks the key. A deleted key reads as an empty value.
    pub fn get(&self, key: &[u8]) -> (r: Result<Option<Vec<u8>>, KvError>)
        requires
            self.wf(),
        ensures
            match r {
                Ok(Some(v)) => lookup(self.contents(), self.indexed(), key@) == Ok::<
                    Option<Seq<u8>>,
                    KvError,
                >(Some(v@)),
                Ok(None) => lookup(self.contents(), self.indexed(), key@) == Ok::<
                    Option<Seq<u8>>,
                    KvError,
                >(None),
                Err(e) => lookup(self.contents(), self.indexed(), key@) == Err::<
                    Option<Seq<u8>>,
                    KvError,
                >(e),
            },
    {
        let pos = match self.index.get(key) {
            None => return Ok(None),
            Some(pos) => pos,
        };
        let kv = self.get_at(pos)?;
        Ok(Some(kv.value))
    }

    /// Reads the record at `from` and returns it when its value is `target`.
    /// This looks at that one record only: a record with another value, or
    /// the end of the log, gives `Ok(None)`.
    pub fn find(&self, target: &[u8], from: u64) -> (r: Result<Option<KeyValuePair>, KvError>)
        ensures
            match r {
                Ok(Some(kv)) => scan_for(self.contents(), target@, from) == Ok::<
                    Option<(Seq<u8>, Seq<u8>)>,
                    KvError,
                >(Some(pair_view(kv))),
                Ok(None) => scan_for(self.contents(), target@, from) == Ok::<
                    Option<(Seq<u8>, Seq<u8>)>,
                    KvError,
                >(None),
                Err(e) => scan_for(self.contents(), target@, from) == Err::<
                    Option<(Seq<u8>, Seq<u8>)>,
                    KvError,
                >(e),
            },
    {
        if from >= self.log.len() as u64 {
            return Ok(None);
        }
        match decode(self.log.as_slice(), from as usize) {
            Ok(Some((kv, _next))) => {
                if bytes_eq(kv.value.as_slice(), target) {
                    Ok(Some(kv))
                } else {
                    Ok(None)
                }
            },
            Ok(None) => Ok(None),
            Err(e) => Err(e),
        }
    }

    /// Appends the record for `key` and `value` to the log and returns the
    /// offset it starts at, leaving the index as it is.
    fn insert_but_ignore_index(&mut self, key: &[u8], value: &[u8]) -> (r: u64)
        requires
            key@.len() <= u32::MAX,
            value@.len() <= u32::MAX,
            old(self).contents().len() + HEADER_LEN + key@.len() + value@.len() <= usize::MAX,
        ensures
            r == old(self).contents().len(),
            final(self).contents() == old(self).contents() + record_bytes(key@, value@),
            final(self).index == old(self).index,
    {
        let pos = self.log.len() as u64;
        let mut rec = encode(key, value);
        self.log.append(&mut rec);
        pos
    }

    /// Appends a record for `key` and `value` and points the index at it.
    pub fn insert(&mut self, key: &[u8], value: &[u8])
        requires
            old(self).wf(),
            key@.len() <= u32::MAX,
            value@.len() <= u32::MAX,
            old(self).contents().len() + HEADER_LEN + key@.len() + value@.len() <= usize::MAX,
        ensures
            final(self).wf(),
            final(self).contents() == old(self).contents() + record_bytes(key@, value@),
            final(self).indexed() == old(self).indexed().insert(
                key@,
                old(self).contents().len() as u64,
            ),
            old(self).is_loaded() ==> final(self).is_loaded(),
    {
        let pos = self.insert_but_ignore_index(key, value);
        self.index.insert(key, pos);
        proof {
            if old(self).is_loaded() {
                lemma_replay_append(old(self).contents(), key@, value@, old(self).indexed());
            }
        }
    }

    /// The same as `insert`: every write is an append.
    pub fn update(&mut self, key: &[u8], value: &[u8])
        requires
            old(self).wf(),
            key@.len() <= u32::MAX,
            value@.len() <= u32::MAX,
            old(self).contents().len() + HEADER_LEN + key@.len() + value@.len() <= usize::MAX,
        ensures
            final(self).wf(),
            final(self).contents() == old(self).contents() + record_bytes(key@, value@),
            final(self).indexed() == old(self).indexed().insert(
                key@,
                old(self).contents().len() as u64,
            ),
            old(self).is_loaded() ==> final(self).is_loaded(),
    {
        self.insert(key, value)
    }

    /// Appends a record for `key` with an empty value. Afterwards `get(key)`
    /// returns an empty value, not `None`.
    pub fn delete(&mut self, key: &[u8])
        requires
            old(self).wf(),
            key@.len() <= u32::MAX,
            old(self).contents().len() + HEADER_LEN + key@.len() <= usize::MAX,
        ensures
            final(self).wf(),
            final(self).contents() == old(self).contents() + record_bytes(key@, Seq::empty()),
            final(self).indexed() == old(self).indexed().insert(
                key@,
                old(self).contents().len() as u64,
            ),
            old(self).is_loaded() ==> final(self).is_loaded(),
    {
        let empty: [u8; 0] = [];
        proof {
            assert(empty@ =~= Seq::<u8>::empty());
        }
        self.insert(key, &empty)
    }
}

proof fn lemma_decode_extend(log: Seq<u8>, extra: Seq<u8>, pos: int)
    requires
        0 <= pos < log.len(),
        decode_at(log, pos) is Ok,
        decode_at(log, pos).unwrap() is Some,
    ensures
        decode_at(log + extra, pos) == decode_at(log, pos),
        decode_at(log, pos).unwrap().unwrap().2 <= log.len(),
        decode_at(log, pos).unwrap().unwrap().2 > pos,
{
    let big = log + extra;
    assert(le_u32_eq(log, big, pos));
    let klen = crate::codec::le_u32_at(log, pos + 4) as int;
    let vlen = crate::codec::le_u32_at(log, pos + 8) as int;
    let end = pos + HEADER_LEN + klen + vlen;
    assert(big.subrange(pos + HEADER_LEN, end) =~= log.subrange(pos + HEADER_LEN, end));
}

spec fn le_u32_eq(a: Seq<u8>, b: Seq<u8>, pos: int) -> bool {
    &&& crate::codec::le_u32_at(a, pos) == crate::codec::le_u32_at(b, pos)
    &&& crate::codec::le_u32_at(a, pos + 4) == crate::codec::le_u32_at(b, pos + 4)
    &&& crate::codec::le_u32_at(a, pos + 8) == crate::codec::le_u32_at(b, pos + 8)
}

proof fn lemma_replay_append_from(
    log: Seq<u8>,
    key: Seq<u8>,
    value: Seq<u8>,
    pos: int,
    idx: Map<Seq<u8>, u64>,
    m: Map<Seq<u8>, u64>,
)
    requires
        key.len() <= u32::MAX,
        value.len() <= u32::MAX,
        0 <= pos <= log.len(),
        log.len() <= u64::MAX,
        replay(log, pos, idx) == Ok::<Map<Seq<u8>, u64>, KvError>(m),
    ensures
        replay(log + record_bytes(key, value), pos, idx) == Ok::<Map<Seq<u8>, u64>, KvError>(
            m.insert(key, log.len() as u64),
        ),
    decreases log.len() - pos,
{
    let rec = record_bytes(key, value);
    let big = log + rec;
    if pos == log.len() {
        lemma_decode_encoded(log, key, value, Seq::empty());
        assert(log + rec + Seq::empty() =~= big);
        let next = big.len() as int;
        assert(replay(big, next, idx.insert(key, pos as u64)) == Ok::<
            Map<Seq<u8>, u64>,
            KvError,
        >(idx.insert(key, pos as u64)));
    } else {
        lemma_decode_extend(log, rec, pos);
        let (k, _v, next) = decode_at(log, pos).unwrap().unwrap();
        lemma_replay_append_from(log, key, value, next, idx.insert(k, pos as u64), m);
    }
}

/// Appending a record to a log that loads cleanly gives a log that loads
/// cleanly into the same index, with the record's key pointing at the offset
/// where the record starts. So the index that inserts keep up to date is the
/// index that loading the log again would build.
pub proof fn lemma_replay_append(
    log: Seq<u8>,
    key: Seq<u8>,
    value: Seq<u8>,
    m: Map<Seq<u8>, u64>,
)
    requires
        key.len() <= u32::MAX,
        value.len() <= u32::MAX,
        log.len() <= u64::MAX,
        loaded_index(log) == Ok::<Map<Seq<u8>, u64>, KvError>(m),
    ensures
        loaded_index(log + record_bytes(key, value)) == Ok::<Map<Seq<u8>, u64>, KvError>(
            m.insert(key, log.len() as u64),
        ),
{
    lemma_replay_append_from(log, key, value, 0, Map::empty(), m);
}

/// After appending a record for `key` and pointing the index at it, looking
/// `key` up gives that record's value.
pub proof fn lemma_get_after_insert(
    log: Seq<u8>,
    index: Map<Seq<u8>, u64>,
    key: Seq<u8>,
    value: Seq<u8>,
)
    requires
        key.len() <= u32::MAX,
        value.len() <= u32::MAX,
        log.len() <= u64::MAX,
    ensures
        lookup(log + record_bytes(key, value), index.insert(key, log.len() as u64), key) == Ok::<
            Option<Seq<u8>>,
            KvError,
        >(Some(value)),
{
    lemma_decode_encoded(log, key, value, Seq::empty());
    assert(log + record_bytes(key, value) + Seq::empty() =~= log + record_bytes(key, value));
}

/// Latest wins: after inserting `v1` and then `v2` under `key`, looking `key`
/// up gives `v2`, and the index points at the second record, not the first.
pub proof fn lemma_latest_wins(
    log: Seq<u8>,
    index: Map<Seq<u8>, u64>,
    key: Seq<u8>,
    v1: Seq<u8>,
    v2: Seq<u8>,
)
    requires
        key.len() <= u32::MAX,
        v1.len() <= u32::MAX,
        v2.len() <= u32::MAX,
        log.len() + record_bytes(key, v1).len() <= u64::MAX,
    ensures
        ({
            let log1 = log + record_bytes(key, v1);
            let index1 = index.insert(key, log.len() as u64);
            let log2 = log1 + record_bytes(key, v2);
            let index2 = index1.insert(key, log1.len() as u64);
            &&& lookup(log2, index2, key) == Ok::<Option<Seq<u8>>, KvError>(Some(v2))
            &&& index2[key] == log1.len()
            &&& index2[key] != index1[key]
        }),
{
    lemma_decode_encoded(log, key, v1, Seq::empty());
    let log1 = log + record_bytes(key, v1);
    lemma_get_after_insert(log1, index.insert(key, log.len() as u64), key, v2);
}

/// A deleted key reads as present with an empty value, not as absent.
pub proof fn lemma_get_after_delete(log: Seq<u8>, index: Map<Seq<u8>, u64>, key: Seq<u8>)
    requires
        key.len() <= u32::MAX,
        log.len() <= u64::MAX,
    ensures
        lookup(
            log + record_bytes(key, Seq::empty()),
            index.insert(key, log.len() as u64),
            key,
        ) == Ok::<Option<Seq<u8>>, KvError>(Some(Seq::empty())),
{
    lemma_get_after_insert(log, index, key, Seq::empty());
}

/// A record whose payload was altered after it was written, so that the
/// payload's CRC-32 no longer matches the stored checksum, reads as corrupt,
/// naming the stored and the computed checksum; the altered data is never
/// returned.
pub proof fn lemma_checksum_mismatch_detected(
    pre: Seq<u8>,
    key: Seq<u8>,
    value: Seq<u8>,
    altered: Seq<u8>,
    post: Seq<u8>,
)
    requires
        key.len() <= u32::MAX,
        value.len() <= u32::MAX,
        altered.len() == key.len() + value.len(),
        crc32_ieee(altered) != crc32_ieee(key + value),
    ensures
        ({
            let rec = record_bytes(key, value);
            let log = pre + rec.subrange(0, HEADER_LEN as int) + altered + post;
            decode_at(log, pre.len() as int) == Err::<Option<(Seq<u8>, Seq<u8>, int)>, KvError>(
                KvError::Corrupt { expected: crc32_ieee(key + value), computed: crc32_ieee(altered) },
            )
        }),
{
    let rec = record_bytes(key, value);
    let header = rec.subrange(0, HEADER_LEN as int);
    let good = pre + rec + post;
    let bad = pre + header + altered + post;
    let p = pre.len() as int;
    lemma_decode_encoded(pre, key, value, post);
    assert(bad.len() == good.len());
    assert forall|i: int| 0 <= i < HEADER_LEN implies #[trigger] bad[p + i] == good[p + i] by {
        assert(bad[p + i] == header[i]);
        assert(good[p + i] == rec[i]);
    }
    assert(le_u32_eq(good, bad, p));
    let end = p + HEADER_LEN + key.len() + value.len();
    assert(bad.subrange(p + HEADER_LEN, end) =~= altered);
}

} // verus!
