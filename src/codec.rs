//! The record format: a 12-byte header (checksum, key length, value length,
//! each a little-endian `u32`) followed by the key bytes and the value bytes.
use vstd::prelude::*;
use vstd::slice::slice_to_vec;
use byteorder::ByteOrder;
use byteorder::LittleEndian;

verus! {

/// Number of header bytes in front of every record's payload.
pub const HEADER_LEN: usize = 12;

/// Why a record could not be read.
#[derive(Debug, Clone, Copy, PartialEq, Eq, Structural)]
pub enum KvError {
    /// The log ends in the middle of a record (inside its header or its payload).
    Truncated,
    /// The record is complete but its stored checksum is not the CRC-32 of its payload.
    Corrupt { expected: u32, computed: u32 },
}

/// A decoded record.
#[derive(Debug)]
pub struct KeyValuePair {
    pub key: Vec<u8>,
    pub value: Vec<u8>,
}

/// The CRC-32 (IEEE polynomial) of a byte sequence.
pub uninterp spec fn crc32_ieee(data: Seq<u8>) -> u32;

/// The four bytes of `n`, least significant first.
pub open spec fn le_bytes_of(n: u32) -> Seq<u8> {
    seq![
        (n & 0xff) as u8,
        ((n >> 8u32) & 0xff) as u8,
        ((n >> 16u32) & 0xff) as u8,
        ((n >> 24u32) & 0xff) as u8,
    ]
}

/// The `u32` stored least significant byte first at `b[i..i + 4]`.
pub open spec fn le_u32_at(b: Seq<u8>, i: int) -> u32 {
    (b[i] as u32) | ((b[i + 1] as u32) << 8u32) | ((b[i + 2] as u32) << 16u32) | ((b[i + 3]
        as u32) << 24u32)
}

/// The bytes of the record that holds `key` and `value`.
pub open spec fn record_bytes(key: Seq<u8>, value: Seq<u8>) -> Seq<u8> {
    le_bytes_of(crc32_ieee(key + value)) + le_bytes_of(key.len() as u32) + le_bytes_of(
        value.len() as u32,
    ) + key + value
}

/// What reading the log at `pos` yields: `Ok(None)` at the end of the log,
/// `Ok(Some((key, value, next)))` for a sound record that ends at `next`, and
/// an error for a record cut short or whose checksum does not match.
pub open spec fn decode_at(log: Seq<u8>, pos: int) -> Result<Option<(Seq<u8>, Seq<u8>, int)>, KvError> {
    if pos >= log.len() {
        Ok(None)
    } else if pos + HEADER_LEN > log.len() {
        Err(KvError::Truncated)
    } else {
        let saved = le_u32_at(log, pos);
        let klen = le_u32_at(log, pos + 4) as int;
        let vlen = le_u32_at(log, pos + 8) as int;
        let end = pos + HEADER_LEN + klen + vlen;
        if end > log.len() {
            Err(KvError::Truncated)
        } else {
            let data = log.subrange(pos + HEADER_LEN, end);
            let computed = crc32_ieee(data);
            if computed != saved {
                Err(KvError::Corrupt { expected: saved, computed })
            } else {
                Ok(Some((data.subrange(0, klen), data.subrange(klen, klen + vlen), end)))
            }
        }
    }
}

/// The spec-level reading of what `decode` returns.
pub open spec fn decoded_view(r: Result<Option<(KeyValuePair, usize)>, KvError>) -> Result<
    Option<(Seq<u8>, Seq<u8>, int)>,
    KvError,
> {
    match r {
        Ok(None) => Ok(None),
        Ok(Some((kv, next))) => Ok(Some((kv.key@, kv.value@, next as int))),
        Err(e) => Err(e),
    }
}

/// Relies on crc::crc32::checksum_ieee: the CRC-32 (IEEE) of the bytes, which
/// depends on the bytes alone.
#[verifier::external_body]
fn checksum_ieee(data: &[u8]) -> (r: u32)
    ensures
        r == crc32_ieee(data@),
{
    crc::crc32::checksum_ieee(data)
}

/// Relies on byteorder's `LittleEndian::read_u32`: the `u32` whose bytes,
/// least significant first, are `buf[pos..pos + 4]`.
#[verifier::external_body]
fn read_u32_le(buf: &[u8], pos: usize) -> (r: u32)
    requires
        pos + 4 <= buf@.len(),
    ensures
        r == le_u32_at(buf@, pos as int),
{
    LittleEndian::read_u32(&buf[pos..])
}

/// Relies on byteorder's `LittleEndian::write_u32`: it stores `n` into four
/// bytes, least significant first.
#[verifier::external_body]
fn u32_le_bytes(n: u32) -> (r: Vec<u8>)
    ensures
        r@ == le_bytes_of(n),
{
    let mut b = vec![0u8; 4];
    LittleEndian::write_u32(&mut b, n);
    b
}

/// The record for `key` and `value`, ready to be appended to a log.
pub fn encode(key: &[u8], value: &[u8]) -> (r: Vec<u8>)
    requires
        key@.len() <= u32::MAX,
        value@.len() <= u32::MAX,
    ensures
        r@ == record_bytes(key@, value@),
{
    let mut data = slice_to_vec(key);
    let mut v = slice_to_vec(value);
    data.append(&mut v);
    let checksum = checksum_ieee(data.as_slice());
    let mut out = u32_le_bytes(checksum);
    let mut klen = u32_le_bytes(key.len() as u32);
    let mut vlen = u32_le_bytes(value.len() as u32);
    out.append(&mut klen);
    out.append(&mut vlen);
    out.append(&mut data);
    proof {
        assert(out@ =~= record_bytes(key@, value@));
    }
    out
}

/// Reads the record that starts at `pos` in `log`, checking its checksum.
/// Returns the record and the position just after it, `Ok(None)` where the
/// log has ended, or the reason the record is unreadable.
pub fn decode(log: &[u8], pos: usize) -> (r: Result<Option<(KeyValuePair, usize)>, KvError>)
    ensures
        decoded_view(r) == decode_at(log@, pos as int),
{
    if pos >= log.len() {
        return Ok(None);
    }
    if log.len() - pos < HEADER_LEN {
        return Err(KvError::Truncated);
    }
    let saved = read_u32_le(log, pos);
    let klen = read_u32_le(log, pos + 4);
    let vlen = read_u32_le(log, pos + 8);
    let start = pos + HEADER_LEN;
    let room = (log.len() - start) as u64;
    if klen as u64 + vlen as u64 > room {
        return Err(KvError::Truncated);
    }
    let mid = start + klen as usize;
    let end = mid + vlen as usize;
    let computed = checksum_ieee(&log[start..end]);
    if computed != saved {
        return Err(KvError::Corrupt { expected: saved, computed });
    }
    let key = slice_to_vec(&log[start..mid]);
    let value = slice_to_vec(&log[mid..end]);
    proof {
        let data = log@.subrange(start as int, end as int);
        assert(key@ =~= data.subrange(0, klen as int));
        assert(value@ =~= data.subrange(klen as int, klen + vlen));
    }
    Ok(Some((KeyValuePair { key, value }, end)))
}

proof fn lemma_le_round_trip(n: u32)
    ensures
        le_u32_at(le_bytes_of(n), 0) == n,
{
    let b = le_bytes_of(n);
    assert(((n & 0xff) as u8 as u32) | ((((n >> 8u32) & 0xff) as u8 as u32) << 8u32) | ((((n
        >> 16u32) & 0xff) as u8 as u32) << 16u32) | ((((n >> 24u32) & 0xff) as u8 as u32)
        << 24u32) == n) by (bit_vector);
}

/// Whatever precedes and follows it in a log, an encoded record reads back as
/// the same key and value, its stored checksum is the CRC-32 of key and value,
/// and reading continues just after it.
pub proof fn lemma_decode_encoded(pre: Seq<u8>, key: Seq<u8>, value: Seq<u8>, post: Seq<u8>)
    requires
        key.len() <= u32::MAX,
        value.len() <= u32::MAX,
    ensures
        record_bytes(key, value).len() == HEADER_LEN + key.len() + value.len(),
        le_u32_at(pre + record_bytes(key, value) + post, pre.len() as int) == crc32_ieee(key + value),
        decode_at(pre + record_bytes(key, value) + post, pre.len() as int) == Ok::<
            Option<(Seq<u8>, Seq<u8>, int)>,
            KvError,
        >(Some((key, value, (pre.len() + record_bytes(key, value).len()) as int))),
{
    let rec = record_bytes(key, value);
    let log = pre + rec + post;
    let p = pre.len() as int;
    let c = crc32_ieee(key + value);
    let kl = key.len() as u32;
    let vl = value.len() as u32;
    lemma_le_round_trip(c);
    lemma_le_round_trip(kl);
    lemma_le_round_trip(vl);
    assert(rec.len() == HEADER_LEN + key.len() + value.len());
    assert(log.subrange(p, p + 4) =~= le_bytes_of(c));
    assert(log.subrange(p + 4, p + 8) =~= le_bytes_of(kl));
    assert(log.subrange(p + 8, p + 12) =~= le_bytes_of(vl));
    assert(le_u32_at(log, p) == le_u32_at(le_bytes_of(c), 0));
    assert(le_u32_at(log, p + 4) == le_u32_at(le_bytes_of(kl), 0));
    assert(le_u32_at(log, p + 8) == le_u32_at(le_bytes_of(vl), 0));
    let end = p + HEADER_LEN + key.len() + value.len();
    let data = log.subrange(p + HEADER_LEN, end);
    assert(data =~= key + value);
    assert(data.subrange(0, key.len() as int) =~= key);
    assert(data.subrange(key.len() as int, (key.len() + value.len()) as int) =~= value);
}

} // verus!
