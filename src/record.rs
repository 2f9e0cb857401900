//! On-disk record format.
//!
//! A record is `ksz` and `vsz` as 64-bit little-endian integers, then the `ksz`
//! key bytes, then the `vsz` value bytes. A `vsz` of zero marks a tombstone.
use vstd::prelude::*;

verus! {

/// Bytes taken by the two size prefixes of a record.
pub const HEADER_LEN: usize = 16;

/// The eight little-endian bytes of `n`.
pub open spec fn le_bytes(n: u64) -> Seq<u8> {
    seq![
        n as u8,
        (n >> 8u64) as u8,
        (n >> 16u64) as u8,
        (n >> 24u64) as u8,
        (n >> 32u64) as u8,
        (n >> 40u64) as u8,
        (n >> 48u64) as u8,
        (n >> 56u64) as u8,
    ]
}

/// The little-endian integer held by the eight bytes of `b` at `at`.
pub open spec fn le_value(b: Seq<u8>, at: int) -> u64 {
    (b[at] as u64) | ((b[at + 1] as u64) << 8u64) | ((b[at + 2] as u64) << 16u64) | ((b[at
        + 3] as u64) << 24u64) | ((b[at + 4] as u64) << 32u64) | ((b[at + 5] as u64) << 40u64)
        | ((b[at + 6] as u64) << 48u64) | ((b[at + 7] as u64) << 56u64)
}

/// The encoding of one record; a tombstone is the encoding with an empty value.
pub open spec fn encode_record(key: Seq<u8>, value: Seq<u8>) -> Seq<u8> {
    le_bytes(key.len() as u64) + le_bytes(value.len() as u64) + key + value
}

/// A decoded record: its key, the offset of its value payload and the payload's size.
pub type RecordPos = (Seq<u8>, int, int);

/// The complete records found in `data` from offset `pos` on, in order. Decoding
/// stops at the first record whose header, key or value runs past the end: a torn
/// tail is no record.
pub open spec fn parse_from(data: Seq<u8>, pos: int) -> Seq<RecordPos>
    decreases data.len() - pos,
{
    if pos < 0 || pos + HEADER_LEN > data.len() {
        seq![]
    } else {
        let ksz = le_value(data, pos) as int;
        let vsz = le_value(data, pos + 8) as int;
        let end = pos + HEADER_LEN + ksz + vsz;
        if end > data.len() {
            seq![]
        } else {
            seq![(data.subrange(pos + HEADER_LEN, pos + HEADER_LEN + ksz), pos + HEADER_LEN + ksz, vsz)]
                + parse_from(data, end)
        }
    }
}

/// The offset at which decoding from `pos` stops.
pub open spec fn parse_end(data: Seq<u8>, pos: int) -> int
    decreases data.len() - pos,
{
    if pos < 0 || pos + HEADER_LEN > data.len() {
        pos
    } else {
        let ksz = le_value(data, pos) as int;
        let vsz = le_value(data, pos + 8) as int;
        let end = pos + HEADER_LEN + ksz + vsz;
        if end > data.len() {
            pos
        } else {
            parse_end(data, end)
        }
    }
}

/// The records of a whole segment.
pub open spec fn parse_segment(data: Seq<u8>) -> Seq<RecordPos> {
    parse_from(data, 0)
}

/// A segment that ends exactly where its last complete record ends.
pub open spec fn is_clean(data: Seq<u8>) -> bool {
    parse_end(data, 0) == data.len()
}

pub proof fn lemma_le_round_trip(n: u64)
    ensures
        le_value(le_bytes(n), 0) == n,
{
    let b = le_bytes(n);
    assert(b[0] == n as u8 && b[1] == (n >> 8u64) as u8 && b[2] == (n >> 16u64) as u8 && b[3]
        == (n >> 24u64) as u8 && b[4] == (n >> 32u64) as u8 && b[5] == (n >> 40u64) as u8 && b[6]
        == (n >> 48u64) as u8 && b[7] == (n >> 56u64) as u8);
    assert(((n as u8) as u64) | ((((n >> 8u64) as u8) as u64) << 8u64) | ((((n >> 16u64) as u8)
        as u64) << 16u64) | ((((n >> 24u64) as u8) as u64) << 24u64) | ((((n >> 32u64) as u8)
        as u64) << 32u64) | ((((n >> 40u64) as u8) as u64) << 40u64) | ((((n >> 48u64) as u8)
        as u64) << 48u64) | ((((n >> 56u64) as u8) as u64) << 56u64) == n) by (bit_vector);
}

/// Reading eight bytes depends on those bytes alone.
proof fn lemma_le_value_prefix(a: Seq<u8>, b: Seq<u8>, at: int)
    requires
        0 <= at,
        at + 8 <= a.len(),
    ensures
        le_value(a + b, at) == le_value(a, at),
{
    let c = a + b;
    assert(c[at] == a[at] && c[at + 1] == a[at + 1] && c[at + 2] == a[at + 2] && c[at + 3] == a[at
        + 3] && c[at + 4] == a[at + 4] && c[at + 5] == a[at + 5] && c[at + 6] == a[at + 6] && c[at
        + 7] == a[at + 7]);
}

/// Appending one record to a cleanly ending segment adds exactly that record.
pub proof fn lemma_parse_append(data: Seq<u8>, pos: int, key: Seq<u8>, value: Seq<u8>)
    requires
        0 <= pos <= data.len(),
        parse_end(data, pos) == data.len(),
        key.len() <= u64::MAX,
        value.len() <= u64::MAX,
    ensures
        parse_from(data + encode_record(key, value), pos) == parse_from(data, pos).push(
            (key, data.len() + HEADER_LEN + key.len(), value.len() as int),
        ),
        parse_end(data + encode_record(key, value), pos) == data.len() + encode_record(
            key,
            value,
        ).len(),
    decreases data.len() - pos,
{
    let rec = encode_record(key, value);
    let full = data + rec;
    if pos + HEADER_LEN > data.len() {
        // Decoding stopped at `pos`, so `pos` is the end: the new record starts here.
        assert(pos == data.len());
        lemma_le_round_trip(key.len() as u64);
        lemma_le_round_trip(value.len() as u64);
        assert(full.subrange(pos, pos + 8) =~= le_bytes(key.len() as u64));
        assert(full.subrange(pos + 8, pos + 16) =~= le_bytes(value.len() as u64));
        lemma_le_value_sub(full, pos);
        lemma_le_value_sub(full, pos + 8);
        let end = pos + HEADER_LEN + key.len() + value.len();
        assert(end == full.len());
        assert(full.subrange(pos + HEADER_LEN, pos + HEADER_LEN + key.len()) =~= key);
        assert(parse_from(full, end) =~= seq![]);
        assert(parse_end(full, end) == end);
        assert(parse_from(data, pos) =~= seq![]);
        assert(parse_from(full, pos) =~= seq![(key, data.len() + HEADER_LEN + key.len(), value.len() as int)]);
    } else {
        lemma_le_value_prefix(data, rec, pos);
        lemma_le_value_prefix(data, rec, pos + 8);
        let ksz = le_value(data, pos) as int;
        let vsz = le_value(data, pos + 8) as int;
        let end = pos + HEADER_LEN + ksz + vsz;
        assert(end <= data.len());
        assert(full.subrange(pos + HEADER_LEN, pos + HEADER_LEN + ksz) =~= data.subrange(
            pos + HEADER_LEN,
            pos + HEADER_LEN + ksz,
        ));
        lemma_parse_append(data, end, key, value);
        assert(parse_end(full, pos) == parse_end(full, end));
        assert(parse_from(full, pos) =~= parse_from(data, pos).push(
            (key, data.len() + HEADER_LEN + key.len(), value.len() as int),
        ));
    }
}

/// Decoding a clean segment followed by a strict prefix of one more record finds
/// only the records of the clean part: a torn final record is no record.
pub proof fn lemma_parse_torn(data: Seq<u8>, pos: int, key: Seq<u8>, value: Seq<u8>, cut: int)
    requires
        0 <= pos <= data.len(),
        parse_end(data, pos) == data.len(),
        key.len() <= u64::MAX,
        value.len() <= u64::MAX,
        0 <= cut < encode_record(key, value).len(),
    ensures
        parse_from(data + encode_record(key, value).subrange(0, cut), pos) == parse_from(data, pos),
        parse_end(data + encode_record(key, value).subrange(0, cut), pos) == data.len(),
    decreases data.len() - pos,
{
    let rec = encode_record(key, value);
    let part = rec.subrange(0, cut);
    let full = data + part;
    if pos + HEADER_LEN > data.len() {
        assert(pos == data.len());
        assert(parse_from(data, pos) =~= seq![]);
        if pos + HEADER_LEN <= full.len() {
            lemma_le_round_trip(key.len() as u64);
            lemma_le_round_trip(value.len() as u64);
            assert(full.subrange(pos, pos + 8) =~= le_bytes(key.len() as u64));
            assert(full.subrange(pos + 8, pos + 16) =~= le_bytes(value.len() as u64));
            lemma_le_value_sub(full, pos);
            lemma_le_value_sub(full, pos + 8);
        }
    } else {
        lemma_le_value_prefix(data, part, pos);
        lemma_le_value_prefix(data, part, pos + 8);
        let ksz = le_value(data, pos) as int;
        let vsz = le_value(data, pos + 8) as int;
        let end = pos + HEADER_LEN + ksz + vsz;
        assert(full.subrange(pos + HEADER_LEN, pos + HEADER_LEN + ksz) =~= data.subrange(
            pos + HEADER_LEN,
            pos + HEADER_LEN + ksz,
        ));
        lemma_parse_torn(data, end, key, value, cut);
        assert(parse_end(full, pos) == parse_end(full, end));
        assert(parse_from(full, pos) =~= parse_from(data, pos));
    }
}

/// The key of the record that decoding of `data` stopped at, where its header and
/// its key are complete and only its value runs past the end.
pub open spec fn tail_key(data: Seq<u8>) -> Option<Seq<u8>> {
    let p = parse_end(data, 0);
    if 0 <= p && p + HEADER_LEN <= data.len() && p + HEADER_LEN + le_value(data, p) <= data.len() {
        Some(data.subrange(p + HEADER_LEN, p + HEADER_LEN + le_value(data, p)))
    } else {
        None
    }
}

/// Where decoding stops is never before the start.
pub proof fn lemma_parse_end_bounds(data: Seq<u8>, pos: int)
    requires
        0 <= pos <= data.len(),
    ensures
        pos <= parse_end(data, pos) <= data.len(),
    decreases data.len() - pos,
{
    if pos + HEADER_LEN <= data.len() {
        let end = pos + HEADER_LEN + le_value(data, pos) as int + le_value(data, pos + 8) as int;
        if end <= data.len() {
            lemma_parse_end_bounds(data, end);
        }
    }
}

/// A clean segment has no torn record, so no tail key.
pub proof fn lemma_clean_no_tail(data: Seq<u8>)
    requires
        is_clean(data),
    ensures
        tail_key(data) is None,
{
}

/// Cutting the last record of a clean segment leaves either no tail key or that
/// record's own key.
pub proof fn lemma_torn_tail_key(data: Seq<u8>, key: Seq<u8>, value: Seq<u8>, cut: int)
    requires
        is_clean(data),
        key.len() <= u64::MAX,
        value.len() <= u64::MAX,
        0 <= cut < encode_record(key, value).len(),
    ensures
        tail_key(data + encode_record(key, value).subrange(0, cut)) is None || tail_key(
            data + encode_record(key, value).subrange(0, cut),
        ) == Some(key),
{
    let rec = encode_record(key, value);
    let full = data + rec.subrange(0, cut);
    let p = data.len() as int;
    lemma_parse_torn(data, 0, key, value, cut);
    assert(parse_end(full, 0) == p);
    if p + HEADER_LEN <= full.len() {
        lemma_le_round_trip(key.len() as u64);
        assert(full.subrange(p, p + 8) =~= le_bytes(key.len() as u64));
        lemma_le_value_sub(full, p);
        assert(le_value(full, p) == key.len());
        if p + HEADER_LEN + key.len() <= full.len() {
            assert(full.subrange(p + HEADER_LEN, p + HEADER_LEN + key.len()) =~= key);
        }
    }
}

/// The integer read at `at` is that of the eight bytes there.
proof fn lemma_le_value_sub(b: Seq<u8>, at: int)
    requires
        0 <= at,
        at + 8 <= b.len(),
    ensures
        le_value(b, at) == le_value(b.subrange(at, at + 8), 0),
{
    let s = b.subrange(at, at + 8);
    assert(s[0] == b[at] && s[1] == b[at + 1] && s[2] == b[at + 2] && s[3] == b[at + 3] && s[4]
        == b[at + 4] && s[5] == b[at + 5] && s[6] == b[at + 6] && s[7] == b[at + 7]);
}

/// Appends the eight little-endian bytes of `n`.
pub fn push_le(buf: &mut Vec<u8>, n: u64)
    ensures
        final(buf)@ == old(buf)@ + le_bytes(n),
{
    buf.push(n as u8);
    buf.push((n >> 8u64) as u8);
    buf.push((n >> 16u64) as u8);
    buf.push((n >> 24u64) as u8);
    buf.push((n >> 32u64) as u8);
    buf.push((n >> 40u64) as u8);
    buf.push((n >> 48u64) as u8);
    buf.push((n >> 56u64) as u8);
    assert(final(buf)@ =~= old(buf)@ + le_bytes(n));
}

/// Reads the little-endian integer at `at`.
pub fn read_le(b: &[u8], at: usize) -> (r: u64)
    requires
        at + 8 <= b@.len(),
    ensures
        r == le_value(b@, at as int),
{
    (b[at] as u64) | ((b[at + 1] as u64) << 8u64) | ((b[at + 2] as u64) << 16u64) | ((b[at
        + 3] as u64) << 24u64) | ((b[at + 4] as u64) << 32u64) | ((b[at + 5] as u64) << 40u64)
        | ((b[at + 6] as u64) << 48u64) | ((b[at + 7] as u64) << 56u64)
}

/// Encodes one record.
pub fn encode(key: &[u8], value: &[u8]) -> (r: Vec<u8>)
    ensures
        r@ == encode_record(key@, value@),
{
    let mut buf: Vec<u8> = Vec::new();
    push_le(&mut buf, key.len() as u64);
    push_le(&mut buf, value.len() as u64);
    buf.extend_from_slice(key);
    buf.extend_from_slice(value);
    assert(buf@ =~= encode_record(key@, value@));
    buf
}

} // verus!
