//! Replay: the index that a run of segment images rebuilds, and how writes,
//! compaction and a torn tail change it.
use vstd::prelude::*;
use vstd::utf8::valid_utf8;

use crate::log::{SEGMENT_SIZE, Segment, ValueEntry};
use crate::record::{
    lemma_clean_no_tail, tail_key,
    HEADER_LEN, RecordPos, encode_record, is_clean, lemma_parse_append, lemma_parse_torn, parse_end,
    parse_segment,
};

verus! {

/// The bytes of each segment.
pub open spec fn images(segs: Seq<Segment>) -> Seq<Seq<u8>> {
    segs.map_values(|s: Segment| s.data@)
}

/// The value bytes that `loc` names.
pub open spec fn value_at(datas: Seq<Seq<u8>>, loc: ValueEntry) -> Seq<u8> {
    datas[loc.file_id as int].subrange(loc.vpos as int, loc.vpos + loc.vsz)
}

/// `loc` names a byte range inside an existing segment.
pub open spec fn in_bounds(datas: Seq<Seq<u8>>, loc: ValueEntry) -> bool {
    &&& loc.file_id < datas.len()
    &&& loc.vpos + loc.vsz <= datas[loc.file_id as int].len()
}

/// Every location of `m` is in bounds, names a non-empty value, and its record
/// fits in memory.
pub open spec fn locs_ok(datas: Seq<Seq<u8>>, m: Map<Seq<u8>, ValueEntry>) -> bool {
    forall|k: Seq<u8>| #[trigger]
        m.contains_key(k) ==> in_bounds(datas, m[k]) && m[k].vsz > 0 && k.len() + m[k].vsz
            + HEADER_LEN <= usize::MAX
}

/// The index after replaying one record of segment `seg`.
pub open spec fn apply_record(m: Map<Seq<u8>, ValueEntry>, seg: int, r: RecordPos) -> Map<
    Seq<u8>,
    ValueEntry,
> {
    if r.2 == 0 {
        m.remove(r.0)
    } else {
        m.insert(r.0, ValueEntry { file_id: seg as usize, vsz: r.2 as usize, vpos: r.1 as u64 })
    }
}

/// The index after replaying `recs` of segment `seg` in order.
pub open spec fn apply_records(m: Map<Seq<u8>, ValueEntry>, seg: int, recs: Seq<RecordPos>) -> Map<
    Seq<u8>,
    ValueEntry,
>
    decreases recs.len(),
{
    if recs.len() == 0 {
        m
    } else {
        apply_record(apply_records(m, seg, recs.drop_last()), seg, recs.last())
    }
}

/// The index rebuilt from the first `n` segments.
pub open spec fn replay_upto(segs: Seq<Seq<u8>>, n: int) -> Map<Seq<u8>, ValueEntry>
    decreases n,
{
    if n <= 0 {
        Map::empty()
    } else {
        apply_records(replay_upto(segs, n - 1), n - 1, parse_segment(segs[n - 1]))
    }
}

/// The index rebuilt from all segments.
pub open spec fn replay_segments(segs: Seq<Seq<u8>>) -> Map<Seq<u8>, ValueEntry> {
    replay_upto(segs, segs.len() as int)
}

/// Number of complete records in the first `n` segments.
pub open spec fn count_upto(segs: Seq<Seq<u8>>, n: int) -> nat
    decreases n,
{
    if n <= 0 {
        0
    } else {
        count_upto(segs, n - 1) + parse_segment(segs[n - 1]).len()
    }
}

/// `n`, or `u64::MAX` where it does not fit.
pub open spec fn saturate(n: nat) -> u64 {
    if n > u64::MAX {
        u64::MAX
    } else {
        n as u64
    }
}

/// Some complete record of the first `n` segments has a key that is not UTF-8.
pub open spec fn bad_key_upto(segs: Seq<Seq<u8>>, n: int) -> bool {
    exists|s: int, j: int|
        0 <= s < n && 0 <= j < parse_segment(segs[s]).len() && !valid_utf8(
            #[trigger] parse_segment(segs[s])[j].0,
        )
}

/// Decoding of `data` stops at a record whose header and key are complete but
/// whose key is not UTF-8.
pub open spec fn bad_tail(data: Seq<u8>) -> bool {
    match tail_key(data) {
        Some(k) => !valid_utf8(k),
        None => false,
    }
}

/// One of the first `n` segments has a `bad_tail`.
pub open spec fn bad_tail_upto(segs: Seq<Seq<u8>>, n: int) -> bool {
    exists|s: int| 0 <= s < n && #[trigger] bad_tail(segs[s])
}

/// The segment the next record goes to is a new one: there is none yet, the
/// last has reached `SEGMENT_SIZE` or cannot grow by the record, or the last ends
/// in a torn record. Appending after torn bytes would make replay misread the new
/// record, so writing resumes in a fresh segment and replay drops the torn tail.
pub open spec fn rolls_over(datas: Seq<Seq<u8>>, rec_len: int) -> bool {
    ||| datas.len() == 0
    ||| !is_clean(datas.last())
    ||| datas.last().len() >= SEGMENT_SIZE
    ||| datas.last().len() + rec_len > usize::MAX
}

/// The segment images after appending `rec`, with rollover.
pub open spec fn appended(datas: Seq<Seq<u8>>, rec: Seq<u8>) -> Seq<Seq<u8>> {
    let base = if rolls_over(datas, rec.len() as int) {
        datas.push(seq![])
    } else {
        datas
    };
    base.update(base.len() - 1, base.last() + rec)
}

/// Where the value of `key`/`value` lands when appended to `datas`.
pub open spec fn appended_loc(datas: Seq<Seq<u8>>, key: Seq<u8>, value: Seq<u8>) -> ValueEntry {
    let rec = encode_record(key, value);
    if rolls_over(datas, rec.len() as int) {
        ValueEntry {
            file_id: datas.len() as usize,
            vsz: value.len() as usize,
            vpos: (HEADER_LEN + key.len()) as u64,
        }
    } else {
        ValueEntry {
            file_id: (datas.len() - 1) as usize,
            vsz: value.len() as usize,
            vpos: (datas.last().len() + HEADER_LEN + key.len()) as u64,
        }
    }
}

/// Replay of a prefix of segments reads those segments alone.
pub proof fn lemma_replay_prefix(a: Seq<Seq<u8>>, b: Seq<Seq<u8>>, n: int)
    requires
        0 <= n <= a.len(),
        n <= b.len(),
        forall|i: int| 0 <= i < n ==> a[i] == b[i],
    ensures
        replay_upto(a, n) == replay_upto(b, n),
        count_upto(a, n) == count_upto(b, n),
        bad_key_upto(a, n) == bad_key_upto(b, n),
        bad_tail_upto(a, n) == bad_tail_upto(b, n),
    decreases n,
{
    if n > 0 {
        lemma_replay_prefix(a, b, n - 1);
    }
    if bad_tail_upto(a, n) {
        let s = choose|s: int| 0 <= s < n && #[trigger] bad_tail(a[s]);
        assert(bad_tail(b[s]));
    }
    if bad_tail_upto(b, n) {
        let s = choose|s: int| 0 <= s < n && #[trigger] bad_tail(b[s]);
        assert(bad_tail(a[s]));
    }
}

/// Appending records to a segment past what replay reads keeps bytes that replay read.
pub proof fn lemma_apply_push(m: Map<Seq<u8>, ValueEntry>, seg: int, recs: Seq<RecordPos>, r: RecordPos)
    ensures
        apply_records(m, seg, recs.push(r)) == apply_record(apply_records(m, seg, recs), seg, r),
{
    assert(recs.push(r).drop_last() =~= recs);
}

/// A key that is not UTF-8 in the first `n + 1` segments lies in the first `n`
/// or among the records of segment `n`.
pub proof fn lemma_bad_key_step(segs: Seq<Seq<u8>>, n: int)
    requires
        0 <= n < segs.len(),
    ensures
        bad_key_upto(segs, n + 1) <==> bad_key_upto(segs, n) || exists|j: int|
            0 <= j < parse_segment(segs[n]).len() && !valid_utf8(#[trigger] parse_segment(segs[n])[j].0),
{
    if bad_key_upto(segs, n + 1) {
        let (s, j) = choose|s: int, j: int|
            0 <= s < n + 1 && 0 <= j < parse_segment(segs[s]).len() && !valid_utf8(
                #[trigger] parse_segment(segs[s])[j].0,
            );
        if s < n {
            assert(bad_key_upto(segs, n));
        } else {
            assert(!valid_utf8(parse_segment(segs[n])[j].0));
        }
    }
    if bad_key_upto(segs, n) {
        let (s, j) = choose|s: int, j: int|
            0 <= s < n && 0 <= j < parse_segment(segs[s]).len() && !valid_utf8(
                #[trigger] parse_segment(segs[s])[j].0,
            );
        assert(!valid_utf8(parse_segment(segs[s])[j].0));
    }
    if exists|j: int| 0 <= j < parse_segment(segs[n]).len() && !valid_utf8(#[trigger] parse_segment(segs[n])[j].0) {
        let j = choose|j: int| 0 <= j < parse_segment(segs[n]).len() && !valid_utf8(#[trigger] parse_segment(segs[n])[j].0);
        assert(!valid_utf8(parse_segment(segs[n])[j].0));
    }
}

/// Appending a record with rollover: replay sees exactly one more record.
pub proof fn lemma_replay_append(datas: Seq<Seq<u8>>, key: Seq<u8>, value: Seq<u8>)
    requires
        key.len() + value.len() + HEADER_LEN <= usize::MAX,
        datas.len() <= usize::MAX,
        rolls_over(datas, encode_record(key, value).len() as int) ==> datas.len() < usize::MAX,
    ensures
        replay_segments(appended(datas, encode_record(key, value))) == apply_record(
            replay_segments(datas),
            appended_loc(datas, key, value).file_id as int,
            (key, appended_loc(datas, key, value).vpos as int, value.len() as int),
        ),
        count_upto(appended(datas, encode_record(key, value)), appended(datas, encode_record(key, value)).len() as int)
            == count_upto(datas, datas.len() as int) + 1,
        valid_utf8(key) ==> bad_key_upto(
            appended(datas, encode_record(key, value)),
            appended(datas, encode_record(key, value)).len() as int,
        ) == bad_key_upto(datas, datas.len() as int),
        bad_tail_upto(
            appended(datas, encode_record(key, value)),
            appended(datas, encode_record(key, value)).len() as int,
        ) == bad_tail_upto(datas, datas.len() as int),
        is_clean(appended(datas, encode_record(key, value)).last()),
        appended(datas, encode_record(key, value)).len() > 0,
        in_bounds(appended(datas, encode_record(key, value)), appended_loc(datas, key, value)),
        value_at(appended(datas, encode_record(key, value)), appended_loc(datas, key, value)) == value,
        forall|loc: ValueEntry| #[trigger] in_bounds(datas, loc) ==> in_bounds(appended(datas, encode_record(key, value)), loc)
            && value_at(appended(datas, encode_record(key, value)), loc) == value_at(datas, loc),
{
    let rec = encode_record(key, value);
    let rolled = rolls_over(datas, rec.len() as int);
    let base = if rolled { datas.push(seq![]) } else { datas };
    let n = base.len() - 1;
    let out = appended(datas, rec);
    let last = base.last();
    assert(rec.len() == HEADER_LEN + key.len() + value.len());
    if rolled {
        assert(parse_end(seq![], 0) == 0);
        lemma_replay_prefix(datas, base, datas.len() as int);
        assert(parse_segment(seq![]) =~= seq![]);
        assert(replay_upto(base, base.len() as int) == replay_upto(datas, datas.len() as int));
        assert(count_upto(base, base.len() as int) == count_upto(datas, datas.len() as int));
    }
    assert(is_clean(last));
    lemma_parse_append(last, 0, key, value);
    lemma_replay_prefix(base, out, n);
    lemma_apply_push(replay_upto(base, n), n, parse_segment(last), (key, last.len() + HEADER_LEN + key.len(), value.len() as int));
    assert(out[n] == last + rec);
    assert(is_clean(out.last()));
    assert((last + rec).subrange(last.len() + HEADER_LEN + key.len(), (last.len() + rec.len()) as int) =~= value);
    let loc = appended_loc(datas, key, value);
    assert(last.len() + rec.len() <= usize::MAX);
    assert(loc.file_id == n);
    assert(loc.vpos == last.len() + HEADER_LEN + key.len());
    assert(loc.vsz == value.len());
    assert(value_at(out, loc) == (last + rec).subrange(last.len() + HEADER_LEN + key.len(), (last.len() + rec.len()) as int));
    assert forall|loc: ValueEntry| #[trigger] in_bounds(datas, loc) implies in_bounds(out, loc)
        && value_at(out, loc) == value_at(datas, loc) by {
        if loc.file_id == n {
            assert((last + rec).subrange(loc.vpos as int, loc.vpos + loc.vsz) =~= last.subrange(loc.vpos as int, loc.vpos + loc.vsz));
        }
    }    if valid_utf8(key) {
        lemma_bad_key_step(out, n);
        lemma_bad_key_step(base, n);
        let po = parse_segment(out[n]);
        let pb = parse_segment(base[n]);
        assert(po == pb.push((key, last.len() + HEADER_LEN + key.len(), value.len() as int)));
        if exists|j: int| 0 <= j < po.len() && !valid_utf8(#[trigger] po[j].0) {
            let j = choose|j: int| 0 <= j < po.len() && !valid_utf8(#[trigger] po[j].0);
            if j < pb.len() {
                assert(po[j] == pb[j]);
            }
        }
        if exists|j: int| 0 <= j < pb.len() && !valid_utf8(#[trigger] pb[j].0) {
            let j = choose|j: int| 0 <= j < pb.len() && !valid_utf8(#[trigger] pb[j].0);
            assert(po[j] == pb[j]);
        }
        if rolled {
            assert(pb =~= seq![]);
        }
    }
    lemma_clean_no_tail(out[n]);
    lemma_clean_no_tail(last);
    if bad_tail_upto(out, out.len() as int) {
        let s = choose|s: int| 0 <= s < out.len() && #[trigger] bad_tail(out[s]);
        assert(s != n);
        assert(out[s] == datas[s]);
        assert(bad_tail(datas[s]));
    }
    if bad_tail_upto(datas, datas.len() as int) {
        let s = choose|s: int| 0 <= s < datas.len() && #[trigger] bad_tail(datas[s]);
        if s == n {
            assert(datas[s] == last);
        }
        assert(out[s] == datas[s]);
        assert(bad_tail(out[s]));
    }
}

/// All segment bytes, one segment after the other.
pub open spec fn flatten(datas: Seq<Seq<u8>>) -> Seq<u8>
    decreases datas.len(),
{
    if datas.len() == 0 {
        seq![]
    } else {
        flatten(datas.drop_last()) + datas.last()
    }
}

/// The records that the first `n` entries of an index make, with their values
/// read from `datas`, one after the other.
pub open spec fn live_image(entries: Seq<(Seq<u8>, ValueEntry)>, datas: Seq<Seq<u8>>, n: int) -> Seq<u8>
    decreases n,
{
    if n <= 0 {
        seq![]
    } else {
        live_image(entries, datas, n - 1) + encode_record(entries[n - 1].0, value_at(datas, entries[n - 1].1))
    }
}

/// Appending a record, with or without rollover, adds its bytes at the end of the
/// whole log.
pub proof fn lemma_flatten_appended(datas: Seq<Seq<u8>>, rec: Seq<u8>)
    ensures
        flatten(appended(datas, rec)) == flatten(datas) + rec,
{
    let base = if rolls_over(datas, rec.len() as int) {
        datas.push(seq![])
    } else {
        datas
    };
    if rolls_over(datas, rec.len() as int) {
        assert(base.drop_last() =~= datas);
        assert(flatten(base) =~= flatten(datas));
    }
    let out = appended(datas, rec);
    assert(out.drop_last() =~= base.drop_last());
    assert(flatten(out) =~= flatten(base) + rec);
}

/// The map from the first `n` keys of `entries` to the matching `locs`.
pub open spec fn relocated(entries: Seq<(Seq<u8>, ValueEntry)>, locs: Seq<ValueEntry>, n: int) -> Map<Seq<u8>, ValueEntry>
    decreases n,
{
    if n <= 0 {
        Map::empty()
    } else {
        relocated(entries, locs, n - 1).insert(entries[n - 1].0, locs[n - 1])
    }
}

/// `entries` with each location replaced by the matching one of `locs`.
pub open spec fn relocated_entries(entries: Seq<(Seq<u8>, ValueEntry)>, locs: Seq<ValueEntry>) -> Seq<(Seq<u8>, ValueEntry)> {
    Seq::new(entries.len(), |t: int| (entries[t].0, locs[t]))
}

/// `relocated` reads only the first `n` locations.
pub(crate) proof fn lemma_relocated_prefix(entries: Seq<(Seq<u8>, ValueEntry)>, a: Seq<ValueEntry>, b: Seq<ValueEntry>, n: int)
    requires
        0 <= n,
        n < b.len(),
        a.len() >= n,
        forall|t: int| 0 <= t < n ==> a[t] == b[t],
    ensures
        relocated(entries, b, n + 1) == relocated(entries, a, n).insert(entries[n].0, b[n]),
        relocated(entries, b, n) == relocated(entries, a, n),
    decreases n,
{
    if n > 0 {
        lemma_relocated_prefix(entries, a, b, n - 1);
        assert(relocated(entries, a, n) == relocated(entries, a, n - 1).insert(entries[n - 1].0, a[n - 1]));
    }
    assert(relocated(entries, b, n + 1) == relocated(entries, b, n).insert(entries[n].0, b[n]));
}

/// With distinct keys, `relocated` maps the `t`-th key to the `t`-th location and
/// holds no other key.
pub(crate) proof fn lemma_relocated(entries: Seq<(Seq<u8>, ValueEntry)>, locs: Seq<ValueEntry>, n: int)
    requires
        0 <= n <= entries.len(),
        n <= locs.len(),
        forall|a: int, b: int|
            0 <= a < entries.len() && 0 <= b < entries.len() && a != b
                ==> #[trigger] entries[a].0 != #[trigger] entries[b].0,
    ensures
        forall|t: int| 0 <= t < n ==> #[trigger] relocated(entries, locs, n).contains_key(entries[t].0)
            && relocated(entries, locs, n)[entries[t].0] == locs[t],
        forall|k: Seq<u8>| #[trigger] relocated(entries, locs, n).contains_key(k) ==> exists|t: int|
            0 <= t < n && #[trigger] entries[t].0 == k,
    decreases n,
{
    if n > 0 {
        lemma_relocated(entries, locs, n - 1);
        let m = relocated(entries, locs, n);
        assert forall|t: int| 0 <= t < n implies #[trigger] m.contains_key(entries[t].0)
            && m[entries[t].0] == locs[t] by {
            if t < n - 1 {
                assert(entries[t].0 != entries[n - 1].0);
                assert(relocated(entries, locs, n - 1).contains_key(entries[t].0));
            }
        }
        assert forall|k: Seq<u8>| #[trigger] m.contains_key(k) implies exists|t: int|
            0 <= t < n && #[trigger] entries[t].0 == k by {
            if k != entries[n - 1].0 {
                assert(relocated(entries, locs, n - 1).contains_key(k));
            } else {
                assert(entries[n - 1].0 == k);
            }
        }
    }
}

/// Tail tolerance: cutting any number of bytes off the final record of the last
/// segment (but not the whole record) leaves a log that replays exactly as the
/// log without that record: same index, same record count, same verdict on keys.
/// The cut record's key is UTF-8, as every key the store writes is: where the cut
/// leaves that key whole, replay decodes it before dropping the record.
pub proof fn lemma_tail_tolerance(datas: Seq<Seq<u8>>, key: Seq<u8>, value: Seq<u8>, cut: int)
    requires
        datas.len() > 0,
        is_clean(datas.last()),
        key.len() <= u64::MAX,
        value.len() <= u64::MAX,
        0 <= cut < encode_record(key, value).len(),
        valid_utf8(key),
    ensures
        replay_segments(datas.update(datas.len() - 1, datas.last() + encode_record(key, value).subrange(0, cut)))
            == replay_segments(datas),
        bad_tail_upto(datas.update(datas.len() - 1, datas.last() + encode_record(key, value).subrange(0, cut)), datas.len() as int)
            == bad_tail_upto(datas, datas.len() as int),
        count_upto(datas.update(datas.len() - 1, datas.last() + encode_record(key, value).subrange(0, cut)), datas.len() as int)
            == count_upto(datas, datas.len() as int),
        bad_key_upto(datas.update(datas.len() - 1, datas.last() + encode_record(key, value).subrange(0, cut)), datas.len() as int)
            == bad_key_upto(datas, datas.len() as int),
{
    let n = datas.len() - 1;
    let torn = datas.update(n, datas.last() + encode_record(key, value).subrange(0, cut));
    crate::record::lemma_parse_torn(datas.last(), 0, key, value, cut);
    lemma_replay_prefix(datas, torn, n);
    crate::record::lemma_torn_tail_key(datas.last(), key, value, cut);
    lemma_clean_no_tail(datas.last());
    assert(!bad_tail(torn[n]));
    assert(!bad_tail(datas[n]));
    if bad_tail_upto(torn, n + 1) {
        let s = choose|s: int| 0 <= s < n + 1 && #[trigger] bad_tail(torn[s]);
        assert(bad_tail_upto(torn, n));
    }
    if bad_tail_upto(datas, n + 1) {
        let s = choose|s: int| 0 <= s < n + 1 && #[trigger] bad_tail(datas[s]);
        assert(bad_tail_upto(datas, n));
    }
    assert(parse_segment(torn[n]) == parse_segment(datas[n]));
    assert(bad_key_upto(torn, n + 1) == bad_key_upto(datas, n + 1)) by {
        if bad_key_upto(torn, n + 1) {
            let (s, j) = choose|s: int, j: int| 0 <= s < n + 1 && 0 <= j < parse_segment(torn[s]).len()
                && !valid_utf8(#[trigger] parse_segment(torn[s])[j].0);
            if s < n {
                assert(bad_key_upto(torn, n));
            } else {
                assert(!valid_utf8(parse_segment(datas[s])[j].0));
            }
        }
        if bad_key_upto(datas, n + 1) {
            let (s, j) = choose|s: int, j: int| 0 <= s < n + 1 && 0 <= j < parse_segment(datas[s]).len()
                && !valid_utf8(#[trigger] parse_segment(datas[s])[j].0);
            if s < n {
                assert(bad_key_upto(datas, n));
            } else {
                assert(!valid_utf8(parse_segment(torn[s])[j].0));
            }
        }
    }
}

} // verus!
