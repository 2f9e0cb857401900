//! The segmented write-ahead log.
//!
//! The log holds an image of each segment file, in chronological order. Every
//! change it makes to the images is also queued as a [`DiskOp`] for the caller to
//! carry out on the files.
use vstd::prelude::*;
use vstd::utf8::decode_utf8;
use vstd::utf8::encode_utf8;
use vstd::slice::slice_subrange;
use vstd::slice::slice_to_vec;
use vstd::utf8::valid_utf8;

use crate::disk::{
    apply_disk_ops, dir_of, is_append, is_delete, lemma_dir_append, lemma_dir_of,
    lemma_dir_push_empty, lemma_disk_deletes, lemma_disk_ops_beside, lemma_disk_ops_concat,
    lemma_disk_ops_push,
};
use crate::error::{KvsError, Result};
use crate::index::Index;
use crate::names::{
    all_log_names, is_log_name,
    bytes_le, bytes_lt, fresh_name, has_log_suffix, lemma_lex_lt_irreflexive,
    lemma_lex_lt_transitive, lemma_lex_total, lex_lt, log_files, name_bytes, names_increasing,
    sorted_by_name,
};
use crate::record::{
    tail_key,
    HEADER_LEN, RecordPos, encode, encode_record, is_clean, parse_end, parse_from, parse_segment,
    read_le,
};
use crate::replay::{
    bad_tail, bad_tail_upto,
    appended, appended_loc, apply_record, apply_records, bad_key_upto, count_upto, flatten, images,
    in_bounds, lemma_apply_push, lemma_flatten_appended, lemma_relocated, lemma_relocated_prefix,
    lemma_replay_append, live_image, locs_ok, relocated, relocated_entries, replay_segments,
    replay_upto, rolls_over, saturate, value_at,
};

verus! {

/// A segment whose size has reached this many bytes takes no more records.
pub const SEGMENT_SIZE: usize = 128;

/// Where a key's current value lies: a segment, the offset of the value payload
/// in it and the payload's size.
#[derive(Debug, Clone, Copy, PartialEq, Eq, Structural)]
pub struct ValueEntry {
    pub file_id: usize,
    pub vsz: usize,
    pub vpos: u64,
}

/// The kind of a record.
#[allow(non_camel_case_types, clippy::upper_case_acronyms)]
#[derive(Debug, Clone, Copy, PartialEq, Eq, Structural)]
pub enum Operation {
    SET,
    RM,
}

/// One segment file: its name and its bytes.
pub struct Segment {
    pub name: String,
    pub data: Vec<u8>,
}

/// A change to the log directory that mirrors a change of the images.
pub enum DiskOp {
    /// Append `bytes` to the file `name`, creating it if absent.
    Append { name: String, bytes: Vec<u8> },
    /// Delete the file `name`.
    Delete { name: String },
}

/// The log: segment images, oldest first, and the file changes not yet handed out.
pub struct Wal {
    segments: Vec<Segment>,
    pending: Vec<DiskOp>,
    tail_clean: bool,
    floor: String,
    flushed: Ghost<Map<Seq<char>, Seq<u8>>>,
}

/// Relies on `String::from_utf8`: it succeeds exactly on valid UTF-8, with the
/// text that the bytes encode.
#[verifier::external_body]
fn decode_text(bytes: &[u8]) -> (r: Option<String>)
    ensures
        r is Some <==> valid_utf8(bytes@),
        r matches Some(s) ==> s@ == decode_utf8(bytes@),
{
    String::from_utf8(bytes.to_vec()).ok()
}

impl Wal {
    /// The bytes of each segment, oldest first.
    pub closed spec fn datas(&self) -> Seq<Seq<u8>> {
        images(self.segments@)
    }

    /// The file changes not yet handed out.
    pub closed spec fn pending(&self) -> Seq<DiskOp> {
        self.pending@
    }

    /// The greatest segment name this log has held: every name sorts at or before
    /// it, and a new segment's name sorts after it.
    pub closed spec fn floor(&self) -> Seq<char> {
        self.floor@
    }

    pub closed spec fn wf(&self) -> bool {
        &&& self.tail_clean == (self.segments@.len() > 0 && is_clean(self.segments@.last().data@))
        &&& forall|i: int|
            0 <= i < self.segments@.len() ==> bytes_le(
                encode_utf8(#[trigger] self.segments@[i].name@),
                encode_utf8(self.floor@),
            )
        &&& names_increasing(self.segments@)
        &&& all_log_names(self.segments@)
        &&& apply_disk_ops(self.flushed@, self.pending@) == dir_of(self.segments@)
    }

    /// The directory as it stood when the queue was last handed out.
    pub closed spec fn disk(&self) -> Map<Seq<char>, Seq<u8>> {
        self.flushed@
    }

    /// The non-empty segment files by name.
    pub closed spec fn dir(&self) -> Map<Seq<char>, Seq<u8>> {
        dir_of(self.segments@)
    }

    /// What the directory holds, spelled out: the queued changes bring the
    /// directory as last handed out to the non-empty segments, whose names increase
    /// in segment order.
    pub proof fn lemma_disk(&self)
        requires
            self.wf(),
        ensures
            apply_disk_ops(self.disk(), self.pending()) == self.dir(),
            self.names().len() == self.datas().len(),
            forall|i: int, j: int|
                0 <= i < j < self.names().len() ==> lex_lt(
                    encode_utf8(#[trigger] self.names()[i]),
                    encode_utf8(#[trigger] self.names()[j]),
                ),
            forall|n: Seq<char>| #[trigger] self.dir().contains_key(n) <==> exists|i: int|
                0 <= i < self.names().len() && #[trigger] self.names()[i] == n && self.datas()[i].len() > 0,
            forall|i: int|
                0 <= i < self.names().len() && self.datas()[i].len() > 0 ==> #[trigger] self.dir()[self.names()[i]]
                    == self.datas()[i],
            forall|i: int| 0 <= i < self.names().len() ==> is_log_name(encode_utf8(#[trigger] self.names()[i])),
    {
        lemma_dir_of(self.segments@);
        assert forall|i: int| 0 <= i < self.names().len() implies is_log_name(encode_utf8(#[trigger] self.names()[i])) by {
            assert(self.names()[i] == self.segments@[i].name@);
            assert(is_log_name(name_bytes(self.segments@[i])));
        }
        assert forall|i: int, j: int| 0 <= i < j < self.names().len() implies lex_lt(
            encode_utf8(#[trigger] self.names()[i]),
            encode_utf8(#[trigger] self.names()[j]),
        ) by {
            assert(self.names()[i] == self.segments@[i].name@);
            assert(self.names()[j] == self.segments@[j].name@);
        }
        assert forall|n: Seq<char>| #[trigger] self.dir().contains_key(n) <==> exists|i: int|
            0 <= i < self.names().len() && #[trigger] self.names()[i] == n && self.datas()[i].len() > 0 by {
            if self.dir().contains_key(n) {
                let i = choose|i: int| 0 <= i < self.segments@.len() && #[trigger] self.segments@[i].name@ == n
                    && self.segments@[i].data@.len() > 0;
                assert(self.names()[i] == n);
            }
            if exists|i: int| 0 <= i < self.names().len() && #[trigger] self.names()[i] == n && self.datas()[i].len() > 0 {
                let i = choose|i: int| 0 <= i < self.names().len() && #[trigger] self.names()[i] == n && self.datas()[i].len() > 0;
                assert(self.segments@[i].name@ == n);
            }
        }
        assert forall|i: int| 0 <= i < self.names().len() && self.datas()[i].len() > 0 implies #[trigger] self.dir()[self.names()[i]]
            == self.datas()[i] by {
            assert(self.names()[i] == self.segments@[i].name@);
        }
    }

    /// A log with no segment whose new names sort after `floor`.
    fn empty_after(floor: String) -> (r: Wal)
        ensures
            r.wf(),
            r.datas() == Seq::<Seq<u8>>::empty(),
            r.names().len() == 0,
            r.pending().len() == 0,
            r.floor() == floor@,
            r.disk() == Map::<Seq<char>, Seq<u8>>::empty(),
    {
        let r = Wal {
            segments: Vec::new(),
            pending: Vec::new(),
            tail_clean: false,
            floor,
            flushed: Ghost(Map::empty()),
        };
        assert(r.datas() =~= Seq::<Seq<u8>>::empty());
        r
    }

    /// Makes sure the last segment can take a record of `rec_len` bytes: where
    /// `rolls_over` says so, starts a new, empty segment whose name sorts after
    /// every name so far.
    fn create_log_file_if_needed(&mut self, rec_len: usize)
        requires
            old(self).wf(),
        ensures
            final(self).wf(),
            final(self).pending() == old(self).pending(),
            final(self).disk() == old(self).disk(),
            rolls_over(old(self).datas(), rec_len as int) ==> final(self).datas() == old(
                self,
            ).datas().push(seq![]) && final(self).names().len()
                == old(self).names().len() + 1 && final(self).names().subrange(
                0,
                old(self).names().len() as int,
            ) == old(self).names() && lex_lt(
                encode_utf8(old(self).floor()),
                encode_utf8(final(self).names().last()),
            ) && final(self).floor() == final(self).names().last() && is_log_name(
                encode_utf8(final(self).names().last()),
            ),
            !rolls_over(old(self).datas(), rec_len as int) ==> *final(self) == *old(self),
    {
        let n = self.segments.len();
        let roll = n == 0 || !self.tail_clean || self.segments[n - 1].data.len() >= SEGMENT_SIZE
            || self.segments[n - 1].data.len() > usize::MAX - rec_len;
        assert(roll == rolls_over(self.datas(), rec_len as int));
        if roll {
            let name = fresh_name(&self.floor);
            let ghost f0 = encode_utf8(self.floor@);
            self.floor = name.clone();
            let seg = Segment { name, data: Vec::new() };
            proof {
                lemma_dir_push_empty(self.segments@, seg);
            }
            self.segments.push(seg);
            self.tail_clean = true;
            assert(parse_end(seq![], 0) == 0);
            assert(self.segments@.last().data@ =~= seq![]);
            assert forall|i: int| 0 <= i < self.segments@.len() implies bytes_le(
                encode_utf8(#[trigger] self.segments@[i].name@),
                encode_utf8(self.floor@),
            ) by {
                if i < self.segments@.len() - 1 {
                    assert(self.segments@[i] == old(self).segments@[i]);
                    assert(bytes_le(encode_utf8(old(self).segments@[i].name@), f0));
                    if encode_utf8(self.segments@[i].name@) != f0 {
                        lemma_lex_lt_transitive(encode_utf8(self.segments@[i].name@), f0, encode_utf8(self.floor@));
                    }
                }
            }
            assert forall|i: int, j: int| 0 <= i < j < self.segments@.len() implies lex_lt(
                encode_utf8(#[trigger] self.segments@[i].name@),
                encode_utf8(#[trigger] self.segments@[j].name@),
            ) by {
                assert(self.segments@[i] == old(self).segments@[i]);
                assert(bytes_le(encode_utf8(old(self).segments@[i].name@), f0));
                if j < self.segments@.len() - 1 {
                    assert(self.segments@[j] == old(self).segments@[j]);
                    assert(lex_lt(
                        encode_utf8(old(self).segments@[i].name@),
                        encode_utf8(old(self).segments@[j].name@),
                    ));
                } else if encode_utf8(self.segments@[i].name@) != f0 {
                    assert(self.segments@[j].name@ == self.floor@);
                    lemma_lex_lt_transitive(encode_utf8(self.segments@[i].name@), f0, encode_utf8(self.floor@));
                }
            }
            assert forall|i: int| 0 <= i < self.segments@.len() implies is_log_name(
                name_bytes(#[trigger] self.segments@[i]),
            ) by {
                if i < self.segments@.len() - 1 {
                    assert(self.segments@[i] == old(self).segments@[i]);
                }
            }
            assert(self.datas() =~= old(self).datas().push(seq![]));
            assert(self.names() =~= old(self).names().push(self.floor@));
        }
    }

    /// Appends one record, rolling over to a new segment where `rolls_over` says
    /// so, and returns where its value lies.
    fn append_record(&mut self, key: &[u8], value: &[u8]) -> (r: ValueEntry)
        requires
            old(self).wf(),
            key@.len() + value@.len() + HEADER_LEN <= usize::MAX,
        ensures
            final(self).wf(),
            final(self).datas() == appended(old(self).datas(), encode_record(key@, value@)),
            r == appended_loc(old(self).datas(), key@, value@),
            final(self).pending().len() == old(self).pending().len() + 1,
            final(self).pending().subrange(0, old(self).pending().len() as int) == old(self).pending(),
            is_append(final(self).pending().last(), final(self).names().last(), encode_record(key@, value@)),
            final(self).names().len() == final(self).datas().len(),
            final(self).disk() == old(self).disk(),
            valid_utf8(key@) ==> bad_key_upto(final(self).datas(), final(self).datas().len() as int)
                == bad_key_upto(old(self).datas(), old(self).datas().len() as int),
            bad_tail_upto(final(self).datas(), final(self).datas().len() as int) == bad_tail_upto(
                old(self).datas(),
                old(self).datas().len() as int,
            ),
            final(self).names().subrange(0, old(self).names().len() as int) == old(self).names(),
            final(self).names().len() > old(self).names().len() ==> lex_lt(
                encode_utf8(old(self).floor()),
                encode_utf8(final(self).names().last()),
            ),
            bytes_le(encode_utf8(old(self).floor()), encode_utf8(final(self).floor())),
            replay_segments(final(self).datas()) == apply_record(
                replay_segments(old(self).datas()),
                r.file_id as int,
                (key@, r.vpos as int, value@.len() as int),
            ),
            count_upto(final(self).datas(), final(self).datas().len() as int) == count_upto(
                old(self).datas(),
                old(self).datas().len() as int,
            ) + 1,
            in_bounds(final(self).datas(), r),
            value_at(final(self).datas(), r) == value@,
            forall|loc: ValueEntry| #[trigger]
                in_bounds(old(self).datas(), loc) ==> in_bounds(final(self).datas(), loc)
                    && value_at(final(self).datas(), loc) == value_at(old(self).datas(), loc),
    {
        let rec = encode(key, value);
        let ghost rolled = rolls_over(self.datas(), rec@.len() as int);
        self.create_log_file_if_needed(rec.len());
        let count = self.segments.len();
        assert(rolled ==> old(self).datas().len() < count);
        proof {
            lemma_replay_append(old(self).datas(), key@, value@);
        }
        let last = count - 1;
        let vpos = (self.segments[last].data.len() + HEADER_LEN + key.len()) as u64;
        let name = self.segments[last].name.clone();
        let ghost before = self.datas();
        let ghost before_names = self.segments@.map_values(|s: Segment| s.name);
        let ghost mid = self.segments@;
        assert forall|i: int| 0 <= i < self.segments@.len() implies bytes_le(
            encode_utf8(#[trigger] before_names[i]@),
            encode_utf8(self.floor@),
        ) by {
            assert(before_names[i] == self.segments@[i].name);
        }
        assert forall|i: int, j: int| 0 <= i < j < self.segments@.len() implies lex_lt(
            encode_utf8(#[trigger] before_names[i]@),
            encode_utf8(#[trigger] before_names[j]@),
        ) by {
            assert(before_names[i] == self.segments@[i].name);
            assert(before_names[j] == self.segments@[j].name);
        }
        self.segments[last].data.extend_from_slice(rec.as_slice());
        assert(self.segments@[last as int].data@ =~= before.last() + rec@);
        assert(self.datas() =~= before.update(last as int, before.last() + rec@));
        let ghost rec_bytes = rec@;
        let ghost name_v = name@;
        proof {
            assert(self.segments@ == mid.update(last as int, self.segments@[last as int]));
            assert(self.segments@[last as int].name@ == mid[last as int].name@);
            lemma_dir_append(mid, last as int, self.segments@[last as int], rec@);
        }
        let op = DiskOp::Append { name, bytes: rec };
        proof {
            lemma_disk_ops_push(self.flushed@, self.pending@, op);
        }
        self.pending.push(op);
        self.tail_clean = true;
        assert(self.names().last() == self.segments@[last as int].name@);
        assert forall|i: int| 0 <= i < self.segments@.len() implies bytes_le(
            encode_utf8(#[trigger] self.segments@[i].name@),
            encode_utf8(self.floor@),
        ) by {
            assert(self.segments@[i].name == before_names[i]);
        }
        assert forall|i: int, j: int| 0 <= i < j < self.segments@.len() implies lex_lt(
            encode_utf8(#[trigger] self.segments@[i].name@),
            encode_utf8(#[trigger] self.segments@[j].name@),
        ) by {
            assert(self.segments@[i].name == before_names[i]);
            assert(self.segments@[j].name == before_names[j]);
        }
        assert forall|i: int| 0 <= i < self.segments@.len() implies is_log_name(
            name_bytes(#[trigger] self.segments@[i]),
        ) by {
            assert(self.segments@[i].name == before_names[i]);
            assert(before_names[i] == mid[i].name);
        }
        assert(self.names().subrange(0, old(self).names().len() as int) =~= old(self).names());
        assert(self.pending().subrange(0, old(self).pending().len() as int) =~= old(self).pending());
        ValueEntry { file_id: last, vsz: value.len(), vpos }
    }

    /// Segment names, oldest first.
    pub closed spec fn names(&self) -> Seq<Seq<char>> {
        self.segments@.map_values(|s: Segment| s.name@)
    }

    /// Appends a record for `k`: a set of `v`, or a tombstone, and returns where
    /// its value lies (the size is zero for a tombstone).
    pub fn write(&mut self, k: &String, v: &String, mode: Operation) -> (r: ValueEntry)
        requires
            old(self).wf(),
            encode_utf8(k@).len() + record_value(v@, mode).len() + HEADER_LEN <= usize::MAX,
        ensures
            final(self).wf(),
            final(self).datas() == appended(
                old(self).datas(),
                encode_record(encode_utf8(k@), record_value(v@, mode)),
            ),
            r == appended_loc(old(self).datas(), encode_utf8(k@), record_value(v@, mode)),
            final(self).pending().len() == old(self).pending().len() + 1,
            final(self).pending().subrange(0, old(self).pending().len() as int) == old(self).pending(),
            is_append(
                final(self).pending().last(),
                final(self).names().last(),
                encode_record(encode_utf8(k@), record_value(v@, mode)),
            ),
            final(self).names().len() == final(self).datas().len(),
            final(self).names().subrange(0, old(self).names().len() as int) == old(self).names(),
            final(self).disk() == old(self).disk(),
            bad_key_upto(final(self).datas(), final(self).datas().len() as int) == bad_key_upto(
                old(self).datas(),
                old(self).datas().len() as int,
            ),
            bad_tail_upto(final(self).datas(), final(self).datas().len() as int) == bad_tail_upto(
                old(self).datas(),
                old(self).datas().len() as int,
            ),
            replay_segments(final(self).datas()) == apply_record(
                replay_segments(old(self).datas()),
                r.file_id as int,
                (encode_utf8(k@), r.vpos as int, record_value(v@, mode).len() as int),
            ),
            r.vsz == record_value(v@, mode).len(),
            in_bounds(final(self).datas(), r),
            value_at(final(self).datas(), r) == record_value(v@, mode),
            forall|loc: ValueEntry| #[trigger]
                in_bounds(old(self).datas(), loc) ==> in_bounds(final(self).datas(), loc)
                    && value_at(final(self).datas(), loc) == value_at(old(self).datas(), loc),
    {
        let kb = k.as_str().as_bytes();
        let none: Vec<u8> = Vec::new();
        let vb = match mode {
            Operation::SET => v.as_str().as_bytes(),
            Operation::RM => none.as_slice(),
        };
        assert(vb@ == record_value(v@, mode));
        proof {
            vstd::utf8::encode_utf8_valid_utf8(k@);
        }
        self.append_record(kb, vb)
    }

    /// The value bytes at `ve`, as text.
    pub fn read_value(&self, ve: &ValueEntry) -> (r: Result<String>)
        ensures
            !in_bounds(self.datas(), *ve) ==> r == Err::<String, KvsError>(KvsError::EofError),
            in_bounds(self.datas(), *ve) && valid_utf8(value_at(self.datas(), *ve)) ==> (r matches Ok(
                s,
            ) && s@ == decode_utf8(value_at(self.datas(), *ve))),
            in_bounds(self.datas(), *ve) && !valid_utf8(value_at(self.datas(), *ve)) ==> r
                == Err::<String, KvsError>(KvsError::SerializationError),
    {
        if ve.file_id >= self.segments.len() {
            return Err(KvsError::EofError);
        }
        let data = self.segments[ve.file_id].data.as_slice();
        assert(data@ == self.datas()[ve.file_id as int]);
        if ve.vpos > data.len() as u64 || ve.vsz > data.len() - ve.vpos as usize {
            return Err(KvsError::EofError);
        }
        let start = ve.vpos as usize;
        let bytes = slice_subrange(data, start, start + ve.vsz);
        match decode_text(bytes) {
            Some(s) => Ok(s),
            None => Err(KvsError::SerializationError),
        }
    }

    /// Decodes the records of segment `seg` into `index`, returning how many were
    /// decoded. A torn tail ends the segment; a key that is not UTF-8 is an error.
    fn load_log_file(&self, seg: usize, index: &mut Index) -> (r: Result<u64>)
        requires
            old(index).wf(),
            seg < self.datas().len(),
            locs_ok(self.datas(), old(index).view()),
            forall|k: Seq<u8>| #[trigger] old(index).view().contains_key(k) ==> valid_utf8(k),
        ensures
            final(index).wf(),
            forall|k: Seq<u8>| #[trigger] final(index).view().contains_key(k) ==> valid_utf8(k),
            r is Ok <==> (forall|j: int|
                0 <= j < parse_segment(self.datas()[seg as int]).len() ==> valid_utf8(
                    #[trigger] parse_segment(self.datas()[seg as int])[j].0,
                )) && !bad_tail(self.datas()[seg as int]),
            r is Err ==> r == Err::<u64, KvsError>(KvsError::SerializationError),
            r matches Ok(c) ==> (c == saturate(parse_segment(self.datas()[seg as int]).len())
                && final(index).view() == apply_records(
                old(index).view(),
                seg as int,
                parse_segment(self.datas()[seg as int]),
            ) && locs_ok(self.datas(), final(index).view())),
    {
        let data = self.segments[seg].data.as_slice();
        let ghost d = data@;
        assert(d == self.datas()[seg as int]);
        let ghost m0 = index.view();
        let ghost mut done: Seq<RecordPos> = seq![];
        let mut pos: usize = 0;
        let mut count: u64 = 0;
        while data.len() - pos >= HEADER_LEN
            invariant
                index.wf(),
                d == data@,
                d == self.datas()[seg as int],
                seg < self.datas().len(),
                pos <= d.len(),
                parse_from(d, 0) == done + parse_from(d, pos as int),
                index.view() == apply_records(m0, seg as int, done),
                forall|j: int| 0 <= j < done.len() ==> valid_utf8(#[trigger] done[j].0),
                locs_ok(self.datas(), index.view()),
                forall|k: Seq<u8>| #[trigger] index.view().contains_key(k) ==> valid_utf8(k),
                count == saturate(done.len()),
                parse_end(d, 0) == parse_end(d, pos as int),
            ensures
                parse_from(d, pos as int) == Seq::<RecordPos>::empty(),
                parse_end(d, 0) == pos,
                !bad_tail(d),
            decreases d.len() - pos,
        {
            let ksz = read_le(data, pos);
            let vsz = read_le(data, pos + 8);
            let rest = data.len() - pos - HEADER_LEN;
            if ksz > rest as u64 || vsz > (rest - ksz as usize) as u64 {
                assert(parse_from(d, pos as int) =~= seq![]);
                assert(parse_end(d, pos as int) == pos);
                if ksz <= rest as u64 {
                    // The value runs past the end, but the key is whole: decode it.
                    let kstart = pos + HEADER_LEN;
                    let kslice = slice_subrange(data, kstart, kstart + ksz as usize);
                    if decode_text(kslice).is_none() {
                        assert(tail_key(d) == Some(kslice@));
                        assert(bad_tail(self.datas()[seg as int]));
                        return Err(KvsError::SerializationError);
                    }
                    assert(tail_key(d) == Some(kslice@));
                }
                break;
            }
            let kstart = pos + HEADER_LEN;
            let kend = kstart + ksz as usize;
            let end = kend + vsz as usize;
            let ghost rec: RecordPos = (d.subrange(kstart as int, kend as int), kend as int, vsz as int);
            assert(parse_from(d, pos as int) == seq![rec] + parse_from(d, end as int));
            let kslice = slice_subrange(data, kstart, kend);
            if decode_text(kslice).is_none() {
                assert(parse_from(d, 0)[done.len() as int] == rec);
                assert(!valid_utf8(parse_segment(self.datas()[seg as int])[done.len() as int].0));
                return Err(KvsError::SerializationError);
            }
            let key = slice_to_vec(kslice);
            proof {
                lemma_apply_push(m0, seg as int, done, rec);
            }
            if vsz == 0 {
                index.remove(key.as_slice());
            } else {
                index.insert(key, ValueEntry { file_id: seg, vsz: vsz as usize, vpos: kend as u64 });
            }
            proof {
                done = done.push(rec);
                assert(parse_from(d, 0) =~= done + parse_from(d, end as int));
            }
            count = count.saturating_add(1);
            pos = end;
        }
        assert(done =~= parse_from(d, 0));
        Ok(count)
    }

    /// Rebuilds `index` from all segments, oldest first, and returns how many
    /// records were decoded. It stops at the first key that is not UTF-8; `index`
    /// then holds a partial replay, which the caller discards (`KvStore::open`
    /// drops it with the error).
    pub fn replay(&self, index: &mut Index) -> (r: Result<u64>)
        requires
            old(index).wf(),
            old(index).view() == Map::<Seq<u8>, ValueEntry>::empty(),
        ensures
            final(index).wf(),
            forall|k: Seq<u8>| #[trigger] final(index).view().contains_key(k) ==> valid_utf8(k),
            r is Ok <==> !bad_key_upto(self.datas(), self.datas().len() as int) && !bad_tail_upto(
                self.datas(),
                self.datas().len() as int,
            ),
            r is Err ==> r == Err::<u64, KvsError>(KvsError::SerializationError),
            r matches Ok(c) ==> (c == saturate(count_upto(self.datas(), self.datas().len() as int))
                && final(index).view() == replay_segments(self.datas()) && locs_ok(
                self.datas(),
                final(index).view(),
            )),
    {
        let mut total: u64 = 0;
        let mut i: usize = 0;
        while i < self.segments.len()
            invariant
                index.wf(),
                i <= self.datas().len(),
                self.datas().len() == self.segments@.len(),
                index.view() == replay_upto(self.datas(), i as int),
                !bad_key_upto(self.datas(), i as int),
                !bad_tail_upto(self.datas(), i as int),
                locs_ok(self.datas(), index.view()),
                forall|k: Seq<u8>| #[trigger] index.view().contains_key(k) ==> valid_utf8(k),
                total == saturate(count_upto(self.datas(), i as int)),
            decreases self.datas().len() - i,
        {
            match self.load_log_file(i, index) {
                Ok(c) => {
                    total = total.saturating_add(c);
                    assert(!bad_key_upto(self.datas(), i + 1)) by {
                        if bad_key_upto(self.datas(), i + 1) {
                            let (s, j) = choose|s: int, j: int|
                                0 <= s < i + 1 && 0 <= j < parse_segment(self.datas()[s]).len()
                                    && !valid_utf8(#[trigger] parse_segment(self.datas()[s])[j].0);
                            if s < i {
                                assert(bad_key_upto(self.datas(), i as int));
                            }
                        }
                    }
                    assert(!bad_tail_upto(self.datas(), i + 1)) by {
                        if bad_tail_upto(self.datas(), i + 1) {
                            let s = choose|s: int| 0 <= s < i + 1 && #[trigger] bad_tail(self.datas()[s]);
                            if s < i {
                                assert(bad_tail_upto(self.datas(), i as int));
                            }
                        }
                    }
                },
                Err(e) => {
                    let ghost s = self.datas()[i as int];
                    proof {
                        if bad_tail(s) {
                            assert(bad_tail_upto(self.datas(), self.datas().len() as int));
                        } else {
                            let j = choose|j: int|
                                0 <= j < parse_segment(s).len() && !valid_utf8(#[trigger] parse_segment(s)[j].0);
                            assert(!valid_utf8(parse_segment(self.datas()[i as int])[j].0));
                            assert(bad_key_upto(self.datas(), self.datas().len() as int));
                        }
                    }
                    return Err(e);
                },
            }
            i = i + 1;
        }
        Ok(total)
    }

    /// A log over the given segment files, oldest first, as `search_log_files`
    /// orders the files of one directory.
    pub fn open(files: Vec<Segment>) -> (r: Wal)
        requires
            names_increasing(files@),
            all_log_names(files@),
        ensures
            r.wf(),
            r.datas() == images(files@),
            r.names() == files@.map_values(|s: Segment| s.name@),
            r.pending().len() == 0,
            r.disk() == dir_of(files@),
    {
        let n = files.len();
        let tail_clean = n > 0 && scan_end(files[n - 1].data.as_slice()) == files[n - 1].data.len();
        let mut floor = String::new();
        let mut i: usize = 0;
        while i < n
            invariant
                n == files@.len(),
                i <= n,
                forall|j: int|
                    0 <= j < i ==> bytes_le(encode_utf8(#[trigger] files@[j].name@), encode_utf8(floor@)),
            decreases n - i,
        {
            let nb = files[i].name.as_str().as_bytes();
            let ghost f0 = encode_utf8(floor@);
            if bytes_lt(floor.as_str().as_bytes(), nb) {
                floor = files[i].name.clone();
                assert forall|j: int| 0 <= j < i + 1 implies bytes_le(
                    encode_utf8(#[trigger] files@[j].name@),
                    encode_utf8(floor@),
                ) by {
                    if j < i && encode_utf8(files@[j].name@) != f0 {
                        lemma_lex_lt_transitive(encode_utf8(files@[j].name@), f0, encode_utf8(floor@));
                    }
                }
            } else {
                proof {
                    lemma_lex_total(nb@, f0);
                }
            }
            i = i + 1;
        }
        let ghost d = dir_of(files@);
        Wal { segments: files, pending: Vec::new(), tail_clean, floor, flushed: Ghost(d) }
    }

    /// Hands out the queued file changes, oldest first, and empties the queue.
    pub fn take_pending(&mut self) -> (r: Vec<DiskOp>)
        requires
            old(self).wf(),
        ensures
            final(self).wf(),
            r@ == old(self).pending(),
            final(self).pending().len() == 0,
            final(self).datas() == old(self).datas(),
            final(self).names() == old(self).names(),
            apply_disk_ops(old(self).disk(), r@) == old(self).dir(),
            final(self).disk() == final(self).dir(),
            final(self).dir() == old(self).dir(),
    {
        let mut out: Vec<DiskOp> = Vec::new();
        std::mem::swap(&mut out, &mut self.pending);
        self.flushed = Ghost(dir_of(self.segments@));
        out
    }

    /// Appends a copy of the record whose key is `key` and whose value lies at
    /// `loc` in this log to `fresh`.
    fn copy_record(&self, fresh: &mut Wal, key: &Vec<u8>, loc: ValueEntry) -> (r: ValueEntry)
        requires
            old(fresh).wf(),
            in_bounds(self.datas(), loc),
            key@.len() + loc.vsz + HEADER_LEN <= usize::MAX,
        ensures
            final(fresh).wf(),
            final(fresh).pending().len() == old(fresh).pending().len() + 1,
            final(fresh).pending().subrange(0, old(fresh).pending().len() as int) == old(fresh).pending(),
            replay_segments(final(fresh).datas()) == apply_record(
                replay_segments(old(fresh).datas()),
                r.file_id as int,
                (key@, r.vpos as int, loc.vsz as int),
            ),
            r.vsz == loc.vsz,
            final(fresh).names().subrange(0, old(fresh).names().len() as int) == old(fresh).names(),
            final(fresh).names().len() > old(fresh).names().len() ==> lex_lt(
                encode_utf8(old(fresh).floor()),
                encode_utf8(final(fresh).names().last()),
            ),
            bytes_le(encode_utf8(old(fresh).floor()), encode_utf8(final(fresh).floor())),
            final(fresh).names().len() == final(fresh).datas().len(),
            final(fresh).names().len() <= old(fresh).names().len() + 1,
            final(fresh).disk() == old(fresh).disk(),
            valid_utf8(key@) ==> bad_key_upto(final(fresh).datas(), final(fresh).datas().len() as int)
                == bad_key_upto(old(fresh).datas(), old(fresh).datas().len() as int),
            bad_tail_upto(final(fresh).datas(), final(fresh).datas().len() as int) == bad_tail_upto(
                old(fresh).datas(),
                old(fresh).datas().len() as int,
            ),
            is_append(
                final(fresh).pending().last(),
                final(fresh).names().last(),
                encode_record(key@, value_at(self.datas(), loc)),
            ),
            final(fresh).names().len() >= old(fresh).names().len(),
            count_upto(final(fresh).datas(), final(fresh).datas().len() as int) == count_upto(
                old(fresh).datas(),
                old(fresh).datas().len() as int,
            ) + 1,
            in_bounds(final(fresh).datas(), r),
            value_at(final(fresh).datas(), r) == value_at(self.datas(), loc),
            flatten(final(fresh).datas()) == flatten(old(fresh).datas()) + encode_record(
                key@,
                value_at(self.datas(), loc),
            ),
            forall|l: ValueEntry| #[trigger]
                in_bounds(old(fresh).datas(), l) ==> in_bounds(final(fresh).datas(), l)
                    && value_at(final(fresh).datas(), l) == value_at(old(fresh).datas(), l),
    {
        let data = self.segments[loc.file_id].data.as_slice();
        assert(data@ == self.datas()[loc.file_id as int]);
        let dl = data.len();
        assert(loc.vpos + loc.vsz <= dl);
        let start = loc.vpos as usize;
        let value = slice_subrange(data, start, start + loc.vsz);
        proof {
            lemma_flatten_appended(fresh.datas(), encode_record(key@, value@));
        }
        fresh.append_record(key.as_slice(), value)
    }

    /// Copies every entry of `index`, in order, into a new log; returns it with
    /// the new location of each entry.
    fn copy_live(&self, index: &Index) -> (r: (Wal, Vec<ValueEntry>))
        requires
            index.wf(),
            locs_ok(self.datas(), index.view()),
            forall|k: Seq<u8>| #[trigger] index.view().contains_key(k) ==> valid_utf8(k),
        ensures
            r.0.wf(),
            !bad_key_upto(r.0.datas(), r.0.datas().len() as int),
            !bad_tail_upto(r.0.datas(), r.0.datas().len() as int),
            r.1@.len() == index.entries().len(),
            r.0.pending().len() == index.entries().len(),
            forall|j: int|
                0 <= j < r.0.names().len() ==> lex_lt(
                    encode_utf8(self.floor()),
                    encode_utf8(#[trigger] r.0.names()[j]),
                ),
            bytes_le(encode_utf8(self.floor()), encode_utf8(r.0.floor())),
            r.0.disk() == Map::<Seq<char>, Seq<u8>>::empty(),
            forall|t: int|
                0 <= t < r.0.pending().len() ==> (#[trigger] r.0.pending()[t] matches DiskOp::Append { name, .. }
                    && lex_lt(encode_utf8(self.floor()), encode_utf8(name@))),
            replay_segments(r.0.datas()) == relocated(index.entries(), r.1@, r.1@.len() as int),
            count_upto(r.0.datas(), r.0.datas().len() as int) == index.entries().len(),
            flatten(r.0.datas()) == live_image(
                index.entries(),
                self.datas(),
                index.entries().len() as int,
            ),
            forall|j: int|
                0 <= j < r.1@.len() ==> in_bounds(r.0.datas(), #[trigger] r.1@[j]) && value_at(
                    r.0.datas(),
                    r.1@[j],
                ) == value_at(self.datas(), index.entries()[j].1) && r.1@[j].vsz
                    == index.entries()[j].1.vsz,
    {
        let n = index.len();
        proof {
            index.lemma_entries();
        }
        let ghost entries = index.entries();
        let mut fresh = Wal::empty_after(self.floor.clone());
        let mut locs: Vec<ValueEntry> = Vec::new();
        let mut i: usize = 0;
        while i < n
            invariant
                fresh.wf(),
                index.wf(),
                index.entries() == entries,
                n == entries.len(),
                i <= n,
                locs@.len() == i,
                fresh.pending().len() == i,
                forall|j: int|
                    0 <= j < fresh.names().len() ==> lex_lt(
                        encode_utf8(self.floor()),
                        encode_utf8(#[trigger] fresh.names()[j]),
                    ),
                bytes_le(encode_utf8(self.floor()), encode_utf8(fresh.floor())),
                fresh.disk() == Map::<Seq<char>, Seq<u8>>::empty(),
                !bad_key_upto(fresh.datas(), fresh.datas().len() as int),
                !bad_tail_upto(fresh.datas(), fresh.datas().len() as int),
                forall|k: Seq<u8>| #[trigger] index.view().contains_key(k) ==> valid_utf8(k),
                forall|t: int|
                    0 <= t < fresh.pending().len() ==> (#[trigger] fresh.pending()[t] matches DiskOp::Append { name, .. }
                        && lex_lt(encode_utf8(self.floor()), encode_utf8(name@))),
                locs_ok(self.datas(), index.view()),
                forall|j: int|
                    0 <= j < entries.len() ==> #[trigger] index.view().contains_key(entries[j].0)
                        && index.view()[entries[j].0] == entries[j].1,
                replay_segments(fresh.datas()) == relocated(entries, locs@, i as int),
                count_upto(fresh.datas(), fresh.datas().len() as int) == i,
                flatten(fresh.datas()) == live_image(entries, self.datas(), i as int),
                forall|j: int|
                    0 <= j < i ==> in_bounds(fresh.datas(), #[trigger] locs@[j]) && value_at(
                        fresh.datas(),
                        locs@[j],
                    ) == value_at(self.datas(), entries[j].1) && locs@[j].vsz == entries[j].1.vsz,
            decreases n - i,
        {
            proof {
                index.lemma_entries();
            }
            let loc = index.loc_at(i);
            let key = index.key_at(i);
            assert(index.view().contains_key(entries[i as int].0));
            let ghost before = fresh.datas();
            let ghost fresh0 = fresh;
            let nl = self.copy_record(&mut fresh, key, loc);
            proof {
                let f = encode_utf8(self.floor());
                let f0 = encode_utf8(fresh0.floor());
                assert forall|j: int| 0 <= j < fresh.names().len() implies lex_lt(
                    f,
                    encode_utf8(#[trigger] fresh.names()[j]),
                ) by {
                    if j < fresh0.names().len() {
                        assert(fresh.names().subrange(0, fresh0.names().len() as int)[j] == fresh0.names()[j]);
                        assert(fresh.names()[j] == fresh0.names()[j]);
                    } else {
                        assert(j == fresh.names().len() - 1);
                        if f != f0 {
                            lemma_lex_lt_transitive(f, f0, encode_utf8(fresh.names()[j]));
                        }
                    }
                }
                if f != f0 && f0 != encode_utf8(fresh.floor()) {
                    lemma_lex_lt_transitive(f, f0, encode_utf8(fresh.floor()));
                }
                let np = fresh.pending().len();
                assert(fresh.names().len() > 0) by {
                    if fresh.names().len() == 0 {
                        assert(fresh.pending().last() matches DiskOp::Append { .. });
                    }
                }
                assert forall|t: int| 0 <= t < np implies (#[trigger] fresh.pending()[t] matches DiskOp::Append { name, .. }
                    && lex_lt(f, encode_utf8(name@))) by {
                    if t < np - 1 {
                        assert(fresh.pending().subrange(0, np - 1)[t] == fresh0.pending()[t]);
                    } else {
                        assert(fresh.names()[fresh.names().len() - 1] == fresh.names().last());
                    }
                }
                assert(relocated(entries, locs@.push(nl), i + 1) == relocated(entries, locs@, i as int).insert(entries[i as int].0, nl)) by {
                    lemma_relocated_prefix(entries, locs@, locs@.push(nl), i as int);
                }
                assert(fresh.pending().len() == i + 1);
            }
            locs.push(nl);
            i = i + 1;
        }
        (fresh, locs)
    }

    /// Rewrites every live entry of `index` into fresh segments, points the index
    /// at the new copies, and drops every segment that existed before.
    pub fn compact(&mut self, index: &mut Index)
        requires
            old(self).wf(),
            old(index).wf(),
            locs_ok(old(self).datas(), old(index).view()),
            forall|k: Seq<u8>| #[trigger] old(index).view().contains_key(k) ==> valid_utf8(k),
        ensures
            final(self).wf(),
            final(index).wf(),
            final(self).disk() == old(self).disk(),
            !bad_key_upto(final(self).datas(), final(self).datas().len() as int),
            !bad_tail_upto(final(self).datas(), final(self).datas().len() as int),
            final(index).view().dom() == old(index).view().dom(),
            final(index).entries().len() == old(index).entries().len(),
            forall|t: int|
                0 <= t < old(index).entries().len() ==> #[trigger] final(index).entries()[t].0
                    == old(index).entries()[t].0,
            forall|k: Seq<u8>| #[trigger]
                old(index).view().contains_key(k) ==> value_at(
                    final(self).datas(),
                    final(index).view()[k],
                ) == value_at(old(self).datas(), old(index).view()[k]),
            locs_ok(final(self).datas(), final(index).view()),
            replay_segments(final(self).datas()) == final(index).view(),
            count_upto(final(self).datas(), final(self).datas().len() as int) == old(index).view().len(),
            flatten(final(self).datas()) == live_image(
                old(index).entries(),
                old(self).datas(),
                old(index).entries().len() as int,
            ),
            final(self).pending().len() == old(self).pending().len() + old(index).view().len()
                + old(self).names().len(),
            forall|i: int, j: int|
                0 <= i < old(self).names().len() && 0 <= j < final(self).names().len() ==> lex_lt(
                    encode_utf8(#[trigger] old(self).names()[i]),
                    encode_utf8(#[trigger] final(self).names()[j]),
                ),
            final(self).pending().subrange(0, old(self).pending().len() as int) == old(self).pending(),
            forall|t: int|
                0 <= t < old(self).names().len() ==> is_delete(
                    #[trigger] final(self).pending()[final(self).pending().len() - old(self).names().len() + t],
                    old(self).names()[t],
                ),
    {
        proof {
            index.lemma_entries();
        }
        let ghost entries = index.entries();
        let ghost m0 = index.view();
        let (mut fresh, locs) = self.copy_live(index);
        let n = locs.len();
        let mut j: usize = 0;
        while j < n
            invariant
                index.wf(),
                n == entries.len(),
                locs@.len() == n,
                j <= n,
                index.entries().len() == n,
                forall|t: int| 0 <= t < j ==> #[trigger] index.entries()[t] == (entries[t].0, locs@[t]),
                forall|t: int| j <= t < n ==> #[trigger] index.entries()[t] == entries[t],
            decreases n - j,
        {
            index.set_loc(j, locs[j]);
            j = j + 1;
        }
        proof {
            index.lemma_entries();
            assert(index.entries() =~= relocated_entries(entries, locs@));
            lemma_relocated(entries, locs@, n as int);
            let pm = relocated(entries, locs@, n as int);
            assert forall|k: Seq<u8>| index.view().contains_key(k) <==> pm.contains_key(k) by {
                if index.view().contains_key(k) {
                    let t = choose|t: int| 0 <= t < index.entries().len() && #[trigger] index.entries()[t].0 == k;
                    assert(entries[t].0 == k);
                }
                if pm.contains_key(k) {
                    let t = choose|t: int| 0 <= t < n && #[trigger] entries[t].0 == k;
                    assert(index.entries()[t].0 == k);
                }
            }
            assert forall|k: Seq<u8>| index.view().contains_key(k) implies index.view()[k] == pm[k] by {
                let t = choose|t: int| 0 <= t < index.entries().len() && #[trigger] index.entries()[t].0 == k;
                assert(index.entries()[t] == (entries[t].0, locs@[t]));
                assert(entries[t].0 == k);
                assert(index.view().contains_key(index.entries()[t].0));
                assert(pm.contains_key(entries[t].0));
            }
            assert(index.view() =~= pm);
            assert forall|k: Seq<u8>| #[trigger] m0.contains_key(k) <==> index.view().contains_key(k) by {
                if m0.contains_key(k) {
                    let t = choose|t: int| 0 <= t < n && #[trigger] entries[t].0 == k;
                    assert(index.entries()[t].0 == k);
                }
            }
            assert(index.view().dom() =~= m0.dom());
            assert forall|k: Seq<u8>| #[trigger] m0.contains_key(k) implies value_at(fresh.datas(), index.view()[k])
                == value_at(self.datas(), m0[k]) && in_bounds(fresh.datas(), index.view()[k])
                && index.view()[k].vsz > 0 && k.len() + index.view()[k].vsz + HEADER_LEN <= usize::MAX by {
                let t = choose|t: int| 0 <= t < n && #[trigger] entries[t].0 == k;
                assert(index.entries()[t].0 == k);
                assert(m0.contains_key(entries[t].0));
            }
        }
        let mut deletes: Vec<DiskOp> = Vec::new();
        let mut s: usize = 0;
        while s < self.segments.len()
            invariant
                deletes@.len() == s,
                s <= self.segments@.len(),
                forall|t: int| 0 <= t < s ==> is_delete(#[trigger] deletes@[t], self.names()[t]),
            decreases self.segments@.len() - s,
        {
            deletes.push(DiskOp::Delete { name: self.segments[s].name.clone() });
            s = s + 1;
        }
        let ghost p0 = self.pending@;
        let ghost fp = fresh.pending@;
        let ghost dp = deletes@;
        let ghost names0 = self.names();
        let ghost fresh_names = fresh.names();
        let ghost d_old = dir_of(self.segments@);
        let ghost d_fresh = dir_of(fresh.segments@);
        proof {
            let f = encode_utf8(self.floor());
            lemma_dir_of(self.segments@);
            lemma_dir_of(fresh.segments@);
            assert forall|t: int| 0 <= t < fp.len() implies (#[trigger] fp[t] matches DiskOp::Append { name, .. }
                && !d_old.contains_key(name@)) by {
                if let DiskOp::Append { name, .. } = fp[t] {
                    if d_old.contains_key(name@) {
                        let i = choose|i: int| 0 <= i < self.segments@.len() && #[trigger] self.segments@[i].name@ == name@
                            && self.segments@[i].data@.len() > 0;
                        assert(bytes_le(encode_utf8(self.segments@[i].name@), f));
                        lemma_lex_lt_irreflexive(f);
                        if encode_utf8(name@) != f {
                            lemma_lex_lt_transitive(f, encode_utf8(name@), f);
                        }
                    }
                }
            }
            lemma_disk_ops_beside(d_old, fp);
            let u = d_old.union_prefer_right(d_fresh);
            lemma_disk_deletes(u, dp, names0);
            lemma_disk_ops_concat(self.flushed@, p0, fp);
            lemma_disk_ops_concat(self.flushed@, p0 + fp, dp);
            let res = apply_disk_ops(u, dp);
            assert forall|n: Seq<char>| res.contains_key(n) <==> d_fresh.contains_key(n) by {
                if d_fresh.contains_key(n) {
                    let j = choose|j: int| 0 <= j < fresh.segments@.len() && #[trigger] fresh.segments@[j].name@ == n
                        && fresh.segments@[j].data@.len() > 0;
                    assert(fresh_names[j] == n);
                    if names0.contains(n) {
                        let i = choose|i: int| 0 <= i < names0.len() && names0[i] == n;
                        assert(names0[i] == self.segments@[i].name@);
                        assert(bytes_le(encode_utf8(self.segments@[i].name@), f));
                        assert(lex_lt(f, encode_utf8(fresh_names[j])));
                        lemma_lex_lt_irreflexive(encode_utf8(n));
                        if encode_utf8(n) != f {
                            lemma_lex_lt_transitive(encode_utf8(n), f, encode_utf8(n));
                        }
                    }
                }
                if res.contains_key(n) && !d_fresh.contains_key(n) {
                    let i = choose|i: int| 0 <= i < self.segments@.len() && #[trigger] self.segments@[i].name@ == n
                        && self.segments@[i].data@.len() > 0;
                    assert(names0[i] == n);
                    assert(names0.contains(n));
                }
            }
            assert forall|n: Seq<char>| res.contains_key(n) implies res[n] == d_fresh[n] by {
                assert(d_fresh.contains_key(n));
            }
            assert(res =~= d_fresh);
        }
        let ghost fresh_names = fresh.names();
        let ghost f = encode_utf8(self.floor());
        assert forall|a: int, b: int| 0 <= a < names0.len() && 0 <= b < fresh_names.len() implies lex_lt(
            encode_utf8(#[trigger] names0[a]),
            encode_utf8(#[trigger] fresh_names[b]),
        ) by {
            assert(names0[a] == self.segments@[a].name@);
            if encode_utf8(names0[a]) != f {
                lemma_lex_lt_transitive(encode_utf8(names0[a]), f, encode_utf8(fresh_names[b]));
            }
        }
        self.segments = fresh.segments;
        self.tail_clean = fresh.tail_clean;
        self.floor = fresh.floor;
        self.pending.append(&mut fresh.pending);
        self.pending.append(&mut deletes);
        assert(self.names() == fresh_names);
        assert(self.pending@ == p0 + fp + dp);
        assert(self.pending().subrange(0, p0.len() as int) =~= p0);
        assert forall|t: int| 0 <= t < names0.len() implies is_delete(
            #[trigger] self.pending()[self.pending().len() - names0.len() + t],
            names0[t],
        ) by {
            assert(self.pending()[self.pending().len() - names0.len() + t] == dp[t]);
        }
    }
}

/// The value bytes that a record of kind `mode` for text `v` carries.
pub open spec fn record_value(v: Seq<char>, mode: Operation) -> Seq<u8> {
    match mode {
        Operation::SET => encode_utf8(v),
        Operation::RM => seq![],
    }
}

/// Where decoding of `data` from its start stops.
fn scan_end(data: &[u8]) -> (r: usize)
    ensures
        r == parse_end(data@, 0),
{
    let mut pos: usize = 0;
    while data.len() - pos >= HEADER_LEN
        invariant
            pos <= data@.len(),
            parse_end(data@, 0) == parse_end(data@, pos as int),
        ensures
            parse_end(data@, pos as int) == pos,
        decreases data@.len() - pos,
    {
        let ksz = read_le(data, pos);
        let vsz = read_le(data, pos + 8);
        let rest = data.len() - pos - HEADER_LEN;
        if ksz > rest as u64 || vsz > (rest - ksz as usize) as u64 {
            break;
        }
        pos = pos + HEADER_LEN + ksz as usize + vsz as usize;
    }
    pos
}

impl Wal {
    /// The segment files among `files`: those named `*.log`, sorted by name, which
    /// for time-ordered names is the order they were made in.
    pub fn search_log_files(files: Vec<Segment>) -> (r: Vec<Segment>)
        ensures
            r@.to_multiset() == log_files(files@).to_multiset(),
            sorted_by_name(r@),
            all_log_names(r@),
    {
        let ghost all = files@;
        let mut rest = files;
        let mut out: Vec<Segment> = Vec::new();
        proof {
            vstd::seq_lib::to_multiset_len(out@);
            vstd::multiset::lemma_multiset_empty_len(out@.to_multiset());
            assert(out@.to_multiset().add(log_files(rest@).to_multiset()) =~= log_files(all).to_multiset());
        }
        while rest.len() > 0
            invariant
                all.len() >= rest@.len(),
                rest@ == all.subrange(0, rest@.len() as int),
                out@.to_multiset().add(log_files(rest@).to_multiset()) == log_files(all).to_multiset(),
                sorted_by_name(out@),
                all_log_names(out@),
            decreases rest@.len(),
        {
            let ghost before = rest@;
            let seg = rest.pop().unwrap();
            assert(before.drop_last() =~= rest@);
            assert(rest@ =~= all.subrange(0, rest@.len() as int));
            if has_log_suffix(&seg.name) {
                let nb = seg.name.as_str().as_bytes();
                let mut p: usize = 0;
                while p < out.len()
                    invariant
                        p <= out@.len(),
                        nb@ == name_bytes(seg),
                        forall|q: int| 0 <= q < p ==> !lex_lt(nb@, name_bytes(#[trigger] out@[q])),
                    ensures
                        p <= out@.len(),
                        forall|q: int| 0 <= q < p ==> !lex_lt(nb@, name_bytes(#[trigger] out@[q])),
                        p < out@.len() ==> lex_lt(nb@, name_bytes(out@[p as int])),
                    decreases out@.len() - p,
                {
                    if bytes_lt(nb, out[p].name.as_str().as_bytes()) {
                        break;
                    }
                    p = p + 1;
                }
                let ghost o = out@;
                let ghost lf = log_files(before);
                assert(lf == log_files(rest@).push(seg));
                proof {
                    vstd::seq_lib::to_multiset_build(log_files(rest@), seg);
                    vstd::seq_lib::to_multiset_insert(o, p as int, seg);
                }
                assert(p < o.len() ==> lex_lt(nb@, name_bytes(o[p as int])));
                out.insert(p, seg);
                assert(out@[p as int] == seg);
                assert forall|i: int| 0 <= i < out@.len() implies is_log_name(name_bytes(#[trigger] out@[i])) by {
                    if i < p {
                        assert(out@[i] == o[i]);
                    } else if i > p {
                        assert(out@[i] == o[i - 1]);
                    }
                }
                assert forall|i: int, j: int| 0 <= i < j < out@.len() implies !lex_lt(
                    name_bytes(#[trigger] out@[j]),
                    name_bytes(#[trigger] out@[i]),
                ) by {
                    if j == p {
                        assert(out@[i] == o[i]);
                        assert(!lex_lt(nb@, name_bytes(o[i])));
                    } else if i == p {
                        assert(out@[j] == o[j - 1]);
                        if lex_lt(name_bytes(o[j - 1]), name_bytes(out@[p as int])) {
                            lemma_lex_lt_irreflexive(name_bytes(o[p as int]));
                            if j - 1 > p {
                                assert(!lex_lt(name_bytes(o[j - 1]), name_bytes(o[p as int])));
                            }
                            lemma_lex_lt_transitive(name_bytes(o[j - 1]), name_bytes(out@[p as int]), name_bytes(o[p as int]));
                        }
                    } else {
                        let i2 = if i < p { i } else { i - 1 };
                        let j2 = if j < p { j } else { j - 1 };
                        assert(out@[i] == o[i2]);
                        assert(out@[j] == o[j2]);
                    }
                }
                assert(out@.to_multiset().add(log_files(rest@).to_multiset()) =~= log_files(all).to_multiset());
            } else {
                assert(log_files(before) == log_files(rest@));
            }
        }
        assert(log_files(rest@) =~= seq![]);
        proof {
            vstd::seq_lib::to_multiset_len(log_files(rest@));
            vstd::multiset::lemma_multiset_empty_len(log_files(rest@).to_multiset());
        }
        assert(out@.to_multiset().add(log_files(rest@).to_multiset()) =~= out@.to_multiset());
        out
    }
}

} // verus!
