//! The store: the index, the log, and the decisions that tie them together.
use vstd::prelude::*;
use vstd::utf8::decode_utf8;
use vstd::utf8::encode_utf8;
use vstd::utf8::valid_utf8;

use crate::error::{KvsError, Result};
use crate::index::Index;
use crate::disk::{apply_disk_ops, dir_of};
use crate::log::{DiskOp, Operation, Segment, ValueEntry, Wal};
use crate::names::{all_log_names, is_log_name, lemma_nonempty_text, lex_lt, names_increasing};
use crate::replay::{
    bad_tail_upto,
    bad_key_upto, count_upto, flatten, images, in_bounds, live_image, locs_ok, replay_segments,
    saturate, value_at,
};
use crate::record::{encode_record, HEADER_LEN};

verus! {

/// The key-value store.
pub struct KvStore {
    map: Index,
    log: Wal,
    ops_count: u64,
}

/// Compaction runs once live keys are at most this many tenths of the records
/// appended.
pub const COMPACTION_TENTHS: u64 = 7;

/// The ratio of live keys to appended records has fallen to the threshold.
pub open spec fn should_compact(live: nat, ops: u64) -> bool {
    10 * live <= COMPACTION_TENTHS * ops
}

/// The records of the first `n` entries, each with its current value in `view`,
/// one after the other.
pub open spec fn records_of(keys: Seq<Seq<u8>>, view: Map<Seq<u8>, Seq<u8>>, n: int) -> Seq<u8>
    decreases n,
{
    if n <= 0 {
        seq![]
    } else {
        records_of(keys, view, n - 1) + encode_record(keys[n - 1], view[keys[n - 1]])
    }
}

/// A record for `key` and `value` fits in memory.
pub open spec fn record_fits(key: Seq<char>, value: Seq<char>) -> bool {
    encode_utf8(key).len() + encode_utf8(value).len() + HEADER_LEN <= usize::MAX
}

impl KvStore {
    /// What the store holds: key bytes to value bytes.
    pub closed spec fn view(&self) -> Map<Seq<u8>, Seq<u8>> {
        Map::new(
            |k: Seq<u8>| self.map.view().contains_key(k),
            |k: Seq<u8>| value_at(self.log.datas(), self.map.view()[k]),
        )
    }

    /// The live keys in the index's order.
    pub closed spec fn keys(&self) -> Seq<Seq<u8>> {
        self.map.entries().map_values(|e: (Seq<u8>, ValueEntry)| e.0)
    }

    /// The index: each live key with its value location.
    pub closed spec fn locations(&self) -> Map<Seq<u8>, ValueEntry> {
        self.map.view()
    }

    /// The bytes of each segment, oldest first.
    pub closed spec fn images(&self) -> Seq<Seq<u8>> {
        self.log.datas()
    }

    /// Records appended, counting those found on open.
    pub closed spec fn ops(&self) -> u64 {
        self.ops_count
    }

    /// File changes not yet handed out.
    pub closed spec fn pending(&self) -> Seq<DiskOp> {
        self.log.pending()
    }

    /// The directory as it stood when file changes were last handed out.
    pub closed spec fn disk(&self) -> Map<Seq<char>, Seq<u8>> {
        self.log.disk()
    }

    /// The non-empty segment files by name.
    pub closed spec fn dir(&self) -> Map<Seq<char>, Seq<u8>> {
        self.log.dir()
    }

    /// Segment names, oldest first.
    pub closed spec fn names(&self) -> Seq<Seq<char>> {
        self.log.names()
    }

    pub closed spec fn wf(&self) -> bool {
        &&& self.map.wf()
        &&& self.log.wf()
        &&& locs_ok(self.log.datas(), self.map.view())
        &&& replay_segments(self.log.datas()) == self.map.view()
        &&& !bad_key_upto(self.log.datas(), self.log.datas().len() as int)
        &&& !bad_tail_upto(self.log.datas(), self.log.datas().len() as int)
        &&& forall|k: Seq<u8>| #[trigger] self.map.view().contains_key(k) ==> valid_utf8(k)
    }

    /// The store's invariants, spelled out.
    pub proof fn lemma_wf(&self)
        requires
            self.wf(),
        ensures
            replay_segments(self.images()) == self.locations(),
            !bad_key_upto(self.images(), self.images().len() as int),
            !bad_tail_upto(self.images(), self.images().len() as int),
            self.view().dom() == self.locations().dom(),
            self.view().dom().finite(),
            self.view().len() == self.keys().len(),
            forall|k: Seq<u8>| #[trigger]
                self.view().contains_key(k) ==> self.view()[k] == value_at(
                    self.images(),
                    self.locations()[k],
                ),
    {
        self.map.lemma_entries();
        assert(self.view().dom() =~= self.locations().dom());
    }

    /// Opens a store over the given segment files, oldest first (as
    /// `Wal::search_log_files` orders a directory's files), replaying them.
    pub fn open(files: Vec<Segment>) -> (r: Result<KvStore>)
        requires
            names_increasing(files@),
            all_log_names(files@),
        ensures
            r is Ok <==> !bad_key_upto(images(files@), files@.len() as int) && !bad_tail_upto(
                images(files@),
                files@.len() as int,
            ),
            r is Err ==> r == Err::<KvStore, KvsError>(KvsError::SerializationError),
            r matches Ok(s) ==> (s.wf() && s.images() == images(files@) && s.locations()
                == replay_segments(images(files@)) && s.ops() == saturate(
                count_upto(images(files@), files@.len() as int),
            ) && s.pending().len() == 0 && s.disk() == dir_of(files@) && s.names()
                == files@.map_values(|f: Segment| f.name@) && (files@.len() == 0 ==> s.view()
                == Map::<Seq<u8>, Seq<u8>>::empty())),
    {
        let ghost files_len = files@.len();
        let log = Wal::open(files);
        let mut map = Index::new();
        match log.replay(&mut map) {
            Ok(n) => {
                let s = KvStore { map, log, ops_count: n };
                proof {
                    if files_len == 0 {
                        assert(s.log.datas() =~= Seq::<Seq<u8>>::empty());
                        assert(s.view() =~= Map::<Seq<u8>, Seq<u8>>::empty());
                    }
                }
                Ok(s)
            },
            Err(e) => Err(e),
        }
    }

    /// The value of `key`, if present.
    pub fn get(&mut self, key: String) -> (r: Result<Option<String>>)
        requires
            old(self).wf(),
        ensures
            *final(self) == *old(self),
            !old(self).view().contains_key(encode_utf8(key@)) ==> r == Ok::<
                Option<String>,
                KvsError,
            >(None),
            old(self).view().contains_key(encode_utf8(key@)) && valid_utf8(
                old(self).view()[encode_utf8(key@)],
            ) ==> (r matches Ok(Some(s)) && s@ == decode_utf8(
                old(self).view()[encode_utf8(key@)],
            )),
            old(self).view().contains_key(encode_utf8(key@)) && !valid_utf8(
                old(self).view()[encode_utf8(key@)],
            ) ==> r == Err::<Option<String>, KvsError>(KvsError::SerializationError),
    {
        match self.map.get(key.as_str().as_bytes()) {
            Some(ve) => {
                if ve.vsz > 0 {
                    match self.log.read_value(&ve) {
                        Ok(s) => Ok(Some(s)),
                        Err(e) => Err(e),
                    }
                } else {
                    Ok(None)
                }
            },
            None => Ok(None),
        }
    }

    /// Maps `key` to `value`.
    pub fn set(&mut self, key: String, value: String) -> (r: Result<()>)
        requires
            old(self).wf(),
            value@.len() > 0,
            record_fits(key@, value@),
        ensures
            final(self).wf(),
            r is Ok,
            final(self).view() == old(self).view().insert(encode_utf8(key@), encode_utf8(value@)),
            final(self).view() == apply_op(old(self).view(), (key@, Some(value@))),
            final(self).disk() == old(self).disk(),
            final(self).ops() == saturate((old(self).ops() + 1) as nat),
            !should_compact(final(self).view().len(), final(self).ops()) ==> final(self).images()
                == crate::replay::appended(
                old(self).images(),
                encode_record(encode_utf8(key@), encode_utf8(value@)),
            ),
            should_compact(final(self).view().len(), final(self).ops()) ==> compacted(
                *final(self),
            ),
    {
        proof {
            vstd::utf8::encode_utf8_valid_utf8(value@);
            lemma_nonempty_text(value@);
        }
        let ve = self.log.write(&key, &value, Operation::SET);
        let ghost mid_datas = self.log.datas();
        self.map.insert(vstd::slice::slice_to_vec(key.as_str().as_bytes()), ve);
        proof {
            assert(self.log.datas() == mid_datas);
            self.lemma_after_write(*old(self), encode_utf8(key@), encode_utf8(value@), Some(ve));
            vstd::utf8::encode_utf8_valid_utf8(key@);
            assert forall|k: Seq<u8>| #[trigger] self.map.view().contains_key(k) implies valid_utf8(k) by {
                if k != encode_utf8(key@) {
                    assert(old(self).map.view().contains_key(k));
                }
            }
        }
        self.ops_count = self.ops_count.saturating_add(1);
        self.compact_if_needed();
        Ok(())
    }

    /// Removes `key`, or fails with `KeyNotFound` and changes nothing.
    pub fn remove(&mut self, key: String) -> (r: Result<()>)
        requires
            old(self).wf(),
            record_fits(key@, seq![]),
        ensures
            final(self).wf(),
            final(self).view() == apply_op(old(self).view(), (key@, None)),
            final(self).disk() == old(self).disk(),
            !old(self).view().contains_key(encode_utf8(key@)) ==> r == Err::<(), KvsError>(
                KvsError::KeyNotFound(key),
            ) && *final(self) == *old(self),
            old(self).view().contains_key(encode_utf8(key@)) ==> (r is Ok && final(self).view()
                == old(self).view().remove(encode_utf8(key@)) && final(self).ops() == saturate((old(self).ops() + 1) as nat) && (!should_compact(final(self).view().len(), final(self).ops()) ==> final(self).images() == crate::replay::appended(
                old(self).images(),
                encode_record(encode_utf8(key@), seq![]),
            )) && (should_compact(final(self).view().len(), final(self).ops()) ==> compacted(
                *final(self),
            ))),
    {
        let flag_value = String::new();
        if self.map.remove(key.as_str().as_bytes()) {
            let ve = self.log.write(&key, &flag_value, Operation::RM);
            proof {
                assert(encode_utf8(flag_value@) =~= seq![]) by {
                    assert(flag_value@ =~= seq![]);
                }
                self.lemma_after_write(*old(self), encode_utf8(key@), seq![], None);
                assert forall|k: Seq<u8>| #[trigger] self.map.view().contains_key(k) implies valid_utf8(k) by {
                    assert(old(self).map.view().contains_key(k));
                }
            }
            self.ops_count = self.ops_count.saturating_add(1);
            self.compact_if_needed();
            Ok(())
        } else {
            assert(self.map.view() =~= old(self).map.view());
            assert(old(self).view() =~= old(self).view().remove(encode_utf8(key@)));
            Err(KvsError::KeyNotFound(key))
        }
    }

    /// After appending a record and updating the index to match, the invariants
    /// hold and the view changed by that record alone.
    proof fn lemma_after_write(&self, before: KvStore, key: Seq<u8>, value: Seq<u8>, loc: Option<ValueEntry>)
        requires
            before.wf(),
            self.map.wf(),
            self.log.wf(),
            key.len() + value.len() + HEADER_LEN <= usize::MAX,
            forall|l: ValueEntry| #[trigger]
                in_bounds(before.log.datas(), l) ==> in_bounds(self.log.datas(), l)
                    && value_at(self.log.datas(), l) == value_at(before.log.datas(), l),
            loc matches Some(ve) ==> (value.len() > 0 && ve.vsz == value.len() && in_bounds(self.log.datas(), ve)
                && value_at(self.log.datas(), ve) == value && self.map.view() == before.map.view().insert(key, ve)
                && replay_segments(self.log.datas()) == before.map.view().insert(key, ve)),
            loc is None ==> (value.len() == 0 && self.map.view() == before.map.view().remove(key)
                && replay_segments(self.log.datas()) == before.map.view().remove(key)),
        ensures
            locs_ok(self.log.datas(), self.map.view()),
            replay_segments(self.log.datas()) == self.map.view(),
            loc is Some ==> self.view() == before.view().insert(key, value),
            loc is None ==> self.view() == before.view().remove(key),
    {
        assert forall|k: Seq<u8>| #[trigger] self.map.view().contains_key(k) implies in_bounds(self.log.datas(), self.map.view()[k])
            && self.map.view()[k].vsz > 0 && k.len() + self.map.view()[k].vsz + HEADER_LEN <= usize::MAX by {
            if k != key {
                assert(before.map.view().contains_key(k));
            }
        }
        if loc is Some {
            assert forall|k: Seq<u8>| #[trigger] self.view().contains_key(k) implies self.view()[k] == before.view().insert(key, value)[k] by {
                if k != key {
                    assert(before.map.view().contains_key(k));
                }
            }
            assert(self.view() =~= before.view().insert(key, value));
        } else {
            assert forall|k: Seq<u8>| #[trigger] self.view().contains_key(k) implies self.view()[k] == before.view().remove(key)[k] by {
                assert(before.map.view().contains_key(k));
            }
            assert(self.view() =~= before.view().remove(key));
        }
    }

    /// Compacts the log when live keys have fallen to the threshold share of the
    /// records appended.
    fn compact_if_needed(&mut self)
        requires
            old(self).map.wf(),
            old(self).log.wf(),
            locs_ok(old(self).log.datas(), old(self).map.view()),
            replay_segments(old(self).log.datas()) == old(self).map.view(),
            !bad_key_upto(old(self).log.datas(), old(self).log.datas().len() as int),
            !bad_tail_upto(old(self).log.datas(), old(self).log.datas().len() as int),
            forall|k: Seq<u8>| #[trigger] old(self).map.view().contains_key(k) ==> valid_utf8(k),
        ensures
            final(self).wf(),
            final(self).view() == old(self).view(),
            final(self).disk() == old(self).disk(),
            final(self).ops() == old(self).ops(),
            !should_compact(old(self).view().len(), old(self).ops()) ==> *final(self) == *old(self),
            should_compact(old(self).view().len(), old(self).ops()) ==> compacted(*final(self)),
    {
        proof {
            self.lemma_wf();
        }
        let live = self.map.len();
        if (live as u128) * 10 <= (self.ops_count as u128) * (COMPACTION_TENTHS as u128) {
            let ghost before = *self;
            proof {
                self.map.lemma_entries();
            }
            self.log.compact(&mut self.map);
            proof {
                self.map.lemma_entries();
                assert forall|k: Seq<u8>| #[trigger] self.view().contains_key(k) implies self.view()[k] == before.view()[k] by {
                    assert(before.map.view().contains_key(k));
                }
                assert(self.view().dom() =~= before.view().dom());
                assert(self.view() =~= before.view());
                self.lemma_wf();
                lemma_live_image(before.map.entries(), before.log.datas(), self.map.entries(), self.view(), self.log.datas(), before.map.view(), before.map.entries().len() as int);
                assert(self.keys().len() == self.map.entries().len());
                assert(records_of(self.keys(), self.view(), self.keys().len() as int) == live_image(before.map.entries(), before.log.datas(), before.map.entries().len() as int));
            }
        }
    }

    /// Hands out the queued file changes, oldest first.
    pub fn take_pending(&mut self) -> (r: Vec<DiskOp>)
        requires
            old(self).wf(),
        ensures
            final(self).wf(),
            r@ == old(self).pending(),
            final(self).pending().len() == 0,
            final(self).view() == old(self).view(),
            final(self).images() == old(self).images(),
            final(self).ops() == old(self).ops(),
            apply_disk_ops(old(self).disk(), r@) == old(self).dir(),
            final(self).disk() == final(self).dir(),
            final(self).dir() == old(self).dir(),
    {
        self.log.take_pending()
    }
}

/// Just compacted: the log holds one record per live key, with its current value,
/// in the index's order, and nothing else.
pub open spec fn compacted(s: KvStore) -> bool {
    &&& count_upto(s.images(), s.images().len() as int) == s.view().len()
    &&& flatten(s.images()) == records_of(s.keys(), s.view(), s.keys().len() as int)
}

/// The image that compaction wrote, told in terms of the index and view after it.
proof fn lemma_live_image(
    old_entries: Seq<(Seq<u8>, ValueEntry)>,
    old_datas: Seq<Seq<u8>>,
    new_entries: Seq<(Seq<u8>, ValueEntry)>,
    new_view: Map<Seq<u8>, Seq<u8>>,
    new_datas: Seq<Seq<u8>>,
    old_map: Map<Seq<u8>, ValueEntry>,
    n: int,
)
    requires
        0 <= n <= old_entries.len(),
        new_entries.len() == old_entries.len(),
        forall|t: int| 0 <= t < old_entries.len() ==> #[trigger] new_entries[t].0 == old_entries[t].0,
        forall|t: int|
            0 <= t < old_entries.len() ==> #[trigger] old_map.contains_key(old_entries[t].0)
                && old_map[old_entries[t].0] == old_entries[t].1,
        forall|k: Seq<u8>| #[trigger] old_map.contains_key(k) ==> new_view.contains_key(k) && new_view[k] == value_at(old_datas, old_map[k]),
    ensures
        records_of(new_entries.map_values(|e: (Seq<u8>, ValueEntry)| e.0), new_view, n)
            == live_image(old_entries, old_datas, n),
    decreases n,
{
    if n > 0 {
        lemma_live_image(old_entries, old_datas, new_entries, new_view, new_datas, old_map, n - 1);
        let keys = new_entries.map_values(|e: (Seq<u8>, ValueEntry)| e.0);
        assert(keys[n - 1] == old_entries[n - 1].0);
        assert(old_map.contains_key(old_entries[n - 1].0));
    }
}

/// A set of a value (`Some`) or a removal (`None`) of a key, as text.
pub type TextOp = (Seq<char>, Option<Seq<char>>);

/// What the store holds after one operation.
pub open spec fn apply_op(m: Map<Seq<u8>, Seq<u8>>, op: TextOp) -> Map<Seq<u8>, Seq<u8>> {
    match op.1 {
        Some(v) => m.insert(encode_utf8(op.0), encode_utf8(v)),
        None => m.remove(encode_utf8(op.0)),
    }
}

/// What the store holds after the operations `ops`, in order, from `m`.
pub open spec fn apply_ops(m: Map<Seq<u8>, Seq<u8>>, ops: Seq<TextOp>) -> Map<Seq<u8>, Seq<u8>>
    decreases ops.len(),
{
    if ops.len() == 0 {
        m
    } else {
        apply_op(apply_ops(m, ops.drop_last()), ops.last())
    }
}

/// The value of the latest operation on `k` in `ops`, if that is a set.
pub open spec fn last_write(ops: Seq<TextOp>, k: Seq<char>) -> Option<Seq<char>>
    decreases ops.len(),
{
    if ops.len() == 0 {
        None
    } else if ops.last().0 == k {
        ops.last().1
    } else {
        last_write(ops.drop_last(), k)
    }
}

/// Last writer wins: from an empty store, after `ops`, key `k` is present exactly
/// when its latest operation is a set, and then its bytes decode to that set's
/// value, which `get` returns.
pub proof fn lemma_last_writer_wins(ops: Seq<TextOp>, k: Seq<char>)
    ensures
        apply_ops(Map::empty(), ops).contains_key(encode_utf8(k)) <==> last_write(ops, k) is Some,
        last_write(ops, k) matches Some(v) ==> valid_utf8(apply_ops(Map::empty(), ops)[encode_utf8(k)])
            && decode_utf8(apply_ops(Map::empty(), ops)[encode_utf8(k)]) == v,
    decreases ops.len(),
{
    if ops.len() > 0 {
        lemma_last_writer_wins(ops.drop_last(), k);
        let op = ops.last();
        vstd::utf8::encode_utf8_decode_utf8(k);
        vstd::utf8::encode_utf8_decode_utf8(op.0);
        if let Some(v) = op.1 {
            vstd::utf8::encode_utf8_decode_utf8(v);
            vstd::utf8::encode_utf8_valid_utf8(v);
        }
    }
}

/// A run of calls: where each state of a store follows from the one before by
/// `apply_op` of that call's operation, as the contracts of `set` and `remove`
/// state (`remove` of an absent key included), the last state is `apply_ops` of
/// the whole run from the first. With `open` on no files as the first state, this
/// is the empty map, and `lemma_last_writer_wins` says what `get` then returns.
pub proof fn lemma_run(states: Seq<Map<Seq<u8>, Seq<u8>>>, ops: Seq<TextOp>)
    requires
        states.len() == ops.len() + 1,
        forall|i: int| 0 <= i < ops.len() ==> #[trigger] states[i + 1] == apply_op(states[i], ops[i]),
    ensures
        states.last() == apply_ops(states[0], ops),
    decreases ops.len(),
{
    if ops.len() > 0 {
        let ss = states.drop_last();
        let os = ops.drop_last();
        assert forall|i: int| 0 <= i < os.len() implies #[trigger] ss[i + 1] == apply_op(ss[i], os[i]) by {
            assert(ss[i + 1] == states[i + 1] && ss[i] == states[i] && os[i] == ops[i]);
        }
        lemma_run(ss, os);
        assert(states[ops.len() as int] == apply_op(states[ops.len() - 1], ops[ops.len() - 1]));
    }
}

/// Replay equals memory: the segment images of a store replay to exactly its
/// index, and hold no key that is not UTF-8, so `open` on them returns `Ok`; the
/// store `t` it returns has the same index and holds the same keys and values.
pub proof fn lemma_reopen(s: KvStore, t: KvStore)
    requires
        s.wf(),
        t.wf(),
        t.images() == s.images(),
        t.locations() == replay_segments(s.images()),
    ensures
        replay_segments(s.images()) == s.locations(),
        !bad_key_upto(s.images(), s.images().len() as int),
        !bad_tail_upto(s.images(), s.images().len() as int),
        t.locations() == s.locations(),
        t.view() == s.view(),
{
    s.lemma_wf();
    t.lemma_wf();
    assert(t.view() =~= s.view());
}

/// Durability: the file changes handed out (and those still queued), applied in
/// order to the directory as it stood before, leave in it exactly the store's
/// non-empty segments, each under its name, and the names increase in segment
/// order and all end in `.log`. So listing the directory, keeping the `.log`
/// files and sorting by name gives the non-empty segments back in order, and by
/// `lemma_reopen` a store opened on them holds what this one holds.
pub proof fn lemma_durable(s: KvStore)
    requires
        s.wf(),
    ensures
        apply_disk_ops(s.disk(), s.pending()) == s.dir(),
        s.names().len() == s.images().len(),
        forall|i: int, j: int|
            0 <= i < j < s.names().len() ==> lex_lt(
                encode_utf8(#[trigger] s.names()[i]),
                encode_utf8(#[trigger] s.names()[j]),
            ),
        forall|n: Seq<char>| #[trigger] s.dir().contains_key(n) <==> exists|i: int|
            0 <= i < s.names().len() && #[trigger] s.names()[i] == n && s.images()[i].len() > 0,
        forall|i: int|
            0 <= i < s.names().len() && s.images()[i].len() > 0 ==> #[trigger] s.dir()[s.names()[i]]
                == s.images()[i],
        forall|i: int| 0 <= i < s.names().len() ==> is_log_name(encode_utf8(#[trigger] s.names()[i])),
        forall|n: Seq<char>| #[trigger] s.dir().contains_key(n) ==> is_log_name(encode_utf8(n)),
{
    s.log.lemma_disk();
    assert forall|n: Seq<char>| #[trigger] s.dir().contains_key(n) implies is_log_name(encode_utf8(n)) by {
        let i = choose|i: int| 0 <= i < s.names().len() && #[trigger] s.names()[i] == n && s.images()[i].len() > 0;
        assert(is_log_name(encode_utf8(s.names()[i])));
    }
}

/// Space bound: once compacted, a store holding one key has a log of exactly one
/// record, that key with its value.
pub proof fn lemma_compacted_single_key(s: KvStore)
    requires
        s.wf(),
        compacted(s),
        s.view().len() == 1,
    ensures
        exists|k: Seq<u8>|
            s.view().contains_key(k) && flatten(s.images()) == encode_record(k, #[trigger] s.view()[k]),
{
    s.lemma_wf();
    s.map.lemma_entries();
    let k = s.keys()[0];
    assert(s.map.entries()[0].0 == k);
    assert(s.view().contains_key(k));
    assert(records_of(s.keys(), s.view(), 0) =~= seq![]);
    assert(records_of(s.keys(), s.view(), 1) =~= encode_record(k, s.view()[k]));
}

} // verus!
