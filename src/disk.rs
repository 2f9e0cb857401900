//! The directory as a map from file name to bytes, and what the queued file
//! changes do to it.
use vstd::prelude::*;
use vstd::utf8::encode_utf8;

use crate::log::{DiskOp, Segment};
use crate::names::{lemma_lex_lt_irreflexive, lex_lt, names_increasing};

verus! {

/// `op` appends `bytes` to the file `name`.
pub open spec fn is_append(op: DiskOp, name: Seq<char>, bytes: Seq<u8>) -> bool {
    match op {
        DiskOp::Append { name: n, bytes: b } => n@ == name && b@ == bytes,
        _ => false,
    }
}

/// `op` deletes the file `name`.
pub open spec fn is_delete(op: DiskOp, name: Seq<char>) -> bool {
    match op {
        DiskOp::Delete { name: n } => n@ == name,
        _ => false,
    }
}

/// The non-empty files of `segs` by name: what a directory holding those files
/// shows (an empty file holds no record).
pub open spec fn dir_of(segs: Seq<Segment>) -> Map<Seq<char>, Seq<u8>>
    decreases segs.len(),
{
    if segs.len() == 0 {
        Map::empty()
    } else if segs.last().data@.len() > 0 {
        dir_of(segs.drop_last()).insert(segs.last().name@, segs.last().data@)
    } else {
        dir_of(segs.drop_last())
    }
}

/// With distinct names, `dir_of` holds exactly the non-empty segments.
pub(crate) proof fn lemma_dir_of(segs: Seq<Segment>)
    requires
        names_increasing(segs),
    ensures
        forall|n: Seq<char>| #[trigger] dir_of(segs).contains_key(n) <==> exists|i: int|
            0 <= i < segs.len() && #[trigger] segs[i].name@ == n && segs[i].data@.len() > 0,
        forall|i: int| 0 <= i < segs.len() && segs[i].data@.len() > 0 ==> #[trigger] dir_of(segs)[segs[i].name@] == segs[i].data@,
    decreases segs.len(),
{
    if segs.len() > 0 {
        let prev = segs.drop_last();
        assert forall|i: int, j: int| 0 <= i < j < prev.len() implies lex_lt(
            encode_utf8(#[trigger] prev[i].name@),
            encode_utf8(#[trigger] prev[j].name@),
        ) by {
            assert(prev[i] == segs[i] && prev[j] == segs[j]);
        }
        lemma_dir_of(prev);
        let k = segs.len() - 1;
        assert forall|n: Seq<char>| #[trigger] dir_of(segs).contains_key(n) <==> exists|i: int|
            0 <= i < segs.len() && #[trigger] segs[i].name@ == n && segs[i].data@.len() > 0 by {
            if dir_of(prev).contains_key(n) {
                let i = choose|i: int| 0 <= i < prev.len() && #[trigger] prev[i].name@ == n && prev[i].data@.len() > 0;
                assert(segs[i] == prev[i]);
            }
            if exists|i: int| 0 <= i < segs.len() && #[trigger] segs[i].name@ == n && segs[i].data@.len() > 0 {
                let i = choose|i: int| 0 <= i < segs.len() && #[trigger] segs[i].name@ == n && segs[i].data@.len() > 0;
                if i < k {
                    assert(prev[i] == segs[i]);
                    assert(dir_of(prev).contains_key(n));
                }
            }
        }
        assert forall|i: int| 0 <= i < segs.len() && segs[i].data@.len() > 0 implies #[trigger] dir_of(segs)[segs[i].name@] == segs[i].data@ by {
            if i < k {
                assert(prev[i] == segs[i]);
                assert(dir_of(prev)[prev[i].name@] == prev[i].data@);
                if segs.last().data@.len() > 0 {
                    lemma_names_distinct(segs, i, k);
                }
            }
        }
    }
}

/// The bytes of file `n` in `d`; nothing if absent.
pub open spec fn file_bytes(d: Map<Seq<char>, Seq<u8>>, n: Seq<char>) -> Seq<u8> {
    if d.contains_key(n) {
        d[n]
    } else {
        seq![]
    }
}

/// The directory after one file change.
pub open spec fn apply_disk_op(d: Map<Seq<char>, Seq<u8>>, op: DiskOp) -> Map<Seq<char>, Seq<u8>> {
    match op {
        DiskOp::Append { name, bytes } => d.insert(name@, file_bytes(d, name@) + bytes@),
        DiskOp::Delete { name } => d.remove(name@),
    }
}

/// The directory after the file changes `ops`, in order.
pub open spec fn apply_disk_ops(d: Map<Seq<char>, Seq<u8>>, ops: Seq<DiskOp>) -> Map<Seq<char>, Seq<u8>>
    decreases ops.len(),
{
    if ops.len() == 0 {
        d
    } else {
        apply_disk_op(apply_disk_ops(d, ops.drop_last()), ops.last())
    }
}

pub(crate) proof fn lemma_names_distinct(segs: Seq<Segment>, i: int, j: int)
    requires
        names_increasing(segs),
        0 <= i < segs.len(),
        0 <= j < segs.len(),
        i != j,
    ensures
        segs[i].name@ != segs[j].name@,
{
    if i < j {
        assert(lex_lt(encode_utf8(segs[i].name@), encode_utf8(segs[j].name@)));
    } else {
        assert(lex_lt(encode_utf8(segs[j].name@), encode_utf8(segs[i].name@)));
    }
    lemma_lex_lt_irreflexive(encode_utf8(segs[i].name@));
}

/// Appending bytes to one segment appends them to its file.
pub(crate) proof fn lemma_dir_append(segs: Seq<Segment>, k: int, seg: Segment, x: Seq<u8>)
    requires
        names_increasing(segs),
        0 <= k < segs.len(),
        seg.name@ == segs[k].name@,
        seg.data@ == segs[k].data@ + x,
        x.len() > 0,
    ensures
        dir_of(segs.update(k, seg)) == dir_of(segs).insert(
            segs[k].name@,
            file_bytes(dir_of(segs), segs[k].name@) + x,
        ),
{
    let s2 = segs.update(k, seg);
    assert forall|i: int, j: int| 0 <= i < j < s2.len() implies lex_lt(
        encode_utf8(#[trigger] s2[i].name@),
        encode_utf8(#[trigger] s2[j].name@),
    ) by {
        assert(s2[i].name@ == segs[i].name@ && s2[j].name@ == segs[j].name@);
    }
    lemma_dir_of(segs);
    lemma_dir_of(s2);
    let nk = segs[k].name@;
    let d = dir_of(segs);
    let d2 = dir_of(s2);
    let t = d.insert(nk, file_bytes(d, nk) + x);
    assert(s2[k].name@ == nk && s2[k].data@.len() > 0);
    assert forall|n: Seq<char>| d2.contains_key(n) <==> t.contains_key(n) by {
        if n != nk {
            if d2.contains_key(n) {
                let i = choose|i: int| 0 <= i < s2.len() && #[trigger] s2[i].name@ == n && s2[i].data@.len() > 0;
                assert(segs[i].name@ == n);
            }
            if d.contains_key(n) {
                let i = choose|i: int| 0 <= i < segs.len() && #[trigger] segs[i].name@ == n && segs[i].data@.len() > 0;
                assert(i != k);
                assert(s2[i].name@ == n);
            }
        }
    }
    assert forall|n: Seq<char>| d2.contains_key(n) implies d2[n] == t[n] by {
        let i = choose|i: int| 0 <= i < s2.len() && #[trigger] s2[i].name@ == n && s2[i].data@.len() > 0;
        assert(d2[s2[i].name@] == s2[i].data@);
        if n == nk {
            if i != k {
                lemma_names_distinct(segs, i, k);
            }
            if segs[k].data@.len() > 0 {
                assert(d[segs[k].name@] == segs[k].data@);
            } else {
                if d.contains_key(nk) {
                    let j = choose|j: int| 0 <= j < segs.len() && #[trigger] segs[j].name@ == nk && segs[j].data@.len() > 0;
                    lemma_names_distinct(segs, j, k);
                }
                assert(segs[k].data@ =~= seq![]);
                assert(seg.data@ =~= x);
            }
        } else {
            assert(i != k);
            assert(segs[i] == s2[i]);
            assert(d[segs[i].name@] == segs[i].data@);
        }
    }
    assert(d2 =~= t);
}

/// A new empty segment adds no file.
pub(crate) proof fn lemma_dir_push_empty(segs: Seq<Segment>, seg: Segment)
    requires
        seg.data@.len() == 0,
    ensures
        dir_of(segs.push(seg)) == dir_of(segs),
{
    assert(segs.push(seg).drop_last() =~= segs);
}

pub(crate) proof fn lemma_disk_ops_push(d: Map<Seq<char>, Seq<u8>>, ops: Seq<DiskOp>, op: DiskOp)
    ensures
        apply_disk_ops(d, ops.push(op)) == apply_disk_op(apply_disk_ops(d, ops), op),
{
    assert(ops.push(op).drop_last() =~= ops);
}

pub(crate) proof fn lemma_disk_ops_concat(d: Map<Seq<char>, Seq<u8>>, a: Seq<DiskOp>, b: Seq<DiskOp>)
    ensures
        apply_disk_ops(d, a + b) == apply_disk_ops(apply_disk_ops(d, a), b),
    decreases b.len(),
{
    if b.len() == 0 {
        assert(a + b =~= a);
    } else {
        lemma_disk_ops_concat(d, a, b.drop_last());
        assert((a + b).drop_last() =~= a + b.drop_last());
        assert((a + b).last() == b.last());
    }
}

/// Appends to files outside `base` leave the files of `base` alone.
pub(crate) proof fn lemma_disk_ops_beside(base: Map<Seq<char>, Seq<u8>>, ops: Seq<DiskOp>)
    requires
        forall|t: int| 0 <= t < ops.len() ==> (#[trigger] ops[t] matches DiskOp::Append { name, .. } && !base.contains_key(name@)),
    ensures
        apply_disk_ops(base, ops) == base.union_prefer_right(apply_disk_ops(Map::empty(), ops)),
    decreases ops.len(),
{
    if ops.len() == 0 {
        assert(base =~= base.union_prefer_right(Map::empty()));
    } else {
        let prev = ops.drop_last();
        assert forall|t: int| 0 <= t < prev.len() implies (#[trigger] prev[t] matches DiskOp::Append { name, .. } && !base.contains_key(name@)) by {
            assert(prev[t] == ops[t]);
        }
        lemma_disk_ops_beside(base, prev);
        let op = ops.last();
        assert(ops[ops.len() - 1] == op);
        let inner = apply_disk_ops(Map::empty(), prev);
        match op {
            DiskOp::Append { name, bytes } => {
                assert(file_bytes(base.union_prefer_right(inner), name@) == file_bytes(inner, name@));
                assert(apply_disk_ops(base, ops) =~= base.union_prefer_right(apply_disk_ops(Map::empty(), ops)));
            },
            DiskOp::Delete { .. } => {},
        }
    }
}

/// Deleting the files `names` one after another.
pub(crate) proof fn lemma_disk_deletes(d: Map<Seq<char>, Seq<u8>>, ops: Seq<DiskOp>, names: Seq<Seq<char>>)
    requires
        ops.len() == names.len(),
        forall|t: int| 0 <= t < ops.len() ==> is_delete(#[trigger] ops[t], names[t]),
    ensures
        forall|n: Seq<char>| #[trigger] apply_disk_ops(d, ops).contains_key(n) <==> d.contains_key(n) && !names.contains(n),
        forall|n: Seq<char>| #[trigger] apply_disk_ops(d, ops).contains_key(n) ==> apply_disk_ops(d, ops)[n] == d[n],
    decreases ops.len(),
{
    if ops.len() > 0 {
        let k = ops.len() - 1;
        let pn = names.drop_last();
        assert forall|t: int| 0 <= t < k implies is_delete(#[trigger] ops.drop_last()[t], pn[t]) by {
            assert(ops.drop_last()[t] == ops[t]);
        }
        lemma_disk_deletes(d, ops.drop_last(), pn);
        let prev = apply_disk_ops(d, ops.drop_last());
        assert(is_delete(ops[k], names[k]));
        assert(apply_disk_ops(d, ops) == prev.remove(names[k]));
        assert forall|n: Seq<char>| #[trigger] apply_disk_ops(d, ops).contains_key(n) <==> d.contains_key(n) && !names.contains(n) by {
            assert(prev.contains_key(n) <==> d.contains_key(n) && !pn.contains(n));
            if names.contains(n) && n != names[k] {
                let t = choose|t: int| 0 <= t < names.len() && names[t] == n;
                assert(pn[t] == n);
            }
            if pn.contains(n) {
                let t = choose|t: int| 0 <= t < pn.len() && pn[t] == n;
                assert(names[t] == n);
            }
            if n == names[k] {
                assert(names.contains(n));
            }
        }
        assert forall|n: Seq<char>| #[trigger] apply_disk_ops(d, ops).contains_key(n) implies apply_disk_ops(d, ops)[n] == d[n] by {
            assert(prev.contains_key(n));
        }
    }
}

} // verus!
