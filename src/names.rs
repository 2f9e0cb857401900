//! Segment names: their byte order, the choice of a new name, and the
//! `.log` suffix.
use vstd::prelude::*;
use vstd::utf8::decode_utf8;
use vstd::utf8::encode_utf8;

use crate::log::Segment;

verus! {

/// Relies on `uuid::Uuid::now_v7` and its `Display`: a fresh time-ordered
/// identifier in hyphenated form, 36 characters long.
#[verifier::external_body]
pub(crate) fn time_ordered_id() -> (r: String)
    ensures
        r@.len() == 36,
{
    uuid::Uuid::now_v7().to_string()
}

/// A new segment name: a time-ordered identifier followed by `.log`.
pub(crate) fn generate_log_file_name() -> (r: String)
    ensures
        r@.len() == 40,
        is_log_name(encode_utf8(r@)),
{
    let mut name = time_ordered_id();
    let ghost id = name@;
    name.append(".log");
    proof {
        reveal_strlit(".log");
        assert(".log"@.subrange(0, 4) =~= seq!['.', 'l', 'o', 'g']);
        lemma_log_suffix(id, ".log"@);
    }
    name
}

/// Text that ends in the four ASCII characters `.log` has a name that ends in
/// `.log`.
proof fn lemma_log_suffix(stem: Seq<char>, tail: Seq<char>)
    requires
        tail.len() >= 4,
        vstd::utf8::is_ascii_chars(tail),
        tail.subrange(tail.len() - 4, tail.len() as int) == seq!['.', 'l', 'o', 'g'],
    ensures
        is_log_name(encode_utf8(stem + tail)),
{
    lemma_encode_concat(stem, tail);
    vstd::utf8::is_ascii_chars_encode_utf8(tail);
    let a = encode_utf8(stem);
    let t = encode_utf8(tail);
    let b = a + t;
    let n = tail.len() as int;
    assert(tail[n - 4] == '.' && tail[n - 3] == 'l' && tail[n - 2] == 'o' && tail[n - 1] == 'g') by {
        assert(tail.subrange(n - 4, n)[0] == tail[n - 4]);
        assert(tail.subrange(n - 4, n)[1] == tail[n - 3]);
        assert(tail.subrange(n - 4, n)[2] == tail[n - 2]);
        assert(tail.subrange(n - 4, n)[3] == tail[n - 1]);
    }
    assert(t[n - 4] == tail[n - 4] as u8 && t[n - 3] == tail[n - 3] as u8 && t[n - 2] == tail[n - 2] as u8
        && t[n - 1] == tail[n - 1] as u8);
    assert(b.subrange(b.len() - 4, b.len() as int) =~= seq![46u8, 108u8, 111u8, 103u8]);
}

/// The UTF-8 bytes of a segment's name.
pub open spec fn name_bytes(s: Segment) -> Seq<u8> {
    encode_utf8(s.name@)
}

/// `a` sorts strictly before `b`, byte by byte, a proper prefix first.
pub open spec fn lex_lt(a: Seq<u8>, b: Seq<u8>) -> bool
    decreases a.len(),
{
    if a.len() == 0 {
        b.len() > 0
    } else if b.len() == 0 {
        false
    } else if a[0] != b[0] {
        a[0] < b[0]
    } else {
        lex_lt(a.drop_first(), b.drop_first())
    }
}

/// A name that ends in `.log`.
pub open spec fn is_log_name(b: Seq<u8>) -> bool {
    b.len() >= 4 && b.subrange(b.len() - 4, b.len() as int) == seq![46u8, 108u8, 111u8, 103u8]
}

/// Every name of `s` ends in `.log`.
pub open spec fn all_log_names(s: Seq<Segment>) -> bool {
    forall|i: int| 0 <= i < s.len() ==> is_log_name(name_bytes(#[trigger] s[i]))
}

/// The files of `s` whose names end in `.log`.
pub open spec fn log_files(s: Seq<Segment>) -> Seq<Segment>
    decreases s.len(),
{
    if s.len() == 0 {
        seq![]
    } else if is_log_name(name_bytes(s.last())) {
        log_files(s.drop_last()).push(s.last())
    } else {
        log_files(s.drop_last())
    }
}

/// Names in strictly increasing order: distinct, each sorting after those before.
pub open spec fn names_increasing(s: Seq<Segment>) -> bool {
    forall|i: int, j: int|
        0 <= i < j < s.len() ==> lex_lt(
            encode_utf8(#[trigger] s[i].name@),
            encode_utf8(#[trigger] s[j].name@),
        )
}

/// Files in non-decreasing order of name.
pub open spec fn sorted_by_name(s: Seq<Segment>) -> bool {
    forall|i: int, j: int| 0 <= i < j < s.len() ==> !lex_lt(name_bytes(#[trigger] s[j]), name_bytes(#[trigger] s[i]))
}

pub(crate) proof fn lemma_lex_lt_irreflexive(a: Seq<u8>)
    ensures
        !lex_lt(a, a),
    decreases a.len(),
{
    if a.len() > 0 {
        lemma_lex_lt_irreflexive(a.drop_first());
    }
}

pub(crate) proof fn lemma_lex_lt_transitive(a: Seq<u8>, b: Seq<u8>, c: Seq<u8>)
    requires
        lex_lt(a, b),
        lex_lt(b, c),
    ensures
        lex_lt(a, c),
    decreases a.len(),
{
    if a.len() > 0 && b.len() > 0 && c.len() > 0 && a[0] == b[0] && b[0] == c[0] {
        lemma_lex_lt_transitive(a.drop_first(), b.drop_first(), c.drop_first());
    }
}

/// Compares two byte strings in `lex_lt` order.
pub(crate) fn bytes_lt(a: &[u8], b: &[u8]) -> (r: bool)
    ensures
        r == lex_lt(a@, b@),
{
    let mut i: usize = 0;
    assert(a@.skip(0) =~= a@ && b@.skip(0) =~= b@);
    while i < a.len() && i < b.len()
        invariant
            i <= a@.len(),
            i <= b@.len(),
            lex_lt(a@, b@) == lex_lt(a@.skip(i as int), b@.skip(i as int)),
        decreases a@.len() - i,
    {
        let ghost sa = a@.skip(i as int);
        let ghost sb = b@.skip(i as int);
        assert(sa[0] == a@[i as int] && sb[0] == b@[i as int]);
        if a[i] != b[i] {
            return a[i] < b[i];
        }
        assert(sa.drop_first() =~= a@.skip(i + 1));
        assert(sb.drop_first() =~= b@.skip(i + 1));
        i = i + 1;
    }
    assert(a@.skip(i as int).len() == 0 || b@.skip(i as int).len() == 0);
    i == a.len() && i < b.len()
}

/// Whether a file name ends in `.log`.
pub(crate) fn has_log_suffix(name: &String) -> (r: bool)
    ensures
        r == is_log_name(encode_utf8(name@)),
{
    let b = name.as_str().as_bytes();
    let n = b.len();
    if n < 4 {
        return false;
    }
    let r = b[n - 4] == 46u8 && b[n - 3] == 108u8 && b[n - 2] == 111u8 && b[n - 1] == 103u8;
    assert(r == (b@.subrange(n - 4, n as int) =~= seq![46u8, 108u8, 111u8, 103u8]));
    r
}

/// `a` equals `b` or sorts before it.
pub open spec fn bytes_le(a: Seq<u8>, b: Seq<u8>) -> bool {
    a == b || lex_lt(a, b)
}

pub(crate) proof fn lemma_lex_total(a: Seq<u8>, b: Seq<u8>)
    ensures
        lex_lt(a, b) || a == b || lex_lt(b, a),
    decreases a.len(),
{
    if a.len() == 0 && b.len() == 0 {
        assert(a =~= b);
    } else if a.len() > 0 && b.len() > 0 && a[0] == b[0] {
        lemma_lex_total(a.drop_first(), b.drop_first());
        if a.drop_first() == b.drop_first() {
            assert(a.drop_first().len() == a.len() - 1);
            assert(b.drop_first().len() == b.len() - 1);
            assert(a.len() == b.len());
            assert forall|i: int| 0 <= i < a.len() implies a[i] == b[i] by {
                if i > 0 {
                    assert(a[i] == a.drop_first()[i - 1]);
                    assert(b[i] == b.drop_first()[i - 1]);
                }
            }
            assert(a =~= b);
        }
    }
}

/// A byte string sorts before any longer string that it begins.
pub(crate) proof fn lemma_lex_prefix(a: Seq<u8>, x: Seq<u8>)
    requires
        x.len() > 0,
    ensures
        lex_lt(a, a + x),
    decreases a.len(),
{
    if a.len() > 0 {
        assert((a + x)[0] == a[0]);
        assert((a + x).drop_first() =~= a.drop_first() + x);
        lemma_lex_prefix(a.drop_first(), x);
    }
}

/// Encoding text a piece at a time gives the encoding of the whole.
pub(crate) proof fn lemma_encode_concat(a: Seq<char>, b: Seq<char>)
    ensures
        encode_utf8(a + b) == encode_utf8(a) + encode_utf8(b),
    decreases a.len(),
{
    if a.len() == 0 {
        assert(a + b =~= b);
        assert(encode_utf8(a) =~= seq![]);
        assert(encode_utf8(a) + encode_utf8(b) =~= encode_utf8(b));
    } else {
        assert((a + b)[0] == a[0]);
        assert((a + b).drop_first() =~= a.drop_first() + b);
        lemma_encode_concat(a.drop_first(), b);
        assert(encode_utf8(a + b) =~= encode_utf8(a) + encode_utf8(b));
    }
}

/// Non-empty text encodes to non-empty bytes.
pub proof fn lemma_nonempty_text(t: Seq<char>)
    requires
        t.len() > 0,
    ensures
        encode_utf8(t).len() > 0,
{
    vstd::utf8::encode_utf8_decode_utf8(t);
    if encode_utf8(t).len() == 0 {
        assert(decode_utf8(encode_utf8(t)) =~= seq![]);
    }
}

/// A segment name that sorts after `floor`: a new time-ordered name where that
/// one does, else `floor` followed by `0.log`.
pub(crate) fn fresh_name(floor: &String) -> (r: String)
    ensures
        lex_lt(encode_utf8(floor@), encode_utf8(r@)),
        is_log_name(encode_utf8(r@)),
{
    let cand = generate_log_file_name();
    if bytes_lt(floor.as_str().as_bytes(), cand.as_str().as_bytes()) {
        cand
    } else {
        let mut name = floor.clone();
        name.append("0.log");
        proof {
            reveal_strlit("0.log");
            lemma_nonempty_text("0.log"@);
            lemma_encode_concat(floor@, "0.log"@);
            lemma_lex_prefix(encode_utf8(floor@), encode_utf8("0.log"@));
            assert("0.log"@.subrange(1, 5) =~= seq!['.', 'l', 'o', 'g']);
            lemma_log_suffix(floor@, "0.log"@);
        }
        name
    }
}

} // verus!
