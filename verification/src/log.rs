//! The model of the append log: the character sequence that a history of
//! records serializes to, and the parse that recovers the history from it.

use vstd::prelude::*;

use crate::codec::{
    decode_spec, encode_spec, find_from, lemma_decode_encode, lemma_encode_newline_at_end,
    lemma_find_from_exact,
};
use crate::record::RecordView;

verus! {

/// Every record of the history is valid.
pub open spec fn wf_history(h: Seq<RecordView>) -> bool {
    forall|i: int| 0 <= i < h.len() ==> h[i].wf()
}

/// The whole log serializing a history of records, in append order.
pub open spec fn log_of(h: Seq<RecordView>) -> Seq<char>
    decreases h.len(),
{
    if h.len() == 0 {
        Seq::empty()
    } else {
        log_of(h.drop_last()) + encode_spec(h.last())
    }
}

/// The records encoded in `s` from position `p` on: each line in turn, in
/// ascending offset order.  `None` when some line is truncated (no newline)
/// or fails to decode.
pub open spec fn parse_from(s: Seq<char>, p: int) -> Option<Seq<RecordView>>
    decreases s.len() - p,
{
    if p == s.len() {
        Some(Seq::empty())
    } else if !(0 <= p < s.len()) {
        None
    } else {
        match find_from(s, '\n', p) {
            None => None,
            Some(e) => if p <= e < s.len() {
                match decode_spec(s.subrange(p, e + 1)) {
                    None => None,
                    Some(r) => match parse_from(s, e + 1) {
                        None => None,
                        Some(rest) => Some(seq![r] + rest),
                    },
                }
            } else {
                None
            },
        }
    }
}

/// The records encoded in the whole of `s`.
pub open spec fn parse_log(s: Seq<char>) -> Option<Seq<RecordView>> {
    parse_from(s, 0)
}

/// The one newline-terminated line starting at position `p` of `s`; `None`
/// when no newline follows `p`.
pub open spec fn line_at(s: Seq<char>, p: int) -> Option<Seq<char>> {
    match find_from(s, '\n', p) {
        None => None,
        Some(e) => Some(s.subrange(p, e + 1)),
    }
}

/// The record stored at position `p` of `s`: the decoding of the line that
/// starts there.
pub open spec fn read_record_at(s: Seq<char>, p: int) -> Option<RecordView> {
    match line_at(s, p) {
        None => None,
        Some(l) => decode_spec(l),
    }
}

/// Appending one record to the history appends its line to the log.
pub proof fn lemma_log_of_push(h: Seq<RecordView>, r: RecordView)
    ensures
        log_of(h.push(r)) == log_of(h) + encode_spec(r),
{
    assert(h.push(r).drop_last() =~= h);
    assert(h.push(r).last() == r);
}

/// The log of a concatenated history is the concatenation of the logs.
pub proof fn lemma_log_of_concat(a: Seq<RecordView>, b: Seq<RecordView>)
    ensures
        log_of(a + b) == log_of(a) + log_of(b),
    decreases b.len(),
{
    if b.len() == 0 {
        assert(a + b =~= a);
        assert(log_of(a) + log_of(b) =~= log_of(a));
    } else {
        lemma_log_of_concat(a, b.drop_last());
        assert((a + b).drop_last() =~= a + b.drop_last());
        assert((a + b).last() == b.last());
        assert(log_of(a) + log_of(b.drop_last()) + encode_spec(b.last()) =~= log_of(a) + (
        log_of(b.drop_last()) + encode_spec(b.last())));
    }
}

/// A search that succeeds in `s` is unchanged by appending to `s`.
pub proof fn lemma_find_from_prefix(s: Seq<char>, t: Seq<char>, c: char, i: int)
    requires
        find_from(s, c, i) is Some,
    ensures
        find_from(s + t, c, i) == find_from(s, c, i),
    decreases s.len() - i,
{
    if 0 <= i < s.len() {
        assert((s + t)[i] == s[i]);
        if s[i] != c {
            lemma_find_from_prefix(s, t, c, i + 1);
        }
    }
}

/// In a log of the shape `a`, then the line of `r`, then anything, the
/// record read at offset `a.len()` is exactly `r`.
pub proof fn lemma_read_record_here(a: Seq<char>, r: RecordView, t: Seq<char>)
    requires
        r.wf(),
    ensures
        ({
            let s = a + encode_spec(r) + t;
            let enc = encode_spec(r);
            find_from(s, '\n', a.len() as int) == Some(a.len() + enc.len() - 1)
                && s.subrange(a.len() as int, a.len() + enc.len() as int) == enc && read_record_at(
                s,
                a.len() as int,
            ) == Some(r)
        }),
{
    let s = a + encode_spec(r) + t;
    let enc = encode_spec(r);
    lemma_encode_newline_at_end(r);
    assert(forall|j: int| 0 <= j < enc.len() ==> s[a.len() + j] == enc[j]);
    assert(s[a.len() + enc.len() - 1] == enc[enc.len() - 1] == '\n');
    assert(forall|j: int|
        a.len() <= j < a.len() + enc.len() - 1 ==> s[j] == enc[j - a.len()] && s[j] != '\n');
    lemma_find_from_exact(s, '\n', a.len() as int, a.len() + enc.len() - 1);
    assert(s.subrange(a.len() as int, a.len() + enc.len() as int) =~= enc);
    lemma_decode_encode(r);
}

/// The helper behind durability: parsing the log of `h` from the offset
/// where record `i` starts recovers exactly the records from `i` on.
proof fn lemma_parse_from_log_of(h: Seq<RecordView>, i: int)
    requires
        wf_history(h),
        0 <= i <= h.len(),
    ensures
        parse_from(log_of(h), log_of(h.take(i)).len() as int) == Some(h.skip(i)),
    decreases h.len() - i,
{
    let s = log_of(h);
    if i == h.len() {
        assert(h.take(i) =~= h);
        assert(h.skip(i) =~= Seq::<RecordView>::empty());
    } else {
        let r = h[i];
        let a = log_of(h.take(i));
        let enc = encode_spec(r);
        let tail = log_of(h.skip(i + 1));
        assert(h =~= h.take(i + 1) + h.skip(i + 1));
        lemma_log_of_concat(h.take(i + 1), h.skip(i + 1));
        assert(h.take(i + 1).drop_last() =~= h.take(i));
        assert(h.take(i + 1).last() == r);
        assert(log_of(h.take(i + 1)) == a + enc);
        assert(s == a + enc + tail);
        lemma_read_record_here(a, r, tail);
        let e = a.len() + enc.len() - 1;
        assert(decode_spec(s.subrange(a.len() as int, e + 1)) == Some(r));
        lemma_parse_from_log_of(h, i + 1);
        assert(log_of(h.take(i + 1)).len() == a.len() + enc.len() as int);
        assert(parse_from(s, e + 1) == Some(h.skip(i + 1)));
        assert(seq![r] + h.skip(i + 1) =~= h.skip(i));
    }
}

/// Durability: parsing the log that a history serialized to recovers the
/// history exactly; nothing set or removed is lost across a restart.
pub proof fn lemma_parse_log_of(h: Seq<RecordView>)
    requires
        wf_history(h),
    ensures
        parse_log(log_of(h)) == Some(h),
{
    assert(h.take(0) =~= Seq::<RecordView>::empty());
    lemma_parse_from_log_of(h, 0);
    assert(h.skip(0) =~= h);
}

} // verus!
