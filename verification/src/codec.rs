//! The record codec: one record per newline-terminated line.
//!
//! A `Set` record for key `k` and value `v` is the line `S k v\n`; a
//! `Delete` record is `D k\n`.  Inside a field, the characters that the
//! framing relies on are escaped: `\` as `\\`, newline as `\n`, and space as
//! `\s`.  A field therefore never holds a raw space or newline, every line
//! holds exactly one newline (its last character), and decoding is the exact
//! inverse of encoding.

use vstd::prelude::*;

use crate::errors::KvsError;
use crate::record::{delete_record, set_record, Operation, Record, RecordView};

verus! {

/// The escaping of one field character.
pub open spec fn esc_char(c: char) -> Seq<char> {
    if c == '\\' {
        seq!['\\', '\\']
    } else if c == '\n' {
        seq!['\\', 'n']
    } else if c == ' ' {
        seq!['\\', 's']
    } else {
        seq![c]
    }
}

/// The escaping of a whole field.
pub open spec fn esc(s: Seq<char>) -> Seq<char>
    decreases s.len(),
{
    if s.len() == 0 {
        Seq::empty()
    } else {
        esc_char(s[0]) + esc(s.drop_first())
    }
}

/// The character that an escape pair `\x` stands for, if `x` is a valid
/// escape.
pub open spec fn unesc_char(c: char) -> Option<char> {
    if c == '\\' {
        Some('\\')
    } else if c == 'n' {
        Some('\n')
    } else if c == 's' {
        Some(' ')
    } else {
        None
    }
}

/// The inverse of [`esc`]: `None` when the field is malformed (a truncated
/// or unknown escape pair, or a raw space or newline).
pub open spec fn unesc(s: Seq<char>) -> Option<Seq<char>>
    decreases s.len(),
{
    if s.len() == 0 {
        Some(Seq::empty())
    } else if s[0] == '\\' {
        if s.len() >= 2 {
            match unesc_char(s[1]) {
                Some(c) => match unesc(s.skip(2)) {
                    Some(r) => Some(seq![c] + r),
                    None => None,
                },
                None => None,
            }
        } else {
            None
        }
    } else if s[0] == '\n' || s[0] == ' ' {
        None
    } else {
        match unesc(s.skip(1)) {
            Some(r) => Some(seq![s[0]] + r),
            None => None,
        }
    }
}

/// The position of the first occurrence of `c` in `s` at or after `i`.
pub open spec fn find_from(s: Seq<char>, c: char, i: int) -> Option<int>
    decreases s.len() - i,
{
    if i < 0 || i >= s.len() {
        None
    } else if s[i] == c {
        Some(i)
    } else {
        find_from(s, c, i + 1)
    }
}

/// The line encoding a record, trailing newline included.
pub open spec fn encode_spec(r: RecordView) -> Seq<char>
    recommends
        r.wf(),
{
    match r.value {
        Some(v) => seq!['S', ' '] + esc(r.key) + seq![' '] + esc(v) + seq!['\n'],
        None => seq!['D', ' '] + esc(r.key) + seq!['\n'],
    }
}

/// The record encoded by a line, trailing newline included; `None` when the
/// line is not the encoding of any valid record.
pub open spec fn decode_spec(line: Seq<char>) -> Option<RecordView> {
    if line.len() < 3 || line.last() != '\n' || line[1] != ' ' {
        None
    } else if line[0] == 'S' {
        let body = line.subrange(2, line.len() - 1);
        match find_from(body, ' ', 0) {
            None => None,
            Some(sep) => match unesc(body.take(sep)) {
                None => None,
                Some(k) => if k.len() == 0 {
                    None
                } else {
                    match unesc(body.skip(sep + 1)) {
                        None => None,
                        Some(v) => Some(set_record(k, v)),
                    }
                },
            },
        }
    } else if line[0] == 'D' {
        let body = line.subrange(2, line.len() - 1);
        match unesc(body) {
            None => None,
            Some(k) => if k.len() == 0 {
                None
            } else {
                Some(delete_record(k))
            },
        }
    } else {
        None
    }
}

/// An escaped field never holds a raw space or newline.
pub proof fn lemma_esc_no_special(s: Seq<char>)
    ensures
        forall|i: int| 0 <= i < esc(s).len() ==> esc(s)[i] != ' ' && esc(s)[i] != '\n',
    decreases s.len(),
{
    if s.len() > 0 {
        lemma_esc_no_special(s.drop_first());
        let e0 = esc_char(s[0]);
        let er = esc(s.drop_first());
        assert(esc(s) == e0 + er);
        assert forall|i: int| 0 <= i < esc(s).len() implies esc(s)[i] != ' ' && esc(s)[i]
            != '\n' by {
            if i < e0.len() {
                assert(esc(s)[i] == e0[i]);
            } else {
                assert(esc(s)[i] == er[i - e0.len()]);
            }
        }
    }
}

/// Escaping commutes with appending one character.
pub proof fn lemma_esc_push(s: Seq<char>, c: char)
    ensures
        esc(s.push(c)) == esc(s) + esc_char(c),
    decreases s.len(),
{
    let t = s.push(c);
    if s.len() == 0 {
        assert(t.drop_first() =~= Seq::<char>::empty());
        assert(esc(t) == esc_char(c) + esc(Seq::<char>::empty()));
        assert(esc(Seq::<char>::empty()) == Seq::<char>::empty());
        assert(esc(t) =~= esc(s) + esc_char(c));
    } else {
        assert(t.len() > 0 && t[0] == s[0]);
        assert(t.drop_first() =~= s.drop_first().push(c));
        assert(esc(t) == esc_char(t[0]) + esc(t.drop_first()));
        lemma_esc_push(s.drop_first(), c);
        assert(esc(s) == esc_char(s[0]) + esc(s.drop_first()));
        assert(esc(t) =~= esc(s) + esc_char(c));
    }
}

/// Unescaping inverts escaping.
pub proof fn lemma_unesc_esc(s: Seq<char>)
    ensures
        unesc(esc(s)) == Some(s),
    decreases s.len(),
{
    if s.len() == 0 {
    } else {
        let rest = s.drop_first();
        lemma_unesc_esc(rest);
        let t = esc(s);
        assert(t == esc_char(s[0]) + esc(rest));
        if s[0] == '\\' || s[0] == '\n' || s[0] == ' ' {
            assert(t.len() >= 2);
            assert(t[0] == '\\');
            assert(unesc_char(t[1]) == Some(s[0]));
            assert(t.skip(2) =~= esc(rest));
            assert(unesc(t) == Some(seq![s[0]] + rest));
        } else {
            assert(t[0] == s[0]);
            assert(t.skip(1) =~= esc(rest));
            assert(unesc(t) == Some(seq![s[0]] + rest));
        }
        assert(seq![s[0]] + rest =~= s);
    }
}

/// Where the first occurrence of `c` is known, `find_from` returns it.
pub proof fn lemma_find_from_exact(s: Seq<char>, c: char, i: int, n: int)
    requires
        0 <= i <= n < s.len(),
        s[n] == c,
        forall|j: int| i <= j < n ==> s[j] != c,
    ensures
        find_from(s, c, i) == Some(n),
    decreases n - i,
{
    if i < n {
        lemma_find_from_exact(s, c, i + 1, n);
    }
}

/// Where `c` does not occur at or after `i`, `find_from` fails.
pub proof fn lemma_find_from_none(s: Seq<char>, c: char, i: int)
    requires
        forall|j: int| i <= j < s.len() ==> s[j] != c,
    ensures
        find_from(s, c, i) is None,
    decreases s.len() - i,
{
    if 0 <= i < s.len() {
        lemma_find_from_none(s, c, i + 1);
    }
}

/// A found position lies in range, holds `c`, and is the first such.
pub proof fn lemma_find_from_range(s: Seq<char>, c: char, i: int)
    requires
        find_from(s, c, i) is Some,
    ensures
        ({
            let n = find_from(s, c, i)->Some_0;
            i <= n < s.len() && s[n] == c && forall|j: int| i <= j < n ==> s[j] != c
        }),
    decreases s.len() - i,
{
    if 0 <= i < s.len() && s[i] != c {
        lemma_find_from_range(s, c, i + 1);
    }
}

/// Round trip: decoding the encoding of a valid record gives the record
/// back.
pub proof fn lemma_decode_encode(r: RecordView)
    requires
        r.wf(),
    ensures
        decode_spec(encode_spec(r)) == Some(r),
{
    let line = encode_spec(r);
    lemma_esc_no_special(r.key);
    lemma_unesc_esc(r.key);
    match r.value {
        Some(v) => {
            lemma_esc_no_special(v);
            lemma_unesc_esc(v);
            let ek = esc(r.key);
            let ev = esc(v);
            assert(line.len() == 4 + ek.len() + ev.len());
            assert(line.last() == '\n');
            assert(line[0] == 'S');
            assert(line[1] == ' ');
            let body = line.subrange(2, line.len() - 1);
            assert(body =~= ek + seq![' '] + ev);
            assert(body[ek.len() as int] == ' ');
            assert(forall|j: int| 0 <= j < ek.len() ==> body[j] == ek[j] && body[j] != ' ');
            lemma_find_from_exact(body, ' ', 0, ek.len() as int);
            assert(body.take(ek.len() as int) =~= ek);
            assert(body.skip(ek.len() as int + 1) =~= ev);
            assert(decode_spec(line) == Some(set_record(r.key, v)));
        },
        None => {
            let ek = esc(r.key);
            assert(line.len() == 3 + ek.len());
            assert(line.last() == '\n');
            assert(line[0] == 'D');
            assert(line[1] == ' ');
            let body = line.subrange(2, line.len() - 1);
            assert(body =~= ek);
            assert(decode_spec(line) == Some(delete_record(r.key)));
        },
    }
}

/// Escaping is canonical: a field that unescapes is the escaping of its
/// unescaping.
pub proof fn lemma_esc_unesc(f: Seq<char>)
    requires
        unesc(f) is Some,
    ensures
        esc(unesc(f)->Some_0) == f,
    decreases f.len(),
{
    if f.len() == 0 {
        assert(esc(unesc(f)->Some_0) =~= f);
    } else if f[0] == '\\' {
        let c = unesc_char(f[1])->Some_0;
        let rest = unesc(f.skip(2))->Some_0;
        lemma_esc_unesc(f.skip(2));
        let s = seq![c] + rest;
        assert(unesc(f) == Some(s));
        assert(s.drop_first() =~= rest);
        assert(esc(s) == esc_char(c) + esc(rest));
        assert(esc_char(c) =~= seq![f[0], f[1]]);
        assert(esc(s) =~= f);
    } else {
        let rest = unesc(f.skip(1))->Some_0;
        lemma_esc_unesc(f.skip(1));
        let s = seq![f[0]] + rest;
        assert(unesc(f) == Some(s));
        assert(s.drop_first() =~= rest);
        assert(esc(s) == esc_char(f[0]) + esc(rest));
        assert(esc_char(f[0]) =~= seq![f[0]]);
        assert(esc(s) =~= f);
    }
}

/// The encoding is canonical: a line that decodes is the encoding of the
/// record it decodes to.  Together with [`lemma_decode_encode`] the codec is
/// a bijection between valid records and well-formed lines.
pub proof fn lemma_encode_decode(line: Seq<char>)
    requires
        decode_spec(line) is Some,
    ensures
        encode_spec(decode_spec(line)->Some_0) == line,
{
    let body = line.subrange(2, line.len() - 1);
    if line[0] == 'S' {
        let sep = find_from(body, ' ', 0)->Some_0;
        lemma_find_from_range(body, ' ', 0);
        let kf = body.take(sep);
        let vf = body.skip(sep + 1);
        let k = unesc(kf)->Some_0;
        let v = unesc(vf)->Some_0;
        lemma_esc_unesc(kf);
        lemma_esc_unesc(vf);
        assert(decode_spec(line) == Some(set_record(k, v)));
        assert(body =~= kf + seq![' '] + vf);
        assert(encode_spec(set_record(k, v)) =~= line);
    } else {
        let k = unesc(body)->Some_0;
        lemma_esc_unesc(body);
        assert(decode_spec(line) == Some(delete_record(k)));
        assert(encode_spec(delete_record(k)) =~= line);
    }
}

/// Relies on `String::push`, which appends the given character to the end
/// of the string.
#[verifier::external_body]
fn push_char(s: &mut String, c: char)
    ensures
        final(s)@ == old(s)@.push(c),
{
    s.push(c);
}

/// Appends the escaping of `s` to `out`.
fn escape_into(out: &mut Vec<char>, s: &str)
    ensures
        final(out)@ == old(out)@ + esc(s@),
{
    let n = s.unicode_len();
    let mut i: usize = 0;
    while i < n
        invariant
            i <= n,
            n == s@.len(),
            out@ == old(out)@ + esc(s@.take(i as int)),
        decreases n - i,
    {
        let c = s.get_char(i);
        proof {
            lemma_esc_push(s@.take(i as int), c);
            assert(s@.take(i as int + 1) =~= s@.take(i as int).push(c));
        }
        if c == '\\' {
            out.push('\\');
            out.push('\\');
        } else if c == '\n' {
            out.push('\\');
            out.push('n');
        } else if c == ' ' {
            out.push('\\');
            out.push('s');
        } else {
            out.push(c);
        }
        proof {
            assert(out@ =~= old(out)@ + esc(s@.take(i as int + 1)));
        }
        i = i + 1;
    }
    proof {
        assert(s@.take(n as int) =~= s@);
    }
}

/// Serializes one record as its log line, trailing newline included.
pub fn encode(r: &Record) -> (out: Vec<char>)
    requires
        r@.wf(),
    ensures
        out@ == encode_spec(r@),
{
    let mut out: Vec<char> = Vec::new();
    match &r.value {
        Some(v) => {
            out.push('S');
            out.push(' ');
            escape_into(&mut out, r.key.as_str());
            out.push(' ');
            escape_into(&mut out, v.as_str());
            out.push('\n');
        },
        None => {
            out.push('D');
            out.push(' ');
            escape_into(&mut out, r.key.as_str());
            out.push('\n');
        },
    }
    proof {
        assert(out@ =~= encode_spec(r@));
    }
    out
}

/// Unescapes the field `line[lo..hi]`; `None` when the field is malformed.
fn unescape_range(line: &Vec<char>, lo: usize, hi: usize) -> (r: Option<String>)
    requires
        lo <= hi <= line@.len(),
    ensures
        match r {
            Some(s) => unesc(line@.subrange(lo as int, hi as int)) == Some(s@),
            None => unesc(line@.subrange(lo as int, hi as int)) is None,
        },
{
    let ghost field = line@.subrange(lo as int, hi as int);
    let mut out = String::new();
    let mut i: usize = lo;
    proof {
        assert(field.skip(0) =~= field);
        match unesc(field) {
            Some(rest) => {
                assert(Seq::<char>::empty() + rest =~= rest);
            },
            None => {},
        }
    }
    while i < hi
        invariant
            lo <= i <= hi <= line@.len(),
            field == line@.subrange(lo as int, hi as int),
            unesc(field) == match unesc(field.skip(i - lo)) {
                Some(rest) => Some(out@ + rest),
                None => None::<Seq<char>>,
            },
        decreases hi - i,
    {
        let ghost j = i - lo;
        proof {
            assert(field.skip(j).len() == hi - i);
            assert(field.skip(j)[0] == line@[i as int]);
        }
        let c = line[i];
        if c == '\\' {
            if i + 1 >= hi {
                proof {
                    assert(unesc(field.skip(j)) is None);
                }
                return None;
            }
            proof {
                assert(field.skip(j)[1] == line@[i + 1]);
                assert(field.skip(j).skip(2) =~= field.skip(j + 2));
            }
            let c2 = line[i + 1];
            let u = if c2 == '\\' {
                Some('\\')
            } else if c2 == 'n' {
                Some('\n')
            } else if c2 == 's' {
                Some(' ')
            } else {
                None
            };
            match u {
                Some(cu) => {
                    let ghost out_pre = out@;
                    push_char(&mut out, cu);
                    proof {
                        assert(unesc_char(line@[i + 1]) == Some(cu));
                        match unesc(field.skip(j + 2)) {
                            Some(rest) => {
                                assert(unesc(field.skip(j)) == Some(seq![cu] + rest));
                                assert(out_pre.push(cu) + rest =~= out_pre + (seq![cu]
                                    + rest));
                            },
                            None => {
                                assert(unesc(field.skip(j)) is None);
                            },
                        }
                    }
                    i = i + 2;
                },
                None => {
                    proof {
                        assert(unesc(field.skip(j)) is None);
                    }
                    return None;
                },
            }
        } else if c == '\n' || c == ' ' {
            proof {
                assert(unesc(field.skip(j)) is None);
            }
            return None;
        } else {
            proof {
                assert(field.skip(j).skip(1) =~= field.skip(j + 1));
            }
            let ghost out_pre = out@;
            push_char(&mut out, c);
            proof {
                match unesc(field.skip(j + 1)) {
                    Some(rest) => {
                        assert(unesc(field.skip(j)) == Some(seq![c] + rest));
                        assert(out_pre.push(c) + rest =~= out_pre + (seq![c] + rest));
                    },
                    None => {
                        assert(unesc(field.skip(j)) is None);
                    },
                }
            }
            i = i + 1;
        }
    }
    proof {
        assert(field.skip(hi - lo) =~= Seq::<char>::empty());
        assert(unesc(field) == Some(out@));
    }
    Some(out)
}

/// Deserializes one log line (trailing newline included) back into a
/// record.  Fails with `CorruptRecord` exactly when the line is not the
/// encoding of any valid record.
pub fn decode(line: &Vec<char>) -> (r: Result<Record, KvsError>)
    ensures
        match r {
            Ok(rec) => decode_spec(line@) == Some(rec@) && rec@.wf(),
            Err(e) => e == KvsError::CorruptRecord && decode_spec(line@) is None,
        },
{
    let n = line.len();
    if n < 3 {
        return Err(KvsError::CorruptRecord);
    }
    if line[n - 1] != '\n' || line[1] != ' ' {
        return Err(KvsError::CorruptRecord);
    }
    let tag = line[0];
    let ghost body = line@.subrange(2, n as int - 1);
    if tag == 'S' {
        let mut sep: usize = 2;
        while sep < n - 1 && line[sep] != ' '
            invariant
                2 <= sep <= n - 1,
                3 <= n == line@.len(),
                forall|j: int| 2 <= j < sep ==> line@[j] != ' ',
            decreases n - 1 - sep,
        {
            sep = sep + 1;
        }
        if sep == n - 1 {
            proof {
                assert(forall|j: int| 0 <= j < body.len() ==> body[j] == line@[2 + j]);
                lemma_find_from_none(body, ' ', 0);
            }
            return Err(KvsError::CorruptRecord);
        }
        proof {
            assert(body[sep - 2] == line@[sep as int] == ' ');
            assert(forall|j: int| 0 <= j < sep - 2 ==> body[j] == line@[2 + j] && body[j]
                != ' ');
            lemma_find_from_exact(body, ' ', 0, sep - 2);
            assert(body.take(sep - 2) =~= line@.subrange(2, sep as int));
            assert(body.skip(sep - 2 + 1) =~= line@.subrange(sep as int + 1, n as int - 1));
        }
        let key = match unescape_range(line, 2, sep) {
            Some(k) => k,
            None => {
                return Err(KvsError::CorruptRecord);
            },
        };
        if key.as_str().is_empty() {
            return Err(KvsError::CorruptRecord);
        }
        let value = match unescape_range(line, sep + 1, n - 1) {
            Some(v) => v,
            None => {
                return Err(KvsError::CorruptRecord);
            },
        };
        Ok(Record { key, value: Some(value), op: Operation::Insert })
    } else if tag == 'D' {
        let key = match unescape_range(line, 2, n - 1) {
            Some(k) => k,
            None => {
                return Err(KvsError::CorruptRecord);
            },
        };
        if key.as_str().is_empty() {
            return Err(KvsError::CorruptRecord);
        }
        Ok(Record { key, value: None, op: Operation::Delete })
    } else {
        Err(KvsError::CorruptRecord)
    }
}

/// The position of the first newline in `v` at or after `from`.
pub fn find_newline(v: &Vec<char>, from: usize) -> (r: Option<usize>)
    ensures
        match r {
            Some(e) => find_from(v@, '\n', from as int) == Some(e as int) && from <= e
                < v@.len(),
            None => find_from(v@, '\n', from as int) is None,
        },
{
    let n = v.len();
    if from >= n {
        return None;
    }
    let mut e = from;
    while e < n && v[e] != '\n'
        invariant
            from <= e <= n == v@.len(),
            forall|j: int| from <= j < e ==> v@[j] != '\n',
        decreases n - e,
    {
        e = e + 1;
    }
    if e == n {
        proof {
            lemma_find_from_none(v@, '\n', from as int);
        }
        None
    } else {
        proof {
            lemma_find_from_exact(v@, '\n', from as int, e as int);
        }
        Some(e)
    }
}

/// Copies `v[lo..hi]` out into a fresh vector.
pub fn copy_range(v: &Vec<char>, lo: usize, hi: usize) -> (out: Vec<char>)
    requires
        lo <= hi <= v@.len(),
    ensures
        out@ == v@.subrange(lo as int, hi as int),
{
    let mut out: Vec<char> = Vec::new();
    let mut i = lo;
    while i < hi
        invariant
            lo <= i <= hi <= v@.len(),
            out@ == v@.subrange(lo as int, i as int),
        decreases hi - i,
    {
        out.push(v[i]);
        proof {
            assert(v@.subrange(lo as int, i as int).push(v@[i as int]) =~= v@.subrange(
                lo as int,
                i as int + 1,
            ));
        }
        i = i + 1;
    }
    out
}

/// A decoded record is always valid.
pub proof fn lemma_decode_wf(line: Seq<char>)
    requires
        decode_spec(line) is Some,
    ensures
        decode_spec(line)->Some_0.wf(),
{
}

/// An encoded line holds exactly one newline: its last character.
pub proof fn lemma_encode_newline_at_end(r: RecordView)
    ensures
        encode_spec(r).len() >= 3,
        encode_spec(r).last() == '\n',
        forall|i: int|
            0 <= i < encode_spec(r).len() - 1 ==> encode_spec(r)[i] != '\n',
{
    lemma_esc_no_special(r.key);
    match r.value {
        Some(v) => {
            lemma_esc_no_special(v);
        },
        None => {},
    }
}

} // verus!
