//! Command/response codec for the RESP2 wire format: an incremental decoder
//! from bytes to protocol values and commands, and the mirror encoder, both
//! against a specification of the grammar.

use vstd::prelude::*;

use crate::codecs::text::{
    i_repr, int_text_val, is_i64_text, is_utf8, parse_i64, render_i64, lemma_repr_round_trip,
};
use crate::codecs::DecodeError;

verus! {

/// A primitive protocol value.
#[derive(Debug, PartialEq, Eq)]
pub enum Value {
    SimpleString(Vec<u8>),
    Error(Vec<u8>),
    Integer(i64),
    BulkString(Vec<u8>),
    Array(Vec<Value>),
    Nil,
}

/// The ghost shape of a protocol value.
pub enum ValueModel {
    SimpleString(Seq<u8>),
    Error(Seq<u8>),
    Integer(i64),
    BulkString(Seq<u8>),
    Array(Seq<ValueModel>),
    Nil,
}

impl Value {
    /// The mathematical value of this protocol value.
    pub open spec fn model(self) -> ValueModel
        decreases self, 0int,
    {
        match self {
            Value::SimpleString(b) => ValueModel::SimpleString(b@),
            Value::Error(b) => ValueModel::Error(b@),
            Value::Integer(n) => ValueModel::Integer(n),
            Value::BulkString(b) => ValueModel::BulkString(b@),
            Value::Array(es) => ValueModel::Array(models(es, 0)),
            Value::Nil => ValueModel::Nil,
        }
    }
}

/// The models of the elements of `es` from index `i` on.
pub open spec fn models(es: Vec<Value>, i: int) -> Seq<ValueModel>
    decreases es, es@.len() - i + 1,
    via models_decreases
{
    if i < 0 || i >= es@.len() {
        Seq::empty()
    } else {
        seq![es@[i].model()] + models(es, i + 1)
    }
}

#[via_fn]
proof fn models_decreases(es: Vec<Value>, i: int) {
    if 0 <= i < es@.len() {
        vstd::std_specs::vec::axiom_vec_decreases_to_view(es);
        vstd::seq::axiom_seq_index_decreases(es@, i);
        assert(decreases_to!(es => es@));
        assert(decreases_to!(es@ => es@[i]));
    }
}

/// Whether `b` is free of the line terminators, as the payload of a simple
/// string or error line must be.
pub open spec fn line_safe(b: Seq<u8>) -> bool {
    forall|i: int| 0 <= i < b.len() ==> #[trigger] b[i] != 13 && b[i] != 10
}

/// A value that the encoder produces a faithful wire form for: line payloads
/// free of terminators, and lengths within the signed 64-bit range.
pub open spec fn wf_model(m: ValueModel) -> bool
    decreases m,
{
    match m {
        ValueModel::SimpleString(b) => line_safe(b),
        ValueModel::Error(b) => line_safe(b),
        ValueModel::Integer(_) => true,
        ValueModel::BulkString(b) => b.len() <= 0x7fff_ffff_ffff_ffff,
        ValueModel::Array(es) => es.len() <= 0x7fff_ffff_ffff_ffff && forall|i: int|
            0 <= i < es.len() ==> wf_model(#[trigger] es[i]),
        ValueModel::Nil => true,
    }
}

/// The wire encoding of a value.
pub open spec fn enc(m: ValueModel) -> Seq<u8>
    decreases m, 0int,
{
    match m {
        ValueModel::SimpleString(b) => seq![43u8] + b + seq![13u8, 10u8],
        ValueModel::Error(b) => seq![45u8] + b + seq![13u8, 10u8],
        ValueModel::Integer(n) => seq![58u8] + i_repr(n as int) + seq![13u8, 10u8],
        ValueModel::BulkString(b) => seq![36u8] + i_repr(b.len() as int) + seq![13u8, 10u8] + b
            + seq![13u8, 10u8],
        ValueModel::Array(es) => seq![42u8] + i_repr(es.len() as int) + seq![13u8, 10u8]
            + enc_elems(es, 0),
        ValueModel::Nil => seq![36u8, 45u8, 49u8, 13u8, 10u8],
    }
}

/// The concatenated encodings of the elements of `es` from index `i` on.
pub open spec fn enc_elems(es: Seq<ValueModel>, i: int) -> Seq<u8>
    decreases es, es.len() - i,
{
    if i < 0 || i >= es.len() {
        Seq::empty()
    } else {
        enc(es[i]) + enc_elems(es, i + 1)
    }
}

/// The position of the first carriage return or line feed in `s` at or after
/// `i`, if any.
pub open spec fn first_break(s: Seq<u8>, i: int) -> Option<int>
    decreases s.len() - i,
{
    if i < 0 || i >= s.len() {
        None
    } else if s[i] == 13 || s[i] == 10 {
        Some(i)
    } else {
        first_break(s, i + 1)
    }
}

/// What reading one terminator-delimited line from the front of `s` gives.
pub enum LineOutcome {
    /// No full line yet.
    Incomplete,
    /// A malformed terminator.
    Fail(DecodeError),
    /// A line ending at (exclusive) the given position, terminator included.
    Line(int),
}

/// Read one line from the front of `s`: bytes up to a carriage return and
/// line feed. A lone terminator byte at the very end of the buffer is not yet
/// an error; anything else out of place is.
pub open spec fn spec_line(s: Seq<u8>) -> LineOutcome {
    match first_break(s, 0) {
        None => LineOutcome::Incomplete,
        Some(p) => if p + 1 == s.len() {
            LineOutcome::Incomplete
        } else if s[p] != 13 {
            LineOutcome::Fail(DecodeError::UnexpectedByte(s[p]))
        } else if s[p + 1] != 10 {
            LineOutcome::Fail(DecodeError::UnexpectedByte(s[p + 1]))
        } else {
            LineOutcome::Line(p + 2)
        },
    }
}

/// A found break position lies within the buffer, at or after the start.
pub proof fn lemma_first_break_bounds(s: Seq<u8>, i: int)
    ensures
        first_break(s, i) matches Some(p) ==> i <= p < s.len() && (s[p] == 13 || s[p] == 10),
        first_break(s, i) matches Some(p) ==> forall|k: int| i <= k < p ==> #[trigger] s[k] != 13
            && s[k] != 10,
        first_break(s, i) is None && i >= 0 ==> forall|k: int|
            i <= k < s.len() ==> #[trigger] s[k] != 13 && s[k] != 10,
    decreases s.len() - i,
{
    if 0 <= i < s.len() && !(s[i] == 13 || s[i] == 10) {
        lemma_first_break_bounds(s, i + 1);
    }
}

/// A read line lies within the buffer and holds at least the terminator.
pub proof fn lemma_line_bounds(s: Seq<u8>)
    ensures
        spec_line(s) matches LineOutcome::Line(end) ==> 2 <= end <= s.len(),
{
    lemma_first_break_bounds(s, 0);
}

/// The value of an integer field of the wire format: the text must be UTF-8,
/// and then a decimal integer in the signed 64-bit range.
pub open spec fn spec_int_field(t: Seq<u8>) -> Result<i64, DecodeError> {
    if !is_utf8(t) {
        Err(DecodeError::InvalidString)
    } else if !is_i64_text(t) {
        Err(DecodeError::InvalidInteger)
    } else {
        Ok(int_text_val(t) as i64)
    }
}

/// What decoding one value from the front of a buffer gives.
pub enum ReadOutcome {
    /// A valid but incomplete prefix: wait for more bytes.
    Incomplete,
    /// Malformed bytes.
    Fail(DecodeError),
    /// One full value, and how many bytes of the buffer it took.
    Parsed(ValueModel, int),
}

/// What decoding a run of array elements gives.
pub enum ElemsOutcome {
    /// A valid but incomplete prefix.
    Incomplete,
    /// Malformed bytes.
    Fail(DecodeError),
    /// The elements, and how many bytes they took together.
    Done(Seq<ValueModel>, int),
}

/// Decode one value from the front of `s`.
pub open spec fn spec_read(s: Seq<u8>) -> ReadOutcome
    decreases s.len(), 0int,
    via spec_read_decreases
{
    if s.len() == 0 {
        ReadOutcome::Incomplete
    } else if s[0] == 43 || s[0] == 45 {
        match spec_line(s) {
            LineOutcome::Incomplete => ReadOutcome::Incomplete,
            LineOutcome::Fail(e) => ReadOutcome::Fail(e),
            LineOutcome::Line(end) => ReadOutcome::Parsed(
                if s[0] == 43 {
                    ValueModel::SimpleString(s.subrange(1, end - 2))
                } else {
                    ValueModel::Error(s.subrange(1, end - 2))
                },
                end,
            ),
        }
    } else if s[0] == 58 {
        match spec_line(s) {
            LineOutcome::Incomplete => ReadOutcome::Incomplete,
            LineOutcome::Fail(e) => ReadOutcome::Fail(e),
            LineOutcome::Line(end) => match spec_int_field(s.subrange(1, end - 2)) {
                Err(e) => ReadOutcome::Fail(e),
                Ok(v) => ReadOutcome::Parsed(ValueModel::Integer(v), end),
            },
        }
    } else if s[0] == 42 {
        match spec_line(s) {
            LineOutcome::Incomplete => ReadOutcome::Incomplete,
            LineOutcome::Fail(e) => ReadOutcome::Fail(e),
            LineOutcome::Line(end) => match spec_int_field(s.subrange(1, end - 2)) {
                Err(e) => ReadOutcome::Fail(e),
                Ok(v) => if v == -1 {
                    ReadOutcome::Parsed(ValueModel::Nil, end)
                } else if v < 0 {
                    ReadOutcome::Fail(DecodeError::InvalidLength)
                } else {
                    match spec_read_elems(s.skip(end), v as int) {
                        ElemsOutcome::Incomplete => ReadOutcome::Incomplete,
                        ElemsOutcome::Fail(e) => ReadOutcome::Fail(e),
                        ElemsOutcome::Done(ms, used) => ReadOutcome::Parsed(
                            ValueModel::Array(ms),
                            end + used,
                        ),
                    }
                },
            },
        }
    } else if s[0] == 36 {
        match spec_line(s) {
            LineOutcome::Incomplete => ReadOutcome::Incomplete,
            LineOutcome::Fail(e) => ReadOutcome::Fail(e),
            LineOutcome::Line(end) => match spec_int_field(s.subrange(1, end - 2)) {
                Err(e) => ReadOutcome::Fail(e),
                Ok(v) => if v == -1 {
                    ReadOutcome::Parsed(ValueModel::Nil, end)
                } else if v < 0 {
                    ReadOutcome::Fail(DecodeError::InvalidLength)
                } else if s.len() < end + v + 2 {
                    ReadOutcome::Incomplete
                } else if s[end + v] != 13 {
                    ReadOutcome::Fail(DecodeError::UnexpectedByte(s[end + v]))
                } else if s[end + v + 1] != 10 {
                    ReadOutcome::Fail(DecodeError::UnexpectedByte(s[end + v + 1]))
                } else {
                    ReadOutcome::Parsed(ValueModel::BulkString(s.subrange(end, end + v)), end + v
                        + 2)
                },
            },
        }
    } else {
        ReadOutcome::Fail(DecodeError::UnexpectedByte(s[0]))
    }
}

#[via_fn]
proof fn spec_read_decreases(s: Seq<u8>) {
    lemma_line_bounds(s);
}

/// Decode `count` values, one after the other, from the front of `s`.
pub open spec fn spec_read_elems(s: Seq<u8>, count: int) -> ElemsOutcome
    decreases s.len(), 1 + count,
{
    if count <= 0 {
        ElemsOutcome::Done(Seq::empty(), 0)
    } else {
        match spec_read(s) {
            ReadOutcome::Incomplete => ElemsOutcome::Incomplete,
            ReadOutcome::Fail(e) => ElemsOutcome::Fail(e),
            ReadOutcome::Parsed(m, n) => if n < 1 || n > s.len() {
                // Never reached: a parsed value takes at least one byte and
                // at most the whole buffer.
                ElemsOutcome::Incomplete
            } else {
                match spec_read_elems(s.skip(n), count - 1) {
                    ElemsOutcome::Incomplete => ElemsOutcome::Incomplete,
                    ElemsOutcome::Fail(e) => ElemsOutcome::Fail(e),
                    ElemsOutcome::Done(ms, used) => ElemsOutcome::Done(seq![m] + ms, n + used),
                }
            },
        }
    }
}

/// Find the end of the line that starts the buffer suffix at `pos`:
/// `Ok(Some(end))` with the absolute position just past the terminator,
/// `Ok(None)` when no full line has arrived yet.
fn find_line(buf: &[u8], pos: usize) -> (r: Result<Option<usize>, DecodeError>)
    requires
        pos <= buf@.len(),
    ensures
        match spec_line(buf@.skip(pos as int)) {
            LineOutcome::Incomplete => r == Ok::<Option<usize>, DecodeError>(None),
            LineOutcome::Fail(e) => r == Err::<Option<usize>, DecodeError>(e),
            LineOutcome::Line(end) => r matches Ok(Some(e)) && e as int == pos + end,
        },
{
    let ghost s = buf@.skip(pos as int);
    let n = buf.len();
    let mut j: usize = pos;
    while j < n
        invariant
            pos <= j <= n,
            n == buf@.len(),
            s == buf@.skip(pos as int),
            first_break(s, 0) == first_break(s, j - pos),
            forall|k: int| pos <= k < j ==> #[trigger] buf@[k] != 13 && buf@[k] != 10,
        decreases n - j,
    {
        let b = buf[j];
        proof {
            assert(s[j - pos] == buf@[j as int]);
        }
        if b == 13 || b == 10 {
            // The first terminator byte sits at relative position j - pos.
            proof {
                assert(first_break(s, j - pos) == Some(j - pos as int));
            }
            if j + 1 == n {
                return Ok(None);
            }
            if b != 13 {
                return Err(DecodeError::UnexpectedByte(b));
            }
            let b2 = buf[j + 1];
            proof {
                assert(s[j + 1 - pos] == buf@[j + 1]);
            }
            if b2 != 10 {
                return Err(DecodeError::UnexpectedByte(b2));
            }
            return Ok(Some(j + 2));
        }
        j = j + 1;
    }
    proof {
        assert(first_break(s, n - pos) is None);
    }
    Ok(None)
}

/// Copy `buf[a..b]` into a fresh vector.
fn copy_range(buf: &[u8], a: usize, b: usize) -> (r: Vec<u8>)
    requires
        a <= b <= buf@.len(),
    ensures
        r@ == buf@.subrange(a as int, b as int),
{
    vstd::slice::slice_to_vec(&buf[a..b])
}

/// The length of `models(es, i)` and what each of its elements is.
pub proof fn lemma_models_index(es: Vec<Value>, i: int)
    requires
        0 <= i <= es@.len(),
    ensures
        models(es, i).len() == es@.len() - i,
        forall|j: int| 0 <= j < es@.len() - i ==> models(es, i)[j] == es@[i + j].model(),
    decreases es@.len() - i,
{
    if i < es@.len() {
        lemma_models_index(es, i + 1);
    }
}

/// Pushing an element extends the element models by that element's model.
proof fn lemma_models_push(es: Vec<Value>, es2: Vec<Value>, v: Value)
    requires
        es2@ == es@.push(v),
    ensures
        models(es2, 0) == models(es, 0).push(v.model()),
{
    lemma_models_index(es, 0);
    lemma_models_index(es2, 0);
    assert(models(es2, 0) =~= models(es, 0).push(v.model()));
}

/// Decode one value from the buffer suffix at `pos`: `Ok(None)` when the
/// suffix is a valid but incomplete prefix, `Ok(Some((value, end)))` with the
/// absolute end position when one full value is there, and the error of the
/// grammar otherwise.
pub fn read_value_at(buf: &[u8], pos: usize) -> (r: Result<Option<(Value, usize)>, DecodeError>)
    requires
        pos <= buf@.len(),
    ensures
        match spec_read(buf@.skip(pos as int)) {
            ReadOutcome::Incomplete => r == Ok::<Option<(Value, usize)>, DecodeError>(None),
            ReadOutcome::Fail(e) => r == Err::<Option<(Value, usize)>, DecodeError>(e),
            ReadOutcome::Parsed(m, n) => r matches Ok(Some(p)) && p.0.model() == m && p.1 as int
                == pos + n,
        },
    decreases buf@.len() - pos,
{
    let ghost s = buf@.skip(pos as int);
    let n = buf.len();
    if pos == n {
        proof {
            assert(s.len() == 0);
        }
        return Ok(None);
    }
    let b0 = buf[pos];
    proof {
        assert(s[0] == b0);
        lemma_line_bounds(s);
        lemma_first_break_bounds(s, 0);
    }
    if b0 == 43 || b0 == 45 {
        match find_line(buf, pos)? {
            None => Ok(None),
            Some(end) => {
                let payload = copy_range(buf, pos + 1, end - 2);
                proof {
                    let ghost rel = end - pos;
                    assert(payload@ =~= s.subrange(1, rel - 2));
                }
                if b0 == 43 {
                    Ok(Some((Value::SimpleString(payload), end)))
                } else {
                    Ok(Some((Value::Error(payload), end)))
                }
            },
        }
    } else if b0 == 58 {
        match find_line(buf, pos)? {
            None => Ok(None),
            Some(end) => {
                let field = copy_range(buf, pos + 1, end - 2);
                proof {
                    let ghost rel = end - pos;
                    assert(field@ =~= s.subrange(1, rel - 2));
                }
                let v = parse_i64(field.as_slice())?;
                Ok(Some((Value::Integer(v), end)))
            },
        }
    } else if b0 == 42 {
        match find_line(buf, pos)? {
            None => Ok(None),
            Some(end) => {
                let field = copy_range(buf, pos + 1, end - 2);
                proof {
                    let ghost rel = end - pos;
                    assert(field@ =~= s.subrange(1, rel - 2));
                }
                let v = parse_i64(field.as_slice())?;
                if v == -1 {
                    return Ok(Some((Value::Nil, end)));
                }
                if v < 0 {
                    return Err(DecodeError::InvalidLength);
                }
                let ghost rel = end - pos;
                let ghost t = s.skip(rel);
                let total: u64 = v as u64;
                let mut done: u64 = 0;
                let mut elems: Vec<Value> = Vec::new();
                let mut cur: usize = end;
                proof {
                    assert(t =~= buf@.skip(end as int)) by {
                        assert forall|k: int| 0 <= k < s.len() - rel implies s.skip(rel)[k]
                            == buf@.skip(end as int)[k] by {
                            assert(s.skip(rel)[k] == s[rel + k]);
                            assert(s[rel + k] == buf@[pos + rel + k]);
                            assert(buf@.skip(end as int)[k] == buf@[end + k]);
                        }
                    }
                    assert(models(elems, 0) =~= Seq::<ValueModel>::empty());
                    assert(elems_prepend(
                        models(elems, 0),
                        0,
                        spec_read_elems(buf@.skip(end as int), v as int),
                    ) == spec_read_elems(t, v as int)) by {
                        match spec_read_elems(t, v as int) {
                            ElemsOutcome::Done(ms, used) => {
                                assert(models(elems, 0) + ms =~= ms);
                            },
                            _ => {},
                        }
                    }
                }
                while done < total
                    invariant
                        done <= total,
                        total == v as u64,
                        v >= 0,
                        n == buf.len(),
                        n == buf@.len(),
                        pos <= buf@.len(),
                        s == buf@.skip(pos as int),
                        s.len() >= 1 && s[0] == 42,
                        t == s.skip(rel),
                        pos < cur <= n,
                        2 <= rel <= s.len(),
                        rel == end - pos,
                        pos + rel <= cur,
                        elems@.len() == done,
                        spec_line(s) == LineOutcome::Line(rel),
                        spec_int_field(s.subrange(1, rel - 2)) == Ok::<i64, DecodeError>(v),
                        elems_prepend(
                            models(elems, 0),
                            cur - pos - rel,
                            spec_read_elems(buf@.skip(cur as int), v as int - done),
                        ) == spec_read_elems(t, v as int),
                    decreases total - done,
                {
                    let step = read_value_at(buf, cur);
                    match step {
                        Err(e) => {
                            return Err(e);
                        },
                        Ok(None) => {
                            return Ok(None);
                        },
                        Ok(Some((val, newend))) => {
                            proof {
                                lemma_read_bounds(buf@.skip(cur as int));
                                let nn = newend - cur;
                                assert(buf@.skip(cur as int).skip(nn) =~= buf@.skip(
                                    newend as int,
                                ));
                                assert(spec_read_elems(buf@.skip(cur as int), v as int - done)
                                    == elems_prepend(
                                    seq![val.model()],
                                    nn,
                                    spec_read_elems(buf@.skip(newend as int), v as int - done - 1),
                                ));
                                lemma_prepend_compose(
                                    models(elems, 0),
                                    cur - pos - rel,
                                    val.model(),
                                    nn,
                                    spec_read_elems(buf@.skip(newend as int), v as int - done - 1),
                                );
                            }
                            let ghost old_elems = elems;
                            elems.push(val);
                            proof {
                                lemma_models_push(old_elems, elems, val);
                            }
                            cur = newend;
                            done = done + 1;
                        },
                    }
                }
                proof {
                    assert(spec_read_elems(buf@.skip(cur as int), 0) == ElemsOutcome::Done(
                        Seq::<ValueModel>::empty(),
                        0,
                    ));
                    match spec_read_elems(t, v as int) {
                        ElemsOutcome::Done(ms, used) => {
                            assert(models(elems, 0) + Seq::<ValueModel>::empty() =~= models(
                                elems,
                                0,
                            ));
                            assert(ms == models(elems, 0));
                            assert(used == cur - pos - rel);
                        },
                        _ => {
                            assert(false);
                        },
                    }
                }
                Ok(Some((Value::Array(elems), cur)))
            },
        }
    } else if b0 == 36 {
        match find_line(buf, pos)? {
            None => Ok(None),
            Some(end) => {
                let field = copy_range(buf, pos + 1, end - 2);
                proof {
                    let ghost rel = end - pos;
                    assert(field@ =~= s.subrange(1, rel - 2));
                }
                let v = parse_i64(field.as_slice())?;
                if v == -1 {
                    return Ok(Some((Value::Nil, end)));
                }
                if v < 0 {
                    return Err(DecodeError::InvalidLength);
                }
                let ghost rel = end - pos;
                let remaining: u64 = (n - end) as u64;
                if remaining < v as u64 + 2 {
                    return Ok(None);
                }
                let len = v as usize;
                proof {
                    assert(s[rel + v] == buf@[end + len]);
                    assert(s[rel + v + 1] == buf@[end + len + 1]);
                }
                let t1 = buf[end + len];
                if t1 != 13 {
                    return Err(DecodeError::UnexpectedByte(t1));
                }
                let t2 = buf[end + len + 1];
                if t2 != 10 {
                    return Err(DecodeError::UnexpectedByte(t2));
                }
                let payload = copy_range(buf, end, end + len);
                proof {
                    assert(payload@ =~= s.subrange(rel, rel + v));
                }
                Ok(Some((Value::BulkString(payload), end + len + 2)))
            },
        }
    } else {
        Err(DecodeError::UnexpectedByte(b0))
    }
}

/// Prefix composition of element decoding: the models and consumed bytes of
/// an already-decoded prefix, glued onto the outcome for the rest.
pub open spec fn elems_prepend(ms: Seq<ValueModel>, used: int, rest: ElemsOutcome) -> ElemsOutcome {
    match rest {
        ElemsOutcome::Incomplete => ElemsOutcome::Incomplete,
        ElemsOutcome::Fail(e) => ElemsOutcome::Fail(e),
        ElemsOutcome::Done(ms2, used2) => ElemsOutcome::Done(ms + ms2, used + used2),
    }
}

/// Gluing a one-element prefix into a longer prefix.
proof fn lemma_prepend_compose(
    ms: Seq<ValueModel>,
    c: int,
    m: ValueModel,
    nn: int,
    x: ElemsOutcome,
)
    ensures
        elems_prepend(ms, c, elems_prepend(seq![m], nn, x)) == elems_prepend(
            ms.push(m),
            c + nn,
            x,
        ),
{
    match x {
        ElemsOutcome::Done(ms2, u2) => {
            assert(ms + (seq![m] + ms2) =~= ms.push(m) + ms2);
        },
        _ => {},
    }
}

/// A parsed value takes at least two bytes and at most the whole buffer, and
/// an array never has more elements than bytes after its header.
pub proof fn lemma_read_bounds(s: Seq<u8>)
    ensures
        spec_read(s) matches ReadOutcome::Parsed(m, n) ==> 2 <= n <= s.len(),
        spec_read(s) matches ReadOutcome::Parsed(m, n) ==> (m matches ValueModel::Array(ms)
            ==> ms.len() < n),
    decreases s.len(), 0int,
{
    lemma_line_bounds(s);
    if s.len() > 0 && s[0] == 42 {
        match spec_line(s) {
            LineOutcome::Line(end) => {
                match spec_int_field(s.subrange(1, end - 2)) {
                    Ok(v) => {
                        if v >= 0 {
                            lemma_read_elems_bounds(s.skip(end), v as int);
                        }
                    },
                    _ => {},
                }
            },
            _ => {},
        }
    }
}

/// A parsed element run takes at least two bytes per element and at most the
/// whole buffer.
pub proof fn lemma_read_elems_bounds(s: Seq<u8>, count: int)
    ensures
        spec_read_elems(s, count) matches ElemsOutcome::Done(ms, used) ==> ms.len() == (if count
            >= 0 {
            count
        } else {
            0
        }) && 2 * ms.len() <= used <= s.len(),
    decreases s.len(), 1 + count,
{
    if count > 0 {
        match spec_read(s) {
            ReadOutcome::Parsed(m, n) => {
                lemma_read_bounds(s);
                if 1 <= n <= s.len() {
                    lemma_read_elems_bounds(s.skip(n), count - 1);
                }
            },
            _ => {},
        }
    }
}

impl Value {
    /// Try to read a value from the front of `buffer`. Returns `Ok(None)` on
    /// an incomplete but so-far-valid prefix, leaving the buffer unchanged;
    /// on success, consumes exactly the bytes of one value. On malformed
    /// bytes, returns the grammar's error and leaves the buffer unchanged.
    pub fn read_from(buffer: &mut Vec<u8>) -> (r: Result<Option<Value>, DecodeError>)
        ensures
            match spec_read(old(buffer)@) {
                ReadOutcome::Incomplete => r == Ok::<Option<Value>, DecodeError>(None)
                    && final(buffer)@ == old(buffer)@,
                ReadOutcome::Fail(e) => r == Err::<Option<Value>, DecodeError>(e)
                    && final(buffer)@ == old(buffer)@,
                ReadOutcome::Parsed(m, n) => (r matches Ok(Some(v)) && v.model() == m)
                    && final(buffer)@ == old(buffer)@.skip(n),
            },
    {
        proof {
            assert(buffer@.skip(0) =~= buffer@);
        }
        let step = read_value_at(buffer.as_slice(), 0);
        proof {
            lemma_read_bounds(buffer@);
        }
        match step {
            Err(e) => Err(e),
            Ok(None) => Ok(None),
            Ok(Some((v, end))) => {
                let tail = buffer.split_off(end);
                *buffer = tail;
                Ok(Some(v))
            },
        }
    }

    /// Append the wire form of this value to `buffer`.
    pub fn write_to(&self, buffer: &mut Vec<u8>)
        requires
            wf_model(self.model()),
        ensures
            final(buffer)@ == old(buffer)@ + enc(self.model()),
        decreases *self,
    {
        match self {
            Value::Nil => {
                buffer.push(36);
                buffer.push(45);
                buffer.push(49);
                buffer.push(13);
                buffer.push(10);
                proof {
                    assert(final(buffer)@ =~= old(buffer)@ + enc(self.model()));
                }
            },
            Value::SimpleString(data) => {
                buffer.push(43);
                let mut d = vstd::slice::slice_to_vec(data.as_slice());
                buffer.append(&mut d);
                buffer.push(13);
                buffer.push(10);
                proof {
                    assert(final(buffer)@ =~= old(buffer)@ + enc(self.model()));
                }
            },
            Value::Error(data) => {
                buffer.push(45);
                let mut d = vstd::slice::slice_to_vec(data.as_slice());
                buffer.append(&mut d);
                buffer.push(13);
                buffer.push(10);
                proof {
                    assert(final(buffer)@ =~= old(buffer)@ + enc(self.model()));
                }
            },
            Value::Integer(value) => {
                buffer.push(58);
                let mut d = render_i64(*value);
                buffer.append(&mut d);
                buffer.push(13);
                buffer.push(10);
                proof {
                    assert(final(buffer)@ =~= old(buffer)@ + enc(self.model()));
                }
            },
            Value::BulkString(data) => {
                buffer.push(36);
                let mut l = render_i64(data.len() as i64);
                buffer.append(&mut l);
                buffer.push(13);
                buffer.push(10);
                let mut d = vstd::slice::slice_to_vec(data.as_slice());
                buffer.append(&mut d);
                buffer.push(13);
                buffer.push(10);
                proof {
                    assert(final(buffer)@ =~= old(buffer)@ + enc(self.model()));
                }
            },
            Value::Array(elements) => {
                buffer.push(42);
                let mut l = render_i64(elements.len() as i64);
                buffer.append(&mut l);
                buffer.push(13);
                buffer.push(10);
                let ghost ms = models(*elements, 0);
                let ghost base = buffer@;
                proof {
                    lemma_models_index(*elements, 0);
                    assert(base + enc_elems(ms, 0) == buffer@ + enc_elems(ms, 0));
                }
                let count = elements.len();
                let mut i: usize = 0;
                #[verifier::loop_isolation(false)]
                while i < count
                    invariant
                        i <= count,
                        count == elements@.len(),
                        ms == models(*elements, 0),
                        ms.len() == count,
                        forall|j: int| 0 <= j < count ==> ms[j] == elements@[j].model(),
                        wf_model(ValueModel::Array(ms)),
                        base + enc_elems(ms, 0) == buffer@ + enc_elems(ms, i as int),
                    decreases count - i,
                {
                    proof {
                        vstd::std_specs::vec::axiom_vec_decreases_to_view(*elements);
                        vstd::seq::axiom_seq_index_decreases(elements@, i as int);
                        assert(decreases_to!(*elements => elements@));
                        assert(decreases_to!(elements@ => elements@[i as int]));
                        assert(wf_model(ms[i as int]));
                    }
                    let ghost before = buffer@;
                    elements[i].write_to(buffer);
                    proof {
                        assert(base + enc_elems(ms, 0) =~= buffer@ + enc_elems(ms, i + 1));
                    }
                    i = i + 1;
                }
                proof {
                    assert(enc_elems(ms, count as int) =~= Seq::<u8>::empty());
                    assert(buffer@ + Seq::<u8>::empty() =~= buffer@);
                    assert(final(buffer)@ =~= old(buffer)@ + enc(self.model()));
                }
            },
        }
    }
}

/// The first break is exactly at `p` when everything before `p` is ordinary
/// and `p` holds a terminator byte.
pub proof fn lemma_first_break_from(s: Seq<u8>, i: int, p: int)
    requires
        0 <= i <= p < s.len(),
        s[p] == 13 || s[p] == 10,
        forall|k: int| i <= k < p ==> #[trigger] s[k] != 13 && s[k] != 10,
    ensures
        first_break(s, i) == Some(p),
    decreases p - i,
{
    if i < p {
        lemma_first_break_from(s, i + 1, p);
    }
}

/// A buffer whose front is ordinary bytes, then a carriage return and line
/// feed strictly inside it, reads as one line ending just past them.
pub proof fn lemma_line_parse(s: Seq<u8>, p: int)
    requires
        0 <= p,
        p + 1 < s.len(),
        s[p] == 13,
        s[p + 1] == 10,
        forall|k: int| 0 <= k < p ==> #[trigger] s[k] != 13 && s[k] != 10,
    ensures
        spec_line(s) == LineOutcome::Line(p + 2),
{
    lemma_first_break_from(s, 0, p);
}

/// The encoding of a well-formed value decodes back to that value, whatever
/// bytes follow: one half of the codec round trip, stated with an arbitrary
/// tail so that it also serves streams of frames.
pub proof fn lemma_enc_dec(m: ValueModel, tail: Seq<u8>)
    requires
        wf_model(m),
    ensures
        spec_read(enc(m) + tail) == ReadOutcome::Parsed(m, enc(m).len() as int),
    decreases m, 0int,
{
    let e = enc(m);
    let s = e + tail;
    match m {
        ValueModel::SimpleString(b) => {
            let p = 1 + b.len() as int;
            assert forall|k: int| 0 <= k < p implies #[trigger] s[k] != 13 && s[k] != 10 by {
                if k == 0 {
                    assert(s[0] == 43);
                } else {
                    assert(s[k] == b[k - 1]);
                }
            }
            assert(s[p] == 13);
            assert(s[p + 1] == 10);
            lemma_line_parse(s, p);
            assert(s.subrange(1, p) =~= b);
        },
        ValueModel::Error(b) => {
            let p = 1 + b.len() as int;
            assert forall|k: int| 0 <= k < p implies #[trigger] s[k] != 13 && s[k] != 10 by {
                if k == 0 {
                    assert(s[0] == 45);
                } else {
                    assert(s[k] == b[k - 1]);
                }
            }
            assert(s[p] == 13);
            assert(s[p + 1] == 10);
            lemma_line_parse(s, p);
            assert(s.subrange(1, p) =~= b);
        },
        ValueModel::Integer(n) => {
            let r = i_repr(n as int);
            lemma_repr_round_trip(n as int);
            let p = 1 + r.len() as int;
            assert forall|k: int| 0 <= k < p implies #[trigger] s[k] != 13 && s[k] != 10 by {
                if k == 0 {
                    assert(s[0] == 58);
                } else {
                    assert(s[k] == r[k - 1]);
                }
            }
            assert(s[p] == 13);
            assert(s[p + 1] == 10);
            lemma_line_parse(s, p);
            assert(s.subrange(1, p) =~= r);
        },
        ValueModel::Nil => {
            assert(s[0] == 36);
            assert(s[1] == 45);
            assert(s[2] == 49);
            assert(s[3] == 13);
            assert(s[4] == 10);
            assert forall|k: int| 0 <= k < 3 implies #[trigger] s[k] != 13 && s[k] != 10 by {}
            lemma_line_parse(s, 3);
            let field = s.subrange(1, 3);
            assert(field =~= seq![45u8, 49u8]);
            assert(is_utf8(field)) by {
                crate::codecs::text::lemma_ascii_is_utf8(field);
            }
            assert(crate::codecs::text::is_digits(field.skip(1))) by {
                assert(field.skip(1) =~= seq![49u8]);
            }
            assert(int_text_val(field) == -1) by {
                assert(field.skip(1) =~= seq![49u8]);
                assert(seq![49u8].drop_last() =~= Seq::<u8>::empty());
                assert(crate::codecs::text::digits_val(Seq::<u8>::empty()) == 0);
            }
        },
        ValueModel::BulkString(b) => {
            let r = i_repr(b.len() as int);
            lemma_repr_round_trip(b.len() as int);
            let p = 1 + r.len() as int;
            let end = p + 2;
            assert forall|k: int| 0 <= k < p implies #[trigger] s[k] != 13 && s[k] != 10 by {
                if k == 0 {
                    assert(s[0] == 36);
                } else {
                    assert(s[k] == r[k - 1]);
                }
            }
            assert(s[p] == 13);
            assert(s[p + 1] == 10);
            lemma_line_parse(s, p);
            assert(s.subrange(1, p) =~= r);
            let v = b.len() as int;
            assert(s.len() >= end + v + 2);
            assert(s[end + v] == 13);
            assert(s[end + v + 1] == 10);
            assert(s.subrange(end, end + v) =~= b);
            assert(e.len() == end + v + 2);
        },
        ValueModel::Array(es) => {
            let r = i_repr(es.len() as int);
            lemma_repr_round_trip(es.len() as int);
            let p = 1 + r.len() as int;
            let end = p + 2;
            assert forall|k: int| 0 <= k < p implies #[trigger] s[k] != 13 && s[k] != 10 by {
                if k == 0 {
                    assert(s[0] == 42);
                } else {
                    assert(s[k] == r[k - 1]);
                }
            }
            assert(s[p] == 13);
            assert(s[p + 1] == 10);
            lemma_line_parse(s, p);
            assert(s.subrange(1, p) =~= r);
            assert(s.skip(end) =~= enc_elems(es, 0) + tail);
            lemma_enc_dec_elems(es, 0, tail);
            assert(es.skip(0) =~= es);
            assert(e.len() == end + enc_elems(es, 0).len());
        },
    }
}

/// The encodings of the elements of `es` from `i` on, followed by any tail,
/// decode back to exactly those elements.
pub proof fn lemma_enc_dec_elems(es: Seq<ValueModel>, i: int, tail: Seq<u8>)
    requires
        0 <= i <= es.len(),
        forall|j: int| 0 <= j < es.len() ==> wf_model(#[trigger] es[j]),
    ensures
        spec_read_elems(enc_elems(es, i) + tail, es.len() - i) == ElemsOutcome::Done(
            es.skip(i),
            enc_elems(es, i).len() as int,
        ),
    decreases es, es.len() - i,
{
    if i == es.len() {
        assert(enc_elems(es, i) =~= Seq::<u8>::empty());
        assert(enc_elems(es, i) + tail =~= tail);
        assert(es.skip(i) =~= Seq::<ValueModel>::empty());
    } else {
        let s = enc_elems(es, i) + tail;
        let e0 = enc(es[i]);
        let rest = enc_elems(es, i + 1);
        assert(s =~= e0 + (rest + tail));
        lemma_enc_dec(es[i], rest + tail);
        let n = e0.len() as int;
        lemma_read_bounds(e0 + (rest + tail));
        assert(s.skip(n) =~= rest + tail);
        lemma_enc_dec_elems(es, i + 1, tail);
        assert(seq![es[i]] + es.skip(i + 1) =~= es.skip(i));
    }
}

/// Appending bytes does not disturb a line already read or rejected.
proof fn lemma_line_append(s: Seq<u8>, t: Seq<u8>)
    ensures
        spec_line(s) matches LineOutcome::Line(end) ==> spec_line(s + t) == spec_line(s),
        spec_line(s) matches LineOutcome::Fail(e) ==> spec_line(s + t) == spec_line(s),
{
    lemma_first_break_bounds(s, 0);
    match first_break(s, 0) {
        Some(p) => {
            if p + 1 != s.len() {
                assert forall|k: int| 0 <= k < p implies #[trigger] (s + t)[k] != 13 && (s + t)[k]
                    != 10 by {
                    assert((s + t)[k] == s[k]);
                }
                lemma_first_break_from(s + t, 0, p);
            }
        },
        None => {},
    }
}

/// More bytes change nothing once a value has been decoded or rejected: a
/// parse outcome other than "incomplete" is a function of the bytes it
/// inspected, which later arrivals cannot touch. This is what makes the
/// decoder safe against arbitrarily fragmented input.
pub proof fn lemma_read_append(s: Seq<u8>, t: Seq<u8>)
    ensures
        spec_read(s) matches ReadOutcome::Parsed(m, n) ==> spec_read(s + t) == spec_read(s),
        spec_read(s) matches ReadOutcome::Fail(e) ==> spec_read(s + t) == spec_read(s),
    decreases s.len(), 0int,
{
    if s.len() > 0 {
        let u = s + t;
        assert(u[0] == s[0]);
        lemma_line_append(s, t);
        lemma_line_bounds(s);
        match spec_line(s) {
            LineOutcome::Line(end) => {
                if s[0] == 43 || s[0] == 45 || s[0] == 58 || s[0] == 42 || s[0] == 36 {
                    assert(end >= 3);
                    assert(u.subrange(1, end - 2) =~= s.subrange(1, end - 2));
                }
                if s[0] == 42 {
                    match spec_int_field(s.subrange(1, end - 2)) {
                        Ok(v) => {
                            if v >= 0 {
                                assert(u.skip(end) =~= s.skip(end) + t);
                                lemma_read_elems_append(s.skip(end), v as int, t);
                            }
                        },
                        Err(_) => {},
                    }
                }
                if s[0] == 36 {
                    match spec_int_field(s.subrange(1, end - 2)) {
                        Ok(v) => {
                            if v >= 0 && s.len() >= end + v + 2 {
                                assert(u[end + v] == s[end + v]);
                                assert(u[end + v + 1] == s[end + v + 1]);
                                assert(u.subrange(end, end + v) =~= s.subrange(end, end + v));
                            }
                        },
                        Err(_) => {},
                    }
                }
            },
            _ => {},
        }
    }
}

/// More bytes change nothing once a run of elements has been decoded or
/// rejected.
pub proof fn lemma_read_elems_append(s: Seq<u8>, count: int, t: Seq<u8>)
    ensures
        spec_read_elems(s, count) matches ElemsOutcome::Done(ms, used) ==> spec_read_elems(
            s + t,
            count,
        ) == spec_read_elems(s, count),
        spec_read_elems(s, count) matches ElemsOutcome::Fail(e) ==> spec_read_elems(s + t, count)
            == spec_read_elems(s, count),
    decreases s.len(), 1 + count,
{
    if count > 0 {
        lemma_read_append(s, t);
        lemma_read_bounds(s);
        match spec_read(s) {
            ReadOutcome::Parsed(m, n) => {
                assert((s + t).skip(n) =~= s.skip(n) + t);
                lemma_read_elems_append(s.skip(n), count - 1, t);
            },
            _ => {},
        }
    }
}

/// Decode frames greedily from the front of `s`: the values of every full
/// frame, in order, and the remaining bytes.
pub open spec fn drain(s: Seq<u8>) -> (Seq<ValueModel>, Seq<u8>)
    decreases s.len(),
{
    match spec_read(s) {
        ReadOutcome::Parsed(m, n) => if 1 <= n <= s.len() {
            let (frames, rest) = drain(s.skip(n));
            (seq![m] + frames, rest)
        } else {
            // Never reached: a parsed value takes at least one byte and at
            // most the whole buffer.
            (Seq::empty(), s)
        },
        _ => (Seq::empty(), s),
    }
}

/// Streaming, first half: bytes may arrive in any fragments. Draining
/// `s + t` yields the frames of `s` followed by whatever the leftover of
/// `s`, extended by `t`, yields — so feeding a stream byte by byte (or in
/// any chunks) emits exactly the frames of the whole stream, in order.
pub proof fn lemma_drain_append(s: Seq<u8>, t: Seq<u8>)
    ensures
        drain(s + t).0 == drain(s).0 + drain(drain(s).1 + t).0,
        drain(s + t).1 == drain(drain(s).1 + t).1,
    decreases s.len(),
{
    lemma_read_append(s, t);
    lemma_read_bounds(s);
    match spec_read(s) {
        ReadOutcome::Parsed(m, n) => {
            assert((s + t).skip(n) =~= s.skip(n) + t);
            lemma_drain_append(s.skip(n), t);
            assert(seq![m] + (drain(s.skip(n)).0 + drain(drain(s.skip(n)).1 + t).0) =~= (seq![m]
                + drain(s.skip(n)).0) + drain(drain(s.skip(n)).1 + t).0);
        },
        _ => {
            assert(drain(s).1 + t =~= s + t);
            assert(drain(s).0 + drain(s + t).0 =~= drain(s + t).0);
        },
    }
}

/// Streaming, second half: a buffer holding the encodings of well-formed
/// frames and then a suffix that does not itself decode to a value drains
/// to exactly those frames, leaving exactly the suffix.
pub proof fn lemma_drain_frames(fs: Seq<ValueModel>, i: int, suffix: Seq<u8>)
    requires
        0 <= i <= fs.len(),
        forall|j: int| 0 <= j < fs.len() ==> wf_model(#[trigger] fs[j]),
        !(spec_read(suffix) is Parsed),
    ensures
        drain(enc_elems(fs, i) + suffix) == (fs.skip(i), suffix),
    decreases fs.len() - i,
{
    if i == fs.len() {
        assert(enc_elems(fs, i) + suffix =~= suffix);
        assert(fs.skip(i) =~= Seq::<ValueModel>::empty());
        assert(drain(suffix).0 =~= Seq::<ValueModel>::empty());
    } else {
        let s = enc_elems(fs, i) + suffix;
        let e0 = enc(fs[i]);
        assert(s =~= e0 + (enc_elems(fs, i + 1) + suffix));
        lemma_enc_dec(fs[i], enc_elems(fs, i + 1) + suffix);
        lemma_read_bounds(s);
        assert(s.skip(e0.len() as int) =~= enc_elems(fs, i + 1) + suffix);
        lemma_drain_frames(fs, i + 1, suffix);
        assert(seq![fs[i]] + fs.skip(i + 1) =~= fs.skip(i));
    }
}

} // verus!
