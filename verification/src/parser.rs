//! RESP protocol values and the byte-stream codec.

use vstd::prelude::*;
use vstd::string::StringExecFns;
use vstd::string::StringSliceAdditionalSpecFns;
use vstd::utf8::encode_utf8;
use vstd::utf8::decode_utf8;
use vstd::utf8::valid_utf8;
use crate::numtext::dec_int;
use crate::numtext::dec_nat;
use crate::numtext::spec_parse_i64;
use crate::numtext::spec_parse_u64;
use crate::numtext::spec_parse_usize;
use crate::numtext::i64_to_string;
use crate::numtext::usize_to_string;
use crate::numtext::parse_i64;
use crate::numtext::parse_u64;
use crate::numtext::parse_usize;
use crate::strutil::push_char;
use crate::strutil::try_str_from_bytes;

verus! {

broadcast use vstd::std_specs::vec::group_vec_axioms, vstd::seq::group_seq_axioms,
    vstd::string::group_string_axioms;

/// One RESP protocol element. `Nothing` is the sentinel for "no value decoded"
/// (end of stream or unrecognized framing); it never appears on the wire.
#[derive(Debug, PartialEq)]
pub enum RespValue {
    SimpleString(String),
    Integer(i64),
    Error(String),
    BulkString(String),
    Array(Vec<RespValue>),
    NullBulkString,
    Nothing,
}

/// The mathematical model of a protocol value: payload text as character
/// sequences, integers unbounded, arrays as sequences of models.
pub enum RespModel {
    SimpleString(Seq<char>),
    Integer(int),
    Error(Seq<char>),
    BulkString(Seq<char>),
    Array(Seq<RespModel>),
    NullBulkString,
    Nothing,
}

/// The model of a concrete protocol value.
pub open spec fn model_of(v: RespValue) -> RespModel
    decreases v,
{
    match v {
        RespValue::SimpleString(s) => RespModel::SimpleString(s@),
        RespValue::Integer(n) => RespModel::Integer(n as int),
        RespValue::Error(s) => RespModel::Error(s@),
        RespValue::BulkString(s) => RespModel::BulkString(s@),
        RespValue::Array(vs) => RespModel::Array(models_of(vs@)),
        RespValue::NullBulkString => RespModel::NullBulkString,
        RespValue::Nothing => RespModel::Nothing,
    }
}

/// The models of a sequence of concrete protocol values, in order.
pub open spec fn models_of(s: Seq<RespValue>) -> Seq<RespModel>
    decreases s,
{
    if s.len() == 0 {
        Seq::empty()
    } else {
        seq![model_of(s[0])] + models_of(s.drop_first())
    }
}

impl View for RespValue {
    type V = RespModel;

    open spec fn view(&self) -> RespModel {
        model_of(*self)
    }
}

impl DeepView for RespValue {
    type V = RespModel;

    open spec fn deep_view(&self) -> RespModel {
        model_of(*self)
    }
}

/// Element-wise reading of a value sequence's models.
pub proof fn lemma_models_of(s: Seq<RespValue>)
    ensures
        models_of(s).len() == s.len(),
        forall|i: int| 0 <= i < s.len() ==> models_of(s)[i] == model_of(s[i]),
    decreases s.len(),
{
    if s.len() > 0 {
        lemma_models_of(s.drop_first());
    }
}

/// The line terminator of the wire format.
pub open spec fn crlf() -> Seq<char> {
    seq!['\r', '\n']
}

/// The display text of a value: payload text as it stands, integers in
/// decimal, null and the sentinel as empty text, arrays joined with single
/// spaces.
pub open spec fn text_of(m: RespModel) -> Seq<char>
    decreases m,
{
    match m {
        RespModel::SimpleString(s) => s,
        RespModel::Integer(n) => dec_int(n),
        RespModel::Error(s) => s,
        RespModel::BulkString(s) => s,
        RespModel::Array(vs) => text_join(vs),
        RespModel::NullBulkString => Seq::empty(),
        RespModel::Nothing => Seq::empty(),
    }
}

/// The display texts of a sequence of values joined with single spaces.
pub open spec fn text_join(vs: Seq<RespModel>) -> Seq<char>
    decreases vs,
{
    if vs.len() == 0 {
        Seq::empty()
    } else if vs.len() == 1 {
        text_of(vs[0])
    } else {
        text_join(vs.drop_last()) + seq![' '] + text_of(vs.last())
    }
}

/// The flattening of a value: for an array, the display texts of its
/// non-array leaves in order, nested arrays expanded in place; empty for
/// anything else.
pub open spec fn flat_of(m: RespModel) -> Seq<Seq<char>> {
    match m {
        RespModel::Array(vs) => flat_seq(vs),
        _ => Seq::empty(),
    }
}

/// What one array element contributes to the flattening.
pub open spec fn flat_one(m: RespModel) -> Seq<Seq<char>>
    decreases m, 0int,
{
    match m {
        RespModel::Array(vs) => flat_seq(vs),
        _ => seq![text_of(m)],
    }
}

/// The flattening of an array's elements, in order.
pub open spec fn flat_seq(vs: Seq<RespModel>) -> Seq<Seq<char>>
    decreases vs, 1int,
{
    if vs.len() == 0 {
        Seq::empty()
    } else {
        flat_seq(vs.drop_last()) + flat_one(vs.last())
    }
}

/// A fully decoded value: the sentinel appears nowhere in it. A decode cut
/// short by the end of the stream leaves the sentinel inside an array.
pub open spec fn complete(m: RespModel) -> bool
    decreases m, 0int,
{
    match m {
        RespModel::Array(vs) => complete_seq(vs),
        RespModel::Nothing => false,
        _ => true,
    }
}

pub open spec fn complete_seq(vs: Seq<RespModel>) -> bool
    decreases vs, 1int,
{
    if vs.len() == 0 {
        true
    } else {
        complete(vs[0]) && complete_seq(vs.drop_first())
    }
}

/// Element-wise reading of a sequence's completeness.
pub proof fn lemma_complete_seq(vs: Seq<RespModel>)
    ensures
        complete_seq(vs) <==> (forall|i: int| 0 <= i < vs.len() ==> complete(#[trigger] vs[i])),
    decreases vs.len(),
{
    if vs.len() > 0 {
        lemma_complete_seq(vs.drop_first());
        let rest = vs.drop_first();
        assert(forall|i: int| 0 <= i < rest.len() ==> (#[trigger] rest[i]) == vs[i + 1]);
        if complete_seq(vs) {
            assert forall|i: int| 0 <= i < vs.len() implies complete(#[trigger] vs[i]) by {
                if i > 0 {
                    assert(vs[i] == rest[i - 1]);
                }
            }
        }
        if forall|i: int| 0 <= i < vs.len() ==> complete(#[trigger] vs[i]) {
            assert(complete(vs[0]));
            assert(forall|j: int| 0 <= j < rest.len() ==> complete(#[trigger] rest[j]));
            assert(complete_seq(vs));
        }
    }
}

/// The exact wire form of a value, as text. The byte stream carrying it is
/// its UTF-8 encoding. The sentinel has no wire form.
pub open spec fn wire_chars(m: RespModel) -> Seq<char>
    decreases m, 0int,
{
    match m {
        RespModel::SimpleString(s) => seq!['+'] + s + crlf(),
        RespModel::Integer(n) => seq![':'] + dec_int(n) + crlf(),
        RespModel::Error(s) => seq!['-'] + s + crlf(),
        RespModel::BulkString(s) => seq!['$'] + dec_nat(encode_utf8(s).len() as int) + crlf()
            + s + crlf(),
        RespModel::Array(vs) => seq!['*'] + dec_nat(vs.len() as int) + crlf() + wire_concat(vs),
        RespModel::NullBulkString => seq!['$', '-', '1'] + crlf(),
        RespModel::Nothing => Seq::empty(),
    }
}

/// The concatenated wire forms of an array's elements.
pub open spec fn wire_concat(vs: Seq<RespModel>) -> Seq<char>
    decreases vs, 1int,
{
    if vs.len() == 0 {
        Seq::empty()
    } else {
        wire_concat(vs.drop_last()) + wire_chars(vs.last())
    }
}

impl RespValue {
    /// The display text of this value, by reference.
    #[verifier::loop_isolation(false)]
    pub fn textual_form(&self) -> (r: String)
        ensures
            r@ == text_of(self@),
        decreases *self,
    {
        match self {
            RespValue::SimpleString(val) => val.clone(),
            RespValue::Integer(val) => i64_to_string(*val),
            RespValue::Error(val) => val.clone(),
            RespValue::BulkString(val) => val.clone(),
            RespValue::NullBulkString => String::new(),
            RespValue::Nothing => String::new(),
            RespValue::Array(val) => {
                let ghost ms = models_of(val@);
                proof {
                    lemma_models_of(val@);
                }
                let mut s = String::new();
                let mut i: usize = 0;
                assert(ms.take(0) =~= Seq::<RespModel>::empty());
                while i < val.len()
                    invariant
                        i <= val.len(),
                        ms == models_of(val@),
                        ms.len() == val@.len(),
                        forall|j: int| 0 <= j < val@.len() ==> ms[j] == model_of(val@[j]),
                        s@ == text_join(ms.take(i as int)),
                    decreases val.len() - i,
                {
                    if i > 0 {
                        s.append(" ");
                    }
                    proof {
                        assert(decreases_to!(*self => self->Array_0));
                        assert(self->Array_0 == *val);
                        assert(decreases_to!(*val => val@));
                        assert(decreases_to!(val@ => val@[i as int]));
                    }
                    let t = val[i].textual_form();
                    s.append(t.as_str());
                    proof {
                        reveal_strlit(" ");
                        let k = i as int;
                        assert(ms.take(k + 1).drop_last() =~= ms.take(k));
                        assert(ms.take(k + 1).last() == ms[k]);
                        if k == 0 {
                            assert(s@ =~= text_join(ms.take(1)));
                        } else {
                            assert(s@ =~= text_join(ms.take(k)) + seq![' '] + text_of(ms[k]));
                        }
                    }
                    i = i + 1;
                }
                assert(ms.take(val@.len() as int) =~= ms);
                s
            },
        }
    }

    /// The display text of this value, consuming it.
    pub fn unwrap(self) -> (r: String)
        ensures
            r@ == text_of(self@),
    {
        self.textual_form()
    }

    /// Whether the sentinel appears nowhere in this value: false of a
    /// value that a too-short stream cut off.
    #[verifier::loop_isolation(false)]
    pub fn is_complete(&self) -> (r: bool)
        ensures
            r == complete(self@),
        decreases *self,
    {
        match self {
            RespValue::Array(vs) => {
                let ghost ms = models_of(vs@);
                proof {
                    lemma_models_of(vs@);
                    lemma_complete_seq(ms);
                }
                let mut i: usize = 0;
                while i < vs.len()
                    invariant
                        i <= vs.len(),
                        forall|j: int| 0 <= j < i ==> complete(#[trigger] ms[j]),
                    decreases vs.len() - i,
                {
                    proof {
                        assert(decreases_to!(*self => self->Array_0));
                        assert(self->Array_0 == *vs);
                        assert(decreases_to!(*vs => vs@));
                        assert(decreases_to!(vs@ => vs@[i as int]));
                    }
                    if !vs[i].is_complete() {
                        proof {
                            assert(!complete(ms[i as int]));
                            assert(!complete_seq(ms));
                        }
                        return false;
                    }
                    i = i + 1;
                }
                proof {
                    assert(forall|j: int| 0 <= j < ms.len() ==> complete(#[trigger] ms[j]));
                    assert(complete_seq(ms));
                }
                true
            },
            RespValue::Nothing => false,
            _ => true,
        }
    }

    /// The display texts of this array's non-array leaves in order, nested
    /// arrays expanded in place; empty for a non-array value.
    #[verifier::loop_isolation(false)]
    pub fn flatten(&self) -> (r: Vec<String>)
        ensures
            r.deep_view() == flat_of(self@),
        decreases *self,
    {
        let mut out: Vec<String> = Vec::new();
        match self {
            RespValue::Array(values) => {
                let ghost ms = models_of(values@);
                proof {
                    lemma_models_of(values@);
                }
                let mut i: usize = 0;
                assert(out.deep_view() =~= flat_seq(ms.take(0)));
                while i < values.len()
                    invariant
                        i <= values.len(),
                        ms == models_of(values@),
                        ms.len() == values@.len(),
                        forall|j: int| 0 <= j < values@.len() ==> ms[j] == model_of(values@[j]),
                        out.deep_view() == flat_seq(ms.take(i as int)),
                    decreases values.len() - i,
                {
                    let ghost k = i as int;
                    let val = &values[i];
                    proof {
                        assert(decreases_to!(*self => self->Array_0));
                        assert(self->Array_0 == *values);
                        assert(decreases_to!(*values => values@));
                        assert(decreases_to!(values@ => values@[k]));
                    }
                    match val {
                        RespValue::Array(_) => {
                            let mut sub = val.flatten();
                            out.append(&mut sub);
                            assert(out.deep_view() =~~= flat_seq(ms.take(k)) + flat_one(ms[k]));
                        },
                        _ => {
                            out.push(val.textual_form());
                            assert(out.deep_view() =~~= flat_seq(ms.take(k)) + flat_one(ms[k]));
                        },
                    }
                    proof {
                        assert(ms.take(k + 1).drop_last() =~= ms.take(k));
                        assert(ms.take(k + 1).last() == ms[k]);
                        assert(out.deep_view() =~~= flat_seq(ms.take(k + 1)));
                    }
                    i = i + 1;
                }
                assert(ms.take(values@.len() as int) =~= ms);
            },
            _ => {},
        }
        out
    }

    /// The exact wire text of this value.
    #[verifier::loop_isolation(false)]
    pub fn to_stream_output(&self) -> (r: String)
        ensures
            r@ == wire_chars(self@),
        decreases *self,
    {
        match self {
            RespValue::SimpleString(val) => {
                let mut s = String::new();
                push_char(&mut s, '+');
                s.append(val.as_str());
                append_crlf(&mut s);
                proof {
                    assert(s@ =~= seq!['+'] + val@ + crlf());
                }
                s
            },
            RespValue::Integer(val) => {
                let mut s = String::new();
                push_char(&mut s, ':');
                let d = i64_to_string(*val);
                s.append(d.as_str());
                append_crlf(&mut s);
                proof {
                    assert(s@ =~= seq![':'] + dec_int(*val as int) + crlf());
                }
                s
            },
            RespValue::Error(val) => {
                let mut s = String::new();
                push_char(&mut s, '-');
                s.append(val.as_str());
                append_crlf(&mut s);
                proof {
                    assert(s@ =~= seq!['-'] + val@ + crlf());
                }
                s
            },
            RespValue::BulkString(val) => {
                let mut s = String::new();
                push_char(&mut s, '$');
                let d = usize_to_string(crate::strutil::str_byte_len(val.as_str()));
                s.append(d.as_str());
                append_crlf(&mut s);
                s.append(val.as_str());
                append_crlf(&mut s);
                proof {
                    assert(s@ =~= seq!['$'] + dec_nat(encode_utf8(val@).len() as int) + crlf()
                        + val@ + crlf());
                }
                s
            },
            RespValue::NullBulkString => {
                let s = String::from_str("$-1\r\n");
                proof {
                    reveal_strlit("$-1\r\n");
                    assert(s@ =~= seq!['$', '-', '1'] + crlf());
                }
                s
            },
            RespValue::Nothing => String::new(),
            RespValue::Array(val) => {
                let ghost ms = models_of(val@);
                proof {
                    lemma_models_of(val@);
                }
                let mut s = String::new();
                push_char(&mut s, '*');
                let d = usize_to_string(val.len());
                s.append(d.as_str());
                append_crlf(&mut s);
                let ghost head = seq!['*'] + dec_nat(val@.len() as int) + crlf();
                assert(s@ =~= head + wire_concat(ms.take(0)));
                let mut i: usize = 0;
                while i < val.len()
                    invariant
                        i <= val.len(),
                        ms == models_of(val@),
                        ms.len() == val@.len(),
                        forall|j: int| 0 <= j < val@.len() ==> ms[j] == model_of(val@[j]),
                        s@ == head + wire_concat(ms.take(i as int)),
                    decreases val.len() - i,
                {
                    let ghost k = i as int;
                    proof {
                        assert(decreases_to!(*self => self->Array_0));
                        assert(self->Array_0 == *val);
                        assert(decreases_to!(*val => val@));
                        assert(decreases_to!(val@ => val@[k]));
                    }
                    let e = val[i].to_stream_output();
                    s.append(e.as_str());
                    proof {
                        assert(ms.take(k + 1).drop_last() =~= ms.take(k));
                        assert(ms.take(k + 1).last() == ms[k]);
                        assert(s@ =~= head + wire_concat(ms.take(k + 1)));
                    }
                    i = i + 1;
                }
                assert(ms.take(val@.len() as int) =~= ms);
                s
            },
        }
    }
}

/// Splits a byte stream at its first line terminator: the content before
/// it, and the rest after it. A stream without a terminator is all content.
pub open spec fn split_line(s: Seq<u8>) -> (Seq<u8>, Seq<u8>)
    decreases s.len(),
{
    if s.len() >= 2 && s[0] == 13 && s[1] == 10 {
        (Seq::empty(), s.skip(2))
    } else if s.len() == 0 {
        (Seq::empty(), Seq::empty())
    } else {
        let (c, r) = split_line(s.skip(1));
        (seq![s[0]] + c, r)
    }
}

/// Splitting a line never lengthens either part beyond the stream.
pub proof fn lemma_split_line_len(s: Seq<u8>)
    ensures
        split_line(s).0.len() <= s.len(),
        split_line(s).1.len() <= s.len(),
    decreases s.len(),
{
    if !(s.len() >= 2 && s[0] == 13 && s[1] == 10) && s.len() > 0 {
        lemma_split_line_len(s.skip(1));
    }
}

/// The text carried by line-content bytes: their decoding, or empty text
/// where they are not valid UTF-8.
pub open spec fn line_text(c: Seq<u8>) -> Seq<char> {
    if valid_utf8(c) {
        decode_utf8(c)
    } else {
        Seq::empty()
    }
}

/// An integer header, with parse failure coerced to zero.
pub open spec fn int_or_zero(t: Seq<char>) -> int {
    match spec_parse_i64(t) {
        Some(v) => v,
        _ => 0,
    }
}

/// A bulk-string length header, with parse failure coerced to zero.
pub open spec fn len_or_zero(t: Seq<char>) -> int {
    match spec_parse_u64(t) {
        Some(v) => v,
        _ => 0,
    }
}

/// An array count header, with parse failure coerced to zero.
pub open spec fn count_or_zero(t: Seq<char>) -> int {
    match spec_parse_usize(t) {
        Some(v) => v,
        _ => 0,
    }
}

/// Coerced headers are never negative.
pub proof fn lemma_headers_nonneg(t: Seq<char>)
    ensures
        len_or_zero(t) >= 0,
        count_or_zero(t) >= 0,
{
    if crate::numtext::int_text_valid(t) {
        crate::numtext::lemma_digits_val_nonneg(crate::numtext::int_body(t));
    }
}

/// Decoding after a `$` prefix: the length line, then exactly that many raw
/// body bytes. A `-1` length is the null bulk string; a body that the
/// stream cannot supply, or that is not text, fails the decode.
pub open spec fn spec_decode_bulk(s: Seq<u8>) -> (RespModel, Seq<u8>) {
    let (c, r) = split_line(s);
    let txt = line_text(c);
    if txt == seq!['-', '1'] {
        (RespModel::NullBulkString, r)
    } else {
        let len = len_or_zero(txt);
        if len > r.len() {
            (RespModel::Nothing, Seq::empty())
        } else {
            let body = r.take(len);
            if valid_utf8(body) {
                (RespModel::BulkString(decode_utf8(body)), r.skip(len))
            } else {
                (RespModel::Nothing, r.skip(len))
            }
        }
    }
}

/// One decode step: the type prefix byte, then the variant's own framing.
/// An empty stream or an unrecognized prefix decodes to the sentinel.
pub open spec fn spec_decode(s: Seq<u8>) -> (RespModel, Seq<u8>)
    decreases s.len(), 0int, 0int,
{
    if s.len() == 0 {
        (RespModel::Nothing, s)
    } else {
        let t = s.skip(1);
        if s[0] == 43 {
            let (c, r) = split_line(t);
            (RespModel::SimpleString(line_text(c)), r)
        } else if s[0] == 45 {
            let (c, r) = split_line(t);
            (RespModel::Error(line_text(c)), r)
        } else if s[0] == 58 {
            let (c, r) = split_line(t);
            (RespModel::Integer(int_or_zero(line_text(c))), r)
        } else if s[0] == 36 {
            spec_decode_bulk(t)
        } else if s[0] == 42 {
            spec_decode_array(t)
        } else {
            (RespModel::Nothing, t)
        }
    }
}

/// Decoding after a `*` prefix: the count line, then that many elements.
pub open spec fn spec_decode_array(s: Seq<u8>) -> (RespModel, Seq<u8>)
    decreases s.len(), 2int, 0int,
    via spec_decode_array_dec
{
    let (c, r) = split_line(s);
    let n = count_or_zero(line_text(c));
    let (es, r2) = spec_decode_elems(r, n);
    (RespModel::Array(es), r2)
}

/// Decoding of `n` array elements in order, one trailing line read after
/// each. The length guard only grounds the recursion; decoding never
/// lengthens the stream, so it changes no value.
pub open spec fn spec_decode_elems(s: Seq<u8>, n: int) -> (Seq<RespModel>, Seq<u8>)
    decreases s.len(), 1int, n,
{
    if n <= 0 {
        (Seq::empty(), s)
    } else {
        let (v, r1) = spec_decode(s);
        let (c, r2) = split_line(r1);
        let r2c = if r2.len() <= s.len() {
            r2
        } else {
            s
        };
        let (vs, r3) = spec_decode_elems(r2c, n - 1);
        (seq![v] + vs, r3)
    }
}

#[via_fn]
proof fn spec_decode_array_dec(s: Seq<u8>) {
    lemma_split_line_len(s);
}

/// What one decode step leaves of the stream is never longer than what it
/// was given.
pub proof fn lemma_spec_decode_len(s: Seq<u8>)
    ensures
        spec_decode(s).1.len() <= s.len(),
    decreases s.len(), 0int, 0int,
{
    if s.len() > 0 {
        let t = s.skip(1);
        lemma_split_line_len(t);
        if s[0] == 36 {
            let (c, r) = split_line(t);
            lemma_headers_nonneg(line_text(c));
        } else if s[0] == 42 {
            lemma_spec_decode_array_len(t);
        }
    }
}

pub proof fn lemma_spec_decode_array_len(s: Seq<u8>)
    ensures
        spec_decode_array(s).1.len() <= s.len(),
    decreases s.len(), 2int, 0int,
{
    lemma_split_line_len(s);
    let (c, r) = split_line(s);
    lemma_spec_decode_elems_len(r, count_or_zero(line_text(c)));
}

pub proof fn lemma_spec_decode_elems_len(s: Seq<u8>, n: int)
    ensures
        spec_decode_elems(s, n).1.len() <= s.len(),
    decreases s.len(), 1int, n,
{
    if n > 0 {
        lemma_spec_decode_len(s);
        let r1 = spec_decode(s).1;
        lemma_split_line_len(r1);
        let r2 = split_line(r1).1;
        lemma_spec_decode_elems_len(r2, n - 1);
    }
}


/// Unrolls element decoding by one element, with the length guard
/// discharged.
pub proof fn lemma_decode_elems_unfold(s: Seq<u8>, n: int)
    requires
        n > 0,
    ensures
        ({
            let (v, r1) = spec_decode(s);
            let (c, r2) = split_line(r1);
            let (vs, r3) = spec_decode_elems(r2, n - 1);
            spec_decode_elems(s, n) == (seq![v] + vs, r3)
        }),
{
    lemma_spec_decode_len(s);
    lemma_split_line_len(spec_decode(s).1);
}

/// Where a stream has its first line terminator, its line splits there.
pub proof fn lemma_split_line_at(s: Seq<u8>, i: int)
    requires
        0 <= i,
        i + 1 < s.len(),
        s[i] == 13,
        s[i + 1] == 10,
        forall|m: int| 0 <= m < i ==> !((#[trigger] s[m]) == 13 && s[m + 1] == 10),
    ensures
        split_line(s) == (s.take(i), s.skip(i + 2)),
    decreases i,
{
    if i == 0 {
        assert(s.take(0) =~= Seq::<u8>::empty());
    } else {
        let t = s.skip(1);
        assert(forall|m: int| 0 <= m < i - 1 ==> !((#[trigger] t[m]) == 13 && t[m + 1] == 10)) by {
            assert(forall|m: int| 0 <= m < i - 1 ==> (#[trigger] t[m]) == s[m + 1] && t[m + 1] == s[m + 2]);
        }
        lemma_split_line_at(t, i - 1);
        assert(seq![s[0]] + t.take(i - 1) =~= s.take(i));
        assert(t.skip(i + 1) =~= s.skip(i + 2));
    }
}

/// A stream without a line terminator is all content.
pub proof fn lemma_split_line_none(s: Seq<u8>)
    requires
        forall|m: int| 0 <= m && m + 1 < s.len() ==> !((#[trigger] s[m]) == 13 && s[m + 1] == 10),
    ensures
        split_line(s) == (s, Seq::<u8>::empty()),
    decreases s.len(),
{
    if s.len() == 0 {
    } else if s.len() >= 2 && s[0] == 13 && s[1] == 10 {
        assert(false);
    } else {
        let t = s.skip(1);
        assert(forall|m: int| 0 <= m && m + 1 < t.len() ==> !((#[trigger] t[m]) == 13 && t[m + 1] == 10))
            by {
            assert(forall|m: int|
                0 <= m && m + 1 < t.len() ==> (#[trigger] t[m]) == s[m + 1] && t[m + 1] == s[
                    m + 2]);
        }
        lemma_split_line_none(t);
        assert(seq![s[0]] + t =~= s);
    }
}

/// An incremental decoder over one byte stream: the bytes and how far they
/// are consumed.
pub struct RespParser {
    pub input: Vec<u8>,
    pub pos: usize,
}

impl RespParser {
    /// The bytes not yet consumed.
    pub open spec fn stream(&self) -> Seq<u8> {
        self.input@.skip(self.pos as int)
    }

    pub open spec fn wf(&self) -> bool {
        self.pos <= self.input@.len()
    }

    pub fn new(input: Vec<u8>) -> (r: Self)
        ensures
            r.wf(),
            r.stream() == input@,
    {
        let r = RespParser { input, pos: 0 };
        proof {
            assert(r.stream() =~= r.input@);
        }
        r
    }

    /// Whether the stream is consumed to its end.
    pub fn exhausted(&self) -> (r: bool)
        requires
            self.wf(),
        ensures
            r <==> self.stream().len() == 0,
    {
        self.pos == self.input.len()
    }

    /// Consumes one line: bytes up to and including the first line
    /// terminator, or everything if none follows, returned as text with the
    /// terminator stripped (empty where the content is not valid text).
    #[verifier::loop_isolation(false)]
    pub fn read_line(&mut self) -> (r: String)
        requires
            old(self).wf(),
        ensures
            final(self).wf(),
            final(self).input == old(self).input,
            r@ == line_text(split_line(old(self).stream()).0),
            final(self).stream() == split_line(old(self).stream()).1,
    {
        let ghost s = self.stream();
        let len = self.input.len();
        let start = self.pos;
        let mut j = start;
        while len - j > 1 && !(self.input[j] == 13 && self.input[j + 1] == 10)
            invariant
                start <= j <= len,
                forall|m: int| start <= m < j ==> !((#[trigger] self.input@[m]) == 13 && self.input@[m + 1] == 10),
            decreases len - j,
        {
            j = j + 1;
        }
        proof {
            assert(forall|m: int| 0 <= m < j - start ==> (#[trigger] s[m]) == self.input@[
                start + m]);
        }
        let content_end: usize = if len - j > 1 {
            j
        } else {
            len
        };
        let mut content: Vec<u8> = Vec::new();
        let mut k = start;
        while k < content_end
            invariant
                start <= k <= content_end <= len,
                content@ == self.input@.subrange(start as int, k as int),
            decreases content_end - k,
        {
            let b = self.input[k];
            content.push(b);
            assert(content@ =~= self.input@.subrange(start as int, k + 1));
            k = k + 1;
        }
        proof {
            if len - j > 1 {
                assert(s[j - start] == 13 && s[j - start + 1] == 10);
                lemma_split_line_at(s, j - start);
                assert(content@ =~= s.take(j - start));
            } else {
                assert(forall|m: int|
                    0 <= m && m + 1 < s.len() ==> !((#[trigger] s[m]) == 13 && s[m + 1]
                        == 10)) by {
                    assert(forall|m: int|
                        0 <= m && m + 1 < s.len() ==> (#[trigger] s[m]) == self.input@[start
                            + m] && s[m + 1] == self.input@[start + m + 1]);
                }
                lemma_split_line_none(s);
                assert(content@ =~= s);
            }
        }
        if len - j > 1 {
            self.pos = j + 2;
            proof {
                assert(self.stream() =~= s.skip(j - start + 2));
            }
        } else {
            self.pos = len;
            proof {
                assert(self.stream() =~= Seq::<u8>::empty());
            }
        }
        match try_str_from_bytes(content.as_slice()) {
            Some(st) => {
                let r = st.to_owned();
                proof {
                    assert(encode_utf8(st@) == content@);
                    vstd::utf8::encode_utf8_valid_utf8(st@);
                    vstd::utf8::encode_utf8_decode_utf8(st@);
                }
                r
            },
            _ => String::new(),
        }
    }

    /// Decodes one simple string after its `+` prefix.
    pub fn parse_simple_string(&mut self) -> (r: RespValue)
        requires
            old(self).wf(),
        ensures
            final(self).wf(),
            r@ == RespModel::SimpleString(line_text(split_line(old(self).stream()).0)),
            final(self).stream() == split_line(old(self).stream()).1,
    {
        let line = self.read_line();
        RespValue::SimpleString(line)
    }

    /// Decodes one error after its `-` prefix.
    pub fn parse_errors(&mut self) -> (r: RespValue)
        requires
            old(self).wf(),
        ensures
            final(self).wf(),
            r@ == RespModel::Error(line_text(split_line(old(self).stream()).0)),
            final(self).stream() == split_line(old(self).stream()).1,
    {
        let line = self.read_line();
        RespValue::Error(line)
    }

    /// Decodes one integer after its `:` prefix; a malformed number is
    /// coerced to zero.
    pub fn parse_integers(&mut self) -> (r: RespValue)
        requires
            old(self).wf(),
        ensures
            final(self).wf(),
            r@ == RespModel::Integer(int_or_zero(line_text(split_line(old(self).stream()).0))),
            final(self).stream() == split_line(old(self).stream()).1,
    {
        let line = self.read_line();
        match parse_i64(line.as_str()) {
            Some(i) => RespValue::Integer(i),
            _ => RespValue::Integer(0),
        }
    }

    /// Decodes one bulk string after its `$` prefix: `-1` is the null bulk
    /// string; otherwise the declared number of raw bytes is read (a
    /// malformed length is coerced to zero), and a stream too short, or a
    /// body that is not text, fails the decode.
    #[verifier::loop_isolation(false)]
    pub fn parse_bulk_string(&mut self) -> (r: RespValue)
        requires
            old(self).wf(),
        ensures
            final(self).wf(),
            r@ == spec_decode_bulk(old(self).stream()).0,
            final(self).stream() == spec_decode_bulk(old(self).stream()).1,
    {
        let ghost s = self.stream();
        let size_str = self.read_line();
        let ghost r_rest = split_line(s).1;
        let neg1 = String::from_str("-1");
        proof {
            reveal_strlit("-1");
            assert(neg1@ =~= seq!['-', '1']);
        }
        if size_str == neg1 {
            return RespValue::NullBulkString;
        }
        let size: u64 = match parse_u64(size_str.as_str()) {
            Some(v) => v,
            _ => 0,
        };
        proof {
            lemma_headers_nonneg(size_str@);
        }
        let rem: usize = self.input.len() - self.pos;
        assert(rem == r_rest.len());
        if size > rem as u64 {
            self.pos = self.input.len();
            proof {
                assert(self.stream() =~= Seq::<u8>::empty());
            }
            return RespValue::Nothing;
        }
        let size_us: usize = size as usize;
        let mut body: Vec<u8> = Vec::new();
        let mut k: usize = 0;
        while k < size_us
            invariant
                k <= size_us,
                body@ == self.input@.subrange(self.pos as int, self.pos + k),
            decreases size_us - k,
        {
            let b = self.input[self.pos + k];
            body.push(b);
            assert(body@ =~= self.input@.subrange(self.pos as int, self.pos + k + 1));
            k = k + 1;
        }
        proof {
            assert(body@ =~= r_rest.take(size as int));
        }
        self.pos = self.pos + size_us;
        proof {
            assert(self.stream() =~= r_rest.skip(size as int));
        }
        match try_str_from_bytes(body.as_slice()) {
            Some(st) => {
                let r = st.to_owned();
                proof {
                    vstd::utf8::encode_utf8_decode_utf8(st@);
                }
                RespValue::BulkString(r)
            },
            _ => RespValue::Nothing,
        }
    }

    /// Decodes one array after its `*` prefix: the declared number of
    /// elements (a malformed count is coerced to zero), one trailing line
    /// read and discarded after each element.
    #[verifier::loop_isolation(false)]
    pub fn parse_array(&mut self) -> (r: RespValue)
        requires
            old(self).wf(),
        ensures
            final(self).wf(),
            r@ == spec_decode_array(old(self).stream()).0,
            final(self).stream() == spec_decode_array(old(self).stream()).1,
        decreases old(self).stream().len(), 1int,
    {
        let ghost s = self.stream();
        let count_str = self.read_line();
        let n: usize = match parse_usize(count_str.as_str()) {
            Some(v) => v,
            _ => 0,
        };
        let ghost s0 = self.stream();
        let ghost target = spec_decode_elems(s0, n as int);
        proof {
            lemma_split_line_len(s);
        }
        let mut items: Vec<RespValue> = Vec::new();
        let mut i: usize = 0;
        proof {
            assert(models_of(items@) + spec_decode_elems(s0, n as int).0 =~= spec_decode_elems(
                s0, n as int).0);
        }
        while i < n
            invariant
                i <= n,
                self.wf(),
                self.stream().len() <= s0.len(),
                models_of(items@).len() == i,
                target.0 == models_of(items@) + spec_decode_elems(self.stream(), n - i).0,
                target.1 == spec_decode_elems(self.stream(), n - i).1,
            decreases n - i,
        {
            let ghost cur = self.stream();
            let v = self.parse_input();
            let _ = self.read_line();
            proof {
                lemma_decode_elems_unfold(cur, n - i);
                lemma_spec_decode_len(cur);
                lemma_split_line_len(spec_decode(cur).1);
                lemma_models_of(items@);
                lemma_models_of(items@.push(v));
                assert(models_of(items@.push(v)) =~= models_of(items@).push(v@));
            }
            items.push(v);
            proof {
                assert(models_of(items@) + spec_decode_elems(self.stream(), n - i - 1).0
                    =~= target.0);
            }
            i = i + 1;
        }
        proof {
            assert(models_of(items@) + Seq::<RespModel>::empty() =~= models_of(items@));
        }
        RespValue::Array(items)
    }

    /// Decodes one protocol value from the stream: the sentinel on an empty
    /// stream or an unrecognized prefix, the prefixed variant otherwise.
    pub fn parse_input(&mut self) -> (r: RespValue)
        requires
            old(self).wf(),
        ensures
            final(self).wf(),
            r@ == spec_decode(old(self).stream()).0,
            final(self).stream() == spec_decode(old(self).stream()).1,
        decreases old(self).stream().len(), 0int,
    {
        let ghost s = self.stream();
        if self.pos == self.input.len() {
            proof {
                assert(s.len() == 0);
            }
            return RespValue::Nothing;
        }
        let b = self.input[self.pos];
        self.pos = self.pos + 1;
        proof {
            assert(self.stream() =~= s.skip(1));
            assert(s[0] == b);
        }
        if b == 43 {
            self.parse_simple_string()
        } else if b == 45 {
            self.parse_errors()
        } else if b == 58 {
            self.parse_integers()
        } else if b == 36 {
            self.parse_bulk_string()
        } else if b == 42 {
            self.parse_array()
        } else {
            RespValue::Nothing
        }
    }
}

/// Appends the wire line terminator.
pub fn append_crlf(s: &mut String)
    ensures
        final(s)@ == old(s)@ + crlf(),
{
    s.append("\r\n");
    proof {
        reveal_strlit("\r\n");
        assert(s@ =~= old(s)@ + crlf());
    }
}

} // verus!
