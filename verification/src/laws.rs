//! Laws of the codec: encode/decode round trips and the flattening's
//! structure.

use vstd::prelude::*;
use vstd::utf8::encode_utf8;
use vstd::utf8::encode_scalar;
use vstd::utf8::is_ascii_chars;
use vstd::utf8::is_ascii_chars_encode_utf8;
use vstd::utf8::encode_utf8_valid_utf8;
use vstd::utf8::encode_utf8_decode_utf8;
use crate::numtext::dec_nat;
use crate::numtext::dec_int;
use crate::numtext::is_digit;
use crate::numtext::lemma_dec_nat;
use crate::numtext::lemma_parse_dec_unsigned;
use crate::numtext::lemma_parse_dec_i64;
use crate::parser::RespModel;
use crate::parser::crlf;
use crate::parser::wire_chars;
use crate::parser::wire_concat;
use crate::parser::text_of;
use crate::parser::flat_of;
use crate::parser::flat_one;
use crate::parser::flat_seq;
use crate::parser::split_line;
use crate::parser::line_text;
use crate::parser::spec_decode;
use crate::parser::spec_decode_elems;
use crate::parser::lemma_split_line_at;
use crate::parser::lemma_decode_elems_unfold;

verus! {

broadcast use vstd::seq::group_seq_axioms;

/// UTF-8 encodes a concatenation piecewise.
pub proof fn lemma_encode_concat(a: Seq<char>, b: Seq<char>)
    ensures
        encode_utf8(a + b) == encode_utf8(a) + encode_utf8(b),
    decreases a.len(),
{
    if a.len() == 0 {
        assert(a + b =~= b);
        assert(encode_utf8(a) + encode_utf8(b) =~= encode_utf8(b));
    } else {
        assert((a + b)[0] == a[0]);
        assert((a + b).drop_first() =~= a.drop_first() + b);
        lemma_encode_concat(a.drop_first(), b);
        assert(encode_utf8(a + b) =~= encode_utf8(a) + encode_utf8(b));
    }
}

/// Text is round-trip clean when no carriage return in it is immediately
/// followed by a line feed: only that pair could end a wire line early.
pub open spec fn clean_text(s: Seq<char>) -> bool {
    forall|i: int| 0 <= i < s.len() - 1 ==> !((#[trigger] s[i]) == '\r' && s[i + 1] == '\n')
}

/// Bytes without an embedded line terminator pair.
pub open spec fn no_crlf_pair(b: Seq<u8>) -> bool {
    forall|i: int| 0 <= i < b.len() - 1 ==> !((#[trigger] b[i]) == 13 && b[i + 1] == 10)
}

/// The shape of one character's encoding: no terminator pair inside it, and
/// only the carriage-return and line-feed characters put their bytes at its
/// edges.
proof fn lemma_scalar_bytes(c: char)
    ensures
        encode_scalar(c as u32).len() >= 1,
        no_crlf_pair(encode_scalar(c as u32)),
        encode_scalar(c as u32)[0] == 10 ==> c == '\n',
        encode_scalar(c as u32).last() == 13 ==> c == '\r',
{
    let u = c as u32;
    let sc = encode_scalar(u);
    assert(('\r' as u32) == 13);
    assert(('\n' as u32) == 10);
    if u <= 0x7F {
        assert(u & 0x7F == u) by (bit_vector)
            requires
                u <= 0x7F,
        ;
        assert(sc == seq![(u & 0x7F) as u8]);
    } else {
        assert(forall|y: u32| (0xC0u8 | ((y >> 6) & 0x1F) as u8) >= 0xC0) by (bit_vector);
        assert(forall|y: u32| (0xE0u8 | ((y >> 12) & 0x0F) as u8) >= 0xE0) by (bit_vector);
        assert(forall|y: u32| (0xF0u8 | ((y >> 18) & 0x7) as u8) >= 0xF0) by (bit_vector);
        assert(forall|y: u32| (0x80u8 | (y & 0x3F) as u8) >= 0x80) by (bit_vector);
        assert(forall|y: u32| (0x80u8 | ((y >> 6) & 0x3F) as u8) >= 0x80) by (bit_vector);
        assert(forall|y: u32| (0x80u8 | ((y >> 12) & 0x3F) as u8) >= 0x80) by (bit_vector);
    }
}

/// Clean text encodes to bytes without an embedded terminator pair, and
/// only its own edge characters put terminator bytes at the edges.
pub proof fn lemma_clean_bytes(s: Seq<char>)
    requires
        clean_text(s),
    ensures
        no_crlf_pair(encode_utf8(s)),
        encode_utf8(s).len() > 0 && encode_utf8(s)[0] == 10 ==> s[0] == '\n',
        encode_utf8(s).len() > 0 && encode_utf8(s).last() == 13 ==> s.last() == '\r',
        s.len() > 0 ==> encode_utf8(s).len() > 0,
    decreases s.len(),
{
    if s.len() > 0 {
        let sc = encode_scalar(s[0] as u32);
        let rest = s.drop_first();
        let er = encode_utf8(rest);
        let enc = encode_utf8(s);
        assert(enc == sc + er);
        lemma_scalar_bytes(s[0]);
        assert(clean_text(rest)) by {
            assert(forall|i: int| 0 <= i < rest.len() ==> (#[trigger] rest[i]) == s[i + 1]);
        }
        lemma_clean_bytes(rest);
        assert forall|i: int|
            0 <= i < enc.len() - 1 implies !((#[trigger] enc[i]) == 13 && enc[i + 1] == 10) by {
            if i < sc.len() - 1 {
                assert(enc[i] == sc[i] && enc[i + 1] == sc[i + 1]);
            } else if i == sc.len() - 1 {
                assert(enc[i] == sc.last());
                assert(enc[i + 1] == er[0]);
                if enc[i] == 13 && enc[i + 1] == 10 {
                    assert(s[0] == '\r');
                    assert(rest[0] == '\n');
                    assert(s[1] == '\n');
                    assert(false);
                }
            } else {
                assert(enc[i] == er[i - sc.len()] && enc[i + 1] == er[i + 1 - sc.len()]);
            }
        }
        if er.len() == 0 {
            assert(enc.last() == sc.last());
            assert(s.last() == s[0]);
        } else {
            assert(enc.last() == er.last());
            assert(rest.last() == s.last());
        }
        assert(enc[0] == sc[0]);
    }
}

/// ASCII text encodes to its character codes, one byte each.
pub proof fn lemma_ascii_bytes(s: Seq<char>)
    requires
        is_ascii_chars(s),
    ensures
        encode_utf8(s) == Seq::new(s.len(), |i: int| s[i] as u8),
{
    is_ascii_chars_encode_utf8(s);
}

/// The line before an explicit terminator, when the content holds no
/// terminator pair of its own, is exactly that content.
pub proof fn lemma_split_at_terminator(content: Seq<u8>, rest: Seq<u8>)
    requires
        no_crlf_pair(content),
    ensures
        split_line(content + seq![13u8, 10u8] + rest) == (content, rest),
{
    let s = content + seq![13u8, 10u8] + rest;
    let n = content.len() as int;
    assert(s[n] == 13 && s[n + 1] == 10);
    assert(forall|m: int| 0 <= m <= n ==> (#[trigger] s[m]) == (content + seq![13u8, 10u8])[m]);
    assert forall|m: int| 0 <= m < n implies !((#[trigger] s[m]) == 13 && s[m + 1] == 10) by {
        if m < n - 1 {
            assert(s[m] == content[m] && s[m + 1] == content[m + 1]);
        } else {
            assert(s[m + 1] == 13);
        }
    }
    lemma_split_line_at(s, n);
    assert(s.take(n) =~= content);
    assert(s.skip(n + 2) =~= rest);
}

/// Decimal digit text is ASCII and free of carriage returns.
pub proof fn lemma_dec_nat_clean(a: int)
    requires
        a >= 0,
    ensures
        is_ascii_chars(dec_nat(a)),
        forall|i: int| 0 <= i < dec_nat(a).len() ==> (#[trigger] dec_nat(a)[i]) != '\r',
{
    lemma_dec_nat(a);
    assert(forall|i: int| 0 <= i < dec_nat(a).len() ==> is_digit(#[trigger] dec_nat(a)[i]));
    assert(forall|c: char| is_digit(c) ==> '\0' <= c <= '\u{7f}' && c != '\r');
}

/// Decimal notation, signed or not, is ASCII and free of carriage returns.
pub proof fn lemma_dec_text_clean(n: int)
    ensures
        is_ascii_chars(dec_int(n)),
        forall|i: int| 0 <= i < dec_int(n).len() ==> (#[trigger] dec_int(n)[i]) != '\r',
{
    let a = if n >= 0 {
        n
    } else {
        -n
    };
    lemma_dec_nat_clean(a);
    if n < 0 {
        assert(dec_int(n) == seq!['-'] + dec_nat(a));
        assert(forall|i: int|
            1 <= i < dec_int(n).len() ==> (#[trigger] dec_int(n)[i]) == dec_nat(a)[i - 1]);
        assert(dec_int(n)[0] == '-');
    } else {
        assert(dec_int(n) == dec_nat(a));
    }
}

/// A value a round trip is owed for: a leaf. Text payloads hold no embedded
/// line terminator pair, and counted sizes fit the machine's words.
pub open spec fn leaf_ok(m: RespModel) -> bool {
    match m {
        RespModel::SimpleString(s) => clean_text(s),
        RespModel::Error(s) => clean_text(s),
        RespModel::Integer(n) => i64::MIN <= n <= i64::MAX,
        RespModel::BulkString(s) => encode_utf8(s).len() <= u64::MAX,
        RespModel::NullBulkString => true,
        _ => false,
    }
}

/// What a leaf's decode leaves of the stream: a bulk string leaves its own
/// trailing terminator, everything else consumes its framing whole.
pub open spec fn leaf_tail(m: RespModel, x: Seq<u8>) -> Seq<u8> {
    if m is BulkString {
        seq![13u8, 10u8] + x
    } else {
        x
    }
}

/// Decoding a bulk string's wire bytes, whatever follows them: the length
/// line, then exactly that many body bytes, leaving the trailing
/// terminator.
#[verifier::rlimit(50)]
proof fn lemma_bulk_leaf(s: Seq<char>, x: Seq<u8>)
    requires
        encode_utf8(s).len() <= u64::MAX,
    ensures
        spec_decode(encode_utf8(wire_chars(RespModel::BulkString(s))) + x) == (
            RespModel::BulkString(s),
            seq![13u8, 10u8] + x,
        ),
{
    broadcast use vstd::seq::group_seq_axioms;

    let m = RespModel::BulkString(s);
    let ln = encode_utf8(s).len() as int;
    lemma_dec_nat_clean(ln);
    lemma_dec_nat(ln);
    let hdr = dec_nat(ln);
    assert(clean_text(hdr));
    assert(wire_chars(m) =~= (seq!['$'] + hdr + crlf()) + (s + crlf()));
    lemma_encode_concat(seq!['$'] + hdr + crlf(), s + crlf());
    lemma_encode_concat(s, crlf());
    assert(is_ascii_chars(crlf())) by {
        assert(crlf()[0] == '\r' && crlf()[1] == '\n');
    }
    lemma_ascii_bytes(crlf());
    assert(encode_utf8(crlf()) =~= seq![13u8, 10u8]);
    lemma_prefixed_line(hdr, encode_utf8(s) + seq![13u8, 10u8] + x, '$', 36);
    let bytes = encode_utf8(wire_chars(m)) + x;
    assert(bytes =~= encode_utf8(seq!['$'] + hdr + crlf()) + (encode_utf8(s) + seq![
        13u8,
        10u8,
    ] + x));
    // the header is digits, so it is not the null marker
    assert(is_digit(hdr[0]));
    assert(hdr != seq!['-', '1']);
    lemma_parse_dec_unsigned(ln);
    assert(crate::parser::len_or_zero(hdr) == ln);
    let r = encode_utf8(s) + seq![13u8, 10u8] + x;
    assert(r.len() >= ln);
    assert(r.take(ln) =~= encode_utf8(s));
    encode_utf8_valid_utf8(s);
    encode_utf8_decode_utf8(s);
    assert(r.skip(ln) =~= seq![13u8, 10u8] + x);
}

/// Decoding a leaf's wire bytes, whatever follows them, gives the leaf
/// back.
#[verifier::rlimit(50)]
pub proof fn lemma_leaf_round_trip(m: RespModel, x: Seq<u8>)
    requires
        leaf_ok(m),
    ensures
        spec_decode(encode_utf8(wire_chars(m)) + x) == (m, leaf_tail(m, x)),
{
    broadcast use vstd::seq::group_seq_axioms;

    assert(is_ascii_chars(crlf())) by {
        assert(crlf()[0] == '\r' && crlf()[1] == '\n');
    }
    lemma_ascii_bytes(crlf());
    assert(encode_utf8(crlf()) =~= seq![13u8, 10u8]);
    match m {
        RespModel::SimpleString(s) => {
            lemma_prefixed_line(s, x, '+', 43);
        },
        RespModel::Error(s) => {
            lemma_prefixed_line(s, x, '-', 45);
        },
        RespModel::Integer(n) => {
            lemma_dec_text_clean(n);
            assert(clean_text(dec_int(n)));
            lemma_prefixed_line(dec_int(n), x, ':', 58);
            lemma_parse_dec_i64(n as i64);
            assert(crate::parser::int_or_zero(dec_int(n)) == n);
        },
        RespModel::NullBulkString => {
            let hdr = seq!['-', '1'];
            assert(wire_chars(m) =~= seq!['$'] + hdr + crlf());
            assert(clean_text(hdr));
            lemma_prefixed_line(hdr, x, '$', 36);
            assert(line_text(encode_utf8(hdr)) =~= seq!['-', '1']);
        },
        RespModel::BulkString(s) => {
            lemma_bulk_leaf(s, x);
        },
        _ => {},
    }
}

/// Decoding a line-framed leaf whose payload follows a one-character
/// prefix: the helper behind each leaf case.
proof fn lemma_prefixed_line(s: Seq<char>, x: Seq<u8>, p: char, pb: u8)
    requires
        clean_text(s),
        '\0' <= p <= '\u{7f}',
        p as u8 == pb,
        pb != 13,
    ensures
        ({
            let bytes = encode_utf8(seq![p] + s + crlf()) + x;
            &&& bytes.len() > 0
            &&& bytes[0] == pb
            &&& bytes.skip(1) == encode_utf8(s) + seq![13u8, 10u8] + x
            &&& split_line(encode_utf8(s) + seq![13u8, 10u8] + x) == (encode_utf8(s), x)
            &&& line_text(encode_utf8(s)) == s
        }),
{
    assert(is_ascii_chars(seq![p]));
    lemma_ascii_bytes(seq![p]);
    assert(encode_utf8(seq![p]) =~= seq![pb]);
    assert(is_ascii_chars(crlf())) by {
        assert(crlf()[0] == '\r' && crlf()[1] == '\n');
    }
    lemma_ascii_bytes(crlf());
    assert(encode_utf8(crlf()) =~= seq![13u8, 10u8]);
    lemma_encode_concat(seq![p] + s, crlf());
    lemma_encode_concat(seq![p], s);
    lemma_clean_bytes(s);
    lemma_split_at_terminator(encode_utf8(s), x);
    encode_utf8_valid_utf8(s);
    encode_utf8_decode_utf8(s);
    let bytes = encode_utf8(seq![p] + s + crlf()) + x;
    assert(bytes =~= seq![pb] + (encode_utf8(s) + seq![13u8, 10u8] + x));
    assert(bytes.skip(1) =~= encode_utf8(s) + seq![13u8, 10u8] + x);
}

/// A value an array element's decode is exact for: a leaf, or an array of
/// such values.
pub open spec fn elem_ok(m: RespModel) -> bool
    decreases m, 0int,
{
    match m {
        RespModel::Array(vs) => vs.len() <= usize::MAX && elems_ok(vs),
        _ => leaf_ok(m),
    }
}

pub open spec fn elems_ok(vs: Seq<RespModel>) -> bool
    decreases vs, 1int,
{
    if vs.len() == 0 {
        true
    } else {
        elem_ok(vs[0]) && elems_ok(vs.drop_first())
    }
}

/// The bytes of one array element on the wire: its own encoding, followed
/// by a line terminator where the element does not already leave one (a
/// bulk string's body keeps its trailing terminator for the reader; a
/// nested array's elements each carry their own).
pub open spec fn elem_bytes(m: RespModel) -> Seq<u8>
    decreases m, 0int,
{
    match m {
        RespModel::BulkString(_) => encode_utf8(wire_chars(m)),
        RespModel::Array(vs) => encode_utf8(seq!['*'] + dec_nat(vs.len() as int) + crlf())
            + composed_elems(vs) + seq![13u8, 10u8],
        _ => encode_utf8(wire_chars(m)) + seq![13u8, 10u8],
    }
}

/// The bytes of an array's elements in order.
pub open spec fn composed_elems(vs: Seq<RespModel>) -> Seq<u8>
    decreases vs, 1int,
{
    if vs.len() == 0 {
        Seq::empty()
    } else {
        elem_bytes(vs[0]) + composed_elems(vs.drop_first())
    }
}

/// Decoding a composed array with its count header, whatever follows it,
/// gives exactly that array.
pub proof fn lemma_array_decode(vs: Seq<RespModel>, x: Seq<u8>)
    requires
        elems_ok(vs),
        vs.len() <= usize::MAX,
    ensures
        spec_decode(
            encode_utf8(seq!['*'] + dec_nat(vs.len() as int) + crlf()) + (composed_elems(vs)
                + x),
        ) == (RespModel::Array(vs), x),
    decreases vs, 1int,
{
    let n = vs.len() as int;
    lemma_dec_nat_clean(n);
    assert(clean_text(dec_nat(n)));
    lemma_prefixed_line(dec_nat(n), composed_elems(vs) + x, '*', 42);
    lemma_parse_dec_unsigned(n);
    assert(crate::parser::count_or_zero(dec_nat(n)) == n);
    lemma_composed_decode(vs, x);
}

/// Array composition: element decoding consumes the elements' bytes one by
/// one and yields exactly those elements in order, whatever follows.
pub proof fn lemma_composed_decode(vs: Seq<RespModel>, x: Seq<u8>)
    requires
        elems_ok(vs),
    ensures
        spec_decode_elems(composed_elems(vs) + x, vs.len() as int) == (vs, x),
    decreases vs, 0int,
{
    if vs.len() == 0 {
        assert(composed_elems(vs) + x =~= x);
        assert(spec_decode_elems(x, 0).0 =~= vs);
    } else {
        let v0 = vs[0];
        let rest = vs.drop_first();
        let xr = composed_elems(rest) + x;
        let bytes = composed_elems(vs) + x;
        match v0 {
            RespModel::BulkString(_) => {
                assert(elems_ok(vs));
                assert(elem_ok(vs[0]));
                assert(leaf_ok(v0));
                assert(composed_elems(vs) == elem_bytes(vs[0]) + composed_elems(
                    vs.drop_first(),
                ));
                assert(elem_bytes(v0) == encode_utf8(wire_chars(v0)));
                assert(bytes =~= encode_utf8(wire_chars(v0)) + xr);
                lemma_leaf_round_trip(v0, xr);
                assert(spec_decode(bytes) == (v0, seq![13u8, 10u8] + xr));
            },
            RespModel::Array(ws) => {
                assert(decreases_to!(vs => vs[0]));
                assert(decreases_to!(v0 => ws));
                assert(elem_ok(v0));
                assert(composed_elems(vs) == elem_bytes(v0) + composed_elems(rest));
                assert(elem_bytes(v0) == encode_utf8(
                    seq!['*'] + dec_nat(ws.len() as int) + crlf(),
                ) + composed_elems(ws) + seq![13u8, 10u8]);
                assert(bytes =~= encode_utf8(seq!['*'] + dec_nat(ws.len() as int) + crlf()) + (
                composed_elems(ws) + (seq![13u8, 10u8] + xr)));
                lemma_array_decode(ws, seq![13u8, 10u8] + xr);
                assert(spec_decode(bytes) == (v0, seq![13u8, 10u8] + xr));
            },
            _ => {
                assert(elems_ok(vs));
                assert(elem_ok(vs[0]));
                assert(leaf_ok(v0));
                assert(composed_elems(vs) == elem_bytes(vs[0]) + composed_elems(
                    vs.drop_first(),
                ));
                assert(elem_bytes(v0) == encode_utf8(wire_chars(v0)) + seq![13u8, 10u8]);
                assert(bytes =~= encode_utf8(wire_chars(v0)) + (seq![13u8, 10u8] + xr));
                lemma_leaf_round_trip(v0, seq![13u8, 10u8] + xr);
                assert(spec_decode(bytes) == (v0, seq![13u8, 10u8] + xr));
            },
        }
        assert(split_line(seq![13u8, 10u8] + xr) == (Seq::<u8>::empty(), xr)) by {
            let t = seq![13u8, 10u8] + xr;
            assert(t[0] == 13 && t[1] == 10);
            assert(t.skip(2) =~= xr);
        }
        lemma_decode_elems_unfold(bytes, vs.len() as int);
        lemma_composed_decode(rest, x);
        assert(seq![v0] + rest =~= vs);
    }
}

/// Decoding a whole composed array: the count header, then the composed
/// elements, gives exactly that array and consumes everything.
pub proof fn lemma_array_composition(vs: Seq<RespModel>)
    requires
        elems_ok(vs),
        vs.len() <= usize::MAX,
    ensures
        spec_decode(
            encode_utf8(seq!['*'] + dec_nat(vs.len() as int) + crlf()) + composed_elems(vs),
        ) == (RespModel::Array(vs), Seq::<u8>::empty()),
{
    lemma_array_decode(vs, Seq::empty());
    assert(composed_elems(vs) + Seq::<u8>::empty() =~= composed_elems(vs));
}

/// The first element's wire bytes open an array's concatenated encoding.
proof fn lemma_wire_concat_first(vs: Seq<RespModel>)
    requires
        vs.len() > 0,
    ensures
        wire_concat(vs) == wire_chars(vs[0]) + wire_concat(vs.drop_first()),
    decreases vs.len(),
{
    if vs.len() == 1 {
        assert(vs.drop_last() =~= Seq::<RespModel>::empty());
        assert(vs.drop_first() =~= Seq::<RespModel>::empty());
        assert(wire_concat(vs) =~= wire_chars(vs[0]) + wire_concat(vs.drop_first()));
    } else {
        let a = vs.drop_last();
        lemma_wire_concat_first(a);
        assert(vs.drop_first().drop_last() =~= a.drop_first());
        assert(vs.drop_first().last() == vs.last());
        assert(wire_concat(vs.drop_first()) == wire_concat(a.drop_first()) + wire_chars(
            vs.last(),
        ));
        assert(wire_concat(vs) =~= wire_chars(vs[0]) + wire_concat(vs.drop_first()));
    }
}

/// For an array of bulk strings the composed bytes are exactly the
/// encoder's output: each element carries its own trailing terminator.
proof fn lemma_composed_all_bulk(vs: Seq<RespModel>)
    requires
        forall|i: int| 0 <= i < vs.len() ==> (#[trigger] vs[i]) is BulkString,
    ensures
        composed_elems(vs) == encode_utf8(wire_concat(vs)),
    decreases vs.len(),
{
    if vs.len() == 0 {
        assert(wire_concat(vs) == Seq::<char>::empty());
    } else {
        assert(vs[0] is BulkString);
        assert(forall|i: int|
            0 <= i < vs.drop_first().len() ==> (#[trigger] vs.drop_first()[i]) == vs[i + 1]);
        lemma_wire_concat_first(vs);
        lemma_encode_concat(wire_chars(vs[0]), wire_concat(vs.drop_first()));
        lemma_composed_all_bulk(vs.drop_first());
        assert(composed_elems(vs) == elem_bytes(vs[0]) + composed_elems(vs.drop_first()));
        assert(elem_bytes(vs[0]) == encode_utf8(wire_chars(vs[0])));
        assert(composed_elems(vs) =~= encode_utf8(wire_concat(vs)));
    }
}

/// An all-bulk element sequence is composition-ready.
proof fn lemma_all_bulk_elems_ok(vs: Seq<RespModel>)
    requires
        forall|i: int| 0 <= i < vs.len() ==> (#[trigger] vs[i]) is BulkString && leaf_ok(vs[i]),
    ensures
        elems_ok(vs),
    decreases vs.len(),
{
    if vs.len() > 0 {
        assert(vs[0] is BulkString && leaf_ok(vs[0]));
        assert(elem_ok(vs[0]));
        assert(forall|i: int|
            0 <= i < vs.drop_first().len() ==> (#[trigger] vs.drop_first()[i]) == vs[i + 1]);
        lemma_all_bulk_elems_ok(vs.drop_first());
        assert(elems_ok(vs));
    }
}

/// A value the encoder and decoder round-trip: any leaf, or an array of
/// bulk strings. Other arrays fall to the decoder's per-element line read,
/// which only a bulk string's dangling terminator feeds.
pub open spec fn round_trippable(m: RespModel) -> bool {
    match m {
        RespModel::Array(vs) => vs.len() <= usize::MAX && forall|i: int|
            0 <= i < vs.len() ==> (#[trigger] vs[i]) is BulkString && leaf_ok(vs[i]),
        _ => leaf_ok(m),
    }
}

/// Round trip: decoding the bytes produced by encoding a round-trippable
/// value yields that value. Every leaf but a bulk string also consumes its
/// bytes whole; a bulk string leaves its trailing terminator behind.
pub proof fn lemma_round_trip(m: RespModel)
    requires
        round_trippable(m),
    ensures
        spec_decode(encode_utf8(wire_chars(m))).0 == m,
        spec_decode(encode_utf8(wire_chars(m))).1 == leaf_tail(m, Seq::<u8>::empty()),
{
    match m {
        RespModel::Array(vs) => {
            assert(wire_chars(m) =~= (seq!['*'] + dec_nat(vs.len() as int) + crlf())
                + wire_concat(vs));
            lemma_encode_concat(seq!['*'] + dec_nat(vs.len() as int) + crlf(), wire_concat(vs));
            lemma_composed_all_bulk(vs);
            lemma_all_bulk_elems_ok(vs);
            lemma_array_composition(vs);
            assert(encode_utf8(wire_chars(m)) =~= encode_utf8(
                seq!['*'] + dec_nat(vs.len() as int) + crlf(),
            ) + composed_elems(vs));
        },
        _ => {
            lemma_leaf_round_trip(m, Seq::empty());
            assert(encode_utf8(wire_chars(m)) + Seq::<u8>::empty() =~= encode_utf8(
                wire_chars(m),
            ));
        },
    }
}

/// Integer round trip: decoding the wire form of any signed 64-bit
/// integer yields that integer and consumes the bytes whole.
pub proof fn lemma_integer_round_trip(n: i64)
    ensures
        spec_decode(encode_utf8(wire_chars(RespModel::Integer(n as int)))) == (
            RespModel::Integer(n as int),
            Seq::<u8>::empty(),
        ),
{
    lemma_round_trip(RespModel::Integer(n as int));
}

/// Bulk string exactness: decoding a length header and exactly that many
/// payload bytes yields the payload untouched, whatever it holds.
pub proof fn lemma_bulk_exactness(p: Seq<char>)
    requires
        encode_utf8(p).len() <= u64::MAX,
    ensures
        spec_decode(
            encode_utf8(
                seq!['$'] + dec_nat(encode_utf8(p).len() as int) + crlf() + p + crlf(),
            ),
        ).0 == RespModel::BulkString(p),
{
    let m = RespModel::BulkString(p);
    assert(wire_chars(m) == seq!['$'] + dec_nat(encode_utf8(p).len() as int) + crlf() + p
        + crlf());
    lemma_round_trip(m);
}

/// Flattening distributes over concatenation of element sequences.
pub proof fn lemma_flat_seq_concat(a: Seq<RespModel>, b: Seq<RespModel>)
    ensures
        flat_seq(a + b) == flat_seq(a) + flat_seq(b),
    decreases b.len(),
{
    if b.len() == 0 {
        assert(a + b =~= a);
        assert(flat_seq(a) + flat_seq(b) =~= flat_seq(a));
    } else {
        assert((a + b).drop_last() =~= a + b.drop_last());
        assert((a + b).last() == b.last());
        lemma_flat_seq_concat(a, b.drop_last());
        assert(flat_seq(a + b) =~= flat_seq(a) + flat_seq(b));
    }
}

/// Flattening an array of non-array leaves gives exactly their display
/// texts, in order.
pub proof fn lemma_flatten_leaves(vs: Seq<RespModel>)
    requires
        forall|i: int| 0 <= i < vs.len() ==> !((#[trigger] vs[i]) is Array),
    ensures
        flat_of(RespModel::Array(vs)) == Seq::new(vs.len(), |i: int| text_of(vs[i])),
    decreases vs.len(),
{
    if vs.len() == 0 {
        assert(flat_seq(vs) =~= Seq::new(vs.len(), |i: int| text_of(vs[i])));
    } else {
        lemma_flatten_leaves(vs.drop_last());
        assert(flat_one(vs.last()) == seq![text_of(vs.last())]);
        assert(flat_seq(vs) =~= Seq::new(vs.len(), |i: int| text_of(vs[i])));
    }
}

/// A nested array is expanded in place: flattening the surrounding array
/// splices the nested elements' flattening between its neighbours'.
pub proof fn lemma_flatten_expands_in_place(
    pre: Seq<RespModel>,
    ws: Seq<RespModel>,
    post: Seq<RespModel>,
)
    ensures
        flat_seq(pre + seq![RespModel::Array(ws)] + post) == flat_seq(pre) + flat_seq(ws)
            + flat_seq(post),
{
    lemma_flat_seq_concat(pre + seq![RespModel::Array(ws)], post);
    lemma_flat_seq_concat(pre, seq![RespModel::Array(ws)]);
    let one = seq![RespModel::Array(ws)];
    assert(one.drop_last() =~= Seq::<RespModel>::empty());
    assert(one.last() == RespModel::Array(ws));
    assert(flat_one(one.last()) == flat_seq(ws));
    assert(flat_seq(Seq::<RespModel>::empty()) + flat_seq(ws) =~= flat_seq(ws));
    assert(flat_seq(one) =~= flat_seq(ws));
}

} // verus!
