//! Decoding undoes encoding: of one value, and of any number of values
//! sent one behind the other.

use vstd::prelude::*;
use crate::decimal::{
    decimal,
    lemma_decimal_has_no_line_break,
    lemma_parse_decimal_of_decimal,
};
use crate::error::ErrorView;
use crate::resp::{
    crlf,
    crlf_at,
    decode,
    decode_all,
    decode_items,
    decode_length,
    decode_line,
    decode_value,
    encode,
    encode_all,
    find_crlf,
    lemma_decode_value_advances,
    lemma_find_crlf,
    RespView,
    TAG_ARRAY,
    TAG_BULK_STRING,
    TAG_ERROR,
    TAG_INTEGER,
    TAG_SIMPLE_STRING,
};

verus! {

/// Tells whether `text` can stand on a line: it holds no line break, that
/// is no carriage return with a line feed right behind it.
pub open spec fn is_line(text: Seq<u8>) -> bool {
    forall|i: int| !crlf_at(text, i)
}

/// Tells whether a value can be sent: a simple string or an error holds no
/// line break, a length or a count fits in 64 bits with a sign, and the
/// values of an array can be sent themselves.
pub open spec fn well_formed(v: RespView) -> bool
    decreases v,
{
    match v {
        RespView::SimpleString(text) => is_line(text),
        RespView::Error(text) => is_line(text),
        RespView::Integer(_) => true,
        RespView::BulkString(None) => true,
        RespView::BulkString(Some(payload)) => payload.len() <= i64::MAX,
        RespView::Array(None) => true,
        RespView::Array(Some(items)) => items.len() <= i64::MAX && forall|i: int|
            0 <= i < items.len() ==> well_formed(#[trigger] items[i]),
    }
}

/// Tells whether every value of `vs` can be sent.
pub open spec fn all_well_formed(vs: Seq<RespView>) -> bool {
    forall|i: int| 0 <= i < vs.len() ==> well_formed(#[trigger] vs[i])
}

/// Tells whether the bytes `part` stand in `s` from `pos` on.
pub open spec fn holds(s: Seq<u8>, pos: int, part: Seq<u8>) -> bool {
    &&& 0 <= pos
    &&& pos + part.len() <= s.len()
    &&& forall|k: int| 0 <= k < part.len() ==> s[pos + k] == #[trigger] part[k]
}

/// Where two parts stand one behind the other, each stands in its place.
proof fn lemma_holds_split(s: Seq<u8>, pos: int, a: Seq<u8>, b: Seq<u8>)
    requires
        holds(s, pos, a + b),
    ensures
        holds(s, pos, a),
        holds(s, pos + a.len(), b),
{
    let whole = a + b;
    assert forall|k: int| 0 <= k < a.len() implies s[pos + k] == #[trigger] a[k] by {
        assert(whole[k] == a[k]);
    }
    assert forall|k: int| 0 <= k < b.len() implies s[pos + a.len() + k] == #[trigger] b[k] by {
        assert(whole[a.len() + k] == b[k]);
    }
}

/// The bytes that stand in `s` from `pos` on are a subrange of `s`.
proof fn lemma_holds_subrange(s: Seq<u8>, pos: int, part: Seq<u8>)
    requires
        holds(s, pos, part),
    ensures
        s.subrange(pos, pos + part.len()) == part,
{
    assert(s.subrange(pos, pos + part.len()) =~= part);
}

/// A line that holds no line break, with a line break behind it, is read
/// back as that line.
proof fn lemma_decode_line(s: Seq<u8>, from: int, line: Seq<u8>)
    requires
        holds(s, from, line + crlf()),
        is_line(line),
    ensures
        decode_line(s, from) == Ok::<(Seq<u8>, int), ErrorView>((line, from + line.len() + 2)),
{
    lemma_holds_split(s, from, line, crlf());
    let end = from + line.len();
    assert(s[end] == crlf()[0] && s[end + 1] == crlf()[1]);
    assert(crlf_at(s, end));
    assert forall|j: int| from <= j < end implies !crlf_at(s, j) by {
        if crlf_at(s, j) {
            if j + 1 < end {
                assert(s[j] == line[j - from] && s[j + 1] == line[j - from + 1]);
                assert(crlf_at(line, j - from));
            }
        }
    }
    lemma_find_crlf(s, from);
    lemma_holds_subrange(s, from, line);
}

/// The bytes of a decimal form hold no line break.
proof fn lemma_decimal_is_line(n: int)
    ensures
        is_line(decimal(n)),
{
    lemma_decimal_has_no_line_break(n);
}

/// The decimal form of a number that fits in 64 bits, with a line break
/// behind it, is read back as that number.
proof fn lemma_decode_length(s: Seq<u8>, from: int, n: i64)
    requires
        holds(s, from, decimal(n as int) + crlf()),
    ensures
        decode_length(s, from) == Ok::<(i64, int), ErrorView>(
            (n, from + decimal(n as int).len() + 2),
        ),
{
    lemma_decimal_is_line(n as int);
    lemma_decode_line(s, from, decimal(n as int));
    lemma_parse_decimal_of_decimal(n as int);
}

/// The encodings of two sequences of values, one behind the other, are the
/// encoding of the two sequences joined.
pub proof fn lemma_encode_all_concat(a: Seq<RespView>, b: Seq<RespView>)
    ensures
        encode_all(a + b) == encode_all(a) + encode_all(b),
    decreases b.len(),
{
    if b.len() == 0 {
        assert(a + b =~= a);
        assert(encode_all(a) + encode_all(b) =~= encode_all(a));
    } else {
        lemma_encode_all_concat(a, b.drop_last());
        assert((a + b).drop_last() =~= a + b.drop_last());
        assert((a + b).last() == b.last());
        assert(encode_all(a + b) =~= encode_all(a) + encode_all(b));
    }
}

/// The encoding of a sequence of one value is the encoding of that value.
pub proof fn lemma_encode_all_single(v: RespView)
    ensures
        encode_all(seq![v]) == encode(v),
{
    let one = seq![v];
    assert(one.drop_last() =~= Seq::<RespView>::empty());
    assert(encode_all(one.drop_last()) =~= Seq::<u8>::empty());
    assert(one.last() == v);
    assert(encode_all(one) =~= encode(v));
}

/// The encoding of a sequence of values begins with that of its first.
proof fn lemma_encode_all_first(vs: Seq<RespView>)
    requires
        vs.len() > 0,
    ensures
        encode_all(vs) == encode(vs[0]) + encode_all(vs.drop_first()),
{
    let first = seq![vs[0]];
    assert(first + vs.drop_first() =~= vs);
    lemma_encode_all_concat(first, vs.drop_first());
    lemma_encode_all_single(vs[0]);
}

/// An encoding has at least three bytes.
pub proof fn lemma_encode_is_not_empty(v: RespView)
    ensures
        encode(v).len() >= 3,
{
}

/// Where the encoding of a value that can be sent stands in a buffer,
/// decoding reads that value and ends right behind the encoding.
pub proof fn lemma_decode_encoded(s: Seq<u8>, pos: int, v: RespView)
    requires
        well_formed(v),
        holds(s, pos, encode(v)),
    ensures
        decode_value(s, pos) == Ok::<(RespView, int), ErrorView>((v, pos + encode(v).len())),
    decreases v,
{
    let bytes = encode(v);
    assert(s[pos] == bytes[0]);
    match v {
        RespView::SimpleString(text) => {
            assert(bytes =~= seq![TAG_SIMPLE_STRING] + (text + crlf()));
            lemma_holds_split(s, pos, seq![TAG_SIMPLE_STRING], text + crlf());
            lemma_decode_line(s, pos + 1, text);
        },
        RespView::Error(text) => {
            assert(bytes =~= seq![TAG_ERROR] + (text + crlf()));
            lemma_holds_split(s, pos, seq![TAG_ERROR], text + crlf());
            lemma_decode_line(s, pos + 1, text);
        },
        RespView::Integer(n) => {
            assert(bytes =~= seq![TAG_INTEGER] + (decimal(n as int) + crlf()));
            lemma_holds_split(s, pos, seq![TAG_INTEGER], decimal(n as int) + crlf());
            lemma_decode_length(s, pos + 1, n);
        },
        RespView::BulkString(None) => {
            assert(bytes =~= seq![TAG_BULK_STRING] + (decimal(-1) + crlf()));
            lemma_holds_split(s, pos, seq![TAG_BULK_STRING], decimal(-1) + crlf());
            lemma_decode_length(s, pos + 1, -1i64);
        },
        RespView::BulkString(Some(payload)) => {
            let n = payload.len() as i64;
            let head = decimal(n as int) + crlf();
            let tail = payload + crlf();
            assert(bytes =~= seq![TAG_BULK_STRING] + (head + tail));
            lemma_holds_split(s, pos, seq![TAG_BULK_STRING], head + tail);
            lemma_holds_split(s, pos + 1, head, tail);
            lemma_decode_length(s, pos + 1, n);
            let start = pos + 1 + head.len();
            lemma_holds_split(s, start, payload, crlf());
            assert(s[start + n] == crlf()[0] && s[start + n + 1] == crlf()[1]);
            lemma_holds_subrange(s, start, payload);
        },
        RespView::Array(None) => {
            assert(bytes =~= seq![TAG_ARRAY] + (decimal(-1) + crlf()));
            lemma_holds_split(s, pos, seq![TAG_ARRAY], decimal(-1) + crlf());
            lemma_decode_length(s, pos + 1, -1i64);
        },
        RespView::Array(Some(items)) => {
            let n = items.len() as i64;
            let head = decimal(n as int) + crlf();
            assert(bytes =~= seq![TAG_ARRAY] + (head + encode_all(items)));
            lemma_holds_split(s, pos, seq![TAG_ARRAY], head + encode_all(items));
            lemma_holds_split(s, pos + 1, head, encode_all(items));
            lemma_decode_length(s, pos + 1, n);
            lemma_decode_encoded_items(s, pos + 1 + head.len(), items);
        },
    }
}

/// Where the encodings of values that can be sent stand in a buffer one
/// behind the other, decoding as many items reads those values and ends
/// right behind the last encoding.
pub proof fn lemma_decode_encoded_items(s: Seq<u8>, pos: int, items: Seq<RespView>)
    requires
        all_well_formed(items),
        holds(s, pos, encode_all(items)),
    ensures
        decode_items(s, pos, items.len()) == Ok::<(Seq<RespView>, int), ErrorView>(
            (items, pos + encode_all(items).len()),
        ),
    decreases items,
{
    if items.len() == 0 {
        assert(items =~= Seq::<RespView>::empty());
        assert(encode_all(items) =~= Seq::<u8>::empty());
    } else {
        let first = items[0];
        let rest = items.drop_first();
        let next = pos + encode(first).len();
        lemma_encode_all_first(items);
        lemma_holds_split(s, pos, encode(first), encode_all(rest));
        lemma_decode_encoded(s, pos, first);
        lemma_encode_is_not_empty(first);
        assert(all_well_formed(rest)) by {
            assert forall|i: int| 0 <= i < rest.len() implies well_formed(#[trigger] rest[i]) by {
                assert(rest[i] == items[i + 1]);
            }
        }
        lemma_decode_encoded_items(s, next, rest);
        assert(seq![first] + rest =~= items);
        assert(pos < next <= s.len());
        assert(rest.len() == items.len() - 1);
        assert(decode_items(s, next, rest.len()) == Ok::<(Seq<RespView>, int), ErrorView>(
            (rest, next + encode_all(rest).len()),
        ));
    }
}

/// Where the encodings of values that can be sent stand one behind the
/// other up to the end of a buffer, decoding reads exactly those values.
pub proof fn lemma_decode_all_encoded(s: Seq<u8>, pos: int, vs: Seq<RespView>)
    requires
        all_well_formed(vs),
        holds(s, pos, encode_all(vs)),
        pos + encode_all(vs).len() == s.len(),
    ensures
        decode_all(s, pos) == Ok::<Seq<RespView>, ErrorView>(vs),
    decreases vs.len(),
{
    if vs.len() == 0 {
        assert(vs =~= Seq::<RespView>::empty());
    } else {
        let first = vs[0];
        let rest = vs.drop_first();
        lemma_encode_all_first(vs);
        lemma_holds_split(s, pos, encode(first), encode_all(rest));
        lemma_decode_encoded(s, pos, first);
        lemma_encode_is_not_empty(first);
        assert(all_well_formed(rest)) by {
            assert forall|i: int| 0 <= i < rest.len() implies well_formed(#[trigger] rest[i]) by {
                assert(rest[i] == vs[i + 1]);
            }
        }
        lemma_decode_all_encoded(s, pos + encode(first).len(), rest);
        assert(seq![first] + rest =~= vs);
    }
}

/// Decoding the encoding of a value gives that value, and nothing else.
pub proof fn lemma_round_trip(v: RespView)
    requires
        well_formed(v),
    ensures
        decode(encode(v)) == Ok::<Seq<RespView>, ErrorView>(seq![v]),
{
    lemma_encode_all_single(v);
    lemma_decode_all_encoded(encode(v), 0, seq![v]);
}

/// Decoding the encodings of any number of values, joined in order, gives
/// exactly those values in that order.
pub proof fn lemma_pipelining(vs: Seq<RespView>)
    requires
        all_well_formed(vs),
    ensures
        decode(encode_all(vs)) == Ok::<Seq<RespView>, ErrorView>(vs),
{
    lemma_decode_all_encoded(encode_all(vs), 0, vs);
}

/// A line that was read holds no line break.
proof fn lemma_decoded_line_is_line(s: Seq<u8>, from: int)
    ensures
        decode_line(s, from) matches Ok((line, _)) ==> is_line(line),
{
    lemma_find_crlf(s, from);
    if let Some(end) = find_crlf(s, from) {
        let line = s.subrange(from, end);
        assert forall|i: int| !crlf_at(line, i) by {
            if crlf_at(line, i) {
                assert(line[i] == s[from + i] && line[i + 1] == s[from + i + 1]);
                assert(crlf_at(s, from + i));
            }
        }
    }
}

/// Whatever value decoding gives can be sent.
pub proof fn lemma_decoded_is_well_formed(s: Seq<u8>, pos: int)
    ensures
        decode_value(s, pos) matches Ok((v, _)) ==> well_formed(v),
    decreases s.len() - pos, 0nat,
{
    if 0 <= pos < s.len() {
        lemma_decoded_line_is_line(s, pos + 1);
        lemma_find_crlf(s, pos + 1);
        if s[pos] == TAG_ARRAY {
            if let Ok((n, start)) = decode_length(s, pos + 1) {
                if n >= 0 {
                    lemma_decoded_items_are_well_formed(s, start, n as nat);
                }
            }
        }
    }
}

/// Whatever items decoding gives can be sent, and there are as many as
/// were asked for.
pub proof fn lemma_decoded_items_are_well_formed(s: Seq<u8>, pos: int, count: nat)
    requires
        0 <= pos <= s.len(),
    ensures
        decode_items(s, pos, count) matches Ok((items, _)) ==> items.len() == count
            && all_well_formed(items),
    decreases s.len() - pos, count + 1,
{
    if count > 0 {
        lemma_decoded_is_well_formed(s, pos);
        if let Ok((_, next)) = decode_value(s, pos) {
            if pos < next <= s.len() {
                lemma_decoded_items_are_well_formed(s, next, (count - 1) as nat);
            }
        }
    }
}

/// Whatever values decoding a buffer to its end gives can be sent.
pub proof fn lemma_all_decoded_are_well_formed(s: Seq<u8>, pos: int)
    ensures
        decode_all(s, pos) matches Ok(vs) ==> all_well_formed(vs),
    decreases s.len() - pos,
{
    if 0 <= pos < s.len() {
        lemma_decoded_is_well_formed(s, pos);
        lemma_decode_value_advances(s, pos);
        if let Ok((_, next)) = decode_value(s, pos) {
            lemma_all_decoded_are_well_formed(s, next);
        }
    }
}

/// The values decoded from a buffer, encoded again and decoded again, are
/// the same values: any buffer that decodes says what its values' own
/// encodings say.
pub proof fn lemma_decoding_is_canonical(s: Seq<u8>)
    ensures
        decode(s) matches Ok(vs) ==> decode(encode_all(vs)) == Ok::<Seq<RespView>, ErrorView>(
            vs,
        ),
{
    lemma_all_decoded_are_well_formed(s, 0);
    if let Ok(vs) = decode(s) {
        lemma_pipelining(vs);
    }
}

} // verus!
