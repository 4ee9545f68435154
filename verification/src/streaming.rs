//! What more input can change: nothing of a value that was decoded, and no
//! failure but that of a buffer that ends too early.

use vstd::prelude::*;
use crate::error::ErrorView;
use crate::resp::{
    crlf_at,
    decode_array,
    decode_bulk_string,
    decode_items,
    decode_length,
    decode_line,
    decode_value,
    find_crlf,
    lemma_decode_value_advances,
    lemma_find_crlf,
};

verus! {

/// Tells whether what decoding gave for a buffer stands for that buffer
/// with more bytes behind it too: a result does, and so does every failure
/// but `UnexpectedEnd`.
pub open spec fn settled<T>(short: Result<T, ErrorView>, long: Result<T, ErrorView>) -> bool {
    match short {
        Ok(r) => long == Ok::<T, ErrorView>(r),
        Err(e) => e is UnexpectedEnd || long == Err::<T, ErrorView>(e),
    }
}

/// A line break found in a buffer is found at the same place with more
/// bytes behind the buffer.
proof fn lemma_find_crlf_settled(s: Seq<u8>, t: Seq<u8>, from: int)
    ensures
        find_crlf(s, from) matches Some(end) ==> find_crlf(s + t, from) == Some(end),
{
    lemma_find_crlf(s, from);
    lemma_find_crlf(s + t, from);
    if let Some(end) = find_crlf(s, from) {
        assert(crlf_at(s + t, end)) by {
            assert((s + t)[end] == s[end] && (s + t)[end + 1] == s[end + 1]);
        }
        if let Some(other) = find_crlf(s + t, from) {
            if other < end {
                assert((s + t)[other] == s[other] && (s + t)[other + 1] == s[other + 1]);
                assert(crlf_at(s, other));
            }
        }
    }
}

/// A line read from a buffer is read the same with more bytes behind.
proof fn lemma_decode_line_settled(s: Seq<u8>, t: Seq<u8>, from: int)
    ensures
        settled(decode_line(s, from), decode_line(s + t, from)),
{
    lemma_find_crlf(s, from);
    lemma_find_crlf_settled(s, t, from);
    if let Some(end) = find_crlf(s, from) {
        assert((s + t).subrange(from, end) =~= s.subrange(from, end));
    }
}

/// A decimal line read from a buffer is read the same with more bytes
/// behind.
proof fn lemma_decode_length_settled(s: Seq<u8>, t: Seq<u8>, from: int)
    ensures
        settled(decode_length(s, from), decode_length(s + t, from)),
        decode_length(s, from) matches Ok((_, next)) ==> 0 <= from < next <= s.len(),
{
    lemma_find_crlf(s, from);
    lemma_decode_line_settled(s, t, from);
}

/// A bulk string read from a buffer is read the same with more bytes
/// behind, and a failure other than a buffer too short stays.
proof fn lemma_decode_bulk_string_settled(s: Seq<u8>, t: Seq<u8>, from: int)
    ensures
        settled(decode_bulk_string(s, from), decode_bulk_string(s + t, from)),
{
    lemma_decode_length_settled(s, t, from);
    if let Ok((n, start)) = decode_length(s, from) {
        if n >= 0 && start + n + 2 <= s.len() {
            assert((s + t)[start + n] == s[start + n]);
            assert((s + t)[start + n + 1] == s[start + n + 1]);
            assert((s + t).subrange(start, start + n) =~= s.subrange(start, start + n));
        }
    }
}

/// A value decoded from a buffer is decoded the same, and ends at the same
/// place, with any bytes behind the buffer; and every failure but
/// `UnexpectedEnd` stays the same failure.
pub proof fn lemma_decode_value_settled(s: Seq<u8>, t: Seq<u8>, pos: int)
    ensures
        settled(decode_value(s, pos), decode_value(s + t, pos)),
    decreases s.len() - pos, 0nat,
{
    if 0 <= pos < s.len() {
        assert((s + t)[pos] == s[pos]);
        lemma_decode_line_settled(s, t, pos + 1);
        lemma_decode_length_settled(s, t, pos + 1);
        lemma_decode_bulk_string_settled(s, t, pos + 1);
        lemma_decode_array_settled(s, t, pos + 1);
    }
}

/// An array read from a buffer is read the same with more bytes behind,
/// and a failure other than a buffer too short stays.
pub proof fn lemma_decode_array_settled(s: Seq<u8>, t: Seq<u8>, from: int)
    requires
        0 < from <= s.len(),
    ensures
        settled(decode_array(s, from), decode_array(s + t, from)),
    decreases s.len() - from, 0nat,
{
    lemma_decode_length_settled(s, t, from);
    if let Ok((n, start)) = decode_length(s, from) {
        if n >= 0 {
            lemma_decode_items_settled(s, t, start, n as nat);
        }
    }
}

/// The items read from a buffer are read the same with more bytes behind,
/// and a failure other than a buffer too short stays.
pub proof fn lemma_decode_items_settled(s: Seq<u8>, t: Seq<u8>, pos: int, count: nat)
    requires
        0 <= pos <= s.len(),
    ensures
        settled(decode_items(s, pos, count), decode_items(s + t, pos, count)),
    decreases s.len() - pos, count + 1,
{
    if count > 0 {
        lemma_decode_value_settled(s, t, pos);
        lemma_decode_value_advances(s, pos);
        if let Ok((_, next)) = decode_value(s, pos) {
            lemma_decode_items_settled(s, t, next, (count - 1) as nat);
        }
    }
}

} // verus!
