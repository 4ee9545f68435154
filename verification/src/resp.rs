//! The wire codec: protocol values, their encoding as bytes, and the decoding
//! of a buffer into the values it holds.

use vstd::prelude::*;
use vstd::slice::{slice_subrange, slice_to_vec};
use crate::decimal::{decimal, parse_i64, parse_signed, push_decimal, push_digits};
use crate::error::{ErrorView, SerirError, SerirResult};

verus! {

/// A protocol value as it travels on the wire.
#[derive(Debug, PartialEq, Eq)]
pub enum Resp {
    SimpleString(Vec<u8>),
    Integer(i64),
    Error(Vec<u8>),
    BulkString(Option<Vec<u8>>),
    Array(Option<Vec<Resp>>),
}

/// The mathematical content of a protocol value.
pub enum RespView {
    SimpleString(Seq<u8>),
    Integer(i64),
    Error(Seq<u8>),
    BulkString(Option<Seq<u8>>),
    Array(Option<Seq<RespView>>),
}

impl View for Resp {
    type V = RespView;

    open spec fn view(&self) -> RespView
        decreases self,
    {
        match self {
            Resp::SimpleString(text) => RespView::SimpleString(text@),
            Resp::Integer(n) => RespView::Integer(*n),
            Resp::Error(text) => RespView::Error(text@),
            Resp::BulkString(None) => RespView::BulkString(None),
            Resp::BulkString(Some(payload)) => RespView::BulkString(Some(payload@)),
            Resp::Array(None) => RespView::Array(None),
            Resp::Array(Some(items)) => RespView::Array(Some(view_each(items@))),
        }
    }
}

/// The contents of the values of `items`, in order.
pub open spec fn view_each(items: Seq<Resp>) -> Seq<RespView>
    decreases items,
{
    Seq::new(
        items.len(),
        |i: int|
            if 0 <= i < items.len() {
                items[i]@
            } else {
                RespView::Array(None)
            },
    )
}

/// The byte that begins a simple string, `+`.
pub const TAG_SIMPLE_STRING: u8 = 43;

/// The byte that begins an error, `-`.
pub const TAG_ERROR: u8 = 45;

/// The byte that begins an integer, `:`.
pub const TAG_INTEGER: u8 = 58;

/// The byte that begins a bulk string, `$`.
pub const TAG_BULK_STRING: u8 = 36;

/// The byte that begins an array, `*`.
pub const TAG_ARRAY: u8 = 42;

/// Carriage return, the first byte of a line break.
pub const CR: u8 = 13;

/// Line feed, the second byte of a line break.
pub const LF: u8 = 10;

/// The two bytes that end a line.
pub open spec fn crlf() -> Seq<u8> {
    seq![CR, LF]
}

/// The bytes that stand for a value on the wire.
pub open spec fn encode(v: RespView) -> Seq<u8>
    decreases v,
{
    match v {
        RespView::SimpleString(text) => seq![TAG_SIMPLE_STRING] + text + crlf(),
        RespView::Error(text) => seq![TAG_ERROR] + text + crlf(),
        RespView::Integer(n) => seq![TAG_INTEGER] + decimal(n as int) + crlf(),
        RespView::BulkString(None) => seq![TAG_BULK_STRING] + decimal(-1) + crlf(),
        RespView::BulkString(Some(payload)) => seq![TAG_BULK_STRING] + decimal(
            payload.len() as int,
        ) + crlf() + payload + crlf(),
        RespView::Array(None) => seq![TAG_ARRAY] + decimal(-1) + crlf(),
        RespView::Array(Some(items)) => seq![TAG_ARRAY] + decimal(items.len() as int) + crlf()
            + encode_all(items),
    }
}

/// The encodings of the values of `vs`, one behind the other.
pub open spec fn encode_all(vs: Seq<RespView>) -> Seq<u8>
    decreases vs,
{
    if vs.len() == 0 {
        Seq::<u8>::empty()
    } else {
        encode_all(vs.drop_last()) + encode(vs.last())
    }
}

/// Tells whether a line break stands at position `i` of `s`.
pub open spec fn crlf_at(s: Seq<u8>, i: int) -> bool {
    0 <= i && i + 2 <= s.len() && s[i] == CR && s[i + 1] == LF
}

/// The position of the first line break of `s` at or after `from`.
pub open spec fn find_crlf(s: Seq<u8>, from: int) -> Option<int>
    decreases s.len() - from,
{
    if from < 0 || from + 2 > s.len() {
        None
    } else if crlf_at(s, from) {
        Some(from)
    } else {
        find_crlf(s, from + 1)
    }
}

/// `find_crlf` gives the first line break at or after `from`, and `None`
/// only where there is none.
pub proof fn lemma_find_crlf(s: Seq<u8>, from: int)
    ensures
        match find_crlf(s, from) {
            Some(i) => 0 <= from <= i && crlf_at(s, i) && forall|j: int|
                from <= j < i ==> !crlf_at(s, j),
            None => from < 0 || forall|j: int| from <= j ==> !crlf_at(s, j),
        },
    decreases s.len() - from,
{
    if 0 <= from && from + 2 <= s.len() && !crlf_at(s, from) {
        lemma_find_crlf(s, from + 1);
    }
}

/// The bytes of the line that begins at `from`, and the position behind
/// that line's break. A buffer that ends before the line does is too short.
pub open spec fn decode_line(s: Seq<u8>, from: int) -> Result<(Seq<u8>, int), ErrorView> {
    match find_crlf(s, from) {
        None => Err(ErrorView::UnexpectedEnd { offset: from }),
        Some(end) => Ok((s.subrange(from, end), end + 2)),
    }
}

/// The number on the line that begins at `from`, and the position behind
/// that line's break.
pub open spec fn decode_length(s: Seq<u8>, from: int) -> Result<(i64, int), ErrorView> {
    match decode_line(s, from) {
        Err(e) => Err(e),
        Ok((line, next)) => match parse_i64(line) {
            None => Err(ErrorView::ParseError { offset: from }),
            Some(n) => Ok((n, next)),
        },
    }
}

/// The bulk string whose length line begins at `from`: nil for a negative
/// length, else so many bytes of payload and a line break.
pub open spec fn decode_bulk_string(s: Seq<u8>, from: int) -> Result<(RespView, int), ErrorView> {
    match decode_length(s, from) {
        Err(e) => Err(e),
        Ok((n, start)) => if n < 0 {
            Ok((RespView::BulkString(None), start))
        } else if start + n + 2 > s.len() {
            Err(ErrorView::UnexpectedEnd { offset: start })
        } else if !crlf_at(s, start + n) {
            Err(ErrorView::MissingTerminator { offset: start + n })
        } else {
            Ok((RespView::BulkString(Some(s.subrange(start, start + n))), start + n + 2))
        },
    }
}

/// The array whose count line begins at `from`: nil for a negative count,
/// else so many values.
pub open spec fn decode_array(s: Seq<u8>, from: int) -> Result<(RespView, int), ErrorView>
    decreases s.len() - from, 0nat,
{
    match decode_length(s, from) {
        Err(e) => Err(e),
        Ok((n, start)) => if n < 0 {
            Ok((RespView::Array(None), start))
        } else {
            proof {
                lemma_find_crlf(s, from);
            }
            match decode_items(s, start, n as nat) {
                Err(e) => Err(e),
                Ok((items, next)) => Ok((RespView::Array(Some(items)), next)),
            }
        },
    }
}

/// The value that begins at `pos`, and the position behind it. The byte at
/// `pos` tells the type; a simple string or an error is the line behind it,
/// an integer the number on that line.
pub open spec fn decode_value(s: Seq<u8>, pos: int) -> Result<(RespView, int), ErrorView>
    decreases s.len() - pos, 0nat,
{
    if pos < 0 || pos >= s.len() {
        Err(ErrorView::UnexpectedEnd { offset: pos })
    } else if s[pos] == TAG_SIMPLE_STRING {
        match decode_line(s, pos + 1) {
            Err(e) => Err(e),
            Ok((line, next)) => Ok((RespView::SimpleString(line), next)),
        }
    } else if s[pos] == TAG_ERROR {
        match decode_line(s, pos + 1) {
            Err(e) => Err(e),
            Ok((line, next)) => Ok((RespView::Error(line), next)),
        }
    } else if s[pos] == TAG_INTEGER {
        match decode_length(s, pos + 1) {
            Err(e) => Err(e),
            Ok((n, next)) => Ok((RespView::Integer(n), next)),
        }
    } else if s[pos] == TAG_BULK_STRING {
        decode_bulk_string(s, pos + 1)
    } else if s[pos] == TAG_ARRAY {
        decode_array(s, pos + 1)
    } else {
        Err(ErrorView::UnknownType { offset: pos, tag: s[pos] })
    }
}

/// The `count` values that begin at `pos`, and the position behind the last.
///
/// A value takes at least one byte (`lemma_decode_value_advances`), so the
/// test on `next` never fails: it is what shows that the definition ends.
pub open spec fn decode_items(s: Seq<u8>, pos: int, count: nat) -> Result<
    (Seq<RespView>, int),
    ErrorView,
>
    decreases s.len() - pos, count + 1,
{
    if count == 0 {
        Ok((Seq::<RespView>::empty(), pos))
    } else {
        match decode_value(s, pos) {
            Err(e) => Err(e),
            Ok((first, next)) => if pos < next <= s.len() {
                match decode_items(s, next, (count - 1) as nat) {
                    Err(e) => Err(e),
                    Ok((rest, end)) => Ok((seq![first] + rest, end)),
                }
            } else {
                Err(ErrorView::UnexpectedEnd { offset: pos })
            },
        }
    }
}

/// A decoded value ends behind its first byte and within the buffer.
pub proof fn lemma_decode_value_advances(s: Seq<u8>, pos: int)
    ensures
        decode_value(s, pos) matches Ok((_, next)) ==> 0 <= pos < next <= s.len(),
    decreases s.len() - pos, 0nat,
{
    if 0 <= pos < s.len() {
        lemma_find_crlf(s, pos + 1);
        if s[pos] == TAG_ARRAY {
            if let Ok((n, start)) = decode_length(s, pos + 1) {
                if n >= 0 {
                    lemma_decode_items_advances(s, start, n as nat);
                }
            }
        }
    }
}

/// Decoded items end within the buffer, and there are as many as asked for.
pub proof fn lemma_decode_items_advances(s: Seq<u8>, pos: int, count: nat)
    requires
        0 <= pos <= s.len(),
    ensures
        decode_items(s, pos, count) matches Ok((items, end)) ==> pos <= end <= s.len()
            && items.len() == count,
    decreases s.len() - pos, count + 1,
{
    if count > 0 {
        lemma_decode_value_advances(s, pos);
        if let Ok((_, next)) = decode_value(s, pos) {
            lemma_decode_items_advances(s, next, (count - 1) as nat);
        }
    }
}

/// The values that the buffer holds from `pos` to its end, one behind the
/// other. Nothing left to read is no failure: it ends the sequence.
pub open spec fn decode_all(s: Seq<u8>, pos: int) -> Result<Seq<RespView>, ErrorView>
    decreases s.len() - pos,
{
    if pos < 0 || pos >= s.len() {
        Ok(Seq::<RespView>::empty())
    } else {
        match decode_value(s, pos) {
            Err(e) => Err(e),
            Ok((first, next)) => {
                proof {
                    lemma_decode_value_advances(s, pos);
                }
                match decode_all(s, next) {
                    Err(e) => Err(e),
                    Ok(rest) => Ok(seq![first] + rest),
                }
            },
        }
    }
}

/// The values that a buffer holds, or why it holds none.
pub open spec fn decode(s: Seq<u8>) -> Result<Seq<RespView>, ErrorView> {
    decode_all(s, 0)
}

/// Appends `bytes` to `out`.
fn push_bytes(out: &mut Vec<u8>, bytes: &[u8])
    ensures
        final(out)@ == old(out)@ + bytes@,
{
    out.extend_from_slice(bytes);
    assert(out@ =~= old(out)@ + bytes@);
}

/// Appends a line break to `out`.
fn push_crlf(out: &mut Vec<u8>)
    ensures
        final(out)@ == old(out)@ + crlf(),
{
    out.push(CR);
    out.push(LF);
    assert(out@ =~= old(out)@ + crlf());
}

impl Resp {
    /// Appends the encoding of `self` to `out`.
    #[verifier::loop_isolation(false)]
    pub fn write_to(&self, out: &mut Vec<u8>)
        ensures
            final(out)@ == old(out)@ + encode(self@),
        decreases self,
    {
        match self {
            Resp::SimpleString(text) => {
                out.push(TAG_SIMPLE_STRING);
                push_bytes(out, text.as_slice());
                push_crlf(out);
                assert(out@ =~= old(out)@ + encode(self@));
            },
            Resp::Error(text) => {
                out.push(TAG_ERROR);
                push_bytes(out, text.as_slice());
                push_crlf(out);
                assert(out@ =~= old(out)@ + encode(self@));
            },
            Resp::Integer(n) => {
                out.push(TAG_INTEGER);
                push_decimal(out, *n);
                push_crlf(out);
                assert(out@ =~= old(out)@ + encode(self@));
            },
            Resp::BulkString(None) => {
                out.push(TAG_BULK_STRING);
                push_decimal(out, -1);
                push_crlf(out);
                assert(out@ =~= old(out)@ + encode(self@));
            },
            Resp::BulkString(Some(payload)) => {
                out.push(TAG_BULK_STRING);
                push_digits(out, payload.len() as u64);
                push_crlf(out);
                push_bytes(out, payload.as_slice());
                push_crlf(out);
                assert(out@ =~= old(out)@ + encode(self@));
            },
            Resp::Array(None) => {
                out.push(TAG_ARRAY);
                push_decimal(out, -1);
                push_crlf(out);
                assert(out@ =~= old(out)@ + encode(self@));
            },
            Resp::Array(Some(items)) => {
                out.push(TAG_ARRAY);
                push_digits(out, items.len() as u64);
                push_crlf(out);
                let ghost head = out@;
                let ghost views = view_each(items@);
                assert(head =~= old(out)@ + (seq![TAG_ARRAY] + decimal(items.len() as int)
                    + crlf()));
                let mut i: usize = 0;
                while i < items.len()
                    invariant
                        i <= items.len(),
                        views.len() == items.len(),
                        forall|k: int| 0 <= k < items.len() ==> views[k] == #[trigger] items@[k]@,
                        out@ == head + encode_all(views.subrange(0, i as int)),
                    decreases items.len() - i,
                {
                    let ghost before = out@;
                    items[i].write_to(out);
                    proof {
                        let longer = views.subrange(0, i + 1);
                        assert(longer.drop_last() =~= views.subrange(0, i as int));
                        assert(longer.last() == items@[i as int]@);
                        assert(out@ =~= head + encode_all(longer));
                    }
                    i = i + 1;
                }
                proof {
                    assert(views.subrange(0, i as int) =~= views);
                    assert(out@ =~= old(out)@ + encode(self@));
                }
            },
        }
    }

    /// The bytes that stand for this value on the wire.
    pub fn serialize(&self) -> (bytes: Vec<u8>)
        ensures
            bytes@ == encode(self@),
    {
        let mut bytes: Vec<u8> = Vec::new();
        self.write_to(&mut bytes);
        assert(bytes@ =~= encode(self@));
        bytes
    }
}

/// What `decode_items` gives from a later position on, behind the items
/// `done` that were read before it.
spec fn behind(done: Seq<RespView>, later: Result<(Seq<RespView>, int), ErrorView>)
    -> Result<(Seq<RespView>, int), ErrorView> {
    match later {
        Err(e) => Err(e),
        Ok((rest, end)) => Ok((done + rest, end)),
    }
}

/// What `decode_all` gives from a later position on, behind the values
/// `done` that were read before it.
spec fn after(done: Seq<RespView>, later: Result<Seq<RespView>, ErrorView>) -> Result<
    Seq<RespView>,
    ErrorView,
> {
    match later {
        Err(e) => Err(e),
        Ok(rest) => Ok(done + rest),
    }
}

/// A reader that takes protocol values off the front of a buffer, one
/// after the other.
pub struct Parser<'a> {
    buffer: &'a [u8],
    position: usize,
}

impl<'a> Parser<'a> {
    #[verifier::type_invariant]
    spec fn in_bounds(self) -> bool {
        self.position <= self.buffer@.len()
    }

    /// The bytes that the parser reads from.
    pub closed spec fn input(&self) -> Seq<u8> {
        self.buffer@
    }

    /// The number of bytes that the parser has consumed.
    pub closed spec fn offset(&self) -> int {
        self.position as int
    }

    /// A parser at the start of `buffer`.
    pub fn new(buffer: &'a [u8]) -> (parser: Self)
        ensures
            parser.input() == buffer@,
            parser.offset() == 0,
    {
        Parser { buffer, position: 0 }
    }

    /// The number of bytes consumed so far: the values read took exactly
    /// these.
    pub fn consumed(&self) -> (n: usize)
        ensures
            n == self.offset(),
            n <= self.input().len(),
    {
        proof {
            use_type_invariant(self);
        }
        self.position
    }

    /// Finds the first line break at or after the current position.
    #[verifier::loop_isolation(false)]
    fn line_end(&self) -> (found: Option<usize>)
        ensures
            match found {
                Some(end) => find_crlf(self.input(), self.offset()) == Some(end as int) && end + 2
                    <= self.input().len() <= usize::MAX,
                None => find_crlf(self.input(), self.offset()) is None,
            },
    {
        proof {
            use_type_invariant(self);
        }
        let len = self.buffer.len();
        let mut i: usize = self.position;
        while i < len && len - i >= 2
            invariant
                self.position <= i <= len == self.buffer@.len(),
                find_crlf(self.buffer@, self.position as int) == find_crlf(self.buffer@, i as int),
            decreases len - i,
        {
            if self.buffer[i] == CR && self.buffer[i + 1] == LF {
                return Some(i);
            }
            i = i + 1;
        }
        None
    }

    /// Reads the line at the current position and moves behind its break.
    fn parse_line(&mut self) -> (r: SerirResult<Vec<u8>>)
        ensures
            final(self).input() == old(self).input(),
            match r {
                Ok(line) => decode_line(old(self).input(), old(self).offset()) matches Ok(
                    (bytes, next),
                ) && bytes == line@ && next == final(self).offset(),
                Err(e) => decode_line(old(self).input(), old(self).offset()) matches Err(failure)
                    && failure == e@ && final(self).offset() == old(self).offset(),
            },
    {
        proof {
            use_type_invariant(&*self);
            lemma_find_crlf(self.buffer@, self.position as int);
        }
        match self.line_end() {
            None => Err(SerirError::UnexpectedEnd { offset: self.position }),
            Some(end) => {
                let line = slice_to_vec(slice_subrange(self.buffer, self.position, end));
                self.position = end + 2;
                Ok(line)
            },
        }
    }

    /// Reads the decimal line at the current position and moves behind its
    /// break.
    fn parse_len(&mut self) -> (r: SerirResult<i64>)
        ensures
            final(self).input() == old(self).input(),
            match r {
                Ok(n) => decode_length(old(self).input(), old(self).offset()) matches Ok(
                    (number, next),
                ) && number == n && next == final(self).offset(),
                Err(e) => decode_length(old(self).input(), old(self).offset()) matches Err(
                    failure,
                ) && failure == e@ && final(self).offset() == old(self).offset(),
            },
    {
        proof {
            use_type_invariant(&*self);
            lemma_find_crlf(self.buffer@, self.position as int);
        }
        match self.line_end() {
            None => Err(SerirError::UnexpectedEnd { offset: self.position }),
            Some(end) => match parse_signed(self.buffer, self.position, end) {
                None => Err(SerirError::ParseError { offset: self.position }),
                Some(n) => {
                    self.position = end + 2;
                    Ok(n)
                },
            },
        }
    }

    /// Reads an integer behind its type byte.
    fn parse_integer(&mut self) -> (r: SerirResult<Resp>)
        ensures
            final(self).input() == old(self).input(),
            match r {
                Ok(v) => decode_length(old(self).input(), old(self).offset()) matches Ok((n, next))
                    && v@ == RespView::Integer(n) && final(self).offset() == next,
                Err(e) => decode_length(old(self).input(), old(self).offset()) matches Err(
                    failure,
                ) && failure == e@ && final(self).offset() == old(self).offset(),
            },
    {
        match self.parse_len() {
            Err(e) => Err(e),
            Ok(n) => Ok(Resp::Integer(n)),
        }
    }

    /// Reads a simple string behind its type byte.
    fn parse_simple_string(&mut self) -> (r: SerirResult<Resp>)
        ensures
            final(self).input() == old(self).input(),
            match r {
                Ok(v) => decode_line(old(self).input(), old(self).offset()) matches Ok((line, next))
                    && v@ == RespView::SimpleString(line) && final(self).offset() == next,
                Err(e) => decode_line(old(self).input(), old(self).offset()) matches Err(failure)
                    && failure == e@ && final(self).offset() == old(self).offset(),
            },
    {
        match self.parse_line() {
            Err(e) => Err(e),
            Ok(line) => Ok(Resp::SimpleString(line)),
        }
    }

    /// Reads an error behind its type byte.
    fn parse_error(&mut self) -> (r: SerirResult<Resp>)
        ensures
            final(self).input() == old(self).input(),
            match r {
                Ok(v) => decode_line(old(self).input(), old(self).offset()) matches Ok((line, next))
                    && v@ == RespView::Error(line) && final(self).offset() == next,
                Err(e) => decode_line(old(self).input(), old(self).offset()) matches Err(failure)
                    && failure == e@ && final(self).offset() == old(self).offset(),
            },
    {
        match self.parse_line() {
            Err(e) => Err(e),
            Ok(line) => Ok(Resp::Error(line)),
        }
    }

    /// Reads a bulk string behind its type byte.
    fn parse_bulk_string(&mut self) -> (r: SerirResult<Resp>)
        ensures
            final(self).input() == old(self).input(),
            match r {
                Ok(v) => decode_bulk_string(old(self).input(), old(self).offset()) matches Ok(
                    (value, next),
                ) && value == v@ && next == final(self).offset(),
                Err(e) => decode_bulk_string(old(self).input(), old(self).offset()) matches Err(
                    failure,
                ) && failure == e@ && final(self).offset() == old(self).offset(),
            },
    {
        let begin = self.position;
        let n = match self.parse_len() {
            Err(e) => {
                return Err(e);
            },
            Ok(n) => n,
        };
        if n < 0 {
            return Ok(Resp::BulkString(None));
        }
        proof {
            use_type_invariant(&*self);
        }
        let start = self.position;
        let available = self.buffer.len() - start;
        if available < 2 || ((available - 2) as u64) < (n as u64) {
            self.position = begin;
            return Err(SerirError::UnexpectedEnd { offset: start });
        }
        let end = start + n as usize;
        if self.buffer[end] != CR || self.buffer[end + 1] != LF {
            self.position = begin;
            return Err(SerirError::MissingTerminator { offset: end });
        }
        let payload = slice_to_vec(slice_subrange(self.buffer, start, end));
        self.position = end + 2;
        Ok(Resp::BulkString(Some(payload)))
    }

    /// Reads an array behind its type byte.
    #[verifier::loop_isolation(false)]
    fn parse_array(&mut self) -> (r: SerirResult<Resp>)
        ensures
            final(self).input() == old(self).input(),
            match r {
                Ok(v) => decode_array(old(self).input(), old(self).offset()) matches Ok(
                    (value, next),
                ) && value == v@ && next == final(self).offset(),
                Err(e) => decode_array(old(self).input(), old(self).offset()) matches Err(
                    failure,
                ) && failure == e@ && final(self).offset() == old(self).offset(),
            },
        decreases old(self).input().len() - old(self).offset(), 0nat,
    {
        let begin = self.position;
        proof {
            use_type_invariant(&*self);
            lemma_find_crlf(self.buffer@, self.position as int);
        }
        let n = match self.parse_len() {
            Err(e) => {
                return Err(e);
            },
            Ok(n) => n,
        };
        if n < 0 {
            return Ok(Resp::Array(None));
        }
        let ghost s = self.buffer@;
        let ghost start = self.position as int;
        let mut items: Vec<Resp> = Vec::new();
        let mut i: i64 = 0;
        while i < n
            invariant
                0 <= i <= n,
                self.buffer@ == s,
                s == old(self).input(),
                begin == old(self).offset(),
                begin < start <= self.position <= s.len(),
                decode_items(s, start, n as nat) == behind(
                    view_each(items@),
                    decode_items(s, self.position as int, (n - i) as nat),
                ),
            decreases n - i,
        {
            let ghost here = self.position as int;
            let ghost done = view_each(items@);
            match self.parse_single_resp_object() {
                Err(e) => {
                    self.position = begin;
                    return Err(e);
                },
                Ok(None) => {
                    let offset = self.position;
                    self.position = begin;
                    return Err(SerirError::UnexpectedEnd { offset });
                },
                Ok(Some(item)) => {
                    proof {
                        use_type_invariant(&*self);
                        lemma_decode_value_advances(s, here);
                        let next = self.position as int;
                        let later = decode_items(s, next, (n - i - 1) as nat);
                        assert(view_each(items@.push(item)) =~= done.push(item@));
                        assert(decode_items(s, here, (n - i) as nat) == behind(
                            seq![item@],
                            later,
                        ));
                        if let Ok((rest, end)) = later {
                            assert(done + (seq![item@] + rest) =~= done.push(item@) + rest);
                        }
                    }
                    items.push(item);
                    i = i + 1;
                },
            }
        }
        proof {
            assert(view_each(items@) + Seq::<RespView>::empty() =~= view_each(items@));
        }
        Ok(Resp::Array(Some(items)))
    }

    /// Reads the next value, if the buffer holds another byte.
    ///
    /// At the end of the buffer there is nothing to read and nothing
    /// wrong: the result is `Ok(None)`. Otherwise the value that begins
    /// at the current position is decoded, and the parser moves behind
    /// it. A failure leaves the parser where it was.
    pub fn parse_single_resp_object(&mut self) -> (r: SerirResult<Option<Resp>>)
        ensures
            final(self).input() == old(self).input(),
            match r {
                Ok(None) => old(self).offset() >= old(self).input().len() && final(self).offset()
                    == old(self).offset(),
                Ok(Some(v)) => {
                    &&& old(self).offset() < old(self).input().len()
                    &&& decode_value(old(self).input(), old(self).offset()) matches Ok(
                        (value, next),
                    )
                    &&& value == v@
                    &&& next == final(self).offset()
                },
                Err(e) => {
                    &&& old(self).offset() < old(self).input().len()
                    &&& decode_value(old(self).input(), old(self).offset()) matches Err(failure)
                    &&& failure == e@
                    &&& final(self).offset() == old(self).offset()
                },
            },
        decreases old(self).input().len() - old(self).offset(), 1nat,
    {
        proof {
            use_type_invariant(&*self);
        }
        let begin = self.position;
        if begin >= self.buffer.len() {
            return Ok(None);
        }
        let tag = self.buffer[begin];
        self.position = begin + 1;
        let parsed = if tag == TAG_ARRAY {
            self.parse_array()
        } else if tag == TAG_BULK_STRING {
            self.parse_bulk_string()
        } else if tag == TAG_INTEGER {
            self.parse_integer()
        } else if tag == TAG_SIMPLE_STRING {
            self.parse_simple_string()
        } else if tag == TAG_ERROR {
            self.parse_error()
        } else {
            Err(SerirError::UnknownType { offset: begin, tag })
        };
        match parsed {
            Ok(v) => Ok(Some(v)),
            Err(e) => {
                self.position = begin;
                Err(e)
            },
        }
    }

    /// Reads every value from the current position to the end of the
    /// buffer, and ends there. A failure leaves the parser where it was.
    pub fn parse(&mut self) -> (r: SerirResult<Vec<Resp>>)
        ensures
            final(self).input() == old(self).input(),
            match r {
                Ok(values) => decode_all(old(self).input(), old(self).offset()) matches Ok(
                    decoded,
                ) && decoded == view_each(values@) && final(self).offset()
                    == final(self).input().len(),
                Err(e) => decode_all(old(self).input(), old(self).offset()) matches Err(failure)
                    && failure == e@ && final(self).offset() == old(self).offset(),
            },
    {
        let begin = self.position;
        let ghost s = self.buffer@;
        let mut values: Vec<Resp> = Vec::new();
        proof {
            use_type_invariant(&*self);
            assert(view_each(values@) =~= Seq::<RespView>::empty());
            let from_here = decode_all(s, begin as int);
            if let Ok(rest) = from_here {
                assert(Seq::<RespView>::empty() + rest =~= rest);
            }
        }
        loop
            invariant
                self.buffer@ == s,
                s == old(self).input(),
                begin == old(self).offset(),
                begin <= self.position <= s.len(),
                decode_all(s, begin as int) == after(
                    view_each(values@),
                    decode_all(s, self.position as int),
                ),
            decreases s.len() - self.position,
        {
            let ghost here = self.position as int;
            let ghost done = view_each(values@);
            match self.parse_single_resp_object() {
                Err(e) => {
                    self.position = begin;
                    return Err(e);
                },
                Ok(None) => {
                    proof {
                        assert(done + Seq::<RespView>::empty() =~= done);
                    }
                    return Ok(values);
                },
                Ok(Some(value)) => {
                    proof {
                        use_type_invariant(&*self);
                        lemma_decode_value_advances(s, here);
                        let later = decode_all(s, self.position as int);
                        assert(view_each(values@.push(value)) =~= done.push(value@));
                        assert(decode_all(s, here) == after(seq![value@], later));
                        if let Ok(rest) = later {
                            assert(done + (seq![value@] + rest) =~= done.push(value@) + rest);
                        }
                    }
                    values.push(value);
                },
            }
        }
    }
}

impl Resp {
    /// Decodes every value that `buffer` holds, in order.
    ///
    /// An empty buffer holds none. A buffer that ends within a value, or
    /// holds what is no value, is a failure: no part of it is returned.
    pub fn deserialize(buffer: &[u8]) -> (r: SerirResult<Vec<Resp>>)
        ensures
            match r {
                Ok(values) => decode(buffer@) matches Ok(decoded) && decoded == view_each(values@),
                Err(e) => decode(buffer@) matches Err(failure) && failure == e@,
            },
    {
        let mut parser = Parser::new(buffer);
        parser.parse()
    }
}

} // verus!
