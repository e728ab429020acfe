//! RESP frames, the frame decoder and the array cursor.
use vstd::prelude::*;
use crate::util::{
    ByteReader, RespError, advanced, after_first_line, after_line, line_result, size_result,
    read_size, read_until_line_break, decimal, is_decimal, digits_value, is_line_end, crlf_at,
    no_crlf_before, lemma_line_end_unique, line_end, is_digit, pow10, lemma_advanced_trans, CR, LF,
};

verus! {

pub const ARRAY_BYTE: u8 = 42;

pub const BULK_BYTE: u8 = 36;

pub const SIMPLE_BYTE: u8 = 43;

/// The longest simple-string line (terminator included) that is accepted.
pub const SIMPLE_LINE_MAX: usize = 1024;

/// A frame as the decoder produces it. Array and bulk-string frames are headers
/// only: what they announce follows as further input.
#[derive(Debug)]
pub enum RESPType {
    Array { size: usize },
    BulkString { size: usize },
    Error { error: RespError },
    SimpleString { value: Vec<u8> },
}

/// The mathematical value of a frame.
pub enum Frame {
    Array(nat),
    BulkString(nat),
    Error(RespError),
    SimpleString(Seq<u8>),
}

impl View for RESPType {
    type V = Frame;

    open spec fn view(&self) -> Frame {
        match self {
            RESPType::Array { size } => Frame::Array(*size as nat),
            RESPType::BulkString { size } => Frame::BulkString(*size as nat),
            RESPType::Error { error } => Frame::Error(*error),
            RESPType::SimpleString { value } => Frame::SimpleString(value@),
        }
    }
}

/// What decoding one frame from the front of `s` yields: the frame and the
/// input left after it.
pub open spec fn decode_frame(s: Seq<u8>) -> Result<(Frame, Seq<u8>), RespError> {
    if s.len() == 0 {
        Err(RespError::Incomplete)
    } else {
        let t = s.drop_first();
        if s[0] == ARRAY_BYTE || s[0] == BULK_BYTE {
            match size_result(t) {
                Ok(n) => Ok(
                    (
                        if s[0] == ARRAY_BYTE {
                            Frame::Array(n)
                        } else {
                            Frame::BulkString(n)
                        },
                        after_first_line(t),
                    ),
                ),
                Err(e) => Err(e),
            }
        } else if s[0] == SIMPLE_BYTE {
            match line_result(t, SIMPLE_LINE_MAX as nat) {
                Ok(d) => Ok((Frame::SimpleString(d), after_line(t, d))),
                Err(e) => Err(e),
            }
        } else {
            Err(RespError::Malformed)
        }
    }
}

/// The wire form of a frame; headers only for arrays and bulk strings.
pub open spec fn encode_frame(f: Frame) -> Seq<u8> {
    match f {
        Frame::Array(n) => seq![ARRAY_BYTE] + decimal(n) + seq![CR, LF],
        Frame::BulkString(n) => seq![BULK_BYTE] + decimal(n) + seq![CR, LF],
        Frame::SimpleString(t) => seq![SIMPLE_BYTE] + t + seq![CR, LF],
        Frame::Error(_) => Seq::empty(),
    }
}

/// The frames that have a wire form that the decoder reads back.
pub open spec fn encodable(f: Frame) -> bool {
    match f {
        Frame::Array(n) => n < 1000000000,
        Frame::BulkString(n) => n < 1000000000,
        Frame::SimpleString(t) => t.len() < SIMPLE_LINE_MAX && no_crlf_before(t, t.len() as int),
        Frame::Error(_) => false,
    }
}

/// Reads one frame. At the end of the input an optional read yields `None`,
/// a mandatory one an `Incomplete` error frame; malformed input gives an error
/// frame too.
pub fn read_next_data(reader: &mut ByteReader, optional: bool) -> (r: Option<RESPType>)
    ensures
        old(reader)@.len() == 0 ==> final(reader)@ == old(reader)@ && if optional {
            r is None
        } else {
            r matches Some(f) && f@ == Frame::Error(RespError::Incomplete)
        },
        old(reader)@.len() > 0 ==> (r matches Some(f) && match decode_frame(old(reader)@) {
            Ok((fr, rest)) => f@ == fr && final(reader)@ == rest,
            Err(e) => f@ == Frame::Error(e) && advanced(old(reader)@, final(reader)@),
        }),
        advanced(old(reader)@, final(reader)@),
{
    let first = reader.read_byte();
    match first {
        None => if optional {
            None
        } else {
            Some(RESPType::Error { error: RespError::Incomplete })
        },
        Some(b) => {
            let ghost mid = reader@;
            assert(seq![b] + mid =~= old(reader)@);
            let parsed = parse_data(b, reader);
            proof {
                lemma_advanced_trans(old(reader)@, mid, reader@);
            }
            match parsed {
                Ok(f) => Some(f),
                Err(e) => Some(RESPType::Error { error: e }),
            }
        },
    }
}

pub fn read_next_data_mandatory(reader: &mut ByteReader) -> (r: Option<RESPType>)
    ensures
        r matches Some(f) && match decode_frame(old(reader)@) {
            Ok((fr, rest)) => f@ == fr && final(reader)@ == rest,
            Err(e) => f@ == Frame::Error(e) && advanced(old(reader)@, final(reader)@),
        },
        advanced(old(reader)@, final(reader)@),
{
    let r = read_next_data(reader, false);
    assert(old(reader)@.skip(0) =~= old(reader)@);
    r
}

pub fn read_next_data_optional(reader: &mut ByteReader) -> (r: Option<RESPType>)
    ensures
        old(reader)@.len() == 0 ==> r is None && final(reader)@ == old(reader)@,
        old(reader)@.len() > 0 ==> (r matches Some(f) && match decode_frame(old(reader)@) {
            Ok((fr, rest)) => f@ == fr && final(reader)@ == rest,
            Err(e) => f@ == Frame::Error(e) && advanced(old(reader)@, final(reader)@),
        }),
{
    read_next_data(reader, true)
}

fn parse_data(data_type_char: u8, reader: &mut ByteReader) -> (r: Result<RESPType, RespError>)
    ensures
        ({
            let s = seq![data_type_char] + old(reader)@;
            match decode_frame(s) {
                Ok((fr, rest)) => r matches Ok(f) && f@ == fr && final(reader)@ == rest,
                Err(e) => r == Err::<RESPType, RespError>(e) && advanced(
                    old(reader)@,
                    final(reader)@,
                ),
            }
        }),
        advanced(old(reader)@, final(reader)@),
{
    let ghost s = seq![data_type_char] + old(reader)@;
    assert(s.drop_first() =~= old(reader)@);
    assert(s[0] == data_type_char);
    if data_type_char == ARRAY_BYTE {
        parse_array(reader)
    } else if data_type_char == BULK_BYTE {
        parse_bulk_string(reader)
    } else if data_type_char == SIMPLE_BYTE {
        parse_simple_string(reader)
    } else {
        assert(old(reader)@.skip(0) =~= old(reader)@);
        Err(RespError::Malformed)
    }
}

fn parse_simple_string(reader: &mut ByteReader) -> (r: Result<RESPType, RespError>)
    ensures
        match line_result(old(reader)@, SIMPLE_LINE_MAX as nat) {
            Ok(d) => r matches Ok(f) && f@ == Frame::SimpleString(d) && final(reader)@
                == after_line(old(reader)@, d),
            Err(e) => r == Err::<RESPType, RespError>(e) && advanced(
                old(reader)@,
                final(reader)@,
            ),
        },
        advanced(old(reader)@, final(reader)@),
{
    let value = read_until_line_break(reader, SIMPLE_LINE_MAX);
    match value {
        Ok(value) => Ok(RESPType::SimpleString { value }),
        Err(e) => Err(e),
    }
}

fn parse_bulk_string(reader: &mut ByteReader) -> (r: Result<RESPType, RespError>)
    ensures
        match size_result(old(reader)@) {
            Ok(n) => r matches Ok(f) && f@ == Frame::BulkString(n) && final(reader)@
                == after_first_line(old(reader)@),
            Err(e) => r == Err::<RESPType, RespError>(e) && advanced(
                old(reader)@,
                final(reader)@,
            ),
        },
        advanced(old(reader)@, final(reader)@),
{
    match read_size(reader) {
        Ok(size) => Ok(RESPType::BulkString { size }),
        Err(e) => Err(e),
    }
}

fn parse_array(reader: &mut ByteReader) -> (r: Result<RESPType, RespError>)
    ensures
        match size_result(old(reader)@) {
            Ok(n) => r matches Ok(f) && f@ == Frame::Array(n) && final(reader)@
                == after_first_line(old(reader)@),
            Err(e) => r == Err::<RESPType, RespError>(e) && advanced(
                old(reader)@,
                final(reader)@,
            ),
        },
        advanced(old(reader)@, final(reader)@),
{
    match read_size(reader) {
        Ok(size) => Ok(RESPType::Array { size }),
        Err(e) => Err(e),
    }
}

/// The per-connection cursor of arrays in progress: each entry of its view
/// is how many elements of an open array are still owed by the input,
/// innermost last. An entry is kept as that count less one, so that every
/// open array owes at least one element by construction.
pub struct ArrayStack {
    vec: Vec<usize>,
}

impl View for ArrayStack {
    type V = Seq<nat>;

    closed spec fn view(&self) -> Seq<nat> {
        self.vec@.map_values(|x: usize| x as nat + 1)
    }
}

/// How many elements the innermost open array still owes.
pub open spec fn owed(s: Seq<nat>) -> nat {
    if s.len() > 0 {
        s.last()
    } else {
        0
    }
}

/// The cursor once the innermost open array has been fully read.
pub open spec fn drained(s: Seq<nat>) -> Seq<nat> {
    if s.len() > 0 {
        s.drop_last()
    } else {
        s
    }
}

impl ArrayStack {
    /// Every open array still owes at least one element.
    pub proof fn lemma_positive(self)
        ensures
            forall|i: int| 0 <= i < self@.len() ==> #[trigger] self@[i] > 0,
    {
    }

    pub fn new() -> (r: ArrayStack)
        ensures
            r@ == Seq::<nat>::empty(),
    {
        let r = ArrayStack { vec: Vec::new() };
        assert(r@ =~= Seq::<nat>::empty());
        r
    }

    /// Opens an array of `size` elements; an empty array owes nothing and
    /// leaves the cursor as it is.
    pub fn start_new_array(&mut self, size: usize)
        ensures
            size > 0 ==> final(self)@ == old(self)@.push(size as nat),
            size == 0 ==> final(self)@ == old(self)@,
    {
        if size > 0 {
            self.vec.push(size - 1);
            assert(self@ =~= old(self)@.push(size as nat));
        }
    }

    /// Counts one element of the innermost array as read and returns how many
    /// it still owes; an array that owes nothing more is closed.
    pub fn decrement(&mut self) -> (r: Result<usize, RespError>)
        ensures
            old(self)@.len() == 0 ==> r == Err::<usize, RespError>(RespError::ProtocolSemantics)
                && final(self)@ == old(self)@,
            old(self)@.len() > 0 ==> ({
                let left = (old(self)@.last() - 1) as nat;
                &&& r matches Ok(k) && k == left
                &&& left > 0 ==> final(self)@ == old(self)@.drop_last().push(left)
                &&& left == 0 ==> final(self)@ == old(self)@.drop_last()
            }),
    {
        match self.vec.pop() {
            Some(curr) => {
                assert(old(self)@.last() == curr + 1);
                if curr > 0 {
                    self.vec.push(curr - 1);
                    assert(self@ =~= old(self)@.drop_last().push(curr as nat));
                } else {
                    assert(self@ =~= old(self)@.drop_last());
                }
                Ok(curr)
            },
            None => Err(RespError::ProtocolSemantics),
        }
    }

    /// A cursor with the same open arrays.
    pub fn copy(&self) -> (r: ArrayStack)
        ensures
            r@ == self@,
    {
        let mut v: Vec<usize> = Vec::new();
        let mut i: usize = 0;
        while i < self.vec.len()
            invariant
                i <= self.vec@.len(),
                v@ == self.vec@.take(i as int),
            decreases self.vec@.len() - i,
        {
            v.push(self.vec[i]);
            i = i + 1;
            assert(v@ =~= self.vec@.take(i as int));
        }
        assert(v@ =~= self.vec@);
        ArrayStack { vec: v }
    }

    /// Whether the innermost open array owes exactly `k` more elements.
    pub fn owes_exactly(&self, k: usize) -> (r: bool)
        ensures
            r == (owed(self@) == k),
    {
        match self.vec.last() {
            Some(last) => k > 0 && *last == k - 1,
            None => k == 0,
        }
    }

    pub fn expects_more(&self) -> (r: bool)
        ensures
            r == (owed(self@) > 0),
            r == (self@.len() > 0),
    {
        self.vec.len() > 0
    }
}

proof fn lemma_line_of(d: Seq<u8>, rest: Seq<u8>)
    requires
        no_crlf_before(d, d.len() as int),
    ensures
        ({
            let s = d + seq![CR, LF] + rest;
            &&& is_line_end(s, d.len() as int)
            &&& line_end(s) == d.len()
            &&& s.take(d.len() as int) == d
            &&& after_line(s, d) == rest
        }),
{
    let s = d + seq![CR, LF] + rest;
    assert forall|j: int| 0 <= j < d.len() implies !#[trigger] crlf_at(s, j) by {
        if j + 1 < d.len() {
            assert(!crlf_at(d, j));
        }
    }
    assert(crlf_at(s, d.len() as int));
    lemma_line_end_unique(s, d.len() as int);
    assert(s.take(d.len() as int) =~= d);
    assert(after_line(s, d) =~= rest);
}

proof fn lemma_decimal(n: nat, k: nat)
    requires
        k >= 1,
        n < pow10(k),
    ensures
        is_decimal(decimal(n)),
        digits_value(decimal(n)) == n,
        decimal(n).len() <= k,
    decreases n,
{
    if n >= 10 {
        assert(k >= 2) by {
            if k == 1 {
                assert(pow10(1) == 10 * pow10(0));
            }
        }
        let k1 = (k - 1) as nat;
        assert(pow10(k) == 10 * pow10(k1));
        assert(n / 10 < pow10(k1)) by (nonlinear_arith)
            requires
                n < 10 * pow10(k1),
        ;
        lemma_decimal(n / 10, k1);
        let d = decimal(n);
        assert(d.drop_last() =~= decimal(n / 10));
        assert(forall|i: int| 0 <= i < d.len() - 1 ==> d[i] == decimal(n / 10)[i]);
        assert(is_digit(d[d.len() - 1]));
        assert(is_decimal(d));
        assert(d.last() == (48 + n % 10) as u8);
        assert((n / 10) * 10 + n % 10 == n) by (nonlinear_arith);
        assert(digits_value(d) == digits_value(d.drop_last()) * 10 + (d.last() - 48) as nat);
    } else {
        assert(decimal(n).drop_last() =~= Seq::<u8>::empty());
        assert(digits_value(Seq::<u8>::empty()) == 0);
    }
}

/// Any header or simple string written in its wire form and followed by
/// any further input decodes to the same frame, leaving exactly that input.
pub proof fn lemma_frame_round_trip(f: Frame, rest: Seq<u8>)
    requires
        encodable(f),
    ensures
        decode_frame(encode_frame(f) + rest) == Ok::<(Frame, Seq<u8>), RespError>((f, rest)),
{
    let s = encode_frame(f) + rest;
    let t = s.drop_first();
    match f {
        Frame::Array(n) => {
            lemma_header_round_trip(ARRAY_BYTE, n, rest);
        },
        Frame::BulkString(n) => {
            lemma_header_round_trip(BULK_BYTE, n, rest);
        },
        Frame::SimpleString(d) => {
            assert(t =~= d + seq![CR, LF] + rest);
            lemma_line_of(d, rest);
        },
        Frame::Error(_) => {},
    }
}

proof fn lemma_header_round_trip(kind: u8, n: nat, rest: Seq<u8>)
    requires
        n < 1000000000,
    ensures
        ({
            let s = seq![kind] + decimal(n) + seq![CR, LF] + rest;
            let t = s.drop_first();
            size_result(t) == Ok::<nat, RespError>(n) && after_first_line(t) == rest
        }),
{
    let d = decimal(n);
    let s = seq![kind] + d + seq![CR, LF] + rest;
    let t = s.drop_first();
    reveal_with_fuel(pow10, 10);
    lemma_decimal(n, 9);
    assert(t =~= d + seq![CR, LF] + rest);
    assert forall|j: int| 0 <= j < d.len() implies !#[trigger] crlf_at(d, j) by {
        assert(is_digit(d[j]));
    }
    lemma_line_of(d, rest);
}

} // verus!
