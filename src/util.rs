//! Framing primitives: CRLF-terminated lines and ASCII sizes over a byte reader.
use vstd::prelude::*;

verus! {

pub const CR: u8 = 13;

pub const LF: u8 = 10;

/// The longest line (terminator included) that a size may take.
pub const SIZE_LINE_MAX: usize = 10;

/// Why reading or handling a frame failed.
#[derive(Clone, Copy, Debug, PartialEq, Eq, Structural)]
pub enum RespError {
    /// The input ended inside a frame; on a connection, more bytes may still come.
    Incomplete,
    /// A framing violation: missing CRLF, a bad size, a wrong frame type.
    Malformed,
    /// Wrong arguments for a command, or an argument outside any array.
    ProtocolSemantics,
    /// A command name that no handler serves.
    UnsupportedCommand,
    /// The primary answered the handshake with an unexpected reply.
    HandshakeMismatch,
}

/// A reader over received bytes; its view is what is still unread.
pub struct ByteReader {
    bytes: Vec<u8>,
    pos: usize,
}

impl View for ByteReader {
    type V = Seq<u8>;

    closed spec fn view(&self) -> Seq<u8> {
        self.bytes@.subrange(self.pos as int, self.bytes@.len() as int)
    }
}

/// `new` is what is left of `old` after some bytes at its front were read.
pub open spec fn advanced(old: Seq<u8>, new: Seq<u8>) -> bool {
    new.len() <= old.len() && new == old.skip(old.len() - new.len())
}

pub proof fn lemma_advanced_trans(a: Seq<u8>, b: Seq<u8>, c: Seq<u8>)
    requires
        advanced(a, b),
        advanced(b, c),
    ensures
        advanced(a, c),
{
    assert(c =~= a.skip(a.len() - c.len()));
}

pub proof fn lemma_skip_advanced(s: Seq<u8>, n: int)
    requires
        0 <= n <= s.len(),
    ensures
        advanced(s, s.skip(n)),
{
    assert(s.skip(n) =~= s.skip(s.len() - s.skip(n).len()));
}

impl ByteReader {
    #[verifier::type_invariant]
    spec fn inv(&self) -> bool {
        self.pos <= self.bytes.len()
    }

    pub fn new(bytes: Vec<u8>) -> (r: ByteReader)
        ensures
            r@ == bytes@,
    {
        let r = ByteReader { bytes, pos: 0 };
        assert(r@ =~= bytes@);
        r
    }

    /// How many bytes are left unread.
    pub fn remaining(&self) -> (r: usize)
        ensures
            r == self@.len(),
    {
        proof {
            use_type_invariant(self);
        }
        self.bytes.len() - self.pos
    }

    /// Reads one byte, or nothing at the end of the input.
    pub fn read_byte(&mut self) -> (r: Option<u8>)
        ensures
            old(self)@.len() == 0 ==> r is None && final(self)@ == old(self)@,
            old(self)@.len() > 0 ==> r == Some(old(self)@[0]) && final(self)@ == old(
                self,
            )@.drop_first(),
            advanced(old(self)@, final(self)@),
    {
        proof {
            lemma_skip_advanced(old(self)@, 0);
            if old(self)@.len() > 0 {
                lemma_skip_advanced(old(self)@, 1);
                assert(old(self)@.skip(1) =~= old(self)@.drop_first());
            }
            assert(old(self)@.skip(0) =~= old(self)@);
        }
        proof {
            use_type_invariant(&*self);
        }
        if self.pos < self.bytes.len() {
            let b = self.bytes[self.pos];
            self.pos = self.pos + 1;
            assert(self@ =~= old(self)@.drop_first());
            Some(b)
        } else {
            None
        }
    }

    /// Reads exactly `n` bytes; where fewer are left, reads nothing.
    pub fn read_exact(&mut self, n: usize) -> (r: Result<Vec<u8>, RespError>)
        ensures
            old(self)@.len() >= n ==> (r matches Ok(v) && v@ == old(self)@.take(n as int)
                && final(self)@ == old(self)@.skip(n as int)),
            old(self)@.len() < n ==> r == Err::<Vec<u8>, RespError>(RespError::Incomplete)
                && final(self)@ == old(self)@,
            advanced(old(self)@, final(self)@),
    {
        proof {
            assert(old(self)@.skip(0) =~= old(self)@);
            if n <= old(self)@.len() {
                lemma_skip_advanced(old(self)@, n as int);
            }
        }
        proof {
            use_type_invariant(&*self);
        }
        if self.bytes.len() - self.pos < n {
            return Err(RespError::Incomplete);
        }
        let mut v: Vec<u8> = Vec::new();
        let mut i: usize = 0;
        while i < n
            invariant
                0 <= i <= n,
                self.pos + n <= self.bytes.len(),
                v@ == self.bytes@.subrange(self.pos as int, self.pos + i),
            decreases n - i,
        {
            v.push(self.bytes[self.pos + i]);
            i = i + 1;
            assert(v@ =~= self.bytes@.subrange(self.pos as int, self.pos + i));
        }
        self.pos = self.pos + n;
        assert(v@ =~= old(self)@.take(n as int));
        assert(self@ =~= old(self)@.skip(n as int));
        Ok(v)
    }
}

pub open spec fn crlf_at(s: Seq<u8>, i: int) -> bool {
    0 <= i && i + 1 < s.len() && s[i] == CR && s[i + 1] == LF
}

pub open spec fn no_crlf_before(s: Seq<u8>, n: int) -> bool {
    forall|j: int| 0 <= j < n ==> !#[trigger] crlf_at(s, j)
}

/// `i` is where the first CRLF of `s` starts.
pub open spec fn is_line_end(s: Seq<u8>, i: int) -> bool {
    crlf_at(s, i) && no_crlf_before(s, i)
}

pub open spec fn has_line_end(s: Seq<u8>) -> bool {
    exists|i: int| is_line_end(s, i)
}

pub open spec fn line_end(s: Seq<u8>) -> int {
    choose|i: int| is_line_end(s, i)
}

/// What reading a line from `s` yields: the bytes before the first CRLF.
/// With `max > 0` the scan gives up once `max` bytes were read without
/// the line ending in them, the CR counting as one of them.
pub open spec fn line_result(s: Seq<u8>, max: nat) -> Result<Seq<u8>, RespError> {
    if has_line_end(s) && (max == 0 || line_end(s) < max) {
        Ok(s.take(line_end(s)))
    } else if max > 0 && s.len() > max {
        Err(RespError::Malformed)
    } else {
        Err(RespError::Incomplete)
    }
}

/// What is left of `s` after a line with content `content` was read.
pub open spec fn after_line(s: Seq<u8>, content: Seq<u8>) -> Seq<u8> {
    s.skip(content.len() + 2int)
}

pub proof fn lemma_line_end_unique(s: Seq<u8>, i: int)
    requires
        is_line_end(s, i),
    ensures
        has_line_end(s),
        line_end(s) == i,
{
    let k = line_end(s);
    assert(is_line_end(s, k));
    if k < i {
        assert(crlf_at(s, k));
    } else if i < k {
        assert(crlf_at(s, i));
    }
}

/// Reads up to and including the first CRLF and returns the bytes before it.
pub fn read_until_line_break(reader: &mut ByteReader, max_read: usize) -> (r: Result<
    Vec<u8>,
    RespError,
>)
    ensures
        r matches Ok(d) ==> line_result(old(reader)@, max_read as nat) == Ok::<
            Seq<u8>,
            RespError,
        >(d@) && final(reader)@ == after_line(old(reader)@, d@),
        r matches Err(e) ==> line_result(old(reader)@, max_read as nat) == Err::<
            Seq<u8>,
            RespError,
        >(e) && advanced(old(reader)@, final(reader)@),
        advanced(old(reader)@, final(reader)@),
{
    proof {
        use_type_invariant(&*reader);
    }
    let ghost s = reader@;
    let start = reader.pos;
    let len = reader.bytes.len();
    let mut i: usize = start;
    while len - i > 1
        invariant
            start <= i <= len,
            start == reader.pos,
            len == reader.bytes.len(),
            s == reader@,
            s == old(reader)@,
            s == reader.bytes@.subrange(start as int, len as int),
            max_read > 0 ==> i - start <= max_read,
            no_crlf_before(s, i - start),
        decreases len - i,
    {
        if max_read > 0 && i - start >= max_read {
            proof {
                if has_line_end(s) {
                    let k = line_end(s);
                    assert(is_line_end(s, k));
                    if k < max_read {
                        assert(crlf_at(s, k));
                    }
                }
            }
            reader.pos = start + max_read + 1;
            assert(reader@ =~= s.skip(max_read + 1));
            return Err(RespError::Malformed);
        }
        if reader.bytes[i] == CR && reader.bytes[i + 1] == LF {
            let mut d: Vec<u8> = Vec::new();
            let mut j: usize = start;
            while j < i
                invariant
                    start <= j <= i,
                    i + 1 < len,
                    len == reader.bytes.len(),
                    d@ == reader.bytes@.subrange(start as int, j as int),
                decreases i - j,
            {
                d.push(reader.bytes[j]);
                j = j + 1;
                assert(d@ =~= reader.bytes@.subrange(start as int, j as int));
            }
            proof {
                assert(crlf_at(s, i - start));
                lemma_line_end_unique(s, i - start);
            }
            reader.pos = i + 2;
            proof {
                lemma_skip_advanced(s, i - start + 2);
            }
            assert(d@ =~= s.take(i - start));
            assert(reader@ =~= s.skip(i - start + 2));
            return Ok(d);
        }
        proof {
            assert forall|j: int| 0 <= j < i + 1 - start implies !#[trigger] crlf_at(s, j) by {
                if j < i - start {
                    assert(!crlf_at(s, j));
                }
            }
        }
        i = i + 1;
    }
    proof {
        assert forall|j: int| 0 <= j < s.len() implies !#[trigger] crlf_at(s, j) by {
            if j < i - start {
                assert(!crlf_at(s, j));
            }
        }
        if has_line_end(s) {
            let k = line_end(s);
            assert(is_line_end(s, k));
            assert(crlf_at(s, k));
        }
    }
    if max_read > 0 && len - start > max_read {
        reader.pos = start + max_read + 1;
        assert(reader@ =~= s.skip(max_read + 1));
        Err(RespError::Malformed)
    } else {
        reader.pos = len;
        assert(reader@ =~= s.skip(s.len() as int));
        Err(RespError::Incomplete)
    }
}


pub open spec fn is_digit(b: u8) -> bool {
    48 <= b <= 57
}

/// A non-empty run of ASCII digits.
pub open spec fn is_decimal(s: Seq<u8>) -> bool {
    s.len() > 0 && forall|i: int| 0 <= i < s.len() ==> #[trigger] is_digit(s[i])
}

/// The number that a run of ASCII digits writes in base 10.
pub open spec fn digits_value(s: Seq<u8>) -> nat
    decreases s.len(),
{
    if s.len() == 0 {
        0
    } else {
        digits_value(s.drop_last()) * 10 + (s.last() - 48) as nat
    }
}

pub open spec fn pow10(n: nat) -> nat
    decreases n,
{
    if n == 0 {
        1
    } else {
        10 * pow10((n - 1) as nat)
    }
}

/// The shortest ASCII decimal text of `n`.
pub open spec fn decimal(n: nat) -> Seq<u8>
    decreases n,
{
    if n < 10 {
        seq![(48 + n) as u8]
    } else {
        decimal(n / 10).push((48 + n % 10) as u8)
    }
}

/// What reading a size line from `s` yields.
pub open spec fn size_result(s: Seq<u8>) -> Result<nat, RespError> {
    match line_result(s, SIZE_LINE_MAX as nat) {
        Ok(d) => if is_decimal(d) {
            Ok(digits_value(d))
        } else {
            Err(RespError::Malformed)
        },
        Err(e) => Err(e),
    }
}

/// What is left of `s` once its first line was read.
pub open spec fn after_first_line(s: Seq<u8>) -> Seq<u8> {
    s.skip(line_end(s) + 2)
}

/// What reading exactly a CRLF from `s` yields.
pub open spec fn crlf_result(s: Seq<u8>) -> Result<(), RespError> {
    if s.len() < 2 {
        Err(RespError::Incomplete)
    } else if s[0] == CR && s[1] == LF {
        Ok(())
    } else {
        Err(RespError::Malformed)
    }
}

pub proof fn lemma_pow10_mono(a: nat, b: nat)
    requires
        a <= b,
    ensures
        pow10(a) <= pow10(b),
    decreases b - a,
{
    if a < b {
        lemma_pow10_mono(a, (b - 1) as nat);
    }
}

pub proof fn lemma_digits_prefix(d: Seq<u8>, j: int)
    requires
        0 <= j < d.len(),
    ensures
        d.take(j + 1).drop_last() == d.take(j),
        d.take(j + 1).last() == d[j],
{
    assert(d.take(j + 1).drop_last() =~= d.take(j));
}

/// Parses a run of ASCII digits of at most nine bytes.
fn parse_digits(d: &Vec<u8>) -> (r: usize)
    requires
        is_decimal(d@),
        d@.len() <= 9,
    ensures
        r == digits_value(d@),
{
    let mut acc: usize = 0;
    let mut j: usize = 0;
    proof {
        lemma_pow10_mono(8, 9);
        reveal_with_fuel(pow10, 10);
        assert(d@.take(0) =~= Seq::<u8>::empty());
    }
    while j < d.len()
        invariant
            j <= d@.len() <= 9,
            is_decimal(d@),
            acc == digits_value(d@.take(j as int)),
            acc < pow10(j as nat),
            pow10(9) == 1000000000,
        decreases d@.len() - j,
    {
        let b = d[j];
        assert(is_digit(d@[j as int]));
        proof {
            lemma_pow10_mono(j as nat, 8);
            lemma_digits_prefix(d@, j as int);
            assert(pow10(8) * 10 == pow10(9));
            let p = pow10(j as nat);
            assert(acc * 10 + 9 < p * 10) by (nonlinear_arith)
                requires
                    acc < p,
            ;
            assert(p * 10 <= pow10(8) * 10) by (nonlinear_arith)
                requires
                    p <= pow10(8),
            ;
        }
        acc = acc * 10 + (b - 48) as usize;
        j = j + 1;
    }
    assert(d@.take(j as int) =~= d@);
    acc
}

/// Reads a size: ASCII digits followed by CRLF, in at most ten bytes.
pub fn read_size(reader: &mut ByteReader) -> (r: Result<usize, RespError>)
    ensures
        r matches Ok(n) ==> size_result(old(reader)@) == Ok::<nat, RespError>(n as nat)
            && final(reader)@ == after_first_line(old(reader)@),
        r matches Err(e) ==> size_result(old(reader)@) == Err::<nat, RespError>(e) && advanced(
            old(reader)@,
            final(reader)@,
        ),
        advanced(old(reader)@, final(reader)@),
{
    let line = read_until_line_break(reader, SIZE_LINE_MAX);
    match line {
        Ok(d) => {
            let mut all_digits = d.len() > 0;
            let mut j: usize = 0;
            while j < d.len()
                invariant
                    j <= d@.len(),
                    all_digits == (d@.len() > 0 && forall|i: int|
                        0 <= i < j ==> #[trigger] is_digit(d@[i])),
                decreases d@.len() - j,
            {
                let b = d[j];
                let ok = 48 <= b && b <= 57;
                assert(ok == is_digit(d@[j as int]));
                if !ok {
                    all_digits = false;
                }
                proof {
                    if all_digits {
                        assert forall|i: int| 0 <= i < j + 1 implies #[trigger] is_digit(
                            d@[i],
                        ) by {
                            if i < j {
                                assert(is_digit(d@[i]));
                            }
                        }
                    }
                }
                j = j + 1;
            }
            if all_digits {
                assert(d@.len() <= 9);
                Ok(parse_digits(&d))
            } else {
                proof {
                    advanced_after_line(old(reader)@, d@);
                }
                Err(RespError::Malformed)
            }
        },
        Err(e) => Err(e),
    }
}

proof fn advanced_after_line(s: Seq<u8>, d: Seq<u8>)
    requires
        d.len() + 2 <= s.len(),
    ensures
        advanced(s, after_line(s, d)),
{
    assert(after_line(s, d) =~= s.skip(s.len() - after_line(s, d).len()));
}

/// Reads two bytes and requires them to be CR LF.
pub fn consume_line_break(reader: &mut ByteReader) -> (r: Result<(), RespError>)
    ensures
        r == crlf_result(old(reader)@),
        old(reader)@.len() >= 2 ==> final(reader)@ == old(reader)@.skip(2),
        old(reader)@.len() < 2 ==> final(reader)@ == old(reader)@,
        advanced(old(reader)@, final(reader)@),
{
    let two = reader.read_exact(2);
    match two {
        Ok(v) => {
            if v[0] == CR && v[1] == LF {
                Ok(())
            } else {
                Err(RespError::Malformed)
            }
        },
        Err(e) => Err(e),
    }
}

/// Appends the ASCII decimal text of `n`.
pub fn write_decimal(out: &mut Vec<u8>, n: usize)
    ensures
        final(out)@ == old(out)@ + decimal(n as nat),
    decreases n,
{
    if n >= 10 {
        write_decimal(out, n / 10);
    }
    out.push(48 + (n % 10) as u8);
    assert(final(out)@ =~= old(out)@ + decimal(n as nat));
}

/// Appends every byte of `bytes`.
pub fn push_bytes(out: &mut Vec<u8>, bytes: &[u8])
    ensures
        final(out)@ == old(out)@ + bytes@,
{
    let mut i: usize = 0;
    while i < bytes.len()
        invariant
            i <= bytes@.len(),
            out@ == old(out)@ + bytes@.take(i as int),
        decreases bytes@.len() - i,
    {
        out.push(bytes[i]);
        i = i + 1;
        assert(out@ =~= old(out)@ + bytes@.take(i as int));
    }
    assert(bytes@.take(i as int) =~= bytes@);
}

/// Whether `a` and `b` hold the same bytes.
pub fn bytes_equal(a: &[u8], b: &[u8]) -> (r: bool)
    ensures
        r == (a@ == b@),
{
    if a.len() != b.len() {
        return false;
    }
    let mut i: usize = 0;
    while i < a.len()
        invariant
            i <= a@.len(),
            a@.len() == b@.len(),
            forall|j: int| 0 <= j < i ==> a@[j] == b@[j],
        decreases a@.len() - i,
    {
        if a[i] != b[i] {
            return false;
        }
        i = i + 1;
    }
    assert(a@ =~= b@);
    true
}

} // verus!
