//! Commands: their names, their arguments and the replies they write.
use vstd::prelude::*;
use crate::util::{
    ByteReader, RespError, advanced, crlf_result, decimal, is_decimal, digits_value, is_digit,
    push_bytes, write_decimal, consume_line_break, lemma_advanced_trans, line_result, after_line,
    read_until_line_break, CR, LF,
};
use crate::data_types::{
    ArrayStack, Frame, RESPType, decode_frame, owed, drained, read_next_data_mandatory,
    encode_frame, lemma_frame_round_trip,
};
use crate::store::{Store, lookup_at, opt_bytes, expiry_after, Entry};
use crate::config::{Config, ServerRole, role_id};
use vstd::string::StringSliceAdditionalSpecFns;
use vstd::utf8::encode_utf8;

verus! {

/// The commands that the server serves.
#[derive(Clone, Copy, Debug, PartialEq, Eq, Structural)]
pub enum RESPCmd {
    PING,
    ECHO,
    SET,
    GET,
    INFO,
    REPLCONF,
    PSYNC,
}

/// What reading one bulk-string argument (header, payload, CRLF) from the
/// front of `s` yields: the payload and the input left after it.
pub open spec fn bulk_arg(s: Seq<u8>) -> Result<(Seq<u8>, Seq<u8>), RespError> {
    match decode_frame(s) {
        Ok((f, t)) => match f {
            Frame::BulkString(n) => if t.len() < n {
                Err(RespError::Incomplete)
            } else {
                match crlf_result(t.skip(n as int)) {
                    Ok(_) => Ok((t.take(n as int), t.skip(n + 2int))),
                    Err(e) => Err(e),
                }
            },
            _ => Err(RespError::Malformed),
        },
        Err(e) => Err(e),
    }
}

/// What reading `k` bulk-string arguments in a row from `s` yields.
pub open spec fn bulk_args(s: Seq<u8>, k: nat) -> Result<(Seq<Seq<u8>>, Seq<u8>), RespError>
    decreases k,
{
    if k == 0 {
        Ok((Seq::empty(), s))
    } else {
        match bulk_arg(s) {
            Ok((a, t)) => match bulk_args(t, (k - 1) as nat) {
                Ok((rest, u)) => Ok((seq![a] + rest, u)),
                Err(e) => Err(e),
            },
            Err(e) => Err(e),
        }
    }
}

/// The wire form of one bulk-string argument.
pub open spec fn encode_bulk(a: Seq<u8>) -> Seq<u8> {
    encode_frame(Frame::BulkString(a.len())) + a + seq![CR, LF]
}

/// The wire form of arguments one after another.
pub open spec fn encode_args(args: Seq<Seq<u8>>) -> Seq<u8>
    decreases args.len(),
{
    if args.len() == 0 {
        Seq::empty()
    } else {
        encode_bulk(args[0]) + encode_args(args.drop_first())
    }
}

/// The wire form of a command: an array header and its arguments.
pub open spec fn encode_command(args: Seq<Seq<u8>>) -> Seq<u8> {
    encode_frame(Frame::Array(args.len())) + encode_args(args)
}

proof fn lemma_bulk_round_trip(a: Seq<u8>, rest: Seq<u8>)
    requires
        a.len() < 1000000000,
    ensures
        bulk_arg(encode_bulk(a) + rest) == Ok::<(Seq<u8>, Seq<u8>), RespError>((a, rest)),
{
    let t = a + seq![CR, LF] + rest;
    lemma_frame_round_trip(Frame::BulkString(a.len()), t);
    assert(encode_bulk(a) + rest =~= encode_frame(Frame::BulkString(a.len())) + t);
    assert(t.take(a.len() as int) =~= a);
    assert(t.skip(a.len() as int) =~= seq![CR, LF] + rest);
    assert(t.skip(a.len() + 2int) =~= rest);
}

#[verifier::rlimit(50)]
proof fn lemma_args_round_trip(args: Seq<Seq<u8>>, rest: Seq<u8>)
    requires
        forall|i: int| 0 <= i < args.len() ==> #[trigger] args[i].len() < 1000000000,
    ensures
        bulk_args(encode_args(args) + rest, args.len()) == Ok::<
            (Seq<Seq<u8>>, Seq<u8>),
            RespError,
        >((args, rest)),
    decreases args.len(),
{
    if args.len() == 0 {
        assert(encode_args(args) + rest =~= rest);
        assert(args =~= Seq::<Seq<u8>>::empty());
    } else {
        let tail = args.drop_first();
        assert forall|i: int| 0 <= i < tail.len() implies #[trigger] tail[i].len() < 1000000000 by {
            assert(tail[i] == args[i + 1]);
        }
        lemma_args_round_trip(tail, rest);
        lemma_bulk_round_trip(args[0], encode_args(tail) + rest);
        assert(encode_args(args) + rest =~= encode_bulk(args[0]) + (encode_args(tail) + rest));
        assert(seq![args[0]] + tail =~= args);
        let s = encode_args(args) + rest;
        assert(bulk_arg(s) == Ok::<(Seq<u8>, Seq<u8>), RespError>(
            (args[0], encode_args(tail) + rest),
        ));
        assert(bulk_args(s, args.len()) == combine(
            seq![args[0]],
            bulk_args(encode_args(tail) + rest, tail.len()),
        ));
    }
}

/// A command written in its wire form, followed by any further input,
/// decodes to an array header announcing its arguments, and these read back
/// exactly as they were written, leaving exactly the further input.
pub proof fn lemma_command_round_trip(args: Seq<Seq<u8>>, rest: Seq<u8>)
    requires
        args.len() < 1000000000,
        forall|i: int| 0 <= i < args.len() ==> #[trigger] args[i].len() < 1000000000,
    ensures
        decode_frame(encode_command(args) + rest) == Ok::<(Frame, Seq<u8>), RespError>(
            (Frame::Array(args.len()), encode_args(args) + rest),
        ),
        bulk_args(encode_args(args) + rest, args.len()) == Ok::<
            (Seq<Seq<u8>>, Seq<u8>),
            RespError,
        >((args, rest)),
{
    lemma_frame_round_trip(Frame::Array(args.len()), encode_args(args) + rest);
    assert(encode_command(args) + rest =~= encode_frame(Frame::Array(args.len())) + (encode_args(
        args,
    ) + rest));
    lemma_args_round_trip(args, rest);
}

/// The wire form of commands one after another.
pub open spec fn encode_commands(cmds: Seq<Seq<Seq<u8>>>) -> Seq<u8>
    decreases cmds.len(),
{
    if cmds.len() == 0 {
        Seq::empty()
    } else {
        encode_command(cmds[0]) + encode_commands(cmds.drop_first())
    }
}

/// What reading `k` commands in a row from `s` yields: for each, the array
/// header and then as many bulk-string arguments as it announces; and the
/// input left after them.
pub open spec fn read_commands(s: Seq<u8>, k: nat) -> Result<
    (Seq<Seq<Seq<u8>>>, Seq<u8>),
    RespError,
>
    decreases k,
{
    if k == 0 {
        Ok((Seq::empty(), s))
    } else {
        match decode_frame(s) {
            Ok((f, t)) => match f {
                Frame::Array(n) => match bulk_args(t, n) {
                    Ok((a, u)) => match read_commands(u, (k - 1) as nat) {
                        Ok((cs, v)) => Ok((seq![a] + cs, v)),
                        Err(e) => Err(e),
                    },
                    Err(e) => Err(e),
                },
                _ => Err(RespError::Malformed),
            },
            Err(e) => Err(e),
        }
    }
}

/// A command whose argument count and argument lengths have a size line.
pub open spec fn fits_wire(args: Seq<Seq<u8>>) -> bool {
    args.len() < 1000000000 && forall|j: int| 0 <= j < args.len() ==> #[trigger] args[j].len()
        < 1000000000
}

/// Commands written one after another in their wire form, followed by any
/// further input, read back as exactly those commands in that order, with
/// nothing left between them and exactly the further input after them.
#[verifier::rlimit(50)]
pub proof fn lemma_commands_round_trip(cmds: Seq<Seq<Seq<u8>>>, rest: Seq<u8>)
    requires
        forall|i: int| 0 <= i < cmds.len() ==> #[trigger] fits_wire(cmds[i]),
    ensures
        read_commands(encode_commands(cmds) + rest, cmds.len()) == Ok::<
            (Seq<Seq<Seq<u8>>>, Seq<u8>),
            RespError,
        >((cmds, rest)),
    decreases cmds.len(),
{
    if cmds.len() == 0 {
        assert(encode_commands(cmds) + rest =~= rest);
        assert(cmds =~= Seq::<Seq<Seq<u8>>>::empty());
    } else {
        let tail = cmds.drop_first();
        assert forall|i: int| 0 <= i < tail.len() implies #[trigger] fits_wire(tail[i]) by {
            assert(tail[i] == cmds[i + 1]);
        }
        lemma_commands_round_trip(tail, rest);
        let c = cmds[0];
        assert(fits_wire(c));
        let later = encode_commands(tail) + rest;
        lemma_command_round_trip(c, later);
        let s = encode_commands(cmds) + rest;
        assert(s =~= encode_command(c) + later);
        let t = encode_args(c) + later;
        assert(decode_frame(s) == Ok::<(Frame, Seq<u8>), RespError>((Frame::Array(c.len()), t)));
        assert(bulk_args(t, c.len()) == Ok::<(Seq<Seq<u8>>, Seq<u8>), RespError>((c, later)));
        assert(read_commands(later, tail.len()) == Ok::<
            (Seq<Seq<Seq<u8>>>, Seq<u8>),
            RespError,
        >((tail, rest)));
        assert(seq![c] + tail =~= cmds);
    }
}

/// The cursor after one more element of the innermost open array was read.
pub open spec fn consume_one(s: Seq<nat>) -> Seq<nat> {
    if s.len() > 0 && s.last() > 1 {
        s.drop_last().push((s.last() - 1) as nat)
    } else {
        drained(s)
    }
}

/// The reply that frames `p` as a bulk string.
pub open spec fn bulk_reply(p: Seq<u8>) -> Seq<u8> {
    seq![36u8] + decimal(p.len()) + seq![CR, LF] + p + seq![CR, LF]
}

/// The null bulk string, meaning "no value".
pub open spec fn null_reply() -> Seq<u8> {
    seq![36u8, 45, 49, 13, 10]
}

pub open spec fn ok_reply() -> Seq<u8> {
    seq![43u8, 79, 75, 13, 10]
}

pub open spec fn pong_reply() -> Seq<u8> {
    seq![43u8, 80, 79, 78, 71, 13, 10]
}

/// The reply of GET for what the store read.
pub open spec fn get_reply(v: Option<Seq<u8>>) -> Seq<u8> {
    match v {
        Some(p) => bulk_reply(p),
        None => null_reply(),
    }
}

/// `after` is `before` followed by the reply of GET for `key` as read from
/// `m` at some instant.
pub open spec fn get_written(
    before: Seq<u8>,
    after: Seq<u8>,
    m: Map<Seq<u8>, Entry>,
    key: Seq<u8>,
) -> bool {
    exists|now: u128| after == before + get_reply(lookup_at(m, key, now))
}

/// GET of a key that the store does not hold replies with exactly the five
/// bytes of the null bulk string, at every instant.
pub proof fn lemma_absent_key_null_bulk(m: Map<Seq<u8>, Entry>, key: Seq<u8>, now: u128)
    requires
        !m.contains_key(key),
    ensures
        get_reply(lookup_at(m, key, now)) == seq![36u8, 45, 49, 13, 10],
        get_reply(lookup_at(m, key, now)).len() == 5,
{
}

pub open spec fn ascii_upper(b: u8) -> u8 {
    if 97 <= b <= 122 {
        (b - 32) as u8
    } else {
        b
    }
}

/// `s` with its ASCII lower-case letters made upper-case.
pub open spec fn upper(s: Seq<u8>) -> Seq<u8> {
    s.map_values(|b: u8| ascii_upper(b))
}

/// The milliseconds that one unit of a SET expiry keyword stands for.
pub open spec fn unit_multiplier(kw: Seq<u8>) -> Option<u32> {
    if upper(kw) == seq![80u8, 88] {
        Some(1)
    } else if upper(kw) == seq![69u8, 88] {
        Some(1000)
    } else {
        None
    }
}

/// A base-10 number that fits in 32 bits, written as ASCII digits only.
pub open spec fn parse_u32_spec(d: Seq<u8>) -> Option<u32> {
    if is_decimal(d) && digits_value(d) <= u32::MAX {
        Some(digits_value(d) as u32)
    } else {
        None
    }
}

/// The expiry in milliseconds that SET arguments `unit` and `amount` ask for.
pub open spec fn set_ttl(unit: Seq<u8>, amount: Seq<u8>) -> Option<u32> {
    match (unit_multiplier(unit), parse_u32_spec(amount)) {
        (Some(m), Some(a)) => if m * a <= u32::MAX {
            Some((m * a) as u32)
        } else {
            None
        },
        _ => None,
    }
}

/// Whether `a` equals `upper_lit` once made upper-case.
pub fn eq_ignore_ascii_case(a: &Vec<u8>, upper_lit: &[u8]) -> (r: bool)
    ensures
        r == (upper(a@) == upper_lit@),
{
    if a.len() != upper_lit.len() {
        assert(upper(a@).len() == a@.len());
        return false;
    }
    let mut i: usize = 0;
    while i < a.len()
        invariant
            i <= a@.len(),
            a@.len() == upper_lit@.len(),
            forall|j: int| 0 <= j < i ==> ascii_upper(a@[j]) == upper_lit@[j],
        decreases a@.len() - i,
    {
        let b = a[i];
        let u = if 97 <= b && b <= 122 {
            b - 32
        } else {
            b
        };
        if u != upper_lit[i] {
            assert(upper(a@)[i as int] != upper_lit@[i as int]);
            return false;
        }
        i = i + 1;
    }
    assert(upper(a@) =~= upper_lit@);
    true
}

proof fn lemma_digits_prefix_le(d: Seq<u8>, j: int)
    requires
        is_decimal(d),
        0 <= j <= d.len(),
    ensures
        digits_value(d.take(j)) <= digits_value(d),
    decreases d.len(),
{
    if j < d.len() {
        assert(d.take(j) =~= d.drop_last().take(j));
        if d.len() > 1 {
            assert(is_decimal(d.drop_last())) by {
                assert(forall|i: int|
                    0 <= i < d.drop_last().len() ==> d.drop_last()[i] == d[i]);
            }
            lemma_digits_prefix_le(d.drop_last(), j);
        } else {
            assert(d.take(j) =~= Seq::<u8>::empty());
        }
    } else {
        assert(d.take(j) =~= d);
    }
}

/// Parses ASCII digits as a 32-bit unsigned number.
pub fn parse_u32(d: &[u8]) -> (r: Option<u32>)
    ensures
        r == parse_u32_spec(d@),
{
    if d.len() == 0 {
        return None;
    }
    let mut acc: u64 = 0;
    let mut j: usize = 0;
    assert(d@.take(0) =~= Seq::<u8>::empty());
    while j < d.len()
        invariant
            0 < d@.len(),
            j <= d@.len(),
            acc == digits_value(d@.take(j as int)),
            acc <= u32::MAX,
            forall|i: int| 0 <= i < j ==> #[trigger] is_digit(d@[i]),
        decreases d@.len() - j,
    {
        let b = d[j];
        if b < 48 || b > 57 {
            assert(!is_digit(d@[j as int]));
            assert(!is_decimal(d@));
            return None;
        }
        assert(d@.take(j + 1).drop_last() =~= d@.take(j as int));
        assert(d@.take(j + 1).last() == b);
        acc = acc * 10 + (b - 48) as u64;
        j = j + 1;
        if acc > 4294967295 {
            proof {
                if is_decimal(d@) {
                    lemma_digits_prefix_le(d@, j as int);
                }
            }
            return None;
        }
    }
    assert(d@.take(j as int) =~= d@);
    Some(acc as u32)
}

/// Reads one bulk-string argument and counts it on the cursor.
fn read_bulk(reader: &mut ByteReader, array_stack: &mut ArrayStack) -> (r: Result<
    Vec<u8>,
    RespError,
>)
    requires
        owed(old(array_stack)@) > 0,
    ensures
        r matches Ok(v) ==> bulk_arg(old(reader)@) == Ok::<(Seq<u8>, Seq<u8>), RespError>(
            (v@, final(reader)@),
        ) && final(array_stack)@ == consume_one(old(array_stack)@),
        r matches Err(e) ==> bulk_arg(old(reader)@) == Err::<(Seq<u8>, Seq<u8>), RespError>(e)
            && final(array_stack)@ == old(array_stack)@,
        advanced(old(reader)@, final(reader)@),
{
    let ghost s = reader@;
    let next_data = read_next_data_mandatory(reader);
    let ghost t = reader@;
    match next_data {
        Some(RESPType::BulkString { size }) => {
            let payload = reader.read_exact(size);
            proof {
                lemma_advanced_trans(s, t, reader@);
            }
            match payload {
                Ok(p) => {
                    let ghost u = reader@;
                    let lb = consume_line_break(reader);
                    proof {
                        lemma_advanced_trans(s, u, reader@);
                    }
                    match lb {
                        Ok(_) => {
                            assert(t.skip(size as int).skip(2) =~= t.skip(size + 2int));
                            let _ = array_stack.decrement();
                            assert(final(array_stack)@ =~= consume_one(old(array_stack)@));
                            Ok(p)
                        },
                        Err(e) => Err(e),
                    }
                },
                Err(e) => Err(e),
            }
        },
        Some(RESPType::Error { error }) => Err(error),
        _ => Err(RespError::Malformed),
    }
}

pub open spec fn views(v: Seq<Vec<u8>>) -> Seq<Seq<u8>> {
    v.map_values(|x: Vec<u8>| x@)
}

/// The cursor after `k` more elements of the innermost open array were read.
pub open spec fn consume_n(s: Seq<nat>, k: nat) -> Seq<nat> {
    if k == 0 {
        s
    } else if owed(s) > k {
        s.drop_last().push((owed(s) - k) as nat)
    } else {
        drained(s)
    }
}

/// Reads `k` bulk-string arguments and counts each on the cursor.
fn read_args(reader: &mut ByteReader, array_stack: &mut ArrayStack, k: usize) -> (r: Result<
    Vec<Vec<u8>>,
    RespError,
>)
    requires
        k <= owed(old(array_stack)@),
    ensures
        r matches Ok(v) ==> bulk_args(old(reader)@, k as nat) == Ok::<
            (Seq<Seq<u8>>, Seq<u8>),
            RespError,
        >((views(v@), final(reader)@)) && final(array_stack)@ == consume_n(
            old(array_stack)@,
            k as nat,
        ),
        r matches Err(e) ==> bulk_args(old(reader)@, k as nat) == Err::<
            (Seq<Seq<u8>>, Seq<u8>),
            RespError,
        >(e),
        advanced(old(reader)@, final(reader)@),
{
    let ghost s0 = reader@;
    let ghost st0 = array_stack@;
    let mut args: Vec<Vec<u8>> = Vec::new();
    let mut i: usize = 0;
    proof {
        assert(s0.skip(0) =~= s0);
        assert(views(args@) + Seq::<Seq<u8>>::empty() =~= Seq::<Seq<u8>>::empty());
        if st0.len() > 0 {
            assert(st0.drop_last().push(st0.last()) =~= st0);
        }
    }
    while i < k
        invariant
            i <= k <= owed(st0),
            s0 == old(reader)@,
            st0 == old(array_stack)@,
            advanced(s0, reader@),
            combine(views(args@), bulk_args(reader@, (k - i) as nat)) == bulk_args(s0, k as nat),
            i < k ==> array_stack@ == st0.drop_last().push((owed(st0) - i) as nat),
            i == k ==> array_stack@ == consume_n(st0, k as nat),
            st0.len() > 0 || k == 0,
        decreases k - i,
    {
        let ghost cur = reader@;
        let a = read_bulk(reader, array_stack);
        proof {
            lemma_advanced_trans(s0, cur, reader@);
        }
        match a {
            Ok(a) => {
                proof {
                    let m = (k - i) as nat;
                    assert(bulk_args(cur, m) == combine(
                        seq![a@],
                        bulk_args(reader@, (m - 1) as nat),
                    ));
                    lemma_combine_assoc(views(args@), seq![a@], bulk_args(reader@, (m - 1) as nat));
                }
                let ghost before = views(args@);
                args.push(a);
                assert(views(args@) =~= before + seq![a@]);
                i = i + 1;
                proof {
                    if i == k {
                        if owed(st0) > k {
                            assert(array_stack@ =~= consume_n(st0, k as nat));
                        } else {
                            assert(array_stack@ =~= consume_n(st0, k as nat));
                        }
                    } else {
                        assert(array_stack@ =~= st0.drop_last().push((owed(st0) - i) as nat));
                    }
                }
            },
            Err(e) => {
                proof {
                    assert(bulk_args(cur, (k - i) as nat) == Err::<
                        (Seq<Seq<u8>>, Seq<u8>),
                        RespError,
                    >(e));
                }
                return Err(e);
            },
        }
    }
    proof {
        assert(views(args@) + Seq::<Seq<u8>>::empty() =~= views(args@));
    }
    Ok(args)
}

/// Puts the arguments `prefix` read earlier in front of a later result.
pub open spec fn combine(
    prefix: Seq<Seq<u8>>,
    res: Result<(Seq<Seq<u8>>, Seq<u8>), RespError>,
) -> Result<(Seq<Seq<u8>>, Seq<u8>), RespError> {
    match res {
        Ok((a, u)) => Ok((prefix + a, u)),
        Err(e) => Err(e),
    }
}

proof fn lemma_bulk_args_len(s: Seq<u8>, k: nat)
    ensures
        bulk_args(s, k) matches Ok((a, u)) ==> a.len() == k,
    decreases k,
{
    if k > 0 {
        match bulk_arg(s) {
            Ok((x, t)) => {
                lemma_bulk_args_len(t, (k - 1) as nat);
            },
            Err(_) => {},
        }
    }
}

proof fn lemma_combine_assoc(
    p: Seq<Seq<u8>>,
    q: Seq<Seq<u8>>,
    res: Result<(Seq<Seq<u8>>, Seq<u8>), RespError>,
)
    ensures
        combine(p, combine(q, res)) == combine(p + q, res),
{
    match res {
        Ok((a, u)) => {
            assert(p + (q + a) =~= (p + q) + a);
        },
        Err(_) => {},
    }
}

/// The effect of PING: no argument, a PONG reply.
pub open spec fn ping_post(o0: Seq<u8>, o1: Seq<u8>, c: Seq<nat>, r: Result<(), RespError>) -> bool {
    if owed(c) == 0 {
        r is Ok && o1 == o0 + pong_reply()
    } else {
        r == Err::<(), RespError>(RespError::ProtocolSemantics) && o1 == o0
    }
}

/// Nothing was read or written and the cursor is as it was.
pub open spec fn untouched(
    s0: Seq<u8>,
    s1: Seq<u8>,
    o0: Seq<u8>,
    o1: Seq<u8>,
    c0: Seq<nat>,
    c1: Seq<nat>,
) -> bool {
    s1 == s0 && o1 == o0 && c1 == c0
}

/// What reading ECHO's argument from the front of `s` yields: the bytes
/// between the header and the next CRLF, which must be as many as the header
/// declares, and the input left after that CRLF.
pub open spec fn echo_arg(s: Seq<u8>) -> Result<(Seq<u8>, Seq<u8>), RespError> {
    match decode_frame(s) {
        Ok((f, t)) => match f {
            Frame::BulkString(n) => match line_result(t, 0) {
                Ok(p) => if p.len() == n {
                    Ok((p, after_line(t, p)))
                } else {
                    Err(RespError::Malformed)
                },
                Err(e) => Err(e),
            },
            _ => Err(RespError::Malformed),
        },
        Err(e) => Err(e),
    }
}

/// The effect of ECHO: one bulk string, replied as a bulk string.
pub open spec fn echo_post(
    s0: Seq<u8>,
    s1: Seq<u8>,
    o0: Seq<u8>,
    o1: Seq<u8>,
    c0: Seq<nat>,
    c1: Seq<nat>,
    r: Result<(), RespError>,
) -> bool {
    if owed(c0) != 1 {
        r == Err::<(), RespError>(RespError::ProtocolSemantics) && untouched(s0, s1, o0, o1, c0, c1)
    } else {
        match echo_arg(s0) {
            Ok((p, rest)) => r is Ok && s1 == rest && o1 == o0 + bulk_reply(p) && c1 == drained(c0),
            Err(e) => r == Err::<(), RespError>(e) && advanced(s0, s1) && o1 == o0 && c1 == c0,
        }
    }
}

/// The effect of GET on a store holding `m`: one key, replied with what a
/// read of it finds.
pub open spec fn get_post(
    s0: Seq<u8>,
    s1: Seq<u8>,
    o0: Seq<u8>,
    o1: Seq<u8>,
    c0: Seq<nat>,
    c1: Seq<nat>,
    m: Map<Seq<u8>, Entry>,
    r: Result<(), RespError>,
) -> bool {
    if owed(c0) != 1 {
        r == Err::<(), RespError>(RespError::ProtocolSemantics) && untouched(s0, s1, o0, o1, c0, c1)
    } else {
        match bulk_arg(s0) {
            Ok((key, rest)) => r is Ok && s1 == rest && get_written(o0, o1, m, key) && c1
                == drained(c0),
            Err(e) => r == Err::<(), RespError>(e) && advanced(s0, s1) && o1 == o0 && c1 == c0,
        }
    }
}

/// The effect of SET, the store going from `m0` to `m1`.
pub open spec fn set_post(
    s0: Seq<u8>,
    s1: Seq<u8>,
    o0: Seq<u8>,
    o1: Seq<u8>,
    c0: Seq<nat>,
    c1: Seq<nat>,
    m0: Map<Seq<u8>, Entry>,
    m1: Map<Seq<u8>, Entry>,
    r: Result<(), RespError>,
) -> bool {
    if owed(c0) != 2 && owed(c0) != 4 {
        r == Err::<(), RespError>(RespError::ProtocolSemantics) && untouched(s0, s1, o0, o1, c0, c1)
            && m1 == m0
    } else {
        match bulk_args(s0, owed(c0)) {
            Ok((a, rest)) => s1 == rest && c1 == drained(c0) && if owed(c0) == 2 {
                r is Ok && o1 == o0 + ok_reply() && m1 == m0.insert(
                    a[0],
                    Entry { value: a[1], expires_at: None },
                )
            } else {
                match set_ttl(a[2], a[3]) {
                    Some(ttl) => r is Ok && o1 == o0 + ok_reply() && expiring_written(
                        m0,
                        m1,
                        a[0],
                        a[1],
                        ttl,
                    ),
                    None => r == Err::<(), RespError>(RespError::ProtocolSemantics) && o1 == o0
                        && m1 == m0,
                }
            },
            Err(e) => r == Err::<(), RespError>(e) && advanced(s0, s1) && o1 == o0 && m1 == m0,
        }
    }
}

/// PING takes no argument and replies PONG.
pub fn ping(out: &mut Vec<u8>, array_stack: &ArrayStack) -> (r: Result<(), RespError>)
    ensures
        ping_post(old(out)@, final(out)@, array_stack@, r),
{
    if array_stack.expects_more() {
        return Err(RespError::ProtocolSemantics);
    }
    push_bytes(out, &[43u8, 80, 79, 78, 71, 13, 10]);
    Ok(())
}

/// Writes `p` framed as a bulk string.
fn write_value(out: &mut Vec<u8>, p: &[u8])
    ensures
        final(out)@ == old(out)@ + bulk_reply(p@),
{
    push_bytes(out, &[36u8]);
    write_decimal(out, p.len());
    push_bytes(out, &[13u8, 10]);
    push_bytes(out, p);
    push_bytes(out, &[13u8, 10]);
    assert(final(out)@ =~= old(out)@ + bulk_reply(p@));
}

/// ECHO takes one bulk string and replies with it as a bulk string.
pub fn echo(reader: &mut ByteReader, out: &mut Vec<u8>, array_stack: &mut ArrayStack) -> (r:
    Result<(), RespError>)
    ensures
        echo_post(
            old(reader)@,
            final(reader)@,
            old(out)@,
            final(out)@,
            old(array_stack)@,
            final(array_stack)@,
            r,
        ),
{
    if !array_stack.owes_exactly(1) {
        return Err(RespError::ProtocolSemantics);
    }
    let ghost s0 = reader@;
    let next_data = read_next_data_mandatory(reader);
    let ghost t = reader@;
    let size = match next_data {
        Some(RESPType::BulkString { size }) => size,
        Some(RESPType::Error { error }) => {
            return Err(error);
        },
        _ => {
            return Err(RespError::Malformed);
        },
    };
    let payload = read_until_line_break(reader, 0);
    proof {
        lemma_advanced_trans(s0, t, reader@);
    }
    let p = match payload {
        Ok(p) => p,
        Err(e) => {
            return Err(e);
        },
    };
    if p.len() != size {
        return Err(RespError::Malformed);
    }
    let _ = array_stack.decrement();
    assert(array_stack@ =~= drained(old(array_stack)@));
    write_value(out, p.as_slice());
    Ok(())
}

/// GET takes a key and replies with its value, or the null bulk string.
pub fn get<T: Store>(
    reader: &mut ByteReader,
    out: &mut Vec<u8>,
    array_stack: &mut ArrayStack,
    store: &T,
) -> (r: Result<(), RespError>)
    requires
        store.inv(),
    ensures
        get_post(
            old(reader)@,
            final(reader)@,
            old(out)@,
            final(out)@,
            old(array_stack)@,
            final(array_stack)@,
            store.entries(),
            r,
        ),
{
    if !array_stack.owes_exactly(1) {
        return Err(RespError::ProtocolSemantics);
    }
    let key = match read_bulk(reader, array_stack) {
        Ok(k) => k,
        Err(e) => {
            return Err(e);
        },
    };
    let maybe_value = store.get(&key);
    let ghost now = choose|now: u128|
        opt_bytes(maybe_value) == lookup_at(store.entries(), key@, now);
    match maybe_value {
        Some(value) => {
            write_value(out, value.as_slice());
        },
        None => {
            push_bytes(out, &[36u8, 45, 49, 13, 10]);
        },
    }
    assert(out@ == old(out)@ + get_reply(lookup_at(store.entries(), key@, now)));
    assert(get_written(old(out)@, out@, store.entries(), key@));
    Ok(())
}

/// `after` is `before` with `key` now holding `value` until `ttl`
/// milliseconds after some instant.
pub open spec fn expiring_written(
    before: Map<Seq<u8>, Entry>,
    after: Map<Seq<u8>, Entry>,
    key: Seq<u8>,
    value: Seq<u8>,
    ttl: u32,
) -> bool {
    exists|now: u128|
        after == before.insert(key, Entry { value, expires_at: Some(expiry_after(now, ttl)) })
}

/// SET takes a key and a value, and optionally an expiry unit (`PX` for
/// milliseconds, `EX` for seconds, in any case) and an amount; it stores the
/// value and replies OK.
pub fn set<T: Store>(
    reader: &mut ByteReader,
    out: &mut Vec<u8>,
    array_stack: &mut ArrayStack,
    store: &mut T,
) -> (r: Result<(), RespError>)
    requires
        old(store).inv(),
    ensures
        final(store).inv(),
        set_post(
            old(reader)@,
            final(reader)@,
            old(out)@,
            final(out)@,
            old(array_stack)@,
            final(array_stack)@,
            old(store).entries(),
            final(store).entries(),
            r,
        ),
{
    let n: usize = if array_stack.owes_exactly(2) {
        2
    } else if array_stack.owes_exactly(4) {
        4
    } else {
        return Err(RespError::ProtocolSemantics);
    };
    let ghost s0 = reader@;
    let mut args = match read_args(reader, array_stack, n) {
        Ok(a) => a,
        Err(e) => {
            return Err(e);
        },
    };
    proof {
        lemma_bulk_args_len(s0, n as nat);
    }
    assert(views(args@).len() == n);
    let ghost a = views(args@);
    assert(a[0] == args@[0]@ && a[1] == args@[1]@);
    if n == 2 {
        let value = args.pop().unwrap();
        let key = args.pop().unwrap();
        store.set(key, value);
        push_bytes(out, &[43u8, 79, 75, 13, 10]);
        return Ok(());
    }
    assert(a[2] == args@[2]@ && a[3] == args@[3]@);
    let amount = args.pop().unwrap();
    let unit = args.pop().unwrap();
    let value = args.pop().unwrap();
    let key = args.pop().unwrap();
    let multiplier: u32 = if eq_ignore_ascii_case(&unit, &[80u8, 88]) {
        1
    } else if eq_ignore_ascii_case(&unit, &[69u8, 88]) {
        1000
    } else {
        return Err(RespError::ProtocolSemantics);
    };
    let ttl = match parse_u32(amount.as_slice()) {
        Some(t) => t,
        None => {
            return Err(RespError::ProtocolSemantics);
        },
    };
    if (multiplier as u64) * (ttl as u64) > 4294967295 {
        return Err(RespError::ProtocolSemantics);
    }
    store.set_expiring(key, value, multiplier * ttl);
    push_bytes(out, &[43u8, 79, 75, 13, 10]);
    Ok(())
}


/// The snapshot that a primary sends after a full resync: an empty
/// database, written as hex.
pub const EMPTY_RDB_HEX: &'static str = "524544495330303131fa0972656469732d76657205372e322e30fa0a72656469732d62697473c040fa056374696d65c26d08bc65fa08757365642d6d656dc2b0c41000fa08616f662d62617365c000fff06e3bfec0ff5aa2";

/// The same snapshot as bytes.
pub const EMPTY_RDB: [u8; 88] = [
    82, 69, 68, 73, 83, 48, 48, 49, 49, 250, 9, 114, 101, 100, 105, 115, 45, 118, 101, 114, 5, 55,
    46, 50, 46, 48, 250, 10, 114, 101, 100, 105, 115, 45, 98, 105, 116, 115, 192, 64, 250, 5, 99,
    116, 105, 109, 101, 194, 109, 8, 188, 101, 250, 8, 117, 115, 101, 100, 45, 109, 101, 109, 194,
    176, 196, 16, 0, 250, 8, 97, 111, 102, 45, 98, 97, 115, 101, 192, 0, 255, 240, 110, 59, 254,
    192, 255, 90, 162,
];

/// The value of an ASCII hex digit, or -1.
pub open spec fn hex_val(b: u8) -> int {
    if 48 <= b <= 57 {
        b - 48
    } else if 97 <= b <= 102 {
        b - 87
    } else if 65 <= b <= 70 {
        b - 55
    } else {
        -1
    }
}

/// The bytes that a hex text writes, two digits each.
pub open spec fn hex_decode(s: Seq<u8>) -> Option<Seq<u8>> {
    if s.len() % 2 == 0 && forall|i: int| 0 <= i < s.len() ==> #[trigger] hex_val(s[i]) >= 0 {
        Some(Seq::new((s.len() / 2) as nat, |i: int| (hex_val(s[2 * i]) * 16 + hex_val(s[2 * i + 1])) as u8))
    } else {
        None
    }
}

fn hex_digit(b: u8) -> (r: Option<u8>)
    ensures
        hex_val(b) >= 0 ==> r == Some(hex_val(b) as u8),
        hex_val(b) < 0 ==> r is None,
{
    if 48 <= b && b <= 57 {
        Some(b - 48)
    } else if 97 <= b && b <= 102 {
        Some(b - 87)
    } else if 65 <= b && b <= 70 {
        Some(b - 55)
    } else {
        None
    }
}

/// Decodes a hex text, two digits to a byte.
pub fn hex_to_bytes(hex: &str) -> (r: Result<Vec<u8>, RespError>)
    ensures
        match hex_decode(hex.spec_bytes()) {
            Some(b) => r matches Ok(v) && v@ == b,
            None => r == Err::<Vec<u8>, RespError>(RespError::Malformed),
        },
{
    let s = hex.as_bytes();
    let n = s.len();
    if n % 2 != 0 {
        return Err(RespError::Malformed);
    }
    let mut v: Vec<u8> = Vec::new();
    let mut i: usize = 0;
    while i < n / 2
        invariant
            s@ == hex.spec_bytes(),
            n == s@.len(),
            n % 2 == 0,
            i <= n / 2,
            forall|j: int| 0 <= j < 2 * i ==> #[trigger] hex_val(s@[j]) >= 0,
            v@ =~= Seq::new(i as nat, |k: int| (hex_val(s@[2 * k]) * 16 + hex_val(s@[2 * k + 1])) as u8),
        decreases n / 2 - i,
    {
        let hi = hex_digit(s[2 * i]);
        let lo = hex_digit(s[2 * i + 1]);
        match (hi, lo) {
            (Some(h), Some(l)) => {
                v.push(h * 16 + l);
                proof {
                    assert forall|j: int| 0 <= j < 2 * (i + 1) implies #[trigger] hex_val(s@[j]) >= 0 by {
                        if j >= 2 * i {
                            assert(j == 2 * i || j == 2 * i + 1);
                        }
                    }
                }
                i = i + 1;
            },
            _ => {
                return Err(RespError::Malformed);
            },
        }
    }
    Ok(v)
}

/// The text of INFO's replication section for a server in role `role`.
pub open spec fn info_payload(role: ServerRole) -> Seq<u8> {
    match role_id(role) {
        Some(id) => MASTER_PREFIX@ + id + MASTER_SUFFIX@,
        None => ROLE_SLAVE@,
    }
}

pub const MASTER_PREFIX: [u8; 27] = [
    114, 111, 108, 101, 58, 109, 97, 115, 116, 101, 114, 13, 10, 109, 97, 115, 116, 101, 114, 95,
    114, 101, 112, 108, 105, 100, 58,
];

pub const MASTER_SUFFIX: [u8; 22] = [
    13, 10, 109, 97, 115, 116, 101, 114, 95, 114, 101, 112, 108, 95, 111, 102, 102, 115, 101, 116,
    58, 48,
];

pub const ROLE_SLAVE: [u8; 10] = [114, 111, 108, 101, 58, 115, 108, 97, 118, 101];

pub const REPLICATION_UPPER: [u8; 11] = [82, 69, 80, 76, 73, 67, 65, 84, 73, 79, 78];

/// Writes the replication section of a primary with id `id`.
fn write_main_data(out: &mut Vec<u8>, id: &String)
    ensures
        final(out)@ == old(out)@ + bulk_reply(MASTER_PREFIX@ + encode_utf8(id@) + MASTER_SUFFIX@),
{
    let mut payload: Vec<u8> = Vec::new();
    push_bytes(&mut payload, &MASTER_PREFIX);
    push_bytes(&mut payload, id.as_str().as_bytes());
    push_bytes(&mut payload, &MASTER_SUFFIX);
    write_value(out, payload.as_slice());
}

/// Writes the replication section for a server in role `role`.
fn write_info(out: &mut Vec<u8>, role: &ServerRole)
    ensures
        final(out)@ == old(out)@ + bulk_reply(info_payload(*role)),
{
    match role {
        ServerRole::Main { id } => write_main_data(out, id),
        ServerRole::Replica { .. } => write_value(out, &ROLE_SLAVE),
    }
}

/// The effect of INFO for a server in role `role`: an optional section name,
/// which must be `replication` in any case, replied with that section.
pub open spec fn info_post(
    s0: Seq<u8>,
    s1: Seq<u8>,
    o0: Seq<u8>,
    o1: Seq<u8>,
    c0: Seq<nat>,
    c1: Seq<nat>,
    role: ServerRole,
    r: Result<(), RespError>,
) -> bool {
    if owed(c0) == 0 {
        r is Ok && s1 == s0 && c1 == c0 && o1 == o0 + bulk_reply(info_payload(role))
    } else if owed(c0) == 1 {
        match bulk_arg(s0) {
            Ok((section, rest)) => if upper(section) == REPLICATION_UPPER@ {
                r is Ok && s1 == rest && c1 == drained(c0) && o1 == o0 + bulk_reply(
                    info_payload(role),
                )
            } else {
                r == Err::<(), RespError>(RespError::ProtocolSemantics) && o1 == o0 && s1 == rest
                    && c1 == drained(c0)
            },
            Err(e) => r == Err::<(), RespError>(e) && advanced(s0, s1) && o1 == o0 && c1 == c0,
        }
    } else {
        r == Err::<(), RespError>(RespError::ProtocolSemantics) && untouched(s0, s1, o0, o1, c0, c1)
    }
}

/// INFO replies with the replication section; no section name means that one.
pub fn info(
    reader: &mut ByteReader,
    out: &mut Vec<u8>,
    array_stack: &mut ArrayStack,
    config: &Config,
) -> (r: Result<(), RespError>)
    ensures
        info_post(
            old(reader)@,
            final(reader)@,
            old(out)@,
            final(out)@,
            old(array_stack)@,
            final(array_stack)@,
            config.role,
            r,
        ),
{
    if array_stack.owes_exactly(1) {
        let section = match read_bulk(reader, array_stack) {
            Ok(s) => s,
            Err(e) => {
                return Err(e);
            },
        };
        if !eq_ignore_ascii_case(&section, &REPLICATION_UPPER) {
            return Err(RespError::ProtocolSemantics);
        }
    } else if array_stack.expects_more() {
        return Err(RespError::ProtocolSemantics);
    }
    write_info(out, &config.role);
    Ok(())
}

/// The effect of REPLCONF: every remaining argument read, an OK reply.
pub open spec fn repl_conf_post(
    s0: Seq<u8>,
    s1: Seq<u8>,
    o0: Seq<u8>,
    o1: Seq<u8>,
    c0: Seq<nat>,
    c1: Seq<nat>,
    r: Result<(), RespError>,
) -> bool {
    match bulk_args(s0, owed(c0)) {
        Ok((_, rest)) => r is Ok && s1 == rest && c1 == drained(c0) && o1 == o0 + ok_reply(),
        Err(e) => r == Err::<(), RespError>(e) && advanced(s0, s1) && o1 == o0,
    }
}

/// Reads every argument that the innermost open array still owes.
fn read_remaining(reader: &mut ByteReader, array_stack: &mut ArrayStack) -> (r: Result<
    Vec<Vec<u8>>,
    RespError,
>)
    ensures
        r matches Ok(v) ==> bulk_args(old(reader)@, owed(old(array_stack)@)) == Ok::<
            (Seq<Seq<u8>>, Seq<u8>),
            RespError,
        >((views(v@), final(reader)@)) && final(array_stack)@ == drained(old(array_stack)@),
        r matches Err(e) ==> bulk_args(old(reader)@, owed(old(array_stack)@)) == Err::<
            (Seq<Seq<u8>>, Seq<u8>),
            RespError,
        >(e),
        advanced(old(reader)@, final(reader)@),
{
    proof {
        old(array_stack).lemma_positive();
    }
    if !array_stack.expects_more() {
        assert(old(reader)@.skip(0) =~= old(reader)@);
        let none: Vec<Vec<u8>> = Vec::new();
        assert(views(none@) =~= Seq::<Seq<u8>>::empty());
        return Ok(none);
    }
    let ghost s0 = reader@;
    let ghost c0 = array_stack@;
    let mut args: Vec<Vec<u8>> = Vec::new();
    proof {
        assert(s0.skip(0) =~= s0);
        assert(views(args@) =~= Seq::<Seq<u8>>::empty());
        assert(c0.drop_last().push(owed(c0)) =~= c0);
        lemma_combine_empty(bulk_args(s0, owed(c0)));
    }
    loop
        invariant
            s0 == old(reader)@,
            c0 == old(array_stack)@,
            c0.len() > 0,
            advanced(s0, reader@),
            owed(array_stack@) > 0,
            array_stack@ == c0.drop_last().push(owed(array_stack@)),
            combine(views(args@), bulk_args(reader@, owed(array_stack@))) == bulk_args(
                s0,
                owed(c0),
            ),
        decreases owed(array_stack@),
    {
        let last = array_stack.owes_exactly(1);
        let ghost cur = reader@;
        let ghost m = owed(array_stack@);
        let a = read_bulk(reader, array_stack);
        proof {
            lemma_advanced_trans(s0, cur, reader@);
        }
        match a {
            Ok(a) => {
                proof {
                    assert(bulk_args(cur, m) == combine(
                        seq![a@],
                        bulk_args(reader@, (m - 1) as nat),
                    ));
                    lemma_combine_assoc(views(args@), seq![a@], bulk_args(reader@, (m - 1) as nat));
                }
                let ghost before = views(args@);
                args.push(a);
                assert(views(args@) =~= before + seq![a@]);
                if last {
                    proof {
                        reveal_with_fuel(bulk_args, 2);
                        assert(views(args@) + Seq::<Seq<u8>>::empty() =~= views(args@));
                    }
                    return Ok(args);
                }
            },
            Err(e) => {
                return Err(e);
            },
        }
    }
}

proof fn lemma_combine_empty(res: Result<(Seq<Seq<u8>>, Seq<u8>), RespError>)
    ensures
        combine(Seq::empty(), res) == res,
{
    match res {
        Ok((a, u)) => {
            assert(Seq::<Seq<u8>>::empty() + a =~= a);
        },
        Err(_) => {},
    }
}

/// REPLCONF reads its option pairs without acting on them and replies OK.
pub fn repl_conf(
    reader: &mut ByteReader,
    out: &mut Vec<u8>,
    array_stack: &mut ArrayStack,
    _config: &Config,
) -> (r: Result<(), RespError>)
    ensures
        repl_conf_post(
            old(reader)@,
            final(reader)@,
            old(out)@,
            final(out)@,
            old(array_stack)@,
            final(array_stack)@,
            r,
        ),
{
    match read_remaining(reader, array_stack) {
        Ok(_) => {
            push_bytes(out, &[43u8, 79, 75, 13, 10]);
            Ok(())
        },
        Err(e) => Err(e),
    }
}

/// The reply that opens a full resync from the primary with id `id`.
pub open spec fn fullresync_reply(id: Seq<u8>) -> Seq<u8> {
    FULLRESYNC@ + id + seq![32u8, 48, 13, 10]
}

/// A snapshot framed as `$<len>` CRLF and its bytes, with no CRLF after them.
pub open spec fn snapshot_frame(rdb: Seq<u8>) -> Seq<u8> {
    seq![36u8] + decimal(rdb.len()) + seq![CR, LF] + rdb
}

pub const FULLRESYNC: [u8; 12] = [43, 70, 85, 76, 76, 82, 69, 83, 89, 78, 67, 32];

/// The effect of PSYNC on a server in role `role`: its arguments read, a
/// full-resync line and the empty snapshot as reply. Only a primary serves it.
pub open spec fn psync_post(
    s0: Seq<u8>,
    s1: Seq<u8>,
    o0: Seq<u8>,
    o1: Seq<u8>,
    c0: Seq<nat>,
    c1: Seq<nat>,
    role: ServerRole,
    r: Result<(), RespError>,
) -> bool {
    match role_id(role) {
        None => r == Err::<(), RespError>(RespError::ProtocolSemantics) && untouched(
            s0,
            s1,
            o0,
            o1,
            c0,
            c1,
        ),
        Some(id) => match bulk_args(s0, owed(c0)) {
            Ok((_, rest)) => r is Ok && s1 == rest && c1 == drained(c0) && o1 == o0
                + fullresync_reply(id) + snapshot_frame(EMPTY_RDB@),
            Err(e) => r == Err::<(), RespError>(e) && advanced(s0, s1) && o1 == o0,
        },
    }
}

/// PSYNC reads its arguments, replies that a full resync follows and sends
/// the empty snapshot.
pub fn psync(
    reader: &mut ByteReader,
    out: &mut Vec<u8>,
    array_stack: &mut ArrayStack,
    config: &Config,
) -> (r: Result<(), RespError>)
    ensures
        psync_post(
            old(reader)@,
            final(reader)@,
            old(out)@,
            final(out)@,
            old(array_stack)@,
            final(array_stack)@,
            config.role,
            r,
        ),
{
    let id = match &config.role {
        ServerRole::Main { id } => id,
        ServerRole::Replica { .. } => {
            return Err(RespError::ProtocolSemantics);
        },
    };
    match read_remaining(reader, array_stack) {
        Ok(_) => {},
        Err(e) => {
            return Err(e);
        },
    }
    push_bytes(out, &FULLRESYNC);
    push_bytes(out, id.as_str().as_bytes());
    push_bytes(out, &[32u8, 48, 13, 10]);
    push_bytes(out, &[36u8]);
    write_decimal(out, EMPTY_RDB.len());
    push_bytes(out, &[13u8, 10]);
    push_bytes(out, &EMPTY_RDB);
    assert(final(out)@ =~= old(out)@ + fullresync_reply(encode_utf8(id@)) + snapshot_frame(
        EMPTY_RDB@,
    ));
    Ok(())
}

pub open spec fn command_of(name: Seq<u8>) -> Option<RESPCmd> {
    let u = upper(name);
    if u == seq![80u8, 73, 78, 71] {
        Some(RESPCmd::PING)
    } else if u == seq![69u8, 67, 72, 79] {
        Some(RESPCmd::ECHO)
    } else if u == seq![83u8, 69, 84] {
        Some(RESPCmd::SET)
    } else if u == seq![71u8, 69, 84] {
        Some(RESPCmd::GET)
    } else if u == seq![73u8, 78, 70, 79] {
        Some(RESPCmd::INFO)
    } else if u == seq![82u8, 69, 80, 76, 67, 79, 78, 70] {
        Some(RESPCmd::REPLCONF)
    } else if u == seq![80u8, 83, 89, 78, 67] {
        Some(RESPCmd::PSYNC)
    } else {
        None
    }
}

/// `a` and `b` differ at most in the case of ASCII letters.
pub open spec fn case_variants(a: Seq<u8>, b: Seq<u8>) -> bool {
    a.len() == b.len() && forall|i: int| 0 <= i < a.len() ==> ascii_upper(a[i]) == ascii_upper(b[i])
}

/// Command names and SET expiry keywords are read without regard to the
/// case of ASCII letters: two spellings that differ only there mean the same.
pub proof fn lemma_case_insensitive(a: Seq<u8>, b: Seq<u8>)
    requires
        case_variants(a, b),
    ensures
        command_of(a) == command_of(b),
        unit_multiplier(a) == unit_multiplier(b),
{
    assert(upper(a) =~= upper(b));
}

/// The command that `name` selects.
fn lookup_command(name: &Vec<u8>) -> (r: Option<RESPCmd>)
    ensures
        r == command_of(name@),
{
    if eq_ignore_ascii_case(name, &[80u8, 73, 78, 71]) {
        Some(RESPCmd::PING)
    } else if eq_ignore_ascii_case(name, &[69u8, 67, 72, 79]) {
        Some(RESPCmd::ECHO)
    } else if eq_ignore_ascii_case(name, &[83u8, 69, 84]) {
        Some(RESPCmd::SET)
    } else if eq_ignore_ascii_case(name, &[71u8, 69, 84]) {
        Some(RESPCmd::GET)
    } else if eq_ignore_ascii_case(name, &[73u8, 78, 70, 79]) {
        Some(RESPCmd::INFO)
    } else if eq_ignore_ascii_case(name, &[82u8, 69, 80, 76, 67, 79, 78, 70]) {
        Some(RESPCmd::REPLCONF)
    } else if eq_ignore_ascii_case(name, &[80u8, 83, 89, 78, 67]) {
        Some(RESPCmd::PSYNC)
    } else {
        None
    }
}

/// Reads a command name of `bulk_string_size` bytes and its CRLF, counts it
/// on the cursor and selects the command, in any ASCII case.
pub fn parse(bulk_string_size: usize, reader: &mut ByteReader, array_stack: &mut ArrayStack) -> (r:
    Result<RESPCmd, RespError>)
    ensures
        advanced(old(reader)@, final(reader)@),
        old(reader)@.len() < bulk_string_size ==> r == Err::<RESPCmd, RespError>(
            RespError::Incomplete,
        ) && final(array_stack)@ == old(array_stack)@,
        old(reader)@.len() >= bulk_string_size ==> ({
            let name = old(reader)@.take(bulk_string_size as int);
            let t = old(reader)@.skip(bulk_string_size as int);
            match crlf_result(t) {
                Err(e) => r == Err::<RESPCmd, RespError>(e) && final(array_stack)@ == old(
                    array_stack,
                )@,
                Ok(_) => final(reader)@ == t.skip(2) && if old(array_stack)@.len() == 0 {
                    r == Err::<RESPCmd, RespError>(RespError::ProtocolSemantics)
                        && final(array_stack)@ == old(array_stack)@
                } else {
                    final(array_stack)@ == consume_one(old(array_stack)@) && match command_of(
                        name,
                    ) {
                        Some(c) => r == Ok::<RESPCmd, RespError>(c),
                        None => r == Err::<RESPCmd, RespError>(RespError::UnsupportedCommand),
                    }
                },
            }
        }),
{
    let ghost s0 = reader@;
    let buffer = match reader.read_exact(bulk_string_size) {
        Ok(b) => b,
        Err(e) => {
            return Err(e);
        },
    };
    let ghost s1 = reader@;
    let lb = consume_line_break(reader);
    proof {
        lemma_advanced_trans(s0, s1, reader@);
    }
    match lb {
        Ok(_) => {},
        Err(e) => {
            return Err(e);
        },
    }
    proof {
        array_stack.lemma_positive();
    }
    match array_stack.decrement() {
        Ok(_) => {},
        Err(e) => {
            return Err(e);
        },
    }
    assert(array_stack@ =~= consume_one(old(array_stack)@));
    match lookup_command(&buffer) {
        Some(c) => Ok(c),
        None => Err(RespError::UnsupportedCommand),
    }
}

/// The effect of running `cmd`: the input going from `s0` to `s1`, the
/// output from `o0` to `o1`, the cursor from `c0` to `c1` and the store from
/// `m0` to `m1`, on a server in role `role`, with result `r`.
pub open spec fn command_post(
    cmd: RESPCmd,
    s0: Seq<u8>,
    s1: Seq<u8>,
    o0: Seq<u8>,
    o1: Seq<u8>,
    c0: Seq<nat>,
    c1: Seq<nat>,
    m0: Map<Seq<u8>, Entry>,
    m1: Map<Seq<u8>, Entry>,
    role: ServerRole,
    r: Result<(), RespError>,
) -> bool {
    match cmd {
        RESPCmd::PING => ping_post(o0, o1, c0, r) && s1 == s0 && c1 == c0 && m1 == m0,
        RESPCmd::ECHO => echo_post(s0, s1, o0, o1, c0, c1, r) && m1 == m0,
        RESPCmd::GET => get_post(s0, s1, o0, o1, c0, c1, m0, r) && m1 == m0,
        RESPCmd::SET => set_post(s0, s1, o0, o1, c0, c1, m0, m1, r),
        RESPCmd::INFO => info_post(s0, s1, o0, o1, c0, c1, role, r) && m1 == m0,
        RESPCmd::REPLCONF => repl_conf_post(s0, s1, o0, o1, c0, c1, r) && m1 == m0,
        RESPCmd::PSYNC => psync_post(s0, s1, o0, o1, c0, c1, role, r) && m1 == m0,
    }
}

impl RESPCmd {
    /// Runs the command on the arguments that follow in `reader`, appending
    /// its reply to `out`.
    pub fn execute<T: Store>(
        &self,
        reader: &mut ByteReader,
        out: &mut Vec<u8>,
        array_stack: &mut ArrayStack,
        store: &mut T,
        config: &Config,
    ) -> (r: Result<(), RespError>)
        requires
            old(store).inv(),
        ensures
            final(store).inv(),
            command_post(
                *self,
                old(reader)@,
                final(reader)@,
                old(out)@,
                final(out)@,
                old(array_stack)@,
                final(array_stack)@,
                old(store).entries(),
                final(store).entries(),
                config.role,
                r,
            ),
    {
        match self {
            RESPCmd::PING => ping(out, array_stack),
            RESPCmd::ECHO => echo(reader, out, array_stack),
            RESPCmd::SET => set(reader, out, array_stack, store),
            RESPCmd::GET => get(reader, out, array_stack, &*store),
            RESPCmd::INFO => info(reader, out, array_stack, config),
            RESPCmd::REPLCONF => repl_conf(reader, out, array_stack, config),
            RESPCmd::PSYNC => psync(reader, out, array_stack, config),
        }
    }
}

} // verus!
