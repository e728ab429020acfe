//! The replica's side of the handshake with its primary, as a state machine:
//! each state names the request to send and the reply to expect.
use vstd::prelude::*;
use crate::util::{
    ByteReader, RespError, advanced, bytes_equal, decimal, push_bytes, write_decimal, CR, LF,
};
use crate::data_types::{Frame, RESPType, decode_frame, read_next_data_mandatory};

verus! {

/// Where the handshake stands.
#[derive(Clone, Copy, Debug, PartialEq, Eq, Structural)]
pub enum HandshakeState {
    /// PING is to be sent; PONG is expected.
    Init,
    /// The listening port is to be announced; OK is expected.
    Port,
    /// The capabilities are to be announced; OK is expected.
    Capa,
    /// PSYNC is to be sent; any simple string is accepted.
    PSync,
    /// The handshake is over.
    Done,
}

pub const PING_REQUEST: [u8; 14] = [
    42, 49, 13, 10, 36, 52, 13, 10, 80, 73, 78, 71, 13, 10,
];

pub const PORT_HEAD: [u8; 40] = [
    42, 51, 13, 10, 36, 56, 13, 10, 82, 69, 80, 76, 67, 79, 78, 70, 13, 10, 36, 49, 52, 13, 10,
    108, 105, 115, 116, 101, 110, 105, 110, 103, 45, 112, 111, 114, 116, 13, 10, 36,
];

pub const CAPA_REQUEST: [u8; 40] = [
    42, 51, 13, 10, 36, 56, 13, 10, 82, 69, 80, 76, 67, 79, 78, 70, 13, 10, 36, 52, 13, 10, 99,
    97, 112, 97, 13, 10, 36, 54, 13, 10, 112, 115, 121, 110, 99, 50, 13, 10,
];

pub const PSYNC_REQUEST: [u8; 30] = [
    42, 51, 13, 10, 36, 53, 13, 10, 80, 83, 89, 78, 67, 13, 10, 36, 49, 13, 10, 63, 13, 10, 36,
    50, 13, 10, 45, 49, 13, 10,
];

pub const PONG: [u8; 4] = [
    80, 79, 78, 71,
];

pub const OK: [u8; 2] = [
    79, 75,
];

/// The request sent in `state` by a replica listening on `port`.
pub open spec fn request_of(state: HandshakeState, port: u16) -> Seq<u8> {
    match state {
        HandshakeState::Init => PING_REQUEST@,
        HandshakeState::Port => PORT_HEAD@ + decimal(decimal(port as nat).len()) + seq![CR, LF]
            + decimal(port as nat) + seq![CR, LF],
        HandshakeState::Capa => CAPA_REQUEST@,
        HandshakeState::PSync => PSYNC_REQUEST@,
        HandshakeState::Done => Seq::empty(),
    }
}

/// The reply that `state` expects, where it expects a given one.
pub open spec fn expected_of(state: HandshakeState) -> Option<Seq<u8>> {
    match state {
        HandshakeState::Init => Some(PONG@),
        HandshakeState::Port | HandshakeState::Capa => Some(OK@),
        _ => None,
    }
}

pub open spec fn successor(state: HandshakeState) -> HandshakeState {
    match state {
        HandshakeState::Init => HandshakeState::Port,
        HandshakeState::Port => HandshakeState::Capa,
        HandshakeState::Capa => HandshakeState::PSync,
        _ => HandshakeState::Done,
    }
}

/// The request to send in `state`.
pub fn handshake_request(state: HandshakeState, port: u16) -> (r: Vec<u8>)
    ensures
        r@ == request_of(state, port),
{
    let mut out: Vec<u8> = Vec::new();
    match state {
        HandshakeState::Init => push_bytes(&mut out, &PING_REQUEST),
        HandshakeState::Port => {
            let mut digits: Vec<u8> = Vec::new();
            write_decimal(&mut digits, port as usize);
            push_bytes(&mut out, &PORT_HEAD);
            write_decimal(&mut out, digits.len());
            push_bytes(&mut out, &[13u8, 10]);
            push_bytes(&mut out, digits.as_slice());
            push_bytes(&mut out, &[13u8, 10]);
        },
        HandshakeState::Capa => push_bytes(&mut out, &CAPA_REQUEST),
        HandshakeState::PSync => push_bytes(&mut out, &PSYNC_REQUEST),
        HandshakeState::Done => {},
    }
    assert(out@ =~= request_of(state, port));
    out
}

/// The state after the primary answered `reply` in `state`: the next one if
/// the reply is the expected one, a mismatch otherwise.
pub fn handshake_advance(state: HandshakeState, reply: &Vec<u8>) -> (r: Result<
    HandshakeState,
    RespError,
>)
    ensures
        match expected_of(state) {
            Some(e) => if reply@ == e {
                r == Ok::<HandshakeState, RespError>(successor(state))
            } else {
                r == Err::<HandshakeState, RespError>(RespError::HandshakeMismatch)
            },
            None => r == Ok::<HandshakeState, RespError>(successor(state)),
        },
{
    let matches_expected = match state {
        HandshakeState::Init => bytes_equal(reply.as_slice(), &PONG),
        HandshakeState::Port | HandshakeState::Capa => bytes_equal(reply.as_slice(), &OK),
        _ => true,
    };
    if !matches_expected {
        return Err(RespError::HandshakeMismatch);
    }
    Ok(
        match state {
            HandshakeState::Init => HandshakeState::Port,
            HandshakeState::Port => HandshakeState::Capa,
            HandshakeState::Capa => HandshakeState::PSync,
            _ => HandshakeState::Done,
        },
    )
}

/// What reading a reply from `s` yields: the text of a simple string.
pub open spec fn response_result(s: Seq<u8>) -> Result<(Seq<u8>, Seq<u8>), RespError> {
    match decode_frame(s) {
        Ok((f, rest)) => match f {
            Frame::SimpleString(t) => Ok((t, rest)),
            _ => Err(RespError::Malformed),
        },
        Err(e) => Err(e),
    }
}

/// Reads a reply, which must be a simple string, and returns its text.
pub fn receive_response(reader: &mut ByteReader) -> (r: Result<Vec<u8>, RespError>)
    ensures
        r matches Ok(t) ==> response_result(old(reader)@) == Ok::<
            (Seq<u8>, Seq<u8>),
            RespError,
        >((t@, final(reader)@)),
        r matches Err(e) ==> response_result(old(reader)@) == Err::<
            (Seq<u8>, Seq<u8>),
            RespError,
        >(e),
        advanced(old(reader)@, final(reader)@),
{
    match read_next_data_mandatory(reader) {
        Some(RESPType::SimpleString { value }) => Ok(value),
        Some(RESPType::Error { error }) => Err(error),
        _ => Err(RespError::Malformed),
    }
}

/// Reads a reply and requires it to be the simple string `expected`.
pub fn assert_response(reader: &mut ByteReader, expected: &[u8]) -> (r: Result<(), RespError>)
    ensures
        match response_result(old(reader)@) {
            Ok((t, rest)) => final(reader)@ == rest && if t == expected@ {
                r is Ok
            } else {
                r == Err::<(), RespError>(RespError::HandshakeMismatch)
            },
            Err(e) => r == Err::<(), RespError>(e),
        },
        advanced(old(reader)@, final(reader)@),
{
    let response = match receive_response(reader) {
        Ok(t) => t,
        Err(e) => {
            return Err(e);
        },
    };
    if bytes_equal(response.as_slice(), expected) {
        Ok(())
    } else {
        Err(RespError::HandshakeMismatch)
    }
}

} // verus!
