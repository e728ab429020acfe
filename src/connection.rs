//! One step of serving a connection: a frame header, or a whole command.
use vstd::prelude::*;
use crate::util::{ByteReader, RespError};
use crate::data_types::{ArrayStack, Frame, RESPType, decode_frame, read_next_data_optional};
use crate::cmds::{command_of, command_post, consume_one, parse, RESPCmd};
use crate::util::crlf_result;
use crate::config::{Config, ServerRole};
use crate::store::{Store, Entry};

verus! {

/// How a step went.
#[derive(Clone, Copy, Debug, PartialEq, Eq, Structural)]
pub enum Progress {
    /// An array header or a whole command was served.
    Done,
    /// The input ends inside the next frame or command: nothing was written
    /// and neither the cursor nor the store changed. Serve again from the
    /// start of that frame once more bytes have arrived.
    NeedMore,
    /// The input cannot be served further; the connection is to be closed.
    Failed(RespError),
}

/// How a command's result shows in a step.
pub open spec fn progress_of(cr: Result<(), RespError>) -> Progress {
    match cr {
        Ok(_) => Progress::Done,
        Err(e) => if e == RespError::Incomplete {
            Progress::NeedMore
        } else {
            Progress::Failed(e)
        },
    }
}

/// Running `cmd` on the arguments `args`, from output `o0`, cursor `c0` and
/// store `m0`, gives the step result `r`; where the step did not ask for more
/// input, the input, output, cursor and store it left are those the command
/// left.
pub open spec fn served(
    cmd: RESPCmd,
    args: Seq<u8>,
    o0: Seq<u8>,
    c0: Seq<nat>,
    m0: Map<Seq<u8>, Entry>,
    role: ServerRole,
    r: Progress,
    s_final: Seq<u8>,
    o_final: Seq<u8>,
    c_final: Seq<nat>,
    m_final: Map<Seq<u8>, Entry>,
) -> bool {
    exists|cr: Result<(), RespError>, s1: Seq<u8>, o1: Seq<u8>, c1: Seq<nat>, m1: Map<Seq<u8>, Entry>|
        command_post(cmd, args, s1, o0, o1, c0, c1, m0, m1, role, cr) && r == progress_of(cr)
            && (!(r is NeedMore) ==> s1 == s_final && o1 == o_final && c1 == c_final && m1
            == m_final)
}

/// Serves the next frame of `reader`: an array header opens an array on
/// the cursor, a bulk string names a command that then reads its
/// arguments and appends its reply to `out`.
pub fn serve_frame<T: Store>(
    reader: &mut ByteReader,
    out: &mut Vec<u8>,
    array_stack: &mut ArrayStack,
    store: &mut T,
    config: &Config,
) -> (r: Progress)
    requires
        old(store).inv(),
    ensures
        final(store).inv(),
        r is NeedMore ==> final(out)@ == old(out)@ && final(array_stack)@ == old(array_stack)@
            && final(store).entries() == old(store).entries(),
        r is Done ==> old(out)@.is_prefix_of(final(out)@),
        r is Failed ==> final(out)@ == old(out)@,
        old(reader)@.len() == 0 ==> r is NeedMore,
        old(reader)@.len() > 0 ==> match decode_frame(old(reader)@) {
            Ok((f, rest)) => match f {
                Frame::Array(n) => r is Done && final(reader)@ == rest && final(out)@ == old(out)@
                    && final(store).entries() == old(store).entries() && if n > 0 {
                    final(array_stack)@ == old(array_stack)@.push(n)
                } else {
                    final(array_stack)@ == old(array_stack)@
                },
                Frame::BulkString(n) => ({
                    let name = rest.take(n as int);
                    let args = rest.skip(n + 2int);
                    let c = consume_one(old(array_stack)@);
                    &&& r is Done ==> (old(array_stack)@.len() == 1 ==> final(array_stack)@.len()
                        == 0)
                    &&& if rest.len() < n {
                        r is NeedMore
                    } else {
                        match crlf_result(rest.skip(n as int)) {
                            Err(e) => if e == RespError::Incomplete {
                                r is NeedMore
                            } else {
                                r == Progress::Failed(e)
                            },
                            Ok(_) => if old(array_stack)@.len() == 0 {
                                r == Progress::Failed(RespError::ProtocolSemantics)
                            } else {
                                match command_of(name) {
                                    None => r == Progress::Failed(RespError::UnsupportedCommand),
                                    Some(cmd) => served(
                                        cmd,
                                        args,
                                        old(out)@,
                                        c,
                                        old(store).entries(),
                                        config.role,
                                        r,
                                        final(reader)@,
                                        final(out)@,
                                        final(array_stack)@,
                                        final(store).entries(),
                                    ),
                                }
                            },
                        }
                    }
                }),
                _ => r == Progress::Failed(RespError::Malformed),
            },
            Err(e) => if e == RespError::Incomplete {
                r is NeedMore
            } else {
                r == Progress::Failed(e)
            },
        },
{
    let out_len = out.len();
    let saved = array_stack.copy();
    let next_data = read_next_data_optional(reader);
    let data = match next_data {
        None => {
            return Progress::NeedMore;
        },
        Some(d) => d,
    };
    match data {
        RESPType::Array { size } => {
            array_stack.start_new_array(size);
            Progress::Done
        },
        RESPType::BulkString { size } => {
            let ghost c0 = array_stack@;
            let cmd = match parse(size, reader, array_stack) {
                Ok(c) => c,
                Err(RespError::Incomplete) => {
                    *array_stack = saved;
                    return Progress::NeedMore;
                },
                Err(e) => {
                    return Progress::Failed(e);
                },
            };
            let ghost c1 = array_stack@;
            assert(c1 == consume_one(c0));
            let ghost m0 = store.entries();
            let ghost s_args = reader@;
            let cr = cmd.execute(reader, out, array_stack, store, config);
            let ghost s_x = reader@;
            let ghost o_x = out@;
            let ghost c_x = array_stack@;
            let ghost m_x = store.entries();
            assert(command_post(cmd, s_args, s_x, old(out)@, o_x, c1, c_x, m0, m_x, config.role, cr));
            assert(served(cmd, s_args, old(out)@, c1, m0, config.role, progress_of(cr), s_x, o_x, c_x, m_x));
            match cr {
                Ok(_) => {
                    proof {
                        if c0.len() == 1 {
                            assert(c1.len() == 0 || c1 == seq![(c0[0] - 1) as nat]);
                        }
                    }
                    assert(old(out)@.is_prefix_of(out@));
                    Progress::Done
                },
                Err(RespError::Incomplete) => {
                    out.truncate(out_len);
                    *array_stack = saved;
                    Progress::NeedMore
                },
                Err(e) => Progress::Failed(e),
            }
        },
        RESPType::Error { error } => if error == RespError::Incomplete {
            Progress::NeedMore
        } else {
            Progress::Failed(error)
        },
        RESPType::SimpleString { .. } => Progress::Failed(RespError::Malformed),
    }
}

} // verus!
