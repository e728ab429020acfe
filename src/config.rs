//! The server's configuration: its listening port and its role.
use vstd::prelude::*;
use vstd::utf8::encode_utf8;
use vstd::string::StringSliceAdditionalSpecFns;
use crate::cmds::{parse_u32, parse_u32_spec};
use crate::util::bytes_equal;

verus! {

pub const DEFAULT_PORT: u16 = 6379;

/// Whether this server is a primary, with its replication id, or a replica
/// of the primary at `main_addr` ("host port").
pub enum ServerRole {
    Main { id: String },
    Replica { main_addr: String },
}

pub struct Config {
    pub port: u16,
    pub role: ServerRole,
}

/// The replication id of a primary, as bytes.
pub open spec fn role_id(role: ServerRole) -> Option<Seq<u8>> {
    match role {
        ServerRole::Main { id } => Some(encode_utf8(id@)),
        ServerRole::Replica { .. } => None,
    }
}

impl Config {
    /// A primary on the default port with a fixed replication id.
    pub fn default() -> (r: Config)
        ensures
            r.port == DEFAULT_PORT,
            r.role matches ServerRole::Main { id } && id@
                == "8371b4fb1155b71f4a04d3e1bc3e18c4a990aeeb"@,
    {
        Config {
            port: DEFAULT_PORT,
            role: ServerRole::Main { id: "8371b4fb1155b71f4a04d3e1bc3e18c4a990aeeb".to_owned() },
        }
    }
}

pub const PORT_FLAG: [u8; 6] = [45, 45, 112, 111, 114, 116];

pub const REPLICAOF_FLAG: [u8; 11] = [45, 45, 114, 101, 112, 108, 105, 99, 97, 111, 102];

/// Why the command-line arguments were refused.
#[derive(Clone, Copy, Debug, PartialEq, Eq, Structural)]
pub enum ArgError {
    /// A `--` flag other than `--port` and `--replicaof`.
    UnknownFlag,
    /// A `--port` value that is not a 16-bit unsigned decimal number.
    InvalidPort,
    /// A value that follows no flag.
    UnexpectedValue,
}

/// Which flag the values that follow belong to.
#[derive(Clone, Copy, Debug, PartialEq, Eq, Structural)]
pub enum Capture {
    Nothing,
    Port,
    ReplicaOf,
}

/// What the arguments read so far set: the flag being read, the port and
/// the index of the argument that names the primary.
pub struct ArgsState {
    pub capture: Capture,
    pub port: u16,
    pub replica_of: Option<int>,
}

pub open spec fn is_flag(a: Seq<u8>) -> bool {
    a.len() >= 2 && a[0] == 45 && a[1] == 45
}

/// The state after the argument `a`, at index `i`, was read in state `st`.
pub open spec fn args_step(st: ArgsState, a: Seq<u8>, i: int) -> Result<ArgsState, ArgError> {
    if is_flag(a) {
        if a == PORT_FLAG@ {
            Ok(ArgsState { capture: Capture::Port, ..st })
        } else if a == REPLICAOF_FLAG@ {
            Ok(ArgsState { capture: Capture::ReplicaOf, ..st })
        } else {
            Err(ArgError::UnknownFlag)
        }
    } else {
        match st.capture {
            Capture::Port => match parse_u32_spec(a) {
                Some(p) => if p <= u16::MAX {
                    Ok(ArgsState { port: p as u16, ..st })
                } else {
                    Err(ArgError::InvalidPort)
                },
                None => Err(ArgError::InvalidPort),
            },
            Capture::ReplicaOf => Ok(ArgsState { replica_of: Some(i), ..st }),
            Capture::Nothing => Err(ArgError::UnexpectedValue),
        }
    }
}

/// The state after the first `n` arguments were read.
pub open spec fn args_state(args: Seq<Seq<u8>>, n: nat) -> Result<ArgsState, ArgError>
    decreases n,
{
    if n == 0 {
        Ok(ArgsState { capture: Capture::Nothing, port: DEFAULT_PORT, replica_of: None })
    } else {
        match args_state(args, (n - 1) as nat) {
            Ok(st) => if n <= args.len() {
                args_step(st, args[n - 1], n - 1)
            } else {
                Ok(st)
            },
            Err(e) => Err(e),
        }
    }
}

proof fn lemma_args_error_stays(args: Seq<Seq<u8>>, n: nat, m: nat)
    requires
        n <= m,
        args_state(args, n) is Err,
    ensures
        args_state(args, m) == args_state(args, n),
    decreases m - n,
{
    if n < m {
        lemma_args_error_stays(args, n, (m - 1) as nat);
    }
}

/// The arguments as bytes.
pub open spec fn arg_bytes(args: Seq<String>) -> Seq<Seq<u8>> {
    args.map_values(|a: String| encode_utf8(a@))
}

/// Reads the command-line arguments (the program name left out): `--port`
/// sets the listening port, `--replicaof "<host> <port>"` makes the server a
/// replica of that primary; a later value of a flag replaces an earlier one.
pub fn parse_args(args: &Vec<String>) -> (r: Result<Config, ArgError>)
    ensures
        match args_state(arg_bytes(args@), args@.len()) {
            Ok(st) => r matches Ok(c) && c.port == st.port && match st.replica_of {
                Some(i) => c.role matches ServerRole::Replica { main_addr } && main_addr@
                    == args@[i]@,
                None => c.role matches ServerRole::Main { id } && id@
                    == "8371b4fb1155b71f4a04d3e1bc3e18c4a990aeeb"@,
            },
            Err(e) => r == Err::<Config, ArgError>(e),
        },
{
    let ghost bs = arg_bytes(args@);
    let mut capture = Capture::Nothing;
    let mut port: u16 = DEFAULT_PORT;
    let mut replica_of: Option<usize> = None;
    let mut i: usize = 0;
    while i < args.len()
        invariant
            i <= args@.len(),
            bs == arg_bytes(args@),
            args_state(bs, i as nat) == Ok::<ArgsState, ArgError>(
                ArgsState {
                    capture,
                    port,
                    replica_of: match replica_of {
                        Some(k) => Some(k as int),
                        None => None,
                    },
                },
            ),
            replica_of matches Some(k) ==> k < i,
        decreases args@.len() - i,
    {
        let a = args[i].as_str().as_bytes();
        assert(a@ == bs[i as int]);
        let step: Result<(), ArgError> = if a.len() >= 2 && a[0] == 45 && a[1] == 45 {
            if bytes_equal(a, &PORT_FLAG) {
                capture = Capture::Port;
                Ok(())
            } else if bytes_equal(a, &REPLICAOF_FLAG) {
                capture = Capture::ReplicaOf;
                Ok(())
            } else {
                Err(ArgError::UnknownFlag)
            }
        } else {
            match capture {
                Capture::Port => match parse_u32(a) {
                    Some(p) => if p > 65535 {
                        Err(ArgError::InvalidPort)
                    } else {
                        port = p as u16;
                        Ok(())
                    },
                    None => Err(ArgError::InvalidPort),
                },
                Capture::ReplicaOf => {
                    replica_of = Some(i);
                    Ok(())
                },
                Capture::Nothing => Err(ArgError::UnexpectedValue),
            }
        };
        if let Err(e) = step {
            proof {
                lemma_args_error_stays(bs, (i + 1) as nat, args@.len());
            }
            return Err(e);
        }
        i = i + 1;
    }
    let role = match replica_of {
        Some(k) => ServerRole::Replica { main_addr: args[k].clone() },
        None => ServerRole::Main { id: "8371b4fb1155b71f4a04d3e1bc3e18c4a990aeeb".to_owned() },
    };
    Ok(Config { port, role })
}

} // verus!
