//! The native-operation catalog: the fixed set of host-side calls a script
//! may issue, the name each is registered under, and the validation of each
//! call's argument shape.  A shape mismatch fails fast with `InvalidArgument`
//! and never reaches the underlying system call.
use crate::port::spec_parse_port;
use crate::port::parse_port;
use vstd::prelude::*;

verus! {

/// The fixed catalog of native operations.
#[derive(Debug, Copy, Clone, PartialEq, Eq, Structural)]
pub enum OpKind {
    WriteFile,
    ReadFile,
    DeleteFile,
    Sleep,
    StartHttpListener,
}

/// The name each operation is registered under on the script side.
pub open spec fn spec_op_name(op: OpKind) -> Seq<char> {
    match op {
        OpKind::WriteFile => "op_write_file"@,
        OpKind::ReadFile => "op_read_file"@,
        OpKind::DeleteFile => "op_delete_file"@,
        OpKind::Sleep => "op_set_timeout"@,
        OpKind::StartHttpListener => "op_create_http_server"@,
    }
}

/// The registration table, identifier by identifier.
pub fn op_name(op: OpKind) -> (r: &'static str)
    ensures
        r@ == spec_op_name(op),
{
    match op {
        OpKind::WriteFile => "op_write_file",
        OpKind::ReadFile => "op_read_file",
        OpKind::DeleteFile => "op_delete_file",
        OpKind::Sleep => "op_set_timeout",
        OpKind::StartHttpListener => "op_create_http_server",
    }
}

/// One argument as the script hands it over: text or an integer.
#[derive(Debug, Clone, PartialEq, Eq)]
pub enum ArgValue {
    Text(String),
    Int(i64),
}

/// A call whose arguments have their declared shape, ready to run host-side.
#[derive(Debug, Clone, PartialEq, Eq)]
pub enum NativeCall {
    WriteFile { path: String, contents: String },
    ReadFile { path: String },
    DeleteFile { path: String },
    Sleep { millis: u64 },
    StartHttpListener { port: String },
}

/// The kind of script-visible failure of a native call.
#[derive(Debug, Copy, Clone, PartialEq, Eq, Structural)]
pub enum ErrorKind {
    /// The arguments do not have the operation's declared shape.
    InvalidArgument,
    /// The listener's port text does not name a port in [1, 65535].
    InvalidPort,
    /// The listener could not bind its socket.
    BindError,
    /// The underlying host-side operation failed.
    IoError,
}

/// A script-visible failure: which operation, and what kind of cause.
#[derive(Debug, Copy, Clone, PartialEq, Eq, Structural)]
pub struct NativeError {
    pub op: OpKind,
    pub kind: ErrorKind,
}

pub open spec fn is_text(a: ArgValue) -> bool {
    a is Text
}

pub open spec fn text_of(a: ArgValue) -> Seq<char> {
    match a {
        ArgValue::Text(s) => s@,
        ArgValue::Int(_) => Seq::empty(),
    }
}

pub open spec fn is_int(a: ArgValue) -> bool {
    a is Int
}

pub open spec fn int_of(a: ArgValue) -> int {
    match a {
        ArgValue::Text(_) => 0,
        ArgValue::Int(n) => n as int,
    }
}

/// Each operation's declared argument shape.
pub open spec fn args_well_shaped(op: OpKind, args: Seq<ArgValue>) -> bool {
    match op {
        OpKind::WriteFile => args.len() == 2 && is_text(args[0]) && is_text(args[1]),
        OpKind::ReadFile => args.len() == 1 && is_text(args[0]),
        OpKind::DeleteFile => args.len() == 1 && is_text(args[0]),
        OpKind::Sleep => args.len() == 1 && is_int(args[0]) && int_of(args[0]) >= 0,
        OpKind::StartHttpListener => args.len() == 1 && is_text(args[0]),
    }
}

/// `c` is the typed form of a call of `op` on `args`.
pub open spec fn call_matches(op: OpKind, args: Seq<ArgValue>, c: NativeCall) -> bool {
    match c {
        NativeCall::WriteFile { path, contents } => op == OpKind::WriteFile && path@ == text_of(
            args[0],
        ) && contents@ == text_of(args[1]),
        NativeCall::ReadFile { path } => op == OpKind::ReadFile && path@ == text_of(args[0]),
        NativeCall::DeleteFile { path } => op == OpKind::DeleteFile && path@ == text_of(args[0]),
        NativeCall::Sleep { millis } => op == OpKind::Sleep && millis == int_of(args[0]),
        NativeCall::StartHttpListener { port } => op == OpKind::StartHttpListener && port@
            == text_of(args[0]),
    }
}

/// Check a call's arguments against the operation's declared shape: the typed
/// call exactly when the shape is met, `InvalidArgument` for that operation
/// otherwise, before any host-side effect.
pub fn validate_call(op: OpKind, args: Vec<ArgValue>) -> (r: Result<NativeCall, NativeError>)
    ensures
        args_well_shaped(op, args@) ==> (r matches Ok(c) && call_matches(op, args@, c)),
        !args_well_shaped(op, args@) ==> r == Err::<NativeCall, NativeError>(
            NativeError { op, kind: ErrorKind::InvalidArgument },
        ),
{
    let mut args = args;
    let invalid = NativeError { op, kind: ErrorKind::InvalidArgument };
    match op {
        OpKind::WriteFile => {
            if args.len() != 2 {
                return Err(invalid);
            }
            let contents_arg = args.pop().unwrap();
            let path_arg = args.pop().unwrap();
            match (path_arg, contents_arg) {
                (ArgValue::Text(path), ArgValue::Text(contents)) => Ok(
                    NativeCall::WriteFile { path, contents },
                ),
                _ => Err(invalid),
            }
        },
        OpKind::ReadFile => {
            if args.len() != 1 {
                return Err(invalid);
            }
            match args.pop().unwrap() {
                ArgValue::Text(path) => Ok(NativeCall::ReadFile { path }),
                _ => Err(invalid),
            }
        },
        OpKind::DeleteFile => {
            if args.len() != 1 {
                return Err(invalid);
            }
            match args.pop().unwrap() {
                ArgValue::Text(path) => Ok(NativeCall::DeleteFile { path }),
                _ => Err(invalid),
            }
        },
        OpKind::Sleep => {
            if args.len() != 1 {
                return Err(invalid);
            }
            match args.pop().unwrap() {
                ArgValue::Int(delay) => {
                    if delay >= 0 {
                        Ok(NativeCall::Sleep { millis: delay as u64 })
                    } else {
                        Err(invalid)
                    }
                },
                _ => Err(invalid),
            }
        },
        OpKind::StartHttpListener => {
            if args.len() != 1 {
                return Err(invalid);
            }
            match args.pop().unwrap() {
                ArgValue::Text(port) => Ok(NativeCall::StartHttpListener { port }),
                _ => Err(invalid),
            }
        },
    }
}

/// Resolve the listener's port text before any bind is attempted:
/// `InvalidPort` exactly when the text does not name a port in [1, 65535].
pub fn check_listener_port(text: &[u8]) -> (r: Result<u16, NativeError>)
    ensures
        match r {
            Ok(p) => spec_parse_port(text@) == Some(p),
            Err(e) => spec_parse_port(text@) is None && e == NativeError {
                op: OpKind::StartHttpListener,
                kind: ErrorKind::InvalidPort,
            },
        },
{
    match parse_port(text) {
        Some(p) => Ok(p),
        None => Err(NativeError { op: OpKind::StartHttpListener, kind: ErrorKind::InvalidPort }),
    }
}

} // verus!
