use oden::ops::{
    check_listener_port, op_name, validate_call, ArgValue, ErrorKind, NativeCall, NativeError,
    OpKind,
};

#[test]
fn registration_table_names_every_operation() {
    assert_eq!(op_name(OpKind::WriteFile), "op_write_file");
    assert_eq!(op_name(OpKind::ReadFile), "op_read_file");
    assert_eq!(op_name(OpKind::DeleteFile), "op_delete_file");
    assert_eq!(op_name(OpKind::Sleep), "op_set_timeout");
    assert_eq!(op_name(OpKind::StartHttpListener), "op_create_http_server");
}

#[test]
fn write_file_accepts_two_text_arguments() {
    let r = validate_call(
        OpKind::WriteFile,
        vec![
            ArgValue::Text("a.txt".to_string()),
            ArgValue::Text("hello".to_string()),
        ],
    );
    assert_eq!(
        r,
        Ok(NativeCall::WriteFile { path: "a.txt".to_string(), contents: "hello".to_string() })
    );
}

#[test]
fn write_file_rejects_wrong_shapes() {
    let invalid = NativeError { op: OpKind::WriteFile, kind: ErrorKind::InvalidArgument };
    assert_eq!(
        validate_call(OpKind::WriteFile, vec![ArgValue::Text("a".to_string())]),
        Err(invalid)
    );
    assert_eq!(
        validate_call(
            OpKind::WriteFile,
            vec![ArgValue::Text("a".to_string()), ArgValue::Int(3)]
        ),
        Err(invalid)
    );
}

#[test]
fn read_and_delete_take_one_text_argument() {
    assert_eq!(
        validate_call(OpKind::ReadFile, vec![ArgValue::Text("f".to_string())]),
        Ok(NativeCall::ReadFile { path: "f".to_string() })
    );
    assert_eq!(
        validate_call(OpKind::DeleteFile, vec![ArgValue::Text("f".to_string())]),
        Ok(NativeCall::DeleteFile { path: "f".to_string() })
    );
    assert_eq!(
        validate_call(OpKind::ReadFile, vec![ArgValue::Int(1)]),
        Err(NativeError { op: OpKind::ReadFile, kind: ErrorKind::InvalidArgument })
    );
    assert_eq!(
        validate_call(OpKind::DeleteFile, vec![]),
        Err(NativeError { op: OpKind::DeleteFile, kind: ErrorKind::InvalidArgument })
    );
}

#[test]
fn sleep_takes_one_non_negative_integer() {
    assert_eq!(
        validate_call(OpKind::Sleep, vec![ArgValue::Int(0)]),
        Ok(NativeCall::Sleep { millis: 0 })
    );
    assert_eq!(
        validate_call(OpKind::Sleep, vec![ArgValue::Int(250)]),
        Ok(NativeCall::Sleep { millis: 250 })
    );
    let invalid = NativeError { op: OpKind::Sleep, kind: ErrorKind::InvalidArgument };
    assert_eq!(validate_call(OpKind::Sleep, vec![ArgValue::Int(-1)]), Err(invalid));
    assert_eq!(
        validate_call(OpKind::Sleep, vec![ArgValue::Text("5".to_string())]),
        Err(invalid)
    );
}

#[test]
fn listener_takes_one_text_argument() {
    assert_eq!(
        validate_call(OpKind::StartHttpListener, vec![ArgValue::Text("8080".to_string())]),
        Ok(NativeCall::StartHttpListener { port: "8080".to_string() })
    );
    assert_eq!(
        validate_call(OpKind::StartHttpListener, vec![ArgValue::Int(8080)]),
        Err(NativeError { op: OpKind::StartHttpListener, kind: ErrorKind::InvalidArgument })
    );
}

#[test]
fn listener_port_is_checked_before_any_bind() {
    assert_eq!(check_listener_port(b"8080"), Ok(8080));
    assert_eq!(
        check_listener_port(b"not-a-port"),
        Err(NativeError { op: OpKind::StartHttpListener, kind: ErrorKind::InvalidPort })
    );
    assert_eq!(
        check_listener_port(b"0"),
        Err(NativeError { op: OpKind::StartHttpListener, kind: ErrorKind::InvalidPort })
    );
    assert_eq!(
        check_listener_port(b"65536"),
        Err(NativeError { op: OpKind::StartHttpListener, kind: ErrorKind::InvalidPort })
    );
}
