use xmlrpc::{Error, Fault, Value};

#[test]
fn error_fault_roundtrip() {
    let input = Fault::new(
        -123456,
        "The Bald Lazy House Jumps Over The Hyperactive Kitten".to_string(),
    );

    assert_eq!(Fault::from_value(&input.to_value()), Some(input));
}

#[test]
fn fault_fault_roundtrip() {
    let input = Fault::new(
        -123456,
        "The Bald Lazy House Jumps Over The Hyperactive Kitten".to_string(),
    );

    assert_eq!(Fault::from_value(&input.to_value()), Some(input));
}

#[test]
fn error_is_send_sync() {
    fn assert_send_sync<T: Send + Sync>() {}

    assert_send_sync::<Error>();
}

#[test]
fn fault_accessors() {
    let f = Fault::new(7, "boom".to_string());
    assert_eq!(f.code(), 7);
    assert_eq!(f.string(), Some("boom".to_string()));
    assert_eq!(f.string_lossy(), "boom".to_string());
    assert_eq!(f.string_as_bytes(), b"boom");
}

#[test]
fn fault_raw_strings() {
    // a faultString may hold bytes that are not UTF-8
    let f = Fault::from_raw_string(1, vec![0xff, 0xfe, b'x']);
    assert_eq!(f.string(), None);
    assert_eq!(f.string_lossy(), "\u{fffd}\u{fffd}x".to_string());
    assert_eq!(f.string_as_bytes(), &[0xff, 0xfe, b'x']);
    assert_eq!(Fault::from_value(&f.to_value()), Some(f));
}

#[test]
fn rejects_non_struct_values() {
    assert_eq!(Fault::from_value(&Value::Int(4)), None);
    assert_eq!(Fault::from_value(&Value::Nil), None);
    assert_eq!(
        Fault::from_value(&Value::Struct(vec![(
            b"faultCode".to_vec(),
            Value::Int(4)
        )])),
        None
    );
}
