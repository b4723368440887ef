use xmlrpc::Value;

#[test]
fn escapes_strings() {
    let mut output: Vec<u8> = Vec::new();

    Value::String(b"<xml>&nbsp;string".to_vec()).write_as_xml(&mut output);
    assert_eq!(
        String::from_utf8(output).unwrap(),
        "<value>\n<string>&lt;xml>&amp;nbsp;string</string>\n</value>\n"
    );
}

#[test]
fn escapes_struct_member_names() {
    let mut output: Vec<u8> = Vec::new();
    let map = vec![(b"x&<x".to_vec(), Value::Bool(true))];

    Value::Struct(map).write_as_xml(&mut output);
    assert_eq!(
        String::from_utf8(output).unwrap(),
        "<value>\n<struct>\n<member>\n<name>x&amp;&lt;x</name>\n<value>\n<boolean>1</boolean>\n</value>\n</member>\n</struct>\n</value>\n"
    );
}

#[test]
fn access_nested_values() {
    // members ordered by key, as the decoder builds them
    let map = vec![
        (b"age".to_vec(), Value::Int(37)),
        (
            b"children".to_vec(),
            Value::Array(vec![
                Value::String(b"Mark".to_vec()),
                Value::String(b"Jennyfer".to_vec()),
            ]),
        ),
        (b"name".to_vec(), Value::String(b"John Doe".to_vec())),
    ];
    let value = Value::Struct(map);

    assert_eq!(
        value.get("name"),
        Some(&Value::String(b"John Doe".to_vec()))
    );
    assert_eq!(value.get("age"), Some(&Value::Int(37)));
    assert_eq!(value.get("birthdate"), None);
    assert_eq!(Value::Nil.get("age"), None);
    assert_eq!(
        value.get("children").unwrap().get(&0usize),
        Some(&Value::String(b"Mark".to_vec()))
    );
    assert_eq!(
        value.get("children").unwrap().get(&1usize),
        Some(&Value::String(b"Jennyfer".to_vec()))
    );
    assert_eq!(value.get("children").unwrap().get(&2usize), None);

    assert_eq!(value.get("age").unwrap().as_i32(), Some(37));
    assert_eq!(
        value.get("children").unwrap().get(&0usize).unwrap().as_str(),
        Some(&b"Mark".to_vec())
    );
    assert_eq!(value.get("age").unwrap().as_bool(), None);
    assert_eq!(
        value.get("children").unwrap().as_array().unwrap().len(),
        2
    );
}

#[test]
fn encodes_base64() {
    let mut output: Vec<u8> = Vec::new();
    Value::Base64(b"hello".to_vec()).write_as_xml(&mut output);
    assert_eq!(
        String::from_utf8(output).unwrap(),
        "<value>\n<base64>aGVsbG8=</base64>\n</value>\n"
    );
}

#[test]
fn encodes_integers_and_nil() {
    let mut output: Vec<u8> = Vec::new();
    Value::Array(vec![Value::Int(-7), Value::Int64(1), Value::Nil]).write_as_xml(&mut output);
    assert_eq!(
        String::from_utf8(output).unwrap(),
        "<value>\n<array>\n<data>\n<value>\n<i4>-7</i4>\n</value>\n<value>\n<i8>1</i8>\n</value>\n<value>\n<nil/>\n</value>\n</data>\n</array>\n</value>\n"
    );
}

#[test]
fn encodes_double_text() {
    let mut output: Vec<u8> = Vec::new();
    let text = format!("{}", 2.5f64).into_bytes();
    Value::Double(text).write_as_xml(&mut output);
    assert_eq!(
        String::from_utf8(output).unwrap(),
        "<value>\n<double>2.5</double>\n</value>\n"
    );
}

#[test]
fn array_order_round_trip() {
    // encoding an array then decoding it reproduces the ordered sequence
    let v = Value::Array(vec![Value::Int(5), Value::String(b"a".to_vec())]);
    let mut doc: Vec<u8> = Vec::new();
    v.write_as_xml(&mut doc);
    let back = xmlrpc::Parser::new(&doc).unwrap().parse_value().unwrap();
    assert_eq!(back, v);
}

#[test]
fn value_round_trip() {
    // a nested value survives encoding and decoding unchanged
    let v = Value::Struct(vec![
        (b"a".to_vec(), Value::Base64(vec![0, 255, 7])),
        (
            b"b".to_vec(),
            Value::Array(vec![Value::Bool(false), Value::String(b"x<&y".to_vec())]),
        ),
        (b"c".to_vec(), Value::Nil),
    ]);
    let mut doc: Vec<u8> = Vec::new();
    v.write_as_xml(&mut doc);
    let back = xmlrpc::Parser::new(&doc).unwrap().parse_value().unwrap();
    assert_eq!(back, v);
}
