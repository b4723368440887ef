use xmlrpc::parser::{parse_response, Parser, Response};
use xmlrpc::{Fault, ParseError, Value};

fn read_response(xml: &str) -> Result<Response, ParseError> {
    parse_response(xml.as_bytes())
}

fn read_value(xml: &str) -> Result<Value, ParseError> {
    Parser::new(xml.as_bytes())?.parse_value()
}

fn assert_ok<T: std::fmt::Debug, E: std::fmt::Debug>(result: Result<T, E>) {
    match result {
        Ok(_) => {}
        Err(e) => panic!("assert_ok called on Err value: {:?}", e),
    }
}

fn assert_err<T: std::fmt::Debug, E: std::fmt::Debug>(result: Result<T, E>) {
    match result {
        Ok(t) => panic!("assert_err called on Ok value: {:?}", t),
        Err(_) => {}
    }
}

#[test]
fn parses_base64_response() {
    assert_ok(read_response(
        r##"
<?xml version="1.0" encoding="UTF-8"?>
<methodResponse>
    <params>
        <param>
            <value><base64>0J/QvtC10YXQsNC70Lgh</base64></value>
        </param>
    </params>
</methodResponse>
"##,
    ));
}

#[test]
fn parses_response() {
    assert_ok(read_response(
        r##"
<?xml version="1.0"?>
<methodResponse>
    <params>
        <param>
            <value>teststring</value>
        </param>
    </params>
</methodResponse>
"##,
    ));
}

#[test]
fn parses_fault() {
    assert_eq!(
        read_response(
            r##"
<?xml version="1.0"?>
<methodResponse>
   <fault>
      <value>
         <struct>
            <member>
               <name>faultCode</name>
               <value><int>4</int></value>
               </member>
            <member>
               <name>faultString</name>
               <value><string>Too many parameters.</string></value>
               </member>
            </struct>
         </value>
      </fault>
   </methodResponse>"##
        )
        .unwrap(),
        Err(Fault::new(4, "Too many parameters.".to_string()))
    );
}

#[test]
fn rejects_additional_fault_fields() {
    // A <fault> struct may not contain members other than those specified.
    assert_err(read_response(
        r##"
<?xml version="1.0"?>
<methodResponse>
   <fault>
      <value>
         <struct>
            <member>
               <name>faultCode</name>
               <value><int>4</int></value>
               </member>
            <member>
               <name>faultString</name>
               <value><string>Too many parameters.</string></value>
               </member>
            <member>
               <name>unnecessaryParameter</name>
               <value><string>Too many parameters.</string></value>
               </member>
            </struct>
         </value>
      </fault>
   </methodResponse>"##,
    ));
}

#[test]
fn rejects_invalid_faults() {
    // Type errors inside a <fault> are rejected: its fields are
    // specifically typed.
    assert_err(read_response(
        r##"
<?xml version="1.0"?>
<methodResponse>
   <fault>
      <value>
         <struct>
            <member>
               <name>faultCode</name>
               <value><string>I'm not an int!</string></value>
               </member>
            <member>
               <name>faultString</name>
               <value><string>Too many parameters.</string></value>
               </member>
            </struct>
         </value>
      </fault>
   </methodResponse>"##,
    ));

    assert_err(read_response(
        r##"
<?xml version="1.0"?>
<methodResponse>
   <fault>
      <value>
         <struct>
            <member>
               <name>faultCode</name>
               <value><int>4</int></value>
               </member>
            <member>
               <name>faultString</name>
               <value><base64>I'm not a string!</base64></value>
               </member>
            </struct>
         </value>
      </fault>
   </methodResponse>"##,
    ));
}

#[test]
fn parses_string_value_with_whitespace() {
    assert_eq!(
        read_value("<value><string>  I'm a string!  </string></value>").unwrap(),
        Value::String(b"  I'm a string!  ".to_vec())
    );
}

#[test]
fn parses_64bit_int() {
    assert_eq!(
        read_value("<value><i8>12345</i8></value>").unwrap(),
        Value::Int64(12345)
    );
    assert_eq!(
        read_value("<value><i8>-100100100100</i8></value>").unwrap(),
        Value::Int64(-100100100100)
    );
}

#[test]
fn parses_int_with_plus_sign() {
    // A plus or minus may lead a string of numeric characters.
    assert_eq!(
        read_value("<value><int>+1234</int></value>").unwrap(),
        Value::Int(1234)
    );
}

#[test]
fn parses_date_values() {
    assert_ok(read_value(
        "<value><dateTime.iso8601>2015-02-18T23:16:09Z</dateTime.iso8601></value>",
    ));
    assert_ok(read_value(
        "<value><dateTime.iso8601>19980717T14:08:55</dateTime.iso8601></value>",
    ));
    assert_err(read_value(
        "<value><dateTime.iso8601></dateTime.iso8601></value>",
    ));
    assert_err(read_value(
        "<value><dateTime.iso8601>ILLEGAL VALUE :(</dateTime.iso8601></value>",
    ));
}

#[test]
fn parses_base64() {
    assert_eq!(
        read_value("<value><base64>0J/QvtC10YXQsNC70Lgh</base64></value>").unwrap(),
        Value::Base64("Поехали!".bytes().collect())
    );

    assert_eq!(
        read_value("<value><base64> 0J/Qv tC10YXQ sNC70 Lgh  </base64></value>").unwrap(),
        Value::Base64("Поехали!".bytes().collect())
    );

    assert_eq!(
        read_value("<value><base64>\n0J/QvtC10\nYXQsNC7\n0Lgh\n</base64></value>").unwrap(),
        Value::Base64("Поехали!".bytes().collect())
    );
}

#[test]
fn parses_empty_base64() {
    assert_eq!(
        read_value("<value><base64></base64></value>").unwrap(),
        Value::Base64(Vec::new())
    );
    assert_eq!(
        read_value("<value><base64/></value>").unwrap(),
        Value::Base64(Vec::new())
    );
}

#[test]
fn parses_array_values() {
    assert_eq!(
        read_value(
            r#"
                <value><array><data>
                    <value><i4>5</i4></value>
                    <value><string>a</string></value>
                </data></array></value>"#
        )
        .unwrap(),
        Value::Array(vec![Value::Int(5), Value::String(b"a".to_vec())])
    );
}

#[test]
fn parses_raw_value_as_string() {
    assert_eq!(
        read_value("<value>\t  I'm a string!  </value>").unwrap(),
        Value::String(b"\t  I'm a string!  ".to_vec())
    );
}

#[test]
fn parses_nil_values() {
    assert_eq!(read_value("<value><nil/></value>").unwrap(), Value::Nil);
    assert_eq!(read_value("<value><nil></nil></value>").unwrap(), Value::Nil);
    assert_err(read_value("<value><nil>ILLEGAL</nil></value>"));
}

#[test]
fn unescapes_values() {
    assert_eq!(
        read_value("<value><string>abc&lt;abc&amp;abc</string></value>").unwrap(),
        Value::String(b"abc<abc&abc".to_vec())
    );
}

#[test]
fn parses_empty_string() {
    assert_eq!(
        read_value("<value><string></string></value>").unwrap(),
        Value::String(Vec::new())
    );
    assert_eq!(
        read_value("<value><string/></value>").unwrap(),
        Value::String(Vec::new())
    );
}

#[test]
fn parses_empty_value_as_string() {
    assert_eq!(
        read_value("<value></value>").unwrap(),
        Value::String(Vec::new())
    );
}

#[test]
fn rejects_attributes() {
    assert_err(read_value(r#"<value name="ble">\t  I'm a string!  </value>"#));

    assert_err(read_response(
        r##"
<?xml version="1.0"?>
<methodResponse invalid="1">
    <params>
        <param>
            <value>teststring</value>
        </param>
    </params>
</methodResponse>
"##,
    ));
    assert_err(read_response(
        r##"
<?xml version="1.0"?>
<methodResponse>
    <params invalid="1">
        <param>
            <value>teststring</value>
        </param>
    </params>
</methodResponse>
"##,
    ));
    assert_err(read_response(
        r##"
<?xml version="1.0"?>
<methodResponse>
    <params>
        <param invalid="1">
            <value>teststring</value>
        </param>
    </params>
</methodResponse>
"##,
    ));
    assert_err(read_response(
        r##"
<?xml version="1.0"?>
<methodResponse>
    <params>
        <param>
            <value invalid="1">teststring</value>
        </param>
    </params>
</methodResponse>
"##,
    ));
    assert_err(read_response(
        r##"
<?xml version="1.0"?>
<methodResponse>
    <params>
        <param>
            <value><int invalid="1">4</int></value>
        </param>
    </params>
</methodResponse>
"##,
    ));
}

#[test]
fn error_messages() {
    fn errstr(value: &str) -> String {
        String::from_utf8(read_value(value).unwrap_err().message_bytes()).unwrap()
    }

    assert_eq!(
        errstr(r#"<value name="ble">\t  I'm a string!  </value>"#),
        "unexpected XML at 1:1 (expected tag <value> without attributes, found end of data)"
    );

    assert_eq!(
        errstr(r#"<value><SURPRISE></SURPRISE></value>"#),
        "unexpected XML at 1:8 (expected valid type tag, found <SURPRISE>)"
    );

    assert_eq!(
        errstr(r#"<value><int>bla</int></value>"#),
        "invalid value for type 'integer' at 1:13: bla"
    );
}

#[test]
fn parses_empty_value_response() {
    assert_ok(read_response(
        r##"
<?xml version="1.0"?>
<methodResponse>
    <params>
        <param>
            <value></value>
        </param>
    </params>
</methodResponse>
"##,
    ));
}

#[test]
fn parses_empty_value_in_struct_response() {
    assert_ok(read_response(
        r##"
<?xml version="1.0"?>
<methodResponse>
    <params>
        <param><value>
        <struct><member>
            <name>Test</name>
            <value></value>
        </member></struct>
        </value></param>
    </params>
</methodResponse>
"##,
    ));
}

#[test]
fn duplicate_struct_member() {
    // Duplicate struct members are overwritten with the last one.
    assert_eq!(
        read_value(
            r#"
            <value>
                <struct>
                    <member>
                        <name>A</name>
                        <value>first</value>
                    </member>
                    <member>
                        <name>A</name>
                        <value>second</value>
                    </member>
                </struct>
            </value>
            "#
        )
        .unwrap(),
        Value::Struct(vec![(b"A".to_vec(), Value::String(b"second".to_vec()))])
    );
}

#[test]
fn rejects_bad_entities() {
    assert_err(read_value("<value>bad&entity;</value>"));
    assert_err(read_value("<value>bare&amp</value>"));
    assert_err(read_value("<value>big&#1114112;</value>"));
}

#[test]
fn parses_character_references() {
    assert_eq!(
        read_value("<value>a&#98;c&#x64;&quot;&apos;&gt;</value>").unwrap(),
        Value::String(b"abcd\"'>".to_vec())
    );
    assert_eq!(
        read_value("<value>&#1076;</value>").unwrap(),
        Value::String("д".bytes().collect())
    );
}

#[test]
fn parses_boolean_strictly() {
    assert_eq!(
        read_value("<value><boolean>0</boolean></value>").unwrap(),
        Value::Bool(false)
    );
    assert_eq!(
        read_value("<value><boolean>1</boolean></value>").unwrap(),
        Value::Bool(true)
    );
    assert_err(read_value("<value><boolean>2</boolean></value>"));
    assert_err(read_value("<value><boolean>true</boolean></value>"));
}

#[test]
fn parses_doubles_as_text() {
    assert_eq!(
        read_value("<value><double>2.5</double></value>").unwrap(),
        Value::Double(b"2.5".to_vec())
    );
    assert_eq!(
        read_value("<value><double>-1e3</double></value>").unwrap(),
        Value::Double(b"-1e3".to_vec())
    );
    assert_err(read_value("<value><double>bla</double></value>"));
}

#[test]
fn rejects_int_overflow() {
    assert_err(read_value("<value><int>2147483648</int></value>"));
    assert_eq!(
        read_value("<value><int>2147483647</int></value>").unwrap(),
        Value::Int(2147483647)
    );
    assert_err(read_value("<value><i8>9223372036854775808</i8></value>"));
}
