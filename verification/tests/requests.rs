use xmlrpc::{Request, Transport, Value};

#[test]
fn escapes_method_names() {
    let mut output: Vec<u8> = Vec::new();
    let req = Request::new("x<&x");

    req.write_as_xml(&mut output);
    assert!(String::from_utf8(output)
        .unwrap()
        .contains("<methodName>x&lt;&amp;x</methodName>"));
}

#[test]
fn writes_params_in_order() {
    let mut output: Vec<u8> = Vec::new();
    let req = Request::new("add")
        .arg(Value::Int(1))
        .arg(Value::Int(2));
    req.write_as_xml(&mut output);
    let text = String::from_utf8(output).unwrap();
    let first = text.find("<i4>1</i4>").unwrap();
    let second = text.find("<i4>2</i4>").unwrap();
    assert!(text.starts_with(r#"<?xml version="1.0" encoding="utf-8"?><methodCall>"#));
    assert!(first < second);
}

#[test]
fn multicall_struct_shape() {
    let req = Request::new("hello").arg(Value::Int(5));
    let v = req.into_multicall_struct();
    assert_eq!(
        v.get("methodName"),
        Some(&Value::String(b"hello".to_vec()))
    );
    assert_eq!(
        v.get("params"),
        Some(&Value::Array(vec![Value::Int(5)]))
    );
}

#[test]
fn multicall_batches_in_order() {
    let reqs = vec![
        Request::new("first").arg(Value::Int(1)),
        Request::new("second"),
    ];
    let mc = Request::new_multicall(&reqs);
    let mut output: Vec<u8> = Vec::new();
    mc.write_as_xml(&mut output);
    let text = String::from_utf8(output).unwrap();
    assert!(text.contains("<methodName>system.multicall</methodName>"));
    let first = text.find("<string>first</string>").unwrap();
    let second = text.find("<string>second</string>").unwrap();
    assert!(first < second);
}

struct Canned {
    response: &'static str,
}

impl Transport for Canned {
    fn transmit(&mut self, _request: &[u8]) -> Result<Vec<u8>, Vec<u8>> {
        Ok(self.response.as_bytes().to_vec())
    }
}

struct Broken;

impl Transport for Broken {
    fn transmit(&mut self, _request: &[u8]) -> Result<Vec<u8>, Vec<u8>> {
        Err(b"connection refused".to_vec())
    }
}

#[test]
fn call_returns_value() {
    let mut t = Canned {
        response: r#"<?xml version="1.0"?>
<methodResponse><params><param><value><i4>42</i4></value></param></params></methodResponse>"#,
    };
    let r = Request::new("answer").call(&mut t);
    assert_eq!(r.unwrap(), Value::Int(42));
}

#[test]
fn call_surfaces_fault() {
    // fault detection end to end: a canned fault document becomes a Fault
    let mut t = Canned {
        response: r#"<?xml version="1.0"?>
<methodResponse>
   <fault>
      <value>
         <struct>
            <member>
               <name>faultCode</name>
               <value><int>4</int></value>
               </member>
            <member>
               <name>faultString</name>
               <value><string>Too many parameters.</string></value>
               </member>
            </struct>
         </value>
      </fault>
   </methodResponse>"#,
    };
    let err = Request::new("answer").call(&mut t).unwrap_err();
    let fault = err.fault().expect("expected a fault");
    assert_eq!(fault.code(), 4);
    assert_eq!(fault.string(), Some("Too many parameters.".to_string()));
    assert!(err.parse_error().is_none());
}

#[test]
fn call_surfaces_parse_error() {
    let mut t = Canned {
        response: "<bogus/>",
    };
    let err = Request::new("answer").call(&mut t).unwrap_err();
    assert!(err.parse_error().is_some());
    assert!(err.fault().is_none());
}

#[test]
fn call_surfaces_transport_error() {
    let err = Request::new("answer").call(&mut Broken).unwrap_err();
    assert!(err.fault().is_none());
    assert!(err.parse_error().is_none());
}
