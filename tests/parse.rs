use ej::parser::parse_str;
use ej::value::{JsonBool, JsonNumber, JsonString, JsonValue, Location, ValueKind};
use ej::{from_json_str, Json, ParseError, ParseErrorKind};

fn p(s: &str) {
    let res = parse_str(s);
    assert!(res.is_ok());
    let _res = res.unwrap();
}

fn e(s: &str) {
    let res = parse_str(s);
    assert!(res.is_err());
}

fn only(doc: &Json) -> &JsonValue {
    assert_eq!(doc.values().len(), 1);
    &doc.values()[0]
}

fn error_of(s: &str) -> ParseError {
    match from_json_str(s) {
        Ok(_) => panic!("expected an error for {:?}", s),
        Err(e) => e,
    }
}

#[test]
fn test_parse() {
    let res = from_json_str("{}");
    assert!(res.is_ok());

    let res = from_json_str("{");
    assert!(res.is_err());

    let json = r#"{
            "a" : 100,
            "bbbb": "hoge",
            "cc": { "c_inner": 200 },
            "dd": [100, 200, "aha"],
            "eeee" : true
        }"#;
    let res = from_json_str(json);
    assert!(res.is_ok());

    let doc = res.unwrap();
    match only(&doc).kind() {
        ValueKind::Object(o) => assert_eq!(o.0.len(), 5),
        _ => panic!("expected an object"),
    }
}

#[test]
fn test_ok() {
    p(r#""#);

    p(r#"true"#);
    p(r#"false"#);

    p(r#"null"#);

    p(r#"100"#);
    p(r#"-100"#);
    p(r#"100e3"#);
    p(r#"-100e3"#);
    p(r#"100.1"#);
    p(r#"-1.2e3"#);

    p(r#""""#);
    p(r#""aaa""#);

    p(r#"[]"#);
    p(r#"[ ]"#);
    p(r#"[true, false, null, 1, "hoge"]"#);

    p(r#"{}"#);
    p(r#"{"a":100}"#);
    p(r#"{"a":"hoge"}"#);
    p(r#"{"a":true}"#);
    p(r#"{"a":false}"#);
    p(r#"{"a":null}"#);
    p(r#"  {"a":100, "b" : "hoge"   ,  "c"   :  true  } "#);
    p(r#"  {"a":100, "b" : "hoge" ,
          "c" : { "hoge": "aha" } } "#);

    p(r#"[{}]"#);
    p(r#"[  {"a":100, "b" : "hoge" ,
          "c" : { "hoge": "aha" } } ] "#);

    p(r#"[{}] {} {} {}"#);
    p(r#"[1,2,3] {"a":"b"} {"a":{"b":{"c":"d"}}} {}"#);
}

#[test]
fn test_ng() {
    e(r#","#);
    e(r#":"#);

    // array
    e(r#"["#);
    e(r#"[,]"#);
    e(r#"[:]]"#);
    e(r#"[1,"2",]"#);
    e(r#"[1,"2","#);
    e(r#"[1,"2",3 "#);

    // object loop
    e(r#"{"a": 1"#);
    e(r#"{"a": 1 ,"#);
    e(r#"{"a": 1 ,}"#);
    e(r#"{"a": 1, "b": , }"#);
    e(r#"{"a": 1, "b": 2"#);
}

#[test]
fn empty_object_spans_its_braces() {
    let doc = from_json_str("{}").unwrap();
    let v = only(&doc);
    match v.kind() {
        ValueKind::Object(o) => assert!(o.0.is_empty()),
        _ => panic!("expected an object"),
    }
    assert_eq!(v.loc().start(), 0);
    assert_eq!(v.loc().end(), 2);
}

#[test]
fn empty_text_gives_no_values() {
    let doc = from_json_str("").unwrap();
    assert!(doc.values().is_empty());
    let doc = from_json_str(" \n\t\r ").unwrap();
    assert!(doc.values().is_empty());
}

#[test]
fn unclosed_brace_is_a_syntax_error() {
    let err = error_of("{");
    assert_eq!(err.kind, ParseErrorKind::Syntax);
    assert_eq!(err.pos, 1);
}

#[test]
fn several_root_values_in_order() {
    let doc = from_json_str(r#"[1,2,3] {"a":"b"} {}"#).unwrap();
    let vs = doc.values();
    assert_eq!(vs.len(), 3);
    match vs[0].kind() {
        ValueKind::Array(a) => {
            assert_eq!(a.0.len(), 3);
            for (i, item) in a.0.iter().enumerate() {
                match item.kind() {
                    ValueKind::Number(JsonNumber::Integer(n)) => assert_eq!(*n, i as i64 + 1),
                    _ => panic!("expected an integer"),
                }
            }
        }
        _ => panic!("expected an array"),
    }
    match vs[1].kind() {
        ValueKind::Object(o) => {
            assert_eq!(o.0.len(), 1);
            assert_eq!(o.0[0].0 .0, "a");
            match o.0[0].1.kind() {
                ValueKind::String(s) => assert_eq!(s.0, "b"),
                _ => panic!("expected a string"),
            }
        }
        _ => panic!("expected an object"),
    }
    match vs[2].kind() {
        ValueKind::Object(o) => assert!(o.0.is_empty()),
        _ => panic!("expected an object"),
    }
    assert_eq!((vs[0].loc().start(), vs[0].loc().end()), (0, 7));
    assert_eq!((vs[1].loc().start(), vs[1].loc().end()), (8, 17));
    assert_eq!((vs[2].loc().start(), vs[2].loc().end()), (18, 20));
}

fn number_of(s: &str) -> JsonNumber {
    let doc = from_json_str(s).unwrap();
    match only(&doc).kind() {
        ValueKind::Number(n) => n.clone(),
        _ => panic!("expected a number"),
    }
}

fn float_of(s: &str) -> f64 {
    match number_of(s) {
        JsonNumber::Float(t) => t.parse::<f64>().unwrap(),
        JsonNumber::Integer(_) => panic!("expected a float"),
    }
}

#[test]
fn numbers_dispatch_to_integer_or_float() {
    assert_eq!(number_of("100"), JsonNumber::Integer(100));
    assert_eq!(number_of("-100"), JsonNumber::Integer(-100));
    assert_eq!(float_of("100.1"), 100.1);
    assert_eq!(float_of("-100e3"), -100000.0);
    assert_eq!(float_of("-1.2e3"), -1200.0);
    assert_eq!(number_of("100.1"), JsonNumber::Float("100.1".to_string()));
}

#[test]
fn integer_range_edges() {
    assert_eq!(number_of("9223372036854775807"), JsonNumber::Integer(i64::MAX));
    assert_eq!(number_of("-9223372036854775808"), JsonNumber::Integer(i64::MIN));
    assert_eq!(float_of("9223372036854775808"), 9223372036854775808.0);
    assert_eq!(float_of("-9223372036854775809"), -9223372036854775809.0);
    assert_eq!(number_of("007"), JsonNumber::Integer(7));
}

#[test]
fn malformed_number_is_a_number_error() {
    let err = error_of("1-2-3");
    assert_eq!(err.kind, ParseErrorKind::Number);
    assert_eq!(err.pos, 0);
    let err = error_of("[1ee2]");
    assert_eq!(err.kind, ParseErrorKind::Number);
    assert_eq!(err.pos, 1);
    let err = error_of("-");
    assert_eq!(err.kind, ParseErrorKind::Number);
}

#[test]
fn trailing_commas_are_syntax_errors() {
    let err = error_of(r#"[1,"2",]"#);
    assert_eq!(err.kind, ParseErrorKind::Syntax);
    assert_eq!(err.pos, 7);
    let err = error_of(r#"{"a": 1, "b": , }"#);
    assert_eq!(err.kind, ParseErrorKind::Syntax);
    assert_eq!(err.pos, 14);
}

#[test]
fn error_positions() {
    assert_eq!(error_of("[").pos, 1);
    assert_eq!(error_of(r#""abc"#).pos, 1);
    assert_eq!(error_of("nul").pos, 0);
    assert_eq!(error_of(" truX").pos, 1);
    assert_eq!(error_of("[1 2]").pos, 3);
    assert_eq!(error_of(r#"{"a" 1}"#).pos, 5);
    assert_eq!(error_of(r#"{a: 1}"#).pos, 1);
    assert_eq!(error_of("x").kind, ParseErrorKind::Syntax);
}

#[test]
fn duplicate_keys_keep_the_last_value() {
    let doc = from_json_str(r#"{"a": 1, "b": 2, "a": 3}"#).unwrap();
    match only(&doc).kind() {
        ValueKind::Object(o) => {
            assert_eq!(o.0.len(), 2);
            assert_eq!(o.0[0].0 .0, "a");
            match o.0[0].1.kind() {
                ValueKind::Number(n) => assert_eq!(*n, JsonNumber::Integer(3)),
                _ => panic!("expected a number"),
            }
        }
        _ => panic!("expected an object"),
    }
}

#[test]
fn strings_are_copied_verbatim() {
    let doc = from_json_str("[\"a\\\\n\", \"h\u{e9}\"]").unwrap();
    match only(&doc).kind() {
        ValueKind::Array(a) => {
            match a.0[0].kind() {
                ValueKind::String(s) => assert_eq!(s.0, "a\\\\n"),
                _ => panic!("expected a string"),
            }
            match a.0[1].kind() {
                ValueKind::String(s) => assert_eq!(s.0, "h\u{e9}"),
                _ => panic!("expected a string"),
            }
            assert_eq!((a.0[1].loc().start(), a.0[1].loc().end()), (9, 14));
        }
        _ => panic!("expected an array"),
    }
}

#[test]
fn literals_and_spans() {
    let doc = from_json_str(" true\tfalse null ").unwrap();
    let vs = doc.values();
    assert_eq!(vs.len(), 3);
    assert!(matches!(vs[0].kind(), ValueKind::Bool(b) if b.0));
    assert!(matches!(vs[1].kind(), ValueKind::Bool(b) if !b.0));
    assert!(matches!(vs[2].kind(), ValueKind::Null));
    assert_eq!((vs[0].loc().start(), vs[0].loc().end()), (1, 5));
    assert_eq!((vs[1].loc().start(), vs[1].loc().end()), (6, 11));
    assert_eq!((vs[2].loc().start(), vs[2].loc().end()), (12, 16));
}

// Renders a tree without its spans, compactly.
fn shape(v: &JsonValue) -> String {
    match v.kind() {
        ValueKind::Null => "null".to_string(),
        ValueKind::Bool(b) => b.to_string(),
        ValueKind::Number(n) => n.to_string(),
        ValueKind::String(s) => format!("\"{}\"", s.to_string()),
        ValueKind::Array(a) => {
            let items: Vec<String> = a.as_vec().iter().map(shape).collect();
            format!("[{}]", items.join(","))
        }
        ValueKind::Object(o) => {
            let items: Vec<String> = o
                .members()
                .iter()
                .map(|(k, v)| format!("\"{}\":{}", k.as_str(), shape(v)))
                .collect();
            format!("{{{}}}", items.join(","))
        }
    }
}

#[test]
fn compact_text_parses_to_one_value_spanning_it() {
    let text = r#"{"a":[1,-2,3.5e1,"x",true,false,null],"b":{},"c":[]}"#;
    let doc = from_json_str(text).unwrap();
    let v = only(&doc);
    assert_eq!((v.loc().start(), v.loc().end()), (0, text.len()));
    assert_eq!(shape(v), text);
}

#[test]
fn reparsing_the_printed_form_gives_the_same_tree() {
    let text = r#"  [ {"k" : "v" , "k" : -0 , "n": [ 10 , 2.5 ] } , "s" ]  "#;
    let doc = from_json_str(text).unwrap();
    let printed = shape(only(&doc));
    assert_eq!(printed, r#"[{"k":0,"n":[10,2.5]},"s"]"#);
    let again = from_json_str(&printed).unwrap();
    assert_eq!(shape(only(&again)), printed);
    assert_eq!((only(&again).loc().start(), only(&again).loc().end()), (0, printed.len()));
}

#[test]
fn printing_values() {
    assert_eq!(JsonNumber::Integer(-100).to_string(), "-100");
    assert_eq!(JsonNumber::Integer(0).to_string(), "0");
    assert_eq!(JsonNumber::Float("1.5e3".to_string()).to_string(), "1.5e3");
    assert_eq!(JsonBool::new(true).to_string(), "true");
    assert_eq!(JsonBool::new(false).to_string(), "false");
    assert_eq!(JsonString::new("ab".to_string()).to_string(), "ab");
}

#[test]
fn constructors_keep_their_parts() {
    let v = JsonValue::number_int(5, Location(2, 3));
    assert_eq!(v.loc().start(), 2);
    assert_eq!(v.loc().end(), 3);
    assert!(matches!(v.into_kind(), ValueKind::Number(JsonNumber::Integer(5))));
    let e = ParseError::syntax(4);
    assert_eq!((e.pos, e.kind), (4, ParseErrorKind::Syntax));
    let e = ParseError::number(9);
    assert_eq!((e.pos, e.kind), (9, ParseErrorKind::Number));
}
