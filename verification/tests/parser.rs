use cson::{CsonParser, CsonValue};

fn number_value(v: &CsonValue) -> f64 {
    match v {
        CsonValue::Number(t) => t.parse::<f64>().expect("a number literal"),
        other => panic!("expected a number, got {:?}", other),
    }
}

#[test]
fn test_basic_parse() {
    let input = r#"
            name: "test-agent"
            version: 1.0
            active: true
            port: 8080  # the port
            
            ~"routing rules": { 
                priority: 5 ~0.9
                handler: "default"
            }
        "#;
    let mut parser = CsonParser::new(input);
    let doc = parser.parse().unwrap();
    assert_eq!(doc.version, "1.0");

    if let CsonValue::Object(ref map) = doc.root.value {
        assert!(map.contains_key("name"));
        assert!(map.contains_key("version"));
        assert!(map.contains_key("active"));
        assert_eq!(number_value(&map.get("port").unwrap().value), 8080.0);
    } else {
        panic!("Expected Object root");
    }
}

#[test]
fn test_version_parsing() {
    let input = r#"@cson { version: "2.0" }
            key: "value"
        "#;
    let mut parser = CsonParser::new(input);
    let doc = parser.parse().unwrap();
    assert_eq!(doc.version, "2.0");
}

#[test]
fn test_issue_escaped_string() {
    let input = r#"msg: "he said \"hi\"""#;
    let mut parser = CsonParser::new(input);
    let doc = parser.parse().unwrap();
    if let CsonValue::Object(map) = doc.root.value {
        assert_eq!(
            map.get("msg").unwrap().value,
            CsonValue::String("he said \"hi\"".to_string())
        );
    } else {
        panic!();
    }
}

#[test]
fn test_issue_annotation_comma() {
    let input = r#"@module { purpose: "parse a, b, c" }
        key: 1"#;
    let mut parser = CsonParser::new(input);
    let doc = parser.parse().unwrap();
    if let CsonValue::Object(map) = doc.root.value {
        assert_eq!(
            map.get("key").unwrap().annotations[0]
                .properties
                .get("purpose")
                .unwrap(),
            "parse a, b, c"
        );
    } else {
        panic!();
    }
}
