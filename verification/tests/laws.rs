use cson::{
    print_document, CsonAnnotation, CsonDocument, CsonMap, CsonNode, CsonParser, CsonValue,
    PropertyMap,
};

fn node(value: CsonValue) -> CsonNode {
    CsonNode { value, confidence: None, annotations: Vec::new() }
}

fn ann(name: &str, props: &[(&str, &str)]) -> CsonAnnotation {
    let mut properties = PropertyMap::new();
    for (k, v) in props {
        properties.insert(k.to_string(), v.to_string());
    }
    CsonAnnotation { name: name.to_string(), args: None, properties }
}

fn sample_document() -> CsonDocument {
    let mut inner = CsonMap::new();
    inner.push_new("x".to_string(), CsonNode {
        value: CsonValue::Array(vec![
            CsonNode {
                value: CsonValue::Number("1".to_string()),
                confidence: Some("0.5".to_string()),
                annotations: vec![ann("checked", &[])],
            },
            node(CsonValue::Number("-2.5e3".to_string())),
            node(CsonValue::Null),
            node(CsonValue::Array(Vec::new())),
        ]),
        confidence: None,
        annotations: Vec::new(),
    });
    inner.push_new("two words".to_string(), node(CsonValue::Boolean(false)));
    inner.push_new("empty".to_string(), node(CsonValue::Object(CsonMap::new())));
    let mut root = CsonMap::new();
    root.push_new("~billing or refund issues".to_string(), CsonNode {
        value: CsonValue::String("route to \"support\"\n".to_string()),
        confidence: Some("0.9".to_string()),
        annotations: vec![ann("wip", &[("owner", "foreman"), ("since", "a, b")]), ann("urgent", &[])],
    });
    root.push_new("accent".to_string(), node(CsonValue::Synthesize("a colour to match #3366cc".to_string())));
    root.push_new("nested".to_string(), node(CsonValue::Object(inner)));
    root.push_new("has:colon".to_string(), node(CsonValue::Boolean(true)));
    CsonDocument { version: "2.0".to_string(), root: node(CsonValue::Object(root)) }
}

/// Printing a document and reading the text back gives the same document.
#[test]
fn law_print_then_parse_gives_the_document_back() {
    let doc = sample_document();
    let printed = print_document(&doc);
    let reparsed = CsonParser::new(&printed).parse().expect("printed text parses");
    assert_eq!(reparsed, doc, "printed:\n{printed}");
}

/// The same with the default version, which prints no `@cson` line.
#[test]
fn law_print_then_parse_default_version() {
    let mut doc = sample_document();
    doc.version = "1.0".to_string();
    let printed = doc.print();
    assert!(!printed.contains("@cson"));
    let reparsed = CsonParser::new(&printed).parse().expect("printed text parses");
    assert_eq!(reparsed, doc);
}

/// An empty document prints as nothing and reads back as itself.
#[test]
fn law_print_then_parse_empty_document() {
    let doc = CsonDocument { version: "1.0".to_string(), root: node(CsonValue::Object(CsonMap::new())) };
    let printed = doc.print();
    assert_eq!(printed, "");
    assert_eq!(CsonParser::new(&printed).parse().unwrap(), doc);
}

/// The exact text the printer writes for a small document.
#[test]
fn printed_text_of_a_small_document() {
    let mut inner = CsonMap::new();
    inner.push_new("b".to_string(), node(CsonValue::Number("2".to_string())));
    inner.push_new("c".to_string(), node(CsonValue::String("x".to_string())));
    let mut root = CsonMap::new();
    root.push_new("a".to_string(), CsonNode {
        value: CsonValue::Number("1".to_string()),
        confidence: Some("0.5".to_string()),
        annotations: vec![ann("wip", &[("owner", "me")])],
    });
    root.push_new("o".to_string(), node(CsonValue::Object(inner)));
    root.push_new("~intent".to_string(), node(CsonValue::Array(vec![
        node(CsonValue::Boolean(true)),
        node(CsonValue::Null),
    ])));
    let doc = CsonDocument { version: "1.5".to_string(), root: node(CsonValue::Object(root)) };
    assert_eq!(
        doc.print(),
        "@cson { version: \"1.5\" }\na: 1 ~0.5 @wip { owner: \"me\" }\no: {\n  b: 2,\n  c: \"x\"\n}\n~\"intent\": [true, null]\n"
    );
}

/// No object of a parsed document holds a key twice: a repeated key is an
/// error, in the document, in a section and in a nested object.
#[test]
fn law_duplicate_keys_are_rejected() {
    let e = CsonParser::new("a: 1\na: 2").parse().unwrap_err();
    assert_eq!(e, "Duplicate key: a at line 2, col 5");
    let e = CsonParser::new("o: { x: 1, x: 2 }").parse().unwrap_err();
    assert!(e.starts_with("Duplicate key: x at line 1, col "), "{e}");
    let e = CsonParser::new("[s]\nx: 1\nx: 2").parse().unwrap_err();
    assert!(e.starts_with("Duplicate key: x"), "{e}");
    // a semantic key and an exact key of the same text are different keys
    let doc = CsonParser::new("~\"a\": 1\na: 2").parse().unwrap();
    match &doc.root.value {
        CsonValue::Object(m) => {
            assert_eq!(m.len(), 2);
            assert!(m.contains_key("~a"));
            assert!(m.contains_key("a"));
        }
        _ => panic!("root is an object"),
    }
}

/// Confidences read are literals within [0, 1]; an absent one stays absent
/// and is not the same as `1.0`.
#[test]
fn law_confidence_range_and_absence() {
    let doc = CsonParser::new("a: 1\nb: 1 ~1.0\nc: 1 ~0").parse().unwrap();
    let m = match &doc.root.value {
        CsonValue::Object(m) => m,
        _ => panic!("root is an object"),
    };
    assert_eq!(m.get("a").unwrap().confidence, None);
    assert_eq!(m.get("b").unwrap().confidence.as_deref(), Some("1.0"));
    assert_eq!(m.get("c").unwrap().confidence.as_deref(), Some("0"));
    let e = CsonParser::new("a: 1 ~1.5").parse().unwrap_err();
    assert_eq!(e, "Confidence 1.5 outside [0.0, 1.0] at line 1, col 10");
    let e = CsonParser::new("a: 1 ~-0.1").parse().unwrap_err();
    assert!(e.starts_with("Confidence -0.1 outside [0.0, 1.0]"), "{e}");
}

/// Storing under a key, then reading it, gives the stored node; other keys
/// keep theirs; storing under a present key replaces in place.
#[test]
fn law_insert_then_get_on_objects() {
    let mut m = CsonMap::new();
    assert!(m.is_empty());
    assert_eq!(m.insert("a".to_string(), node(CsonValue::Number("1".to_string()))), None);
    assert_eq!(m.insert("b".to_string(), node(CsonValue::Null)), None);
    let prev = m.insert("a".to_string(), node(CsonValue::Boolean(true)));
    assert_eq!(prev, Some(node(CsonValue::Number("1".to_string()))));
    assert_eq!(m.len(), 2);
    assert_eq!(m.get("a"), Some(&node(CsonValue::Boolean(true))));
    assert_eq!(m.get("b"), Some(&node(CsonValue::Null)));
    assert_eq!(m.get("c"), None);
    assert_eq!(m.index_of(&"a".to_string()), Some(0));
    assert_eq!(m.index_of(&"b".to_string()), Some(1));
    assert!(!m.contains_key("c"));
}

#[test]
fn law_insert_then_get_on_properties() {
    let mut p = PropertyMap::new();
    p.insert("owner".to_string(), "me".to_string());
    p.insert("since".to_string(), "now".to_string());
    p.insert("owner".to_string(), "you".to_string());
    assert_eq!(p.len(), 2);
    assert_eq!(p.get("owner").map(|s| s.as_str()), Some("you"));
    assert_eq!(p.get("since").map(|s| s.as_str()), Some("now"));
    assert_eq!(p.get("other"), None);
    assert_eq!(p.index_of(&"since".to_string()), Some(1));
    assert!(p.contains_key("owner"));
    assert!(!p.is_empty());
}

/// The annotations of the root survive printing, with and without pairs.
#[test]
fn root_annotations_survive_printing() {
    let doc = CsonParser::new("@note").parse().unwrap();
    assert_eq!(doc.root.annotations.len(), 1);
    let printed = doc.print();
    assert_eq!(printed, "@note\n");
    let again = CsonParser::new(&printed).parse().unwrap();
    assert_eq!(again, doc);
    assert_eq!(again.project(), doc.project());

    let doc = CsonParser::new("a: 1\n[]\n@note { by: \"me\" }\n@other(x y)").parse().unwrap();
    assert_eq!(doc.root.annotations.len(), 2);
    let printed = doc.print();
    assert_eq!(printed, "a: 1\n[]\n@note { by: \"me\" }\n@other(x y)\n");
    assert_eq!(CsonParser::new(&printed).parse().unwrap(), doc);
}

/// Annotation arguments are printed as the reader keeps them.
#[test]
fn annotation_arguments_survive_printing() {
    let doc = CsonParser::new("a: 1 @src(\"x\") @ref(a, b)").parse().unwrap();
    let printed = doc.print();
    assert_eq!(printed, "a: 1 @src(\"x\") @ref(a, b)\n");
    assert_eq!(CsonParser::new(&printed).parse().unwrap(), doc);
}

/// Control characters in strings are written as they are and read back.
#[test]
fn control_characters_survive_printing() {
    let mut root = CsonMap::new();
    root.push_new("k\u{1}".to_string(), node(CsonValue::String("a\u{1}b\u{7f}\t".to_string())));
    let doc = CsonDocument { version: "1.0".to_string(), root: node(CsonValue::Object(root)) };
    let printed = doc.print();
    assert_eq!(printed, "k\u{1}: \"a\u{1}b\u{7f}\\t\"\n");
    assert_eq!(CsonParser::new(&printed).parse().unwrap(), doc);
}

/// Keys that would read as a comment or as annotation arguments are quoted.
#[test]
fn comment_and_paren_keys_are_quoted() {
    let mut root = CsonMap::new();
    root.push_new("a".to_string(), CsonNode {
        value: CsonValue::Number("1".to_string()),
        confidence: None,
        annotations: vec![ann("wip", &[])],
    });
    root.push_new("(x".to_string(), node(CsonValue::Null));
    root.push_new("//y".to_string(), node(CsonValue::Null));
    root.push_new("/z".to_string(), node(CsonValue::Null));
    let doc = CsonDocument { version: "1.0".to_string(), root: node(CsonValue::Object(root)) };
    let printed = doc.print();
    assert_eq!(printed, "a: 1 @wip\n\"(x\": null\n\"//y\": null\n/z: null\n");
    assert_eq!(CsonParser::new(&printed).parse().unwrap(), doc);
}

/// Whatever the parser read prints back to the same document.
#[test]
fn parse_print_parse_gives_the_document_back() {
    let srcs = [
        "@cson(\"2.0\")\n@wip { owner: \"me\", (k: x }\n~\"billing issues\": \"route\" ~0.9 @note(a, b) @x { k2: \"v\" }\nlist: [1 ~0.5 @tag, \"two\", { inner: null }]\n[sec]\nkey with space: true\n\"quoted:key\": -1.5e3\n@root_note",
        "a: @synthesize(\"a colour\")\nb: { c: [ [], {} ] }\n",
        "",
    ];
    for src in srcs {
        let doc = CsonParser::new(src).parse().expect("parse");
        let printed = doc.print();
        let again = CsonParser::new(&printed).parse().expect("re-parse");
        assert_eq!(doc, again, "printed:\n{printed}");
    }
}

/// A `@synthesize` text that quoting changes does not come back as it was.
#[test]
fn synthesize_text_with_backslash_is_not_kept() {
    let doc = CsonParser::new("a: @synthesize(C:\\dir)").parse().expect("parse");
    let printed = doc.print();
    let again = CsonParser::new(&printed).parse().expect("re-parse");
    assert_ne!(doc, again, "printed:\n{printed}");
}
