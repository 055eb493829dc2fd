use cson::{CsonParser, CsonValue, JsonValue, ProjectError};

fn parse(input: &str) -> cson::CsonDocument {
    CsonParser::new(input).parse().expect("the input parses")
}

/// `[a]` + `x: 1` is sugar for `a: { x: 1 }`.
#[test]
fn sections_are_sugar_for_nesting() {
    let a = parse("[server]\nport: 8080\nhost: \"x\"\n");
    let b = parse("server: { port: 8080, host: \"x\" }");
    assert_eq!(a, b);
}

/// Annotations before a pair attach to it; `@cson` sets the version instead.
#[test]
fn pending_annotations_attach_to_the_next_pair() {
    let doc = parse("@cson(\"1.5\")\n@wip { owner: \"me\" }\na: 1\nb: 2");
    assert_eq!(doc.version, "1.5");
    let m = match &doc.root.value {
        CsonValue::Object(m) => m,
        _ => panic!("root is an object"),
    };
    let a = m.get("a").unwrap();
    assert_eq!(a.annotations.len(), 1);
    assert_eq!(a.annotations[0].name, "wip");
    assert_eq!(a.annotations[0].properties.get("owner").map(|s| s.as_str()), Some("me"));
    assert!(m.get("b").unwrap().annotations.is_empty());
}

#[test]
fn version_defaults_to_one_point_zero() {
    assert_eq!(parse("a: 1").version, "1.0");
    assert_eq!(parse("").version, "1.0");
}

#[test]
fn comments_and_trailing_commas_are_accepted() {
    let doc = parse("# head\na: { x: 1, y: [1, 2,], } // tail\n");
    let m = match &doc.root.value {
        CsonValue::Object(m) => m,
        _ => panic!("root is an object"),
    };
    match &m.get("a").unwrap().value {
        CsonValue::Object(inner) => {
            assert_eq!(inner.len(), 2);
            match &inner.get("y").unwrap().value {
                CsonValue::Array(items) => assert_eq!(items.len(), 2),
                _ => panic!("y is an array"),
            }
        }
        _ => panic!("a is an object"),
    }
}

#[test]
fn annotation_names_may_be_unicode() {
    let doc = parse("a: 1 @überprüft_2");
    let m = match &doc.root.value {
        CsonValue::Object(m) => m,
        _ => panic!("root is an object"),
    };
    assert_eq!(m.get("a").unwrap().annotations[0].name, "überprüft_2");
}

#[test]
fn bare_values_and_keywords() {
    let doc = parse("a: hello world\nb: 1e3\nc: true\nd: null\ne: inf\nf: truex");
    let m = match &doc.root.value {
        CsonValue::Object(m) => m,
        _ => panic!("root is an object"),
    };
    assert_eq!(m.get("a").unwrap().value, CsonValue::String("hello world".to_string()));
    assert_eq!(m.get("b").unwrap().value, CsonValue::Number("1e3".to_string()));
    assert_eq!(m.get("c").unwrap().value, CsonValue::Boolean(true));
    assert_eq!(m.get("d").unwrap().value, CsonValue::Null);
    assert_eq!(m.get("e").unwrap().value, CsonValue::Number("inf".to_string()));
    assert_eq!(m.get("f").unwrap().value, CsonValue::String("truex".to_string()));
}

#[test]
fn synthesized_values_project_to_an_object() {
    let doc = parse("accent: @synthesize(\"a colour\")\n~\"intent\": 1 ~0.5");
    let j = doc.project().unwrap();
    let expected = JsonValue::Object(vec![
        (
            "accent".to_string(),
            JsonValue::Object(vec![(
                "$synthesize".to_string(),
                JsonValue::String("a colour".to_string()),
            )]),
        ),
        (
            "intent".to_string(),
            JsonValue::Object(vec![
                ("$value".to_string(), JsonValue::Number("1".to_string())),
                ("$confidence".to_string(), JsonValue::Number("0.5".to_string())),
            ]),
        ),
    ]);
    assert_eq!(j, expected);
}

#[test]
fn reserved_keys_cannot_be_projected() {
    let doc = parse("$value: 1");
    let e = doc.project().unwrap_err();
    assert_eq!(e, ProjectError::ReservedKey("$value".to_string()));
    assert_eq!(e.message(), "Key \"$value\" uses the reserved '$' prefix");
}

#[test]
fn skipping_blanks_and_comments() {
    let mut p = CsonParser::new("  # c\n  // d\n  x");
    p.skip_whitespace_and_comments();
    assert_eq!(p.pos, 15);
}

#[test]
fn print_node_writes_value_and_metadata() {
    let doc = parse("a: [1, \"two\"] ~0.25 @k");
    let m = match &doc.root.value {
        CsonValue::Object(m) => m,
        _ => panic!("root is an object"),
    };
    assert_eq!(m.get("a").unwrap().print(), "[1, \"two\"] ~0.25 @k");
    assert_eq!(cson::print_node(m.get("a").unwrap()), "[1, \"two\"] ~0.25 @k");
}

#[test]
fn reserved_keys_are_found_in_nested_values() {
    let doc = parse("a: [1, { ~\"$x\": 2 }]");
    assert_eq!(doc.project().unwrap_err(), ProjectError::ReservedKey("$x".to_string()));
    let doc = parse("a: { b: { c$: 1 } }");
    assert!(doc.project().is_ok());
}

/// Confidence and annotations may come in either order after a pair's value.
#[test]
fn metadata_order_is_free_in_pairs() {
    let a = parse("a: 1 ~0.9 @wip\nb: 2");
    let b = parse("a: 1 @wip ~0.9\nb: 2");
    assert_eq!(a, b);
    let c = parse("a: 1 @note ~0.5\nb: 2");
    let m = match &c.root.value {
        CsonValue::Object(m) => m,
        _ => panic!("root is an object"),
    };
    assert_eq!(m.len(), 2);
    assert_eq!(m.get("a").unwrap().confidence.as_deref(), Some("0.5"));
    assert_eq!(m.get("b").unwrap().value, CsonValue::Number("2".to_string()));
}

/// A `~` followed by a quote starts the next pair's semantic key.
#[test]
fn tilde_before_a_quote_is_a_semantic_key() {
    let doc = parse("a: 1\n~\"b\": 2");
    let m = match &doc.root.value {
        CsonValue::Object(m) => m,
        _ => panic!("root is an object"),
    };
    assert_eq!(m.get("a").unwrap().confidence, None);
    assert!(m.contains_key("~b"));
    // the quote must follow `~` immediately; after a blank the
    // rest up to `:` is a bare key, quotes included
    let doc = parse("a: 1\n~ \"b\": 2");
    let m = match &doc.root.value {
        CsonValue::Object(m) => m,
        _ => panic!("root is an object"),
    };
    assert_eq!(m.get("a").unwrap().confidence, None);
    assert!(m.contains_key("~\"b\""));
}

/// `pos` counts bytes of the input, as `str` indexing does.
#[test]
fn positions_are_byte_offsets() {
    let mut p = CsonParser::new("é: 1 # ü\n  x");
    p.pos = 5;
    p.skip_whitespace_and_comments();
    assert_eq!(p.pos, 13);
    let mut p = CsonParser::new("ü: 1\nä: 2");
    let doc = p.parse().unwrap();
    assert_eq!(p.pos, "ü: 1\nä: 2".len());
    assert_eq!(doc.root.value, parse("ü: 1\nä: 2").root.value);
    let mut p = CsonParser::new("é: {");
    let e = p.parse().unwrap_err();
    assert_eq!(e, "Unclosed object at line 1, col 5");
    assert_eq!(p.pos, 5);
    assert_eq!(p.error("Here"), "Here at line 1, col 5");
}

/// A property key that opens with `(` is written bare, so it reads back as itself.
#[test]
fn property_key_with_parenthesis_reads_back() {
    let doc = parse("@x { (k: \"v\" }\na: 1");
    let printed = doc.print();
    assert!(printed.contains("{ (k: "), "property key was not written bare:\n{printed}");
    let again = parse(&printed);
    assert_eq!(doc, again, "printed:\n{printed}");
    assert_eq!(doc.project().unwrap(), again.project().unwrap());
}

/// A key judged safe, written bare with a value, reads back as that one key.
#[test]
fn bare_key_reads_back_as_itself() {
    for k in ["plain", "with-dash", "snake_case", "v1.2", "a b"] {
        for text in [format!("{}: 1", k), format!("{}: 1\n", k)] {
            let doc = parse(&text);
            let m = match &doc.root.value {
                CsonValue::Object(m) => m,
                _ => panic!("root is not an object"),
            };
            assert_eq!(m.entries.len(), 1);
            assert_eq!(m.entries[0].0, k);
        }
    }
}
