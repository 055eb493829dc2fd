use cson::{CsonParser, CsonValue};

/// An absent confidence must not acquire one by being printed.
#[test]
fn printing_does_not_invent_confidence() {
    let doc = CsonParser::new("a: 1\nb: 1 ~1.0").parse().expect("parse");
    let printed = doc.print();
    assert!(
        !printed.contains("a: 1 ~"),
        "absent confidence must not be printed as ~1.0; got:\n{printed}"
    );
    let reparsed = CsonParser::new(&printed).parse().expect("re-parse");
    let root = match &reparsed.root.value {
        CsonValue::Object(m) => m,
        _ => panic!("root is not an object"),
    };
    assert!(
        root.get("a").unwrap().confidence.is_none(),
        "absent confidence became {:?}",
        root.get("a").unwrap().confidence
    );
    assert_eq!(
        root.get("b").unwrap().confidence.as_ref().map(|c| c.parse::<f64>().unwrap()),
        Some(1.0),
        "explicit ~1.0 was lost"
    );
}

/// A key that cannot be written bare must be quoted, not emitted raw.
#[test]
fn unsafe_keys_are_quoted() {
    let doc = CsonParser::new("\"two words\": 1\n\"has:colon\": 2").parse().expect("parse");
    let printed = doc.print();
    let reparsed = CsonParser::new(&printed).parse().expect("re-parse printed keys");
    assert_eq!(
        doc.project().unwrap(),
        reparsed.project().unwrap(),
        "quoted keys did not survive:\n{printed}"
    );
}

/// Annotations, semantic keys and synthesized values must survive.
#[test]
fn metadata_survives_round_trip() {
    let src = r#"~"billing issues": "route" ~0.9 @wip { owner: "foreman" } @urgent
accent: @synthesize("a colour")
nested: { x: [1 ~0.5, 2], y: "z" @note }
"#;
    let doc = CsonParser::new(src).parse().expect("parse");
    let printed = doc.print();
    let reparsed = CsonParser::new(&printed).parse().expect("re-parse");
    assert_eq!(
        doc.project().unwrap(),
        reparsed.project().unwrap(),
        "metadata lost across round trip:\n--- printed ---\n{printed}"
    );
}

/// The printer must emit strictly valid CSON, not merely something the parser
/// accepts: pairs inside an object are comma-separated.
#[test]
fn nested_object_pairs_are_comma_separated() {
    let doc = CsonParser::new("a: { x: 1, y: 2, z: 3 }").parse().expect("parse");
    let printed = doc.print();
    let commas = printed.matches(",\n").count();
    assert_eq!(
        commas, 2,
        "3 pairs need 2 separating commas; got {commas} in:\n{printed}"
    );
    assert!(
        !printed.contains("1\n  y"),
        "pairs must not be newline-separated without a comma:\n{printed}"
    );
}

/// Top-level pairs are newline-separated, not comma-separated.
#[test]
fn document_pairs_are_not_comma_separated() {
    let doc = CsonParser::new("a: 1\nb: 2").parse().expect("parse");
    let printed = doc.print();
    assert!(
        !printed.contains(",\n"),
        "top-level pairs must not be comma-separated:\n{printed}"
    );
}
