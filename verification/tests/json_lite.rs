use cutback::xml_parser::json_lite::parse_object_array;

fn number(text: Option<&str>) -> Option<f64> {
    text.map(|t| t.parse::<f64>().unwrap())
}

#[test]
fn reads_a_real_marker_array() {
    // Copied verbatim from a project file written by Kdenlive 25.x.
    let raw = r#"[
    {
        "comment": "Gap",
        "duration": 0,
        "pos": 2574,
        "type": 2
    }
]"#;
    let objs = parse_object_array(raw).expect("should parse");
    assert_eq!(objs.len(), 1);
    assert_eq!(objs[0].str("comment"), Some("Gap"));
    assert_eq!(number(objs[0].num("pos")), Some(2574.0));
    assert_eq!(number(objs[0].num("type")), Some(2.0));
}

#[test]
fn reads_an_empty_array() {
    assert_eq!(parse_object_array("[\n]").map(|v| v.len()), Some(0));
}

#[test]
fn handles_escapes_and_unicode() {
    let objs = parse_object_array(r#"[{"comment":"a \"quoted\" A line"}]"#).unwrap();
    assert_eq!(objs[0].str("comment"), Some(r#"a "quoted" A line"#));
}

#[test]
fn rejects_non_arrays() {
    assert!(parse_object_array("not json").is_none());
    assert!(parse_object_array("{\"pos\":1}").is_none());
}

#[test]
fn unicode_escapes_become_characters() {
    let objs = parse_object_array(r#"[{"comment":"caf\u00e9\n\t"}]"#).unwrap();
    assert_eq!(objs[0].str("comment"), Some("café\n\t"));
}

#[test]
fn bad_unicode_escapes_are_refused() {
    assert!(parse_object_array(r#"[{"comment":"\ud800"}]"#).is_none());
    assert!(parse_object_array(r#"[{"comment":"\u12"}]"#).is_none());
}

#[test]
fn numbers_keep_their_text() {
    let objs = parse_object_array(r#"[{"pos": -12.5e1, "a": true, "b": null}]"#).unwrap();
    assert_eq!(objs[0].num("pos"), Some("-12.5e1"));
    assert_eq!(objs[0].num("a"), None);
    assert_eq!(objs[0].str("pos"), None);
}

#[test]
fn malformed_numbers_are_refused() {
    assert!(parse_object_array(r#"[{"pos": 1-2}]"#).is_none());
    assert!(parse_object_array(r#"[{"pos": 1e}]"#).is_none());
}

#[test]
fn first_field_of_a_name_wins() {
    let objs = parse_object_array(r#"[{"pos": 1, "pos": 2}, {}]"#).unwrap();
    assert_eq!(objs.len(), 2);
    assert_eq!(objs[0].num("pos"), Some("1"));
    assert_eq!(objs[1].num("pos"), None);
}

#[test]
fn unterminated_input_is_refused() {
    assert!(parse_object_array("[{\"pos\": 1}").is_none());
    assert!(parse_object_array("[{\"comment\": \"open").is_none());
    assert!(parse_object_array("[{\"pos\" 1}]").is_none());
}
