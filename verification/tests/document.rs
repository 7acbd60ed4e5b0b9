use yaml12::document::{
    collapse_lines, emit_yaml_documents, format_yaml, parse_yaml, write_yaml, yaml_body,
};
use yaml12::error::{Error, ErrorKind};
use yaml12::node::{Node, Scalar, ScalarStyle};
use yaml12::value::{Data, Value};

fn plain(data: Data) -> Value {
    Value { data, names: None, keys: None, tag: None, classes: Vec::new() }
}

fn ints(v: &[i32]) -> Value {
    plain(Data::Integers(v.to_vec()))
}

fn strings(v: &[&str]) -> Value {
    plain(Data::Strings(v.iter().map(|s| Some(s.to_string())).collect()))
}

fn lines(v: &[&str]) -> Vec<Option<String>> {
    v.iter().map(|s| Some(s.to_string())).collect()
}

fn named(names: &[&str], items: Vec<Value>) -> Value {
    Value {
        names: Some(names.iter().map(|s| Some(s.to_string())).collect()),
        ..plain(Data::List(items))
    }
}

#[test]
fn lines_are_joined_with_line_ends() {
    assert_eq!(collapse_lines(&lines(&[])), Ok(String::new()));
    assert_eq!(collapse_lines(&lines(&["a"])), Ok("a".to_string()));
    assert_eq!(collapse_lines(&lines(&["a", "", "b"])), Ok("a\n\nb".to_string()));
    assert_eq!(collapse_lines(&lines(&[""])), Ok(String::new()));
}

#[test]
fn a_missing_line_is_an_error() {
    let e = collapse_lines(&vec![Some("a".to_string()), None]).unwrap_err();
    assert_eq!(e, Error::MissingLine);
    assert_eq!(parse_yaml(&vec![None]), Err(Error::MissingLine));
}

#[test]
fn empty_input_is_the_null_value() {
    assert_eq!(parse_yaml(&lines(&[])), Ok(plain(Data::Null)));
    assert_eq!(parse_yaml(&lines(&[""])), Ok(plain(Data::Null)));
}

#[test]
fn parse_scalars() {
    assert_eq!(parse_yaml(&lines(&["~"])), Ok(plain(Data::Null)));
    assert_eq!(parse_yaml(&lines(&["true"])), Ok(plain(Data::Logicals(vec![Some(true)]))));
    assert_eq!(parse_yaml(&lines(&["-1"])), Ok(ints(&[-1])));
    assert_eq!(parse_yaml(&lines(&["3.5"])), Ok(plain(Data::Doubles(vec![3.5f64.to_bits()]))));
    assert_eq!(parse_yaml(&lines(&["text"])), Ok(strings(&["text"])));
    assert_eq!(
        parse_yaml(&lines(&["4294967296"])),
        Ok(plain(Data::Doubles(vec![4294967296.0f64.to_bits()])))
    );
}

#[test]
fn parse_collections() {
    let parsed = parse_yaml(&lines(&["a: 1", "b:", "  - x", "  - y"])).unwrap();
    let expected = named(&["a", "b"], vec![
        ints(&[1]),
        plain(Data::List(vec![strings(&["x"]), strings(&["y"])])),
    ]);
    assert_eq!(parsed, expected);
}

#[test]
fn only_the_first_document_is_decoded() {
    assert_eq!(parse_yaml(&lines(&["1", "---", "2"])), Ok(ints(&[1])));
}

#[test]
fn parse_keeps_custom_tags() {
    let parsed = parse_yaml(&lines(&["!point [1, 2]"])).unwrap();
    assert_eq!(parsed.tag, Some("!point".to_string()));
    assert_eq!(parsed.data, Data::List(vec![ints(&[1]), ints(&[2])]));
}

#[test]
fn parse_renders_a_sequence_key_as_yaml_text() {
    let parsed = parse_yaml(&lines(&["? [1, 2]", ": v"])).unwrap();
    assert_eq!(parsed, named(&["- 1\n- 2"], vec![strings(&["v"])]));
}

#[test]
fn malformed_text_is_a_parse_error() {
    let e = parse_yaml(&lines(&["a: [1, 2"])).unwrap_err();
    assert_eq!(e.kind(), ErrorKind::Parse);
    assert!(matches!(e, Error::Parse(ref m) if !m.is_empty()));
}

#[test]
fn a_scalar_that_does_not_fit_its_tag_is_unsupported() {
    let e = parse_yaml(&lines(&["- 1", "- !!int x"])).unwrap_err();
    assert_eq!(e, Error::BadScalar);
    assert_eq!(e.kind(), ErrorKind::UnsupportedConstruct);
}

#[test]
fn the_loader_copies_an_anchored_node_in_place_of_its_alias() {
    let parsed = parse_yaml(&lines(&["a: &x 1", "b: *x"])).unwrap();
    assert_eq!(parsed, named(&["a", "b"], vec![ints(&[1]), ints(&[1])]));
}

#[test]
fn format_one_document() {
    assert_eq!(format_yaml(&ints(&[5]), false), Ok("---\n5".to_string()));
    assert_eq!(format_yaml(&ints(&[]), false), Ok("---\n[]".to_string()));
    assert_eq!(format_yaml(&plain(Data::Null), false), Ok("---\n~".to_string()));
    let value = named(&["a", "b"], vec![ints(&[1]), strings(&["x", "y"])]);
    assert_eq!(format_yaml(&value, false), Ok("---\na: 1\nb:\n  - x\n  - y".to_string()));
}

#[test]
fn format_writes_strings_of_several_lines_as_blocks() {
    assert_eq!(format_yaml(&strings(&["a\nb"]), false), Ok("---\n|-\na\nb".to_string()));
    let value = named(&["k"], vec![strings(&["a\nb\n"])]);
    let text = format_yaml(&value, false).unwrap();
    assert_eq!(text, "---\nk: |\n  a\n  b");
    assert_eq!(parse_yaml(&vec![Some(text)]), Ok(value));
}

#[test]
fn format_a_date() {
    let date = Value {
        classes: vec!["Date".to_string()],
        ..plain(Data::Doubles(vec![0.0f64.to_bits()]))
    };
    assert_eq!(format_yaml(&date, false), Ok("---\n!timestamp 1970-01-01".to_string()));
}

#[test]
fn format_no_document_is_empty() {
    assert_eq!(format_yaml(&plain(Data::List(vec![])), true), Ok(String::new()));
    assert_eq!(emit_yaml_documents(&vec![], true), Ok(String::new()));
    assert_eq!(emit_yaml_documents(&vec![], false), Ok(String::new()));
}

#[test]
fn format_two_documents_is_one_stream() {
    let value = plain(Data::List(vec![ints(&[1]), strings(&["b"])]));
    assert_eq!(format_yaml(&value, true), Ok("---\n1\n---\nb\n".to_string()));
    assert_eq!(write_yaml(&value, true), Ok("---\n1\n---\nb\n...\n".to_string()));
    let back = yaml12::engine::parse_documents("---\n1\n---\nb\n...\n").unwrap();
    assert_eq!(
        back,
        vec![Node::Value(Scalar::Integer(1)), Node::Value(Scalar::Text("b".to_string()))]
    );
}

#[test]
fn a_stream_needs_a_list() {
    let e = format_yaml(&ints(&[1, 2]), true).unwrap_err();
    assert_eq!(e, Error::NotAList);
    assert_eq!(e.kind(), ErrorKind::TypeMismatch);
}

#[test]
fn one_document_mode_writes_the_first_node_only() {
    let docs = vec![Node::Value(Scalar::Integer(1)), Node::Value(Scalar::Integer(2))];
    assert_eq!(emit_yaml_documents(&docs, false), Ok("---\n1".to_string()));
    assert_eq!(emit_yaml_documents(&docs, true), Ok("---\n1\n---\n2\n".to_string()));
}

#[test]
fn a_node_without_text_form_is_not_emitted() {
    let block = Node::Representation("x".to_string(), ScalarStyle::Folded, None);
    let e = emit_yaml_documents(&vec![block], false).unwrap_err();
    assert_eq!(e, Error::NodeForm);
    assert_eq!(e.kind(), ErrorKind::Emit);
    let twice = Node::Mapping(vec![
        (Node::Value(Scalar::Null), Node::Value(Scalar::Null)),
        (Node::Value(Scalar::Null), Node::Value(Scalar::Null)),
    ]);
    assert_eq!(emit_yaml_documents(&vec![twice], true), Err(Error::NodeForm));
}

#[test]
fn a_file_ends_with_the_document_end_marker() {
    assert_eq!(write_yaml(&ints(&[5]), false), Ok("---\n5\n...\n".to_string()));
    assert_eq!(write_yaml(&plain(Data::List(vec![ints(&[5])])), true), Ok("---\n5\n...\n".to_string()));
    assert_eq!(
        write_yaml(&plain(Data::Unsupported("closure".to_string())), false),
        Err(Error::UnsupportedKind("closure".to_string()))
    );
}

#[test]
fn a_file_of_no_document_is_empty() {
    assert_eq!(write_yaml(&plain(Data::List(vec![])), true), Ok(String::new()));
    assert_eq!(write_yaml(&named(&[], vec![]), true), Ok(String::new()));
    assert_eq!(write_yaml(&plain(Data::List(vec![])), false), Ok("---\n[]\n...\n".to_string()));
    assert_eq!(write_yaml(&ints(&[]), true), Err(Error::NotAList));
}

#[test]
fn the_body_of_one_document_has_no_marker() {
    assert_eq!(yaml_body("---\na: 1", false), "a: 1");
    assert_eq!(yaml_body("---\na: 1", true), "---\na: 1");
    assert_eq!(yaml_body("a: 1", false), "a: 1");
    assert_eq!(yaml_body("", false), "");
}

#[test]
fn text_round_trip_of_scalars() {
    let values = vec![
        plain(Data::Null),
        plain(Data::Logicals(vec![Some(true)])),
        plain(Data::Logicals(vec![Some(false)])),
        ints(&[0]),
        ints(&[-1]),
        plain(Data::Doubles(vec![3.5f64.to_bits()])),
        strings(&["text"]),
    ];
    for value in values {
        let text = format_yaml(&value, false).unwrap();
        assert_eq!(parse_yaml(&vec![Some(text)]), Ok(value));
    }
}

#[test]
fn text_round_trip_of_a_tagged_mapping() {
    let value = Value {
        tag: Some("!point".to_string()),
        ..named(&["x", "y"], vec![ints(&[1]), ints(&[2])])
    };
    let text = format_yaml(&value, false).unwrap();
    assert_eq!(parse_yaml(&vec![Some(text)]), Ok(value));
}
