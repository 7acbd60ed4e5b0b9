use yaml12::decode::{
    convert_tagged, emit_yaml_borrowed, mapping_to_value, render_key, scalar_to_value,
    sequence_to_value, set_yaml_tag_attr, strip_document_marker, yaml_to_value,
};
use yaml12::encode::value_to_yaml;
use yaml12::error::{Error, ErrorKind};
use yaml12::node::{Node, Scalar, ScalarStyle, Tag};
use yaml12::value::{Data, Value};

fn plain(data: Data) -> Value {
    Value { data, names: None, keys: None, tag: None, classes: Vec::new() }
}

fn integer(i: i64) -> Node {
    Node::Value(Scalar::Integer(i))
}

fn text(t: &str) -> Node {
    Node::Value(Scalar::Text(t.to_string()))
}

fn tag(handle: &str, suffix: &str) -> Tag {
    Tag { handle: handle.to_string(), suffix: suffix.to_string() }
}

#[test]
fn scalars_decode_to_vectors_of_one() {
    assert_eq!(scalar_to_value(&Scalar::Null), plain(Data::Null));
    assert_eq!(scalar_to_value(&Scalar::Boolean(true)), plain(Data::Logicals(vec![Some(true)])));
    assert_eq!(scalar_to_value(&Scalar::Integer(-1)), plain(Data::Integers(vec![-1])));
    assert_eq!(
        scalar_to_value(&Scalar::Float(3.5f64.to_bits())),
        plain(Data::Doubles(vec![3.5f64.to_bits()]))
    );
    assert_eq!(
        scalar_to_value(&Scalar::Text("text".to_string())),
        plain(Data::Strings(vec![Some("text".to_string())]))
    );
}

#[test]
fn an_integer_beyond_the_native_width_becomes_a_double() {
    assert_eq!(
        scalar_to_value(&Scalar::Integer(2147483647)),
        plain(Data::Integers(vec![2147483647]))
    );
    assert_eq!(
        scalar_to_value(&Scalar::Integer(2147483648)),
        plain(Data::Doubles(vec![2147483648.0f64.to_bits()]))
    );
    assert_eq!(
        scalar_to_value(&Scalar::Integer(-2147483649)),
        plain(Data::Doubles(vec![(-2147483649.0f64).to_bits()]))
    );
    assert_eq!(
        scalar_to_value(&Scalar::Integer(i64::MAX)),
        plain(Data::Doubles(vec![9223372036854775807.0f64.to_bits()]))
    );
    assert_eq!(
        scalar_to_value(&Scalar::Integer(9007199254740993)),
        plain(Data::Doubles(vec![9007199254740992.0f64.to_bits()]))
    );
}

#[test]
fn round_trip_of_scalars() {
    let values = vec![
        plain(Data::Null),
        plain(Data::Logicals(vec![Some(true)])),
        plain(Data::Logicals(vec![Some(false)])),
        plain(Data::Integers(vec![0])),
        plain(Data::Integers(vec![-1])),
        plain(Data::Doubles(vec![3.5f64.to_bits()])),
        plain(Data::Strings(vec![Some("text".to_string())])),
    ];
    for value in values {
        let node = value_to_yaml(&value).unwrap();
        assert_eq!(yaml_to_value(&node), Ok(value));
    }
}

#[test]
fn a_sequence_decodes_to_a_list() {
    let node = Node::Sequence(vec![integer(1), Node::Sequence(vec![])]);
    let expected =
        plain(Data::List(vec![plain(Data::Integers(vec![1])), plain(Data::List(vec![]))]));
    assert_eq!(yaml_to_value(&node), Ok(expected));
    assert_eq!(sequence_to_value(&vec![]), Ok(plain(Data::List(vec![]))));
}

#[test]
fn a_mapping_decodes_to_a_list_with_names() {
    let entries = vec![(text("a"), integer(1)), (integer(2), text("b"))];
    let expected = Value {
        names: Some(vec![Some("a".to_string()), Some("2".to_string())]),
        ..plain(Data::List(vec![
            plain(Data::Integers(vec![1])),
            plain(Data::Strings(vec![Some("b".to_string())])),
        ]))
    };
    assert_eq!(mapping_to_value(&entries), Ok(expected));
}

#[test]
fn scalar_keys_are_their_own_text() {
    assert_eq!(render_key(&text("k")), Ok("k".to_string()));
    assert_eq!(render_key(&integer(-12)), Ok("-12".to_string()));
    assert_eq!(render_key(&integer(i64::MIN)), Ok("-9223372036854775808".to_string()));
    assert_eq!(render_key(&Node::Value(Scalar::Boolean(true))), Ok("true".to_string()));
    assert_eq!(render_key(&Node::Value(Scalar::Boolean(false))), Ok("false".to_string()));
    assert_eq!(render_key(&Node::Value(Scalar::Null)), Ok("null".to_string()));
    assert_eq!(render_key(&Node::Value(Scalar::Float(1.5f64.to_bits()))), Ok("1.5".to_string()));
    assert_eq!(render_key(&Node::Value(Scalar::Float(1e300f64.to_bits()))), Ok(1e300f64.to_string()));
}

#[test]
fn a_sequence_key_is_its_yaml_text() {
    let key = Node::Sequence(vec![integer(1), integer(2)]);
    assert_eq!(render_key(&key), Ok("- 1\n- 2".to_string()));
    assert_eq!(emit_yaml_borrowed(&key), Ok("- 1\n- 2".to_string()));
    let node = Node::Mapping(vec![(key, text("v"))]);
    let expected = Value {
        names: Some(vec![Some("- 1\n- 2".to_string())]),
        ..plain(Data::List(vec![plain(Data::Strings(vec![Some("v".to_string())]))]))
    };
    assert_eq!(yaml_to_value(&node), Ok(expected));
}

#[test]
fn other_keys_are_their_yaml_text() {
    let mapping = Node::Mapping(vec![(text("a"), integer(1))]);
    assert_eq!(render_key(&mapping), Ok("a: 1".to_string()));
    let tagged = Node::Tagged(tag("!", "t"), Box::new(text("x")));
    assert_eq!(render_key(&tagged), Ok("!t x".to_string()));
    assert_eq!(render_key(&Node::Sequence(vec![])), Ok("[]".to_string()));
}

#[test]
fn a_key_without_text_form_is_a_malformed_key() {
    let twice = Node::Mapping(vec![(text("a"), integer(1)), (text("a"), integer(2))]);
    let e = render_key(&twice).unwrap_err();
    assert_eq!(e, Error::KeyForm);
    assert_eq!(e.kind(), ErrorKind::MalformedKey);
    let block = Node::Sequence(vec![Node::Representation(
        "x".to_string(),
        ScalarStyle::Literal,
        None,
    )]);
    assert_eq!(render_key(&block), Err(Error::KeyForm));
    let node = Node::Mapping(vec![(block, Node::Alias(1))]);
    assert_eq!(yaml_to_value(&node), Err(Error::KeyForm));
}

#[test]
fn a_tag_becomes_the_tag_attribute() {
    let node = Node::Tagged(tag("ex:", "point"), Box::new(integer(1)));
    let expected = Value { tag: Some("ex:!point".to_string()), ..plain(Data::Integers(vec![1])) };
    assert_eq!(yaml_to_value(&node), Ok(expected));
    let short = convert_tagged(&tag("!", "point"), &Node::Sequence(vec![]));
    assert_eq!(short, Ok(Value { tag: Some("!point".to_string()), ..plain(Data::List(vec![])) }));
}

#[test]
fn an_empty_tag_is_not_attached() {
    let value = set_yaml_tag_attr(plain(Data::Null), String::new());
    assert_eq!(value, plain(Data::Null));
    let value = set_yaml_tag_attr(plain(Data::Null), "!t".to_string());
    assert_eq!(value.tag, Some("!t".to_string()));
}

#[test]
fn a_raw_representation_is_its_text() {
    let node = Node::Representation("0x1F".to_string(), ScalarStyle::Plain, None);
    assert_eq!(yaml_to_value(&node), Ok(plain(Data::Strings(vec![Some("0x1F".to_string())]))));
    let node = Node::Representation("1".to_string(), ScalarStyle::Folded, Some(tag("!", "n")));
    assert_eq!(
        yaml_to_value(&node),
        Ok(Value { tag: Some("!n".to_string()), ..plain(Data::Strings(vec![Some("1".to_string())])) })
    );
}

#[test]
fn an_alias_fails_the_decoding() {
    let e = yaml_to_value(&Node::Alias(1)).unwrap_err();
    assert_eq!(e, Error::Alias);
    assert_eq!(e.kind(), ErrorKind::UnsupportedConstruct);
    let deep = Node::Sequence(vec![
        integer(1),
        Node::Mapping(vec![(
            text("a"),
            Node::Tagged(tag("!", "t"), Box::new(Node::Sequence(vec![Node::Alias(3)]))),
        )]),
    ]);
    assert_eq!(yaml_to_value(&deep), Err(Error::Alias));
}

#[test]
fn an_alias_in_a_key_fails_the_decoding() {
    let e = render_key(&Node::Alias(1)).unwrap_err();
    assert_eq!(e, Error::Alias);
    assert_eq!(e.kind(), ErrorKind::UnsupportedConstruct);
    assert_eq!(emit_yaml_borrowed(&Node::Alias(1)), Err(Error::Alias));
    let node = Node::Mapping(vec![(Node::Alias(1), integer(1))]);
    assert_eq!(yaml_to_value(&node), Err(Error::Alias));
    let inside = Node::Sequence(vec![integer(1), Node::Alias(2)]);
    assert_eq!(render_key(&inside), Err(Error::Alias));
    let deep = Node::Mapping(vec![(
        text("a"),
        Node::Mapping(vec![(
            Node::Tagged(
                tag("!", "t"),
                Box::new(Node::Mapping(vec![(Node::Sequence(vec![Node::Alias(7)]), integer(1))])),
            ),
            integer(2),
        )]),
    )]);
    assert!(deep.has_alias());
    assert_eq!(yaml_to_value(&deep), Err(Error::Alias));
    assert!(!Node::Sequence(vec![integer(1), text("a")]).has_alias());
}

#[test]
fn a_bad_value_fails_the_decoding() {
    let e = yaml_to_value(&Node::Sequence(vec![Node::BadValue, Node::Alias(1)])).unwrap_err();
    assert_eq!(e, Error::BadScalar);
    assert_eq!(e.kind(), ErrorKind::UnsupportedConstruct);
}

#[test]
fn the_document_marker_is_stripped_only_at_the_start() {
    assert_eq!(strip_document_marker("---\na: 1"), "a: 1");
    assert_eq!(strip_document_marker("---\n"), "");
    assert_eq!(strip_document_marker("--- a"), "--- a");
    assert_eq!(strip_document_marker("a\n---\n"), "a\n---\n");
    assert_eq!(strip_document_marker(""), "");
    assert_eq!(strip_document_marker("---\n\u{e9}t\u{e9}"), "\u{e9}t\u{e9}");
}
