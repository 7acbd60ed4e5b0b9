use yaml12::encode::{
    character_to_yaml, date_to_yaml, has_class, integer_date_to_yaml, integer_posix_to_yaml,
    integer_to_yaml, list_to_yaml, logical_to_yaml, posix_to_yaml, real_to_yaml,
    render_date_timestamp, render_posix_timestamp, scalar_or_sequence, temporal_kind_of,
    value_to_yaml, Temporal,
};
use yaml12::error::{Error, ErrorKind};
use yaml12::node::{Node, Scalar, Tag};
use yaml12::value::{Data, Value, MISSING_INTEGER};

fn null() -> Node {
    Node::Value(Scalar::Null)
}

fn boolean(b: bool) -> Node {
    Node::Value(Scalar::Boolean(b))
}

fn integer(i: i64) -> Node {
    Node::Value(Scalar::Integer(i))
}

fn double(x: f64) -> Node {
    Node::Value(Scalar::Float(x.to_bits()))
}

fn text(t: &str) -> Node {
    Node::Value(Scalar::Text(t.to_string()))
}

fn timestamp(t: &str) -> Node {
    Node::Tagged(
        Tag { handle: "!".to_string(), suffix: "timestamp".to_string() },
        Box::new(text(t)),
    )
}

fn plain(data: Data) -> Value {
    Value { data, names: None, keys: None, tag: None, classes: Vec::new() }
}

fn with_class(data: Data, class: &str) -> Value {
    Value { classes: vec![class.to_string()], ..plain(data) }
}

fn with_tag(data: Data, tag: &str) -> Value {
    Value { tag: Some(tag.to_string()), ..plain(data) }
}

fn ints(v: &[i32]) -> Value {
    plain(Data::Integers(v.to_vec()))
}

fn bits(v: &[f64]) -> Vec<u64> {
    v.iter().map(|x| x.to_bits()).collect()
}

#[test]
fn a_vector_of_one_is_a_bare_scalar() {
    assert_eq!(logical_to_yaml(&vec![Some(true)]), boolean(true));
    assert_eq!(integer_to_yaml(&vec![5]), integer(5));
    assert_eq!(real_to_yaml(&bits(&[5.0])), double(5.0));
    assert_eq!(character_to_yaml(&vec![Some("5".to_string())]), text("5"));
    assert_eq!(scalar_or_sequence(vec![integer(5)]), integer(5));
}

#[test]
fn an_empty_vector_is_an_empty_sequence() {
    assert_eq!(logical_to_yaml(&vec![]), Node::Sequence(vec![]));
    assert_eq!(integer_to_yaml(&vec![]), Node::Sequence(vec![]));
    assert_eq!(real_to_yaml(&vec![]), Node::Sequence(vec![]));
    assert_eq!(character_to_yaml(&vec![]), Node::Sequence(vec![]));
    assert_eq!(date_to_yaml(&vec![]), Ok(Node::Sequence(vec![])));
    assert_eq!(posix_to_yaml(&vec![]), Ok(Node::Sequence(vec![])));
    assert_eq!(value_to_yaml(&ints(&[])), Ok(Node::Sequence(vec![])));
    assert_eq!(value_to_yaml(&plain(Data::List(vec![]))), Ok(Node::Sequence(vec![])));
}

#[test]
fn a_longer_vector_is_a_sequence_with_nulls_for_missing_elements() {
    assert_eq!(
        logical_to_yaml(&vec![Some(true), None, Some(false)]),
        Node::Sequence(vec![boolean(true), null(), boolean(false)])
    );
    assert_eq!(
        integer_to_yaml(&vec![1, MISSING_INTEGER, -3]),
        Node::Sequence(vec![integer(1), null(), integer(-3)])
    );
    assert_eq!(
        real_to_yaml(&bits(&[1.5, f64::NAN, f64::INFINITY])),
        Node::Sequence(vec![double(1.5), null(), double(f64::INFINITY)])
    );
    assert_eq!(
        character_to_yaml(&vec![Some("a".to_string()), None]),
        Node::Sequence(vec![text("a"), null()])
    );
}

#[test]
fn missing_scalars_of_every_kind_are_null() {
    assert_eq!(logical_to_yaml(&vec![None]), null());
    assert_eq!(integer_to_yaml(&vec![MISSING_INTEGER]), null());
    assert_eq!(character_to_yaml(&vec![None]), null());
    assert_eq!(real_to_yaml(&bits(&[f64::NAN])), null());
    assert_eq!(value_to_yaml(&plain(Data::Null)), Ok(null()));
    assert_eq!(value_to_yaml(&plain(Data::Logicals(vec![None]))), Ok(null()));
    assert_eq!(value_to_yaml(&ints(&[MISSING_INTEGER])), Ok(null()));
    assert_eq!(value_to_yaml(&plain(Data::Strings(vec![None]))), Ok(null()));
}

#[test]
fn dates_are_rendered_under_the_timestamp_tag() {
    assert_eq!(render_date_timestamp(0.0f64.to_bits()), Some("1970-01-01".to_string()));
    assert_eq!(render_date_timestamp((-1.0f64).to_bits()), Some("1969-12-31".to_string()));
    assert_eq!(render_date_timestamp(0.5f64.to_bits()), None);
    assert_eq!(render_date_timestamp(f64::INFINITY.to_bits()), None);
    assert_eq!(date_to_yaml(&bits(&[19782.0])), Ok(timestamp("2024-02-29")));
    assert_eq!(
        date_to_yaml(&bits(&[0.0, f64::NAN, -1.0])),
        Ok(Node::Sequence(vec![timestamp("1970-01-01"), null(), timestamp("1969-12-31")]))
    );
    assert_eq!(integer_date_to_yaml(&vec![0]), timestamp("1970-01-01"));
    assert_eq!(
        integer_date_to_yaml(&vec![MISSING_INTEGER, 1]),
        Node::Sequence(vec![null(), timestamp("1970-01-02")])
    );
}

#[test]
fn a_date_that_is_no_whole_day_is_an_error() {
    let e = date_to_yaml(&bits(&[0.0, 0.5])).unwrap_err();
    assert_eq!(e, Error::InvalidDate);
    assert_eq!(e.kind(), ErrorKind::InvalidTemporal);
    assert_eq!(date_to_yaml(&bits(&[1e300])), Err(Error::InvalidDate));
    let value = with_class(Data::Strings(vec![Some("x".to_string())]), "Date");
    assert_eq!(value_to_yaml(&value), Err(Error::InvalidDate));
}

#[test]
fn instants_are_rendered_under_the_timestamp_tag() {
    assert_eq!(
        render_posix_timestamp(0.0f64.to_bits()),
        Some("1970-01-01T00:00:00Z".to_string())
    );
    assert_eq!(
        render_posix_timestamp(1.5f64.to_bits()),
        Some("1970-01-01T00:00:01.5Z".to_string())
    );
    assert_eq!(
        render_posix_timestamp((-0.5f64).to_bits()),
        Some("1969-12-31T23:59:59.5Z".to_string())
    );
    assert_eq!(render_posix_timestamp(f64::NEG_INFINITY.to_bits()), None);
    assert_eq!(posix_to_yaml(&bits(&[86400.0])), Ok(timestamp("1970-01-02T00:00:00Z")));
    assert_eq!(
        posix_to_yaml(&bits(&[f64::NAN, 1.25])),
        Ok(Node::Sequence(vec![null(), timestamp("1970-01-01T00:00:01.25Z")]))
    );
    assert_eq!(posix_to_yaml(&bits(&[0.0, 1e300])), Err(Error::InvalidTimestamp));
    assert_eq!(integer_posix_to_yaml(&vec![60]), timestamp("1970-01-01T00:01:00Z"));
}

#[test]
fn a_date_or_an_instant_that_is_no_number_is_null() {
    for x in [f64::NAN, f64::INFINITY, f64::NEG_INFINITY] {
        assert_eq!(date_to_yaml(&bits(&[x])), Ok(null()));
        assert_eq!(posix_to_yaml(&bits(&[x])), Ok(null()));
        assert_eq!(value_to_yaml(&with_class(Data::Doubles(bits(&[x])), "Date")), Ok(null()));
        assert_eq!(value_to_yaml(&with_class(Data::Doubles(bits(&[x])), "POSIXct")), Ok(null()));
    }
    assert_eq!(
        posix_to_yaml(&bits(&[f64::INFINITY, 0.0, f64::NEG_INFINITY])),
        Ok(Node::Sequence(vec![null(), timestamp("1970-01-01T00:00:00Z"), null()]))
    );
    assert_eq!(
        date_to_yaml(&bits(&[f64::NEG_INFINITY, 1.0])),
        Ok(Node::Sequence(vec![null(), timestamp("1970-01-02")]))
    );
    assert_eq!(
        real_to_yaml(&bits(&[f64::INFINITY])),
        double(f64::INFINITY)
    );
}

#[test]
fn type_markers_decide_the_temporal_kind() {
    let classes = vec!["POSIXct".to_string(), "POSIXt".to_string()];
    assert!(has_class(&classes, "POSIXt"));
    assert!(!has_class(&classes, "Date"));
    assert_eq!(temporal_kind_of(&classes), Some(Temporal::Instant));
    assert_eq!(temporal_kind_of(&vec!["Date".to_string()]), Some(Temporal::Date));
    assert_eq!(temporal_kind_of(&vec!["factor".to_string()]), None);
    assert_eq!(temporal_kind_of(&vec![]), None);
    let day = with_class(Data::Doubles(bits(&[1.0])), "Date");
    assert_eq!(value_to_yaml(&day), Ok(timestamp("1970-01-02")));
    let instant = with_class(Data::Integers(vec![1]), "POSIXct");
    assert_eq!(value_to_yaml(&instant), Ok(timestamp("1970-01-01T00:00:01Z")));
}

#[test]
fn a_custom_tag_wraps_the_node() {
    let value = with_tag(Data::Integers(vec![1, 2]), "ex:!point");
    assert_eq!(
        value_to_yaml(&value),
        Ok(Node::Tagged(
            Tag { handle: "ex:".to_string(), suffix: "point".to_string() },
            Box::new(Node::Sequence(vec![integer(1), integer(2)]))
        ))
    );
}

#[test]
fn an_empty_tag_fails_the_encoding() {
    let e = value_to_yaml(&with_tag(Data::Integers(vec![1]), "")).unwrap_err();
    assert_eq!(e, Error::MalformedTag(String::new()));
    assert_eq!(e.kind(), ErrorKind::MalformedTag);
    assert_eq!(
        value_to_yaml(&with_tag(Data::Integers(vec![1]), "  ")),
        Err(Error::MalformedTag(String::new()))
    );
}

#[test]
fn a_core_schema_tag_is_no_tag() {
    assert_eq!(value_to_yaml(&with_tag(Data::Integers(vec![1]), "!!int")), Ok(integer(1)));
    assert_eq!(
        value_to_yaml(&with_tag(Data::Strings(vec![Some("a".to_string())]), "tag:yaml.org,2002:str")),
        Ok(text("a"))
    );
}

#[test]
fn a_tag_without_bang_fails_the_encoding() {
    let e = value_to_yaml(&with_tag(Data::Integers(vec![1]), "point")).unwrap_err();
    assert_eq!(e, Error::MalformedTag("point".to_string()));
    assert_eq!(e.kind(), ErrorKind::MalformedTag);
}

#[test]
fn a_tagged_date_is_rendered_and_then_tagged() {
    let value = Value {
        tag: Some("!birthday".to_string()),
        ..with_class(Data::Doubles(bits(&[0.0])), "Date")
    };
    assert_eq!(
        value_to_yaml(&value),
        Ok(Node::Tagged(
            Tag { handle: "!".to_string(), suffix: "birthday".to_string() },
            Box::new(timestamp("1970-01-01"))
        ))
    );
}

#[test]
fn an_unsupported_kind_is_a_type_mismatch() {
    let e = value_to_yaml(&plain(Data::Unsupported("closure".to_string()))).unwrap_err();
    assert_eq!(e, Error::UnsupportedKind("closure".to_string()));
    assert_eq!(e.kind(), ErrorKind::TypeMismatch);
    assert_eq!(list_to_yaml(&ints(&[1])), Err(Error::UnsupportedKind(String::new())));
}

#[test]
fn a_list_without_names_is_a_sequence() {
    let list = plain(Data::List(vec![ints(&[1]), plain(Data::List(vec![plain(Data::Null)]))]));
    assert_eq!(
        value_to_yaml(&list),
        Ok(Node::Sequence(vec![integer(1), Node::Sequence(vec![null()])]))
    );
}

#[test]
fn a_list_with_names_is_a_mapping_with_null_for_a_missing_name() {
    let list = Value {
        names: Some(vec![Some("a".to_string()), None]),
        ..plain(Data::List(vec![ints(&[1]), ints(&[2, 3])]))
    };
    assert_eq!(
        value_to_yaml(&list),
        Ok(Node::Mapping(vec![
            (text("a"), integer(1)),
            (null(), Node::Sequence(vec![integer(2), integer(3)])),
        ]))
    );
}

#[test]
fn a_name_given_twice_keeps_the_last_value_at_the_back() {
    let list = Value {
        names: Some(vec![Some("a".to_string()), Some("b".to_string()), Some("a".to_string())]),
        ..plain(Data::List(vec![ints(&[1]), ints(&[2]), ints(&[3])]))
    };
    assert_eq!(
        value_to_yaml(&list),
        Ok(Node::Mapping(vec![(text("b"), integer(2)), (text("a"), integer(3))]))
    );
}

#[test]
fn a_keys_side_channel_gives_keys_of_any_kind() {
    let list = Value {
        keys: Some(vec![ints(&[1, 2]), plain(Data::Logicals(vec![Some(true)]))]),
        names: Some(vec![Some("ignored".to_string()), Some("too".to_string())]),
        ..plain(Data::List(vec![ints(&[10]), ints(&[20])]))
    };
    assert_eq!(
        value_to_yaml(&list),
        Ok(Node::Mapping(vec![
            (Node::Sequence(vec![integer(1), integer(2)]), integer(10)),
            (boolean(true), integer(20)),
        ]))
    );
}

#[test]
fn a_keys_side_channel_of_another_length_is_a_malformed_key() {
    let list = Value { keys: Some(vec![ints(&[1])]), ..plain(Data::List(vec![])) };
    let e = value_to_yaml(&list).unwrap_err();
    assert_eq!(e, Error::KeyCount);
    assert_eq!(e.kind(), ErrorKind::MalformedKey);
}

#[test]
fn the_first_failure_ends_the_encoding() {
    let list = plain(Data::List(vec![
        ints(&[1]),
        with_tag(Data::Integers(vec![2]), "bad"),
        plain(Data::Unsupported("closure".to_string())),
    ]));
    assert_eq!(value_to_yaml(&list), Err(Error::MalformedTag("bad".to_string())));
    let keyed = Value {
        keys: Some(vec![plain(Data::Unsupported("key".to_string()))]),
        ..plain(Data::List(vec![plain(Data::Unsupported("item".to_string()))]))
    };
    assert_eq!(value_to_yaml(&keyed), Err(Error::UnsupportedKind("key".to_string())));
}
