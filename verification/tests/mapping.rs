use yaml12::encode::value_to_yaml;
use yaml12::engine::emit_document;
use yaml12::error::Error;
use yaml12::node::{Node, Scalar, ScalarStyle, Tag};
use yaml12::value::{Data, Value};

fn text(t: &str) -> Node {
    Node::Value(Scalar::Text(t.to_string()))
}

fn whole(i: i64) -> Node {
    Node::Value(Scalar::Integer(i))
}

fn float(x: f64) -> Node {
    Node::Value(Scalar::Float(x.to_bits()))
}

fn plain(data: Data) -> Value {
    Value { data, names: None, keys: None, tag: None, classes: Vec::new() }
}

fn keyed(keys: Vec<Value>, items: Vec<i32>) -> Value {
    Value {
        keys: Some(keys),
        ..plain(Data::List(items.into_iter().map(|i| plain(Data::Integers(vec![i]))).collect()))
    }
}

fn strings(v: &[&str]) -> Value {
    plain(Data::Strings(v.iter().map(|s| Some(s.to_string())).collect()))
}

fn doubles(v: &[f64]) -> Value {
    plain(Data::Doubles(v.iter().map(|x| x.to_bits()).collect()))
}

/// Whether the engine keeps both entries of a mapping with these two keys.
fn keeps_both(a: Node, b: Node) -> bool {
    let node = Node::Mapping(vec![(a, whole(1)), (b, whole(2))]);
    match emit_document(&node, false) {
        Ok(_) => true,
        Err(Error::NodeForm) => false,
        Err(e) => panic!("{}", e.message()),
    }
}

#[test]
fn new_keys_go_to_the_back() {
    let value = keyed(vec![strings(&["a"]), strings(&["b"])], vec![1, 2]);
    assert_eq!(
        value_to_yaml(&value),
        Ok(Node::Mapping(vec![(text("a"), whole(1)), (text("b"), whole(2))]))
    );
}

#[test]
fn a_key_given_again_moves_to_the_back_with_the_new_value() {
    let value = keyed(vec![strings(&["a"]), strings(&["b"]), strings(&["a"])], vec![1, 2, 3]);
    assert_eq!(
        value_to_yaml(&value),
        Ok(Node::Mapping(vec![(text("b"), whole(2)), (text("a"), whole(3))]))
    );
}

#[test]
fn zeros_are_one_key_and_the_first_key_stays() {
    let value = keyed(vec![doubles(&[0.0]), doubles(&[-0.0])], vec![1, 2]);
    assert_eq!(value_to_yaml(&value), Ok(Node::Mapping(vec![(float(0.0), whole(2))])));
    let value = keyed(vec![doubles(&[-0.0]), doubles(&[1.0]), doubles(&[0.0])], vec![1, 2, 3]);
    assert_eq!(
        value_to_yaml(&value),
        Ok(Node::Mapping(vec![(float(1.0), whole(2)), (float(-0.0), whole(3))]))
    );
}

#[test]
fn keys_that_are_the_same_tree_are_one_key() {
    let a = Node::Sequence(vec![whole(1), Node::Mapping(vec![(text("k"), float(1.5))])]);
    let b = Node::Sequence(vec![whole(1), Node::Mapping(vec![(text("k"), float(1.5))])]);
    let c = Node::Sequence(vec![whole(1), Node::Mapping(vec![(text("k"), float(2.5))])]);
    assert!(!keeps_both(a.duplicate(), b));
    assert!(keeps_both(a, c));
    assert!(!keeps_both(float(f64::NAN), float(-f64::NAN)));
    assert!(!keeps_both(float(0.0), float(-0.0)));
    assert!(keeps_both(float(1.0), float(f64::from_bits(1.0f64.to_bits() + 1))));
    assert!(keeps_both(whole(1), float(1.0)));
    assert!(keeps_both(text("1"), whole(1)));
    assert!(keeps_both(Node::Value(Scalar::Null), Node::BadValue));
    assert!(!keeps_both(Node::Alias(1), Node::Alias(1)));
    assert!(keeps_both(Node::Alias(1), Node::Alias(2)));
    assert!(!keeps_both(Node::BadValue, Node::BadValue));
    assert!(keeps_both(
        Node::Mapping(vec![(text("a"), whole(1)), (text("b"), whole(2))]),
        Node::Mapping(vec![(text("b"), whole(2)), (text("a"), whole(1))])
    ));
    let tag = Tag { handle: "!".to_string(), suffix: "t".to_string() };
    let other = Tag { handle: "!".to_string(), suffix: "u".to_string() };
    assert!(keeps_both(
        Node::Tagged(tag.duplicate(), Box::new(whole(1))),
        Node::Tagged(other, Box::new(whole(1)))
    ));
    assert!(!keeps_both(
        Node::Tagged(tag.duplicate(), Box::new(whole(1))),
        Node::Tagged(tag.duplicate(), Box::new(whole(1)))
    ));
    let r1 = Node::Representation("x".to_string(), ScalarStyle::Plain, Some(tag.duplicate()));
    let r2 = Node::Representation("x".to_string(), ScalarStyle::SingleQuoted, Some(tag));
    assert!(keeps_both(r1.duplicate(), r2));
    assert!(!keeps_both(r1.duplicate(), r1));
}

#[test]
fn a_key_given_twice_has_no_text_anywhere_in_a_tree() {
    let good = Node::Mapping(vec![(text("a"), whole(1)), (text("b"), whole(1))]);
    let bad = Node::Mapping(vec![(text("a"), whole(1)), (text("a"), whole(2))]);
    assert!(emit_document(&good, false).is_ok());
    assert_eq!(emit_document(&bad, false), Err(Error::NodeForm));
    let inside = Node::Sequence(vec![good.duplicate(), bad.duplicate()]);
    assert_eq!(emit_document(&inside, false), Err(Error::NodeForm));
    let tag = Tag { handle: "!".to_string(), suffix: "t".to_string() };
    assert_eq!(emit_document(&Node::Tagged(tag, Box::new(bad.duplicate())), false), Err(Error::NodeForm));
    let as_key = Node::Mapping(vec![(bad.duplicate(), whole(1))]);
    assert_eq!(emit_document(&as_key, false), Err(Error::NodeForm));
    let as_value = Node::Mapping(vec![(whole(1), bad)]);
    assert_eq!(emit_document(&as_value, false), Err(Error::NodeForm));
}

#[test]
fn block_style_representations_are_not_emittable() {
    let plain = Node::Representation("x".to_string(), ScalarStyle::Plain, None);
    let literal = Node::Representation("x".to_string(), ScalarStyle::Literal, None);
    let folded = Node::Representation("x".to_string(), ScalarStyle::Folded, None);
    assert!(plain.is_emittable());
    assert!(!literal.is_emittable());
    assert!(!Node::Sequence(vec![plain, folded]).is_emittable());
    assert!(!Node::Mapping(vec![(literal, whole(1))]).is_emittable());
}
