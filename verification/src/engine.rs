//! The YAML engine: reading text into nodes and writing nodes as text are the
//! work of the `saphyr` crate. This module holds the trusted declarations
//! through which it is called, and the verified conversions between its
//! node type and [`Node`].

use vstd::prelude::*;
use std::borrow::Cow;
use num_traits::FromBytes;
use ordered_float::OrderedFloat;
use saphyr::LoadableYamlNode;
use saphyr::Yaml;
use saphyr::YamlEmitter;
use crate::error::Error;
use crate::text::starts_with;
use crate::mapping::{
    build_mapping, insert_entry, lemma_build_distinct, lemma_build_full,
    lemma_build_mapping_len, lemma_build_mapping_step,
};
use crate::node::{
    distinct_keys, emittable, entry_views, lemma_mapping_view, lemma_sequence_view,
    lemma_well_formed_mapping, lemma_well_formed_sequence, node_views, tag_option_view,
    well_formed, Node, NodeView, Scalar, ScalarStyle, Tag,
};

verus! {

/// The engine's node type. Verus sees nothing inside a value of it; what it
/// holds is named by [`yaml_model`].
#[verifier::external_type_specification]
#[verifier::external_body]
pub struct ExYaml<'a>(saphyr::Yaml<'a>);

/// The tree that an engine node holds: variant for variant and field for
/// field the same tree, a double taken as its bit pattern and the entries of
/// a mapping in their order of iteration.
pub uninterp spec fn yaml_model(y: Yaml) -> NodeView;

/// What the engine's loader makes of a text: the documents in order, or the
/// message of the scan error.
pub uninterp spec fn parsed(text: Seq<char>) -> Result<Seq<NodeView>, Seq<char>>;

/// What the engine's emitter writes for a node, the document-start marker
/// included, with or without block style for strings of several lines; or the
/// message of its error.
pub uninterp spec fn emitted(node: NodeView, multiline: bool) -> Result<Seq<char>, Seq<char>>;

/// The document-start marker and its line end, with which every emitted
/// document begins.
pub open spec fn document_start() -> Seq<char> {
    "---\n"@
}

/// The decimal text that `Display` gives for the double with these bits.
pub uninterp spec fn float_text(bits: u64) -> Seq<char>;

/// The models of a vector of engine nodes.
pub open spec fn yaml_models(items: Seq<Yaml>) -> Seq<NodeView> {
    Seq::new(items.len(), |i: int| yaml_model(items[i]))
}

/// The models of a vector of borrowed engine nodes.
pub open spec fn yaml_ref_models(items: Seq<&Yaml>) -> Seq<NodeView> {
    Seq::new(items.len(), |i: int| yaml_model(*items[i]))
}

/// The models of a vector of pairs of borrowed engine nodes.
pub open spec fn yaml_ref_entry_models(entries: Seq<(&Yaml, &Yaml)>) -> Seq<
    (NodeView, NodeView),
> {
    Seq::new(entries.len(), |i: int| (yaml_model(*entries[i].0), yaml_model(*entries[i].1)))
}

/// `Yaml::load_from_str`: the documents of a text, or the scan error as its
/// message. The result is a function of the text alone.
#[verifier::external_body]
fn load_documents<'a>(text: &'a str) -> (r: Result<Vec<Yaml<'a>>, String>)
    ensures
        match r {
            Ok(docs) => parsed(text@) == Ok::<Seq<NodeView>, Seq<char>>(yaml_models(docs@)),
            Err(message) => parsed(text@) == Err::<Seq<NodeView>, Seq<char>>(message@),
        },
{
    Yaml::load_from_str(text).map_err(|e| e.to_string())
}

/// `YamlEmitter::dump` into a fresh string, after `multiline_strings`: the
/// text written, or the emitter's error as its message. The emitter has no
/// form for a raw representation in literal or folded style and stops the
/// program on one, so such nodes are kept out. The result is a function of
/// the node and the flag alone, and the first thing that `dump` writes is the
/// document-start marker and a line end.
#[verifier::external_body]
fn dump_document(y: &Yaml, multiline: bool) -> (r: Result<String, String>)
    requires
        emittable(yaml_model(*y)),
    ensures
        match r {
            Ok(text) => emitted(yaml_model(*y), multiline) == Ok::<Seq<char>, Seq<char>>(text@),
            Err(message) => emitted(yaml_model(*y), multiline) == Err::<Seq<char>, Seq<char>>(
                message@,
            ),
        },
        r matches Ok(text) ==> starts_with(text@, document_start()),
{
    let mut out = String::new();
    let mut emitter = YamlEmitter::new(&mut out);
    emitter.multiline_strings(multiline);
    emitter.dump(y).map_err(|e| e.to_string())?;
    Ok(out)
}

/// `to_string` of the double with these bits, which is its `Display`: the
/// double is made with `FromBytes::from_ne_bytes`, held in the engine's
/// floating-point scalar and read back with `Scalar::as_floating_point`. The
/// result is a function of the bits alone.
#[verifier::external_body]
pub(crate) fn float_display(bits: u64) -> (r: String)
    ensures
        r@ == float_text(bits),
{
    let number = saphyr::Scalar::FloatingPoint(
        OrderedFloat(FromBytes::from_ne_bytes(&bits.to_ne_bytes())),
    );
    number.as_floating_point().map(|x| x.to_string()).unwrap_or_default()
}

/// `Yaml::Value` of the engine's scalar with the same content; a double is
/// made from its bits with `FromBytes::from_ne_bytes`.
#[verifier::external_body]
fn yaml_scalar(s: &Scalar) -> (y: Yaml<'static>)
    ensures
        yaml_model(y) == NodeView::Value(s@),
{
    Yaml::Value(
        match s {
            Scalar::Null => saphyr::Scalar::Null,
            Scalar::Boolean(b) => saphyr::Scalar::Boolean(*b),
            Scalar::Integer(i) => saphyr::Scalar::Integer(*i),
            Scalar::Float(bits) => saphyr::Scalar::FloatingPoint(
                OrderedFloat(FromBytes::from_ne_bytes(&bits.to_ne_bytes())),
            ),
            Scalar::Text(t) => saphyr::Scalar::String(Cow::Owned(t.clone())),
        },
    )
}

/// `Yaml::Sequence` of the items.
#[verifier::external_body]
fn yaml_sequence(items: Vec<Yaml<'static>>) -> (y: Yaml<'static>)
    ensures
        yaml_model(y) == NodeView::Sequence(yaml_models(items@)),
{
    Yaml::Sequence(items)
}

/// `Yaml::Mapping` of `Mapping::with_capacity`: a mapping without entries.
#[verifier::external_body]
pub(crate) fn yaml_mapping_new(capacity: usize) -> (y: Yaml<'static>)
    ensures
        yaml_model(y) == NodeView::Mapping(Seq::empty()),
{
    Yaml::Mapping(saphyr::Mapping::with_capacity(capacity))
}

/// `LinkedHashMap::insert` on the map of a `Yaml::Mapping`. A key that the
/// map does not hold goes to the back with its value; for a key that the map
/// holds, the entry keeps its key, takes the new value and moves to the back.
/// The map holds a key where it holds one that is equal to it by the `==`
/// that `Yaml` derives, with doubles compared as `OrderedFloat` compares
/// them and the entries of a mapping in their order; `same_node` says the
/// same of the trees that two engine nodes hold.
#[verifier::external_body]
pub(crate) fn yaml_mapping_insert(
    map: &mut Yaml<'static>,
    key: Yaml<'static>,
    value: Yaml<'static>,
)
    requires
        yaml_model(*old(map)) is Mapping,
    ensures
        yaml_model(*final(map)) == NodeView::Mapping(
            insert_entry(yaml_model(*old(map))->Mapping_0, yaml_model(key), yaml_model(value)),
        ),
{
    if let Yaml::Mapping(entries) = map {
        entries.insert(key, value);
    }
}

/// `Yaml::Tagged` of the engine's tag with the same handle and suffix.
#[verifier::external_body]
fn yaml_tagged(tag: &Tag, inner: Yaml<'static>) -> (y: Yaml<'static>)
    ensures
        yaml_model(y) == NodeView::Tagged(tag@, Box::new(yaml_model(inner))),
{
    let tag = saphyr::Tag { handle: tag.handle.clone(), suffix: tag.suffix.clone() };
    Yaml::Tagged(Cow::Owned(tag), Box::new(inner))
}

/// `Yaml::Representation` with the same text, style and tag.
#[verifier::external_body]
fn yaml_representation(raw: &String, style: ScalarStyle, tag: &Option<Tag>) -> (y: Yaml<'static>)
    ensures
        yaml_model(y) == NodeView::Representation(raw@, style, tag_option_view(*tag)),
{
    let style = match style {
        ScalarStyle::Plain => saphyr::ScalarStyle::Plain,
        ScalarStyle::SingleQuoted => saphyr::ScalarStyle::SingleQuoted,
        ScalarStyle::DoubleQuoted => saphyr::ScalarStyle::DoubleQuoted,
        ScalarStyle::Literal => saphyr::ScalarStyle::Literal,
        ScalarStyle::Folded => saphyr::ScalarStyle::Folded,
    };
    let tag = tag.as_ref().map(
        |t| Cow::Owned(saphyr::Tag { handle: t.handle.clone(), suffix: t.suffix.clone() }),
    );
    Yaml::Representation(Cow::Owned(raw.clone()), style, tag)
}

/// `Yaml::Alias`.
#[verifier::external_body]
fn yaml_alias(anchor: usize) -> (y: Yaml<'static>)
    ensures
        yaml_model(y) == NodeView::Alias(anchor),
{
    Yaml::Alias(anchor)
}

/// `Yaml::BadValue`.
#[verifier::external_body]
fn yaml_bad_value() -> (y: Yaml<'static>)
    ensures
        yaml_model(y) == NodeView::BadValue,
{
    Yaml::BadValue
}

/// The scalar of a `Yaml::Value`, a double as its bits.
#[verifier::external_body]
fn scalar_of(y: &Yaml) -> (r: Option<Scalar>)
    ensures
        match r {
            Some(s) => yaml_model(*y) == NodeView::Value(s@),
            None => !(yaml_model(*y) is Value),
        },
{
    match y {
        Yaml::Value(saphyr::Scalar::Null) => Some(Scalar::Null),
        Yaml::Value(saphyr::Scalar::Boolean(b)) => Some(Scalar::Boolean(*b)),
        Yaml::Value(saphyr::Scalar::Integer(i)) => Some(Scalar::Integer(*i)),
        Yaml::Value(saphyr::Scalar::FloatingPoint(x)) => Some(Scalar::Float(x.to_bits())),
        Yaml::Value(saphyr::Scalar::String(t)) => Some(Scalar::Text(t.to_string())),
        _ => None,
    }
}

/// The items of a `Yaml::Sequence`.
#[verifier::external_body]
fn sequence_of<'a, 'b>(y: &'b Yaml<'a>) -> (r: Option<Vec<&'b Yaml<'a>>>)
    ensures
        match r {
            Some(items) => yaml_model(*y) == NodeView::Sequence(yaml_ref_models(items@)),
            None => !(yaml_model(*y) is Sequence),
        },
{
    match y {
        Yaml::Sequence(items) => Some(items.iter().collect()),
        _ => None,
    }
}

/// The entries of a `Yaml::Mapping`, in the order of iteration.
#[verifier::external_body]
fn mapping_of<'a, 'b>(y: &'b Yaml<'a>) -> (r: Option<Vec<(&'b Yaml<'a>, &'b Yaml<'a>)>>)
    ensures
        match r {
            Some(entries) => yaml_model(*y) == NodeView::Mapping(yaml_ref_entry_models(entries@)),
            None => !(yaml_model(*y) is Mapping),
        },
{
    match y {
        Yaml::Mapping(entries) => Some(entries.iter().collect()),
        _ => None,
    }
}

/// The tag and the inner node of a `Yaml::Tagged`.
#[verifier::external_body]
fn tagged_of<'a, 'b>(y: &'b Yaml<'a>) -> (r: Option<(Tag, &'b Yaml<'a>)>)
    ensures
        match r {
            Some((tag, inner)) => yaml_model(*y) == NodeView::Tagged(
                tag@,
                Box::new(yaml_model(*inner)),
            ),
            None => !(yaml_model(*y) is Tagged),
        },
{
    match y {
        Yaml::Tagged(tag, inner) => Some(
            (Tag { handle: tag.handle.clone(), suffix: tag.suffix.clone() }, inner.as_ref()),
        ),
        _ => None,
    }
}

/// The text, the style and the tag of a `Yaml::Representation`.
#[verifier::external_body]
fn representation_of(y: &Yaml) -> (r: Option<(String, ScalarStyle, Option<Tag>)>)
    ensures
        match r {
            Some((raw, style, tag)) => yaml_model(*y) == NodeView::Representation(
                raw@,
                style,
                tag_option_view(tag),
            ),
            None => !(yaml_model(*y) is Representation),
        },
{
    let Yaml::Representation(raw, style, tag) = y else { return None };
    let style = match style {
        saphyr::ScalarStyle::Plain => ScalarStyle::Plain,
        saphyr::ScalarStyle::SingleQuoted => ScalarStyle::SingleQuoted,
        saphyr::ScalarStyle::DoubleQuoted => ScalarStyle::DoubleQuoted,
        saphyr::ScalarStyle::Literal => ScalarStyle::Literal,
        saphyr::ScalarStyle::Folded => ScalarStyle::Folded,
    };
    let tag = tag.as_ref().map(|t| Tag { handle: t.handle.clone(), suffix: t.suffix.clone() });
    Some((raw.to_string(), style, tag))
}

/// The anchor of a `Yaml::Alias`.
#[verifier::external_body]
fn alias_of(y: &Yaml) -> (r: Option<usize>)
    ensures
        match r {
            Some(anchor) => yaml_model(*y) == NodeView::Alias(anchor),
            None => !(yaml_model(*y) is Alias),
        },
{
    match y {
        Yaml::Alias(anchor) => Some(*anchor),
        _ => None,
    }
}

/// The engine node that holds the same tree as `node`, and whether every
/// mapping in the tree has distinct keys: the engine's map keeps one entry
/// for each key, so that the engine node holds the same tree only then.
pub(crate) fn to_yaml(node: &Node) -> (r: (Yaml<'static>, bool))
    ensures
        r.1 == well_formed(node@),
        r.1 ==> yaml_model(r.0) == node@,
    decreases node,
{
    match node {
        Node::Value(s) => (yaml_scalar(s), true),
        Node::Sequence(items) => {
            proof {
                lemma_sequence_view(*items);
                lemma_well_formed_sequence(node_views(items@));
            }
            let mut out: Vec<Yaml<'static>> = Vec::new();
            let mut distinct: bool = true;
            let mut i: usize = 0;
            while i < items.len()
                invariant
                    i <= items.len(),
                    out.len() == i,
                    node is Sequence && node->Sequence_0 == *items,
                    distinct == (forall|j: int|
                        0 <= j < i ==> well_formed(#[trigger] node_views(items@)[j])),
                    distinct ==> forall|j: int|
                        0 <= j < i ==> yaml_model(#[trigger] out@[j]) == items@[j]@,
                decreases items.len() - i,
            {
                assert(decreases_to!(node->Sequence_0 => items[i as int]));
                assert(node_views(items@)[i as int] == items@[i as int]@);
                let (child, fine) = to_yaml(&items[i]);
                out.push(child);
                distinct = distinct && fine;
                i = i + 1;
            }
            proof {
                if distinct {
                    assert(yaml_models(out@) =~= node_views(items@));
                }
            }
            (yaml_sequence(out), distinct)
        },
        Node::Mapping(entries) => {
            proof {
                lemma_mapping_view(*entries);
                lemma_well_formed_mapping(entry_views(entries@));
            }
            let ghost pairs = entry_views(entries@);
            let mut map = yaml_mapping_new(entries.len());
            let mut distinct: bool = true;
            let mut i: usize = 0;
            assert(pairs.take(0) =~= Seq::empty());
            while i < entries.len()
                invariant
                    i <= entries.len(),
                    pairs == entry_views(entries@),
                    node is Mapping && node->Mapping_0 == *entries,
                    yaml_model(map) is Mapping,
                    distinct == (forall|j: int|
                        0 <= j < i ==> well_formed((#[trigger] pairs[j]).0) && well_formed(
                            pairs[j].1,
                        )),
                    distinct ==> yaml_model(map)->Mapping_0 == build_mapping(pairs.take(i as int)),
                decreases entries.len() - i,
            {
                assert(decreases_to!(node->Mapping_0 => entries[i as int]));
                assert(pairs[i as int] == (entries@[i as int].0@, entries@[i as int].1@));
                let (key, key_fine) = to_yaml(&entries[i].0);
                let (value, value_fine) = to_yaml(&entries[i].1);
                proof {
                    lemma_build_mapping_step(pairs, i as int);
                }
                yaml_mapping_insert(&mut map, key, value);
                distinct = distinct && key_fine && value_fine;
                i = i + 1;
            }
            assert(pairs.take(entries.len() as int) =~= pairs);
            let kept: usize = match mapping_of(&map) {
                Some(held) => held.len(),
                None => 0,
            };
            proof {
                if distinct {
                    lemma_build_mapping_len(pairs);
                    if kept == entries.len() {
                        lemma_build_full(pairs);
                        lemma_build_distinct(pairs);
                    } else if distinct_keys(pairs) {
                        lemma_build_distinct(pairs);
                    }
                }
            }
            (map, distinct && kept == entries.len())
        },
        Node::Tagged(tag, inner) => {
            let (child, fine) = to_yaml(inner);
            (yaml_tagged(tag, child), fine)
        },
        Node::Representation(raw, style, tag) => (yaml_representation(raw, *style, tag), true),
        Node::Alias(anchor) => (yaml_alias(*anchor), true),
        Node::BadValue => (yaml_bad_value(), true),
    }
}

/// The node that holds the same tree as the engine node `y`.
pub(crate) fn from_yaml(y: &Yaml) -> (node: Node)
    ensures
        node@ == yaml_model(*y),
    decreases yaml_model(*y),
{
    if let Some(s) = scalar_of(y) {
        return Node::Value(s);
    }
    if let Some(items) = sequence_of(y) {
        let mut out: Vec<Node> = Vec::new();
        let mut i: usize = 0;
        while i < items.len()
            invariant
                i <= items.len(),
                out.len() == i,
                yaml_model(*y) == NodeView::Sequence(yaml_ref_models(items@)),
                forall|j: int| 0 <= j < i ==> (#[trigger] out@[j])@ == yaml_model(*items@[j]),
            decreases items.len() - i,
        {
            proof {
                let children = yaml_model(*y)->Sequence_0;
                assert(children[i as int] == yaml_model(*items@[i as int]));
                assert(decreases_to!(yaml_model(*y) => children));
                assert(decreases_to!(children => children[i as int]));
            }
            let child = from_yaml(items[i]);
            out.push(child);
            i = i + 1;
        }
        proof {
            lemma_sequence_view(out);
            assert(node_views(out@) =~= yaml_ref_models(items@));
        }
        return Node::Sequence(out);
    }
    if let Some(entries) = mapping_of(y) {
        let mut out: Vec<(Node, Node)> = Vec::new();
        let mut i: usize = 0;
        while i < entries.len()
            invariant
                i <= entries.len(),
                out.len() == i,
                yaml_model(*y) == NodeView::Mapping(yaml_ref_entry_models(entries@)),
                forall|j: int|
                    0 <= j < i ==> (#[trigger] out@[j]).0@ == yaml_model(*entries@[j].0)
                        && out@[j].1@ == yaml_model(*entries@[j].1),
            decreases entries.len() - i,
        {
            proof {
                let children = yaml_model(*y)->Mapping_0;
                assert(children[i as int] == (
                    yaml_model(*entries@[i as int].0),
                    yaml_model(*entries@[i as int].1),
                ));
                assert(decreases_to!(yaml_model(*y) => children));
                assert(decreases_to!(children => children[i as int]));
                assert(decreases_to!(children[i as int] => children[i as int].0));
                assert(decreases_to!(children[i as int] => children[i as int].1));
            }
            let key = from_yaml(entries[i].0);
            let value = from_yaml(entries[i].1);
            out.push((key, value));
            i = i + 1;
        }
        proof {
            lemma_mapping_view(out);
            assert(entry_views(out@) =~= yaml_ref_entry_models(entries@));
        }
        return Node::Mapping(out);
    }
    if let Some((tag, inner)) = tagged_of(y) {
        proof {
            let whole = yaml_model(*y);
            assert(*whole->Tagged_1 == yaml_model(*inner));
            assert(decreases_to!(whole => *whole->Tagged_1));
        }
        let child = from_yaml(inner);
        return Node::Tagged(tag, Box::new(child));
    }
    if let Some((raw, style, tag)) = representation_of(y) {
        return Node::Representation(raw, style, tag);
    }
    if let Some(anchor) = alias_of(y) {
        return Node::Alias(anchor);
    }
    Node::BadValue
}

/// What reading a text gives: the documents, or the parse error.
pub open spec fn parse_result(text: Seq<char>) -> Result<Seq<NodeView>, crate::error::ErrorView> {
    match parsed(text) {
        Ok(docs) => Ok(docs),
        Err(message) => Err(crate::error::ErrorView::Parse(message)),
    }
}

/// Reads a text as YAML documents.
pub fn parse_documents(text: &str) -> (r: Result<Vec<Node>, Error>)
    ensures
        match r {
            Ok(docs) => parse_result(text@) == Ok::<Seq<NodeView>, crate::error::ErrorView>(
                node_views(docs@),
            ),
            Err(e) => parse_result(text@) == Err::<Seq<NodeView>, crate::error::ErrorView>(e@),
        },
{
    match load_documents(text) {
        Ok(docs) => {
            let mut out: Vec<Node> = Vec::new();
            let mut i: usize = 0;
            while i < docs.len()
                invariant
                    i <= docs.len(),
                    out.len() == i,
                    forall|j: int| 0 <= j < i ==> (#[trigger] out@[j])@ == yaml_model(docs@[j]),
                decreases docs.len() - i,
            {
                let node = from_yaml(&docs[i]);
                out.push(node);
                i = i + 1;
            }
            assert(node_views(out@) =~= yaml_models(docs@));
            Ok(out)
        },
        Err(message) => Err(Error::Parse(message)),
    }
}

/// What writing a node gives: the text that the emitter writes for it, the
/// document-start marker included; an error for a node that has no text
/// form, or on which the emitter fails.
pub open spec fn emit_result(node: NodeView, multiline: bool) -> Result<
    Seq<char>,
    crate::error::ErrorView,
> {
    if !well_formed(node) || !emittable(node) {
        Err(crate::error::ErrorView::NodeForm)
    } else {
        match emitted(node, multiline) {
            Ok(text) => Ok(text),
            Err(message) => Err(crate::error::ErrorView::Emit(message)),
        }
    }
}

/// Writes one node as a YAML document, with block style for strings of
/// several lines where `multiline` is set.
pub fn emit_document(node: &Node, multiline: bool) -> (r: Result<String, Error>)
    ensures
        match r {
            Ok(text) => emit_result(node@, multiline) == Ok::<Seq<char>, crate::error::ErrorView>(
                text@,
            ),
            Err(e) => emit_result(node@, multiline) == Err::<Seq<char>, crate::error::ErrorView>(
                e@,
            ),
        },
        r matches Ok(text) ==> starts_with(text@, document_start()),
{
    let (y, distinct) = to_yaml(node);
    if !distinct || !node.is_emittable() {
        return Err(Error::NodeForm);
    }
    match dump_document(&y, multiline) {
        Ok(text) => Ok(text),
        Err(message) => Err(Error::Emit(message)),
    }
}

/// Writes a node that is known to have a text form as a YAML document.
pub(crate) fn emit_writable(node: &Node, multiline: bool) -> (r: Result<String, Error>)
    requires
        well_formed(node@),
        emittable(node@),
    ensures
        match r {
            Ok(text) => emit_result(node@, multiline) == Ok::<Seq<char>, crate::error::ErrorView>(
                text@,
            ),
            Err(e) => emit_result(node@, multiline) == Err::<Seq<char>, crate::error::ErrorView>(
                e@,
            ),
        },
        r matches Ok(text) ==> starts_with(text@, document_start()),
{
    let (y, _) = to_yaml(node);
    match dump_document(&y, multiline) {
        Ok(text) => Ok(text),
        Err(message) => Err(Error::Emit(message)),
    }
}


} // verus!
