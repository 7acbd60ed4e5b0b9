//! The decoder: from a YAML node to a host value.

use vstd::prelude::*;
use crate::double::{double_of_integer, integer_to_double};
use crate::engine::{document_start, emit_document, emitted, float_display, float_text};
use crate::error::{Error, ErrorView};
use crate::node::{
    contains_alias, emittable, entry_views, lemma_mapping_view, lemma_sequence_view, node_views,
    well_formed, Node, NodeView, Scalar, ScalarView, Tag, TagView,
};
use crate::text::{integer_text, signed_decimal, starts_with};
use crate::value::{
    lemma_keys_view, lemma_list_view, text_option_view, text_options_view, value_views, Data,
    DataView, Value, ValueView,
};

verus! {

/// Whether a 64-bit integer is a native integer of the host.
pub open spec fn fits_native(i: i64) -> bool {
    -0x8000_0000 <= i <= 0x7fff_ffff
}

/// The value of a scalar: a vector of one element, or the null value. An
/// integer that is no native integer becomes the double nearest to it.
pub open spec fn scalar_value(s: ScalarView) -> ValueView {
    match s {
        ScalarView::Null => ValueView::null(),
        ScalarView::Boolean(b) => ValueView::plain(DataView::Logicals(seq![Some(b)])),
        ScalarView::Integer(i) => if fits_native(i) {
            ValueView::plain(DataView::Integers(seq![i as i32]))
        } else {
            ValueView::plain(DataView::Doubles(seq![double_of_integer(i as int)]))
        },
        ScalarView::Float(bits) => ValueView::plain(DataView::Doubles(seq![bits])),
        ScalarView::Text(t) => ValueView::plain(DataView::Strings(seq![Some(t)])),
    }
}

/// The value with `tag` as its tag attribute; an empty tag is not attached.
pub open spec fn attach_tag(v: ValueView, tag: Seq<char>) -> ValueView {
    if tag.len() == 0 {
        v
    } else {
        ValueView { tag: Some(tag), ..v }
    }
}

/// The value with the rendered tag, where there is one, as its tag
/// attribute.
pub open spec fn attach_tag_option(v: ValueView, tag: Option<TagView>) -> ValueView {
    match tag {
        Some(t) => attach_tag(v, t.rendered()),
        None => v,
    }
}

/// The text without the document-start marker and its line end, where it
/// begins with them.
pub open spec fn strip_marker(text: Seq<char>) -> Seq<char> {
    if starts_with(text, document_start()) {
        text.skip(4)
    } else {
        text
    }
}

/// The name that a mapping key gives its element. A scalar key is its own
/// text: `null`, `true` or `false`, the decimal numeral of an integer, the
/// text of a double. Any other key is the text that the emitter writes for
/// it, without the document-start marker; a key that holds an alias, that has
/// no text form, or on which the emitter fails, is a failure.
pub open spec fn key_text(key: NodeView) -> Result<Seq<char>, ErrorView> {
    match key {
        NodeView::Value(ScalarView::Text(t)) => Ok(t),
        NodeView::Value(ScalarView::Integer(i)) => Ok(signed_decimal(i as int)),
        NodeView::Value(ScalarView::Float(bits)) => Ok(float_text(bits)),
        NodeView::Value(ScalarView::Boolean(b)) => Ok(
            if b {
                "true"@
            } else {
                "false"@
            },
        ),
        NodeView::Value(ScalarView::Null) => Ok("null"@),
        _ => emitted_key(key),
    }
}

/// The list that a mapping decodes to: the elements under their names.
pub open spec fn named_list(names: Seq<Seq<char>>, items: Seq<ValueView>) -> ValueView {
    ValueView {
        data: DataView::List(items),
        names: Some(Seq::new(names.len(), |i: int| Some(names[i]))),
        keys: None,
        tag: None,
        classes: Seq::empty(),
    }
}

/// The value that a node decodes to, or the first failure in document
/// order. A scalar is a vector of one element; a sequence is a list of the
/// decoded items; a mapping is a list of the decoded values under the names
/// that the keys give; a tagged node is its decoded inner node with the tag
/// as attribute; a raw representation is its text; an alias and a malformed
/// scalar are failures.
pub open spec fn decode(n: NodeView) -> Result<ValueView, ErrorView>
    decreases n, 0nat,
{
    match n {
        NodeView::Value(s) => Ok(scalar_value(s)),
        NodeView::Sequence(items) => match decode_items(items, items.len()) {
            Ok(values) => Ok(ValueView::plain(DataView::List(values))),
            Err(e) => Err(e),
        },
        NodeView::Mapping(entries) => match decode_entries(entries, entries.len()) {
            Ok((names, values)) => Ok(named_list(names, values)),
            Err(e) => Err(e),
        },
        NodeView::Tagged(tag, inner) => match decode(*inner) {
            Ok(v) => Ok(attach_tag(v, tag.rendered())),
            Err(e) => Err(e),
        },
        NodeView::Representation(raw, _, tag) => Ok(
            attach_tag_option(ValueView::plain(DataView::Strings(seq![Some(raw)])), tag),
        ),
        NodeView::Alias(_) => Err(ErrorView::Alias),
        NodeView::BadValue => Err(ErrorView::BadScalar),
    }
}

/// The values of the first `n` items, or the first failure.
pub open spec fn decode_items(items: Seq<NodeView>, n: nat) -> Result<Seq<ValueView>, ErrorView>
    decreases items, n,
{
    if n == 0 || n > items.len() {
        Ok(Seq::empty())
    } else {
        match decode_items(items, (n - 1) as nat) {
            Err(e) => Err(e),
            Ok(values) => match decode(items[n - 1]) {
                Err(e) => Err(e),
                Ok(v) => Ok(values.push(v)),
            },
        }
    }
}

/// The names and the values of the first `n` entries, each name before its
/// value, or the first failure.
pub open spec fn decode_entries(entries: Seq<(NodeView, NodeView)>, n: nat) -> Result<
    (Seq<Seq<char>>, Seq<ValueView>),
    ErrorView,
>
    decreases entries, n,
{
    if n == 0 || n > entries.len() {
        Ok((Seq::empty(), Seq::empty()))
    } else {
        match decode_entries(entries, (n - 1) as nat) {
            Err(e) => Err(e),
            Ok((names, values)) => match key_text(entries[n - 1].0) {
                Err(e) => Err(e),
                Ok(name) => match decode(entries[n - 1].1) {
                    Err(e) => Err(e),
                    Ok(v) => Ok((names.push(name), values.push(v))),
                },
            },
        }
    }
}

/// Once the first items hold a failure, that failure is the outcome.
pub proof fn lemma_items_fail(items: Seq<NodeView>, n: nat, m: nat)
    requires
        n <= m <= items.len(),
        decode_items(items, n) is Err,
    ensures
        decode_items(items, m) == decode_items(items, n),
    decreases m - n,
{
    if n < m {
        lemma_items_fail(items, n, (m - 1) as nat);
    }
}

/// Once the first entries hold a failure, that failure is the outcome.
pub proof fn lemma_entries_fail(entries: Seq<(NodeView, NodeView)>, n: nat, m: nat)
    requires
        n <= m <= entries.len(),
        decode_entries(entries, n) is Err,
    ensures
        decode_entries(entries, m) == decode_entries(entries, n),
    decreases m - n,
{
    if n < m {
        lemma_entries_fail(entries, n, (m - 1) as nat);
    }
}

/// Decodes a scalar.
pub fn scalar_to_value(s: &Scalar) -> (v: Value)
    ensures
        v@ == scalar_value(s@),
{
    match s {
        Scalar::Null => Value::plain(Data::Null),
        Scalar::Boolean(b) => {
            let items = vec![Some(*b)];
            assert(items@ =~= seq![Some(*b)]);
            Value::plain(Data::Logicals(items))
        },
        Scalar::Integer(i) => {
            if -0x8000_0000 <= *i && *i <= 0x7fff_ffff {
                let items = vec![*i as i32];
                assert(items@ =~= seq![*i as i32]);
                Value::plain(Data::Integers(items))
            } else {
                let items = vec![integer_to_double(*i)];
                assert(items@ =~= seq![double_of_integer(*i as int)]);
                Value::plain(Data::Doubles(items))
            }
        },
        Scalar::Float(bits) => {
            let items = vec![*bits];
            assert(items@ =~= seq![*bits]);
            Value::plain(Data::Doubles(items))
        },
        Scalar::Text(t) => text_value(t.clone()),
    }
}

/// The text vector of the one text `t`.
fn text_value(t: String) -> (v: Value)
    ensures
        v@ == ValueView::plain(DataView::Strings(seq![Some(t@)])),
{
    let items = vec![Some(t)];
    assert(text_options_view(items@) =~= seq![Some(t@)]);
    Value::plain(Data::Strings(items))
}

/// Sets the tag attribute of a value; an empty tag is not attached.
pub fn set_yaml_tag_attr(value: Value, tag: String) -> (v: Value)
    ensures
        v@ == attach_tag(value@, tag@),
{
    if tag.as_str().unicode_len() == 0 {
        return value;
    }
    proof {
        lemma_keys_view(value);
    }
    let mut v = value;
    v.tag = Some(tag);
    proof {
        lemma_keys_view(v);
    }
    v
}

/// Removes the document-start marker and its line end from the start of a
/// text.
pub fn strip_document_marker(text: &str) -> (r: &str)
    ensures
        r@ == strip_marker(text@),
{
    proof {
        reveal_strlit("---\n");
    }
    let n = text.unicode_len();
    if n >= 4 && text.get_char(0) == '-' && text.get_char(1) == '-' && text.get_char(2) == '-'
        && text.get_char(3) == '\n' {
        assert(text@.take(4) =~= "---\n"@);
        let rest = text.substring_char(4, n);
        assert(rest@ =~= text@.skip(4));
        rest
    } else {
        proof {
            if starts_with(text@, "---\n"@) {
                assert(text@.take(4)[0] == '-');
                assert(text@.take(4)[1] == '-');
                assert(text@.take(4)[2] == '-');
                assert(text@.take(4)[3] == '\n');
            }
        }
        text
    }
}

/// The text that stands for a key that is no scalar: what the emitter
/// writes for it, without the document-start marker. An alias anywhere in the
/// key is a failure, as it is in any other place of a document.
pub open spec fn emitted_key(key: NodeView) -> Result<Seq<char>, ErrorView> {
    if contains_alias(key) {
        Err(ErrorView::Alias)
    } else if !well_formed(key) || !emittable(key) {
        Err(ErrorView::KeyForm)
    } else {
        match emitted(key, false) {
            Ok(text) => Ok(strip_marker(text)),
            Err(message) => Err(ErrorView::KeyText(message)),
        }
    }
}

/// Writes a key node as text, without the document-start marker.
pub fn emit_yaml_borrowed(key: &Node) -> (r: Result<String, Error>)
    ensures
        match r {
            Ok(text) => emitted_key(key@) == Ok::<Seq<char>, ErrorView>(text@),
            Err(e) => emitted_key(key@) == Err::<Seq<char>, ErrorView>(e@),
        },
{
    if key.has_alias() {
        return Err(Error::Alias);
    }
    match emit_document(key, false) {
        Ok(text) => Ok(String::from_str(strip_document_marker(text.as_str()))),
        Err(Error::Emit(message)) => Err(Error::KeyText(message)),
        Err(_) => Err(Error::KeyForm),
    }
}

/// The name that a mapping key gives its element.
pub fn render_key(key: &Node) -> (r: Result<String, Error>)
    ensures
        match r {
            Ok(text) => key_text(key@) == Ok::<Seq<char>, ErrorView>(text@),
            Err(e) => key_text(key@) == Err::<Seq<char>, ErrorView>(e@),
        },
{
    match key {
        Node::Value(Scalar::Text(t)) => Ok(t.clone()),
        Node::Value(Scalar::Integer(i)) => Ok(integer_text(*i)),
        Node::Value(Scalar::Float(bits)) => Ok(float_display(*bits)),
        Node::Value(Scalar::Boolean(b)) => Ok(
            if *b {
                String::from_str("true")
            } else {
                String::from_str("false")
            },
        ),
        Node::Value(Scalar::Null) => Ok(String::from_str("null")),
        _ => emit_yaml_borrowed(key),
    }
}

/// Decodes a node with the tag that stands over it.
pub fn convert_tagged(tag: &Tag, inner: &Node) -> (r: Result<Value, Error>)
    ensures
        match r {
            Ok(v) => decode(inner@) is Ok && v@ == attach_tag(
                decode(inner@)->Ok_0,
                tag@.rendered(),
            ),
            Err(e) => decode(inner@) == Err::<ValueView, ErrorView>(e@),
        },
    decreases inner, 1nat,
{
    match yaml_to_value(inner) {
        Ok(v) => Ok(set_yaml_tag_attr(v, tag.render())),
        Err(e) => Err(e),
    }
}

/// Decodes the items of a sequence into a list.
pub fn sequence_to_value(items: &Vec<Node>) -> (r: Result<Value, Error>)
    ensures
        match r {
            Ok(v) => decode(NodeView::Sequence(node_views(items@))) == Ok::<ValueView, ErrorView>(
                v@,
            ),
            Err(e) => decode(NodeView::Sequence(node_views(items@))) == Err::<
                ValueView,
                ErrorView,
            >(e@),
        },
    decreases items, 1nat,
{
    let ghost nodes = node_views(items@);
    let mut values: Vec<Value> = Vec::new();
    let mut i: usize = 0;
    assert(value_views(values@) =~= Seq::empty());
    while i < items.len()
        invariant
            i <= items.len(),
            values.len() == i,
            nodes == node_views(items@),
            decode_items(nodes, i as nat) == Ok::<Seq<ValueView>, ErrorView>(
                value_views(values@),
            ),
        decreases items.len() - i,
    {
        assert(nodes[i as int] == items@[i as int]@);
        let ghost before = value_views(values@);
        match yaml_to_value(&items[i]) {
            Ok(v) => {
                values.push(v);
            },
            Err(e) => {
                proof {
                    lemma_items_fail(nodes, (i + 1) as nat, items.len() as nat);
                }
                return Err(e);
            },
        }
        assert(value_views(values@) =~= before.push(decode(nodes[i as int])->Ok_0));
        i = i + 1;
    }
    proof {
        lemma_list_view(values);
    }
    Ok(Value::plain(Data::List(values)))
}

/// Decodes the entries of a mapping into a list with names.
pub fn mapping_to_value(entries: &Vec<(Node, Node)>) -> (r: Result<Value, Error>)
    ensures
        match r {
            Ok(v) => decode(NodeView::Mapping(entry_views(entries@))) == Ok::<
                ValueView,
                ErrorView,
            >(v@),
            Err(e) => decode(NodeView::Mapping(entry_views(entries@))) == Err::<
                ValueView,
                ErrorView,
            >(e@),
        },
    decreases entries, 1nat,
{
    let ghost pairs = entry_views(entries@);
    let ghost mut found: Seq<Seq<char>> = Seq::empty();
    let mut names: Vec<Option<String>> = Vec::new();
    let mut values: Vec<Value> = Vec::new();
    let mut i: usize = 0;
    assert(value_views(values@) =~= Seq::empty());
    while i < entries.len()
        invariant
            i <= entries.len(),
            values.len() == i,
            names.len() == i,
            found.len() == i,
            pairs == entry_views(entries@),
            forall|j: int| 0 <= j < i ==> text_option_view(#[trigger] names@[j]) == Some(found[j]),
            decode_entries(pairs, i as nat) == Ok::<(Seq<Seq<char>>, Seq<ValueView>), ErrorView>(
                (found, value_views(values@)),
            ),
        decreases entries.len() - i,
    {
        assert(pairs[i as int] == (entries@[i as int].0@, entries@[i as int].1@));
        let ghost before = value_views(values@);
        let name = match render_key(&entries[i].0) {
            Ok(name) => name,
            Err(e) => {
                proof {
                    lemma_entries_fail(pairs, (i + 1) as nat, entries.len() as nat);
                }
                return Err(e);
            },
        };
        match yaml_to_value(&entries[i].1) {
            Ok(v) => {
                proof {
                    found = found.push(name@);
                }
                names.push(Some(name));
                values.push(v);
            },
            Err(e) => {
                proof {
                    lemma_entries_fail(pairs, (i + 1) as nat, entries.len() as nat);
                }
                return Err(e);
            },
        }
        assert(value_views(values@) =~= before.push(decode(pairs[i as int].1)->Ok_0));
        i = i + 1;
    }
    let v = Value {
        data: Data::List(values),
        names: Some(names),
        keys: None,
        tag: None,
        classes: Vec::new(),
    };
    proof {
        lemma_list_view(values);
        lemma_keys_view(v);
        assert(v@.names->Some_0 =~= Seq::new(found.len(), |i: int| Some(found[i])));
        assert(v@.classes =~= Seq::empty());
    }
    Ok(v)
}

/// Decodes a node into a host value; the first failure in document order
/// ends the decoding.
pub fn yaml_to_value(node: &Node) -> (r: Result<Value, Error>)
    ensures
        match r {
            Ok(v) => decode(node@) == Ok::<ValueView, ErrorView>(v@),
            Err(e) => decode(node@) == Err::<ValueView, ErrorView>(e@),
        },
    decreases node, 0nat,
{
    match node {
        Node::Value(s) => Ok(scalar_to_value(s)),
        Node::Tagged(tag, inner) => convert_tagged(tag, inner),
        Node::Sequence(items) => {
            proof {
                lemma_sequence_view(*items);
            }
            sequence_to_value(items)
        },
        Node::Mapping(entries) => {
            proof {
                lemma_mapping_view(*entries);
            }
            mapping_to_value(entries)
        },
        Node::Representation(raw, _, tag) => {
            let v = text_value(raw.clone());
            match tag {
                Some(t) => Ok(set_yaml_tag_attr(v, t.render())),
                None => Ok(v),
            }
        },
        Node::Alias(_) => Err(Error::Alias),
        Node::BadValue => Err(Error::BadScalar),
    }
}

} // verus!
