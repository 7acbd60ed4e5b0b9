//! The encoder: from a host value to a YAML node.

use vstd::prelude::*;
use crate::calendar::{date_of_day, instant_text, render_date, render_instant};
use crate::double::{
    day_count, instant_of, instant_parts, is_finite, is_finite_bits, whole_days,
};
use crate::error::{Error, ErrorView};
use crate::laws::lemma_encoded_is_writable;
use crate::engine::{from_yaml, to_yaml, yaml_mapping_insert, yaml_mapping_new, yaml_model};
use crate::mapping::{build_mapping, lemma_build_mapping_step};
use crate::node::{
    emittable, is_nan, is_nan_bits, lemma_sequence_view, node_views, well_formed, Node,
    NodeView, Scalar, ScalarView,
};
use crate::tag::{apply_tag_if_present, custom_tag, tagged_timestamp, timestamp_node, with_tag};
use crate::value::{
    lemma_keys_view, lemma_list_view, text_option_view, text_options_view, texts_view,
    value_views, Data, DataView, Value, ValueView, MISSING_INTEGER,
};

verus! {

/// The null scalar.
pub open spec fn null_node() -> NodeView {
    NodeView::Value(ScalarView::Null)
}

/// The node of one element of a boolean vector.
pub open spec fn logical_node(x: Option<bool>) -> NodeView {
    match x {
        Some(b) => NodeView::Value(ScalarView::Boolean(b)),
        None => null_node(),
    }
}

/// The node of one element of an integer vector.
pub open spec fn integer_node(x: i32) -> NodeView {
    if x == MISSING_INTEGER {
        null_node()
    } else {
        NodeView::Value(ScalarView::Integer(x as i64))
    }
}

/// The node of one element of a vector of doubles.
pub open spec fn real_node(bits: u64) -> NodeView {
    if is_nan(bits) {
        null_node()
    } else {
        NodeView::Value(ScalarView::Float(bits))
    }
}

/// The node of one element of a text vector.
pub open spec fn text_node(x: Option<Seq<char>>) -> NodeView {
    match x {
        Some(t) => NodeView::Value(ScalarView::Text(t)),
        None => null_node(),
    }
}

/// The node of a vector, given the nodes of its elements: the one node of a
/// vector of length one, and otherwise the sequence of the nodes, which is
/// empty for an empty vector.
pub open spec fn vector_node(items: Seq<NodeView>) -> NodeView {
    if items.len() == 1 {
        items[0]
    } else {
        NodeView::Sequence(items)
    }
}

/// The nodes of the elements of a boolean vector.
pub open spec fn logical_nodes(v: Seq<Option<bool>>) -> Seq<NodeView> {
    Seq::new(v.len(), |i: int| logical_node(v[i]))
}

/// The nodes of the elements of an integer vector.
pub open spec fn integer_nodes(v: Seq<i32>) -> Seq<NodeView> {
    Seq::new(v.len(), |i: int| integer_node(v[i]))
}

/// The nodes of the elements of a vector of doubles.
pub open spec fn real_nodes(v: Seq<u64>) -> Seq<NodeView> {
    Seq::new(v.len(), |i: int| real_node(v[i]))
}

/// The nodes of the elements of a text vector.
pub open spec fn text_nodes(v: Seq<Option<Seq<char>>>) -> Seq<NodeView> {
    Seq::new(v.len(), |i: int| text_node(v[i]))
}

/// The results in order where each is a success, and otherwise the first
/// failure.
pub open spec fn gather<T>(results: Seq<Result<T, ErrorView>>) -> Result<Seq<T>, ErrorView>
    decreases results.len(),
{
    if results.len() == 0 {
        Ok(Seq::empty())
    } else {
        match gather(results.drop_last()) {
            Err(e) => Err(e),
            Ok(items) => match results.last() {
                Err(e) => Err(e),
                Ok(item) => Ok(items.push(item)),
            },
        }
    }
}

/// Gathering one result more.
pub proof fn lemma_gather_step<T>(results: Seq<Result<T, ErrorView>>, i: int)
    requires
        0 <= i < results.len(),
    ensures
        gather(results.take(i + 1)) == match gather(results.take(i)) {
            Err(e) => Err(e),
            Ok(items) => match results[i] {
                Err(e) => Err(e),
                Ok(item) => Ok(items.push(item)),
            },
        },
{
    assert(results.take(i + 1).drop_last() =~= results.take(i));
}

/// Once a prefix of the results holds a failure, that failure is the
/// outcome.
pub proof fn lemma_gather_fails<T>(results: Seq<Result<T, ErrorView>>, i: int)
    requires
        0 <= i <= results.len(),
        gather(results.take(i)) is Err,
    ensures
        gather(results) == Err::<Seq<T>, ErrorView>(gather(results.take(i))->Err_0),
    decreases results.len() - i,
{
    if i < results.len() {
        lemma_gather_step(results, i);
        lemma_gather_fails(results, i + 1);
    } else {
        assert(results.take(i) =~= results);
    }
}

/// The one node of a vector of one node, and otherwise their sequence.
pub fn scalar_or_sequence(nodes: Vec<Node>) -> (n: Node)
    ensures
        n@ == vector_node(node_views(nodes@)),
{
    let mut nodes = nodes;
    if nodes.len() == 1 {
        let ghost before = nodes@;
        let only = nodes.pop().unwrap();
        assert(only == before[0]);
        only
    } else {
        proof {
            lemma_sequence_view(nodes);
        }
        Node::Sequence(nodes)
    }
}

/// Encodes a boolean vector: a missing element is the null scalar.
pub fn logical_to_yaml(v: &Vec<Option<bool>>) -> (n: Node)
    ensures
        n@ == vector_node(logical_nodes(v@)),
{
    let mut nodes: Vec<Node> = Vec::new();
    let mut i: usize = 0;
    while i < v.len()
        invariant
            i <= v.len(),
            nodes.len() == i,
            forall|j: int| 0 <= j < i ==> (#[trigger] nodes@[j])@ == logical_node(v@[j]),
        decreases v.len() - i,
    {
        let node = match v[i] {
            Some(b) => Node::Value(Scalar::Boolean(b)),
            None => Node::Value(Scalar::Null),
        };
        nodes.push(node);
        i = i + 1;
    }
    assert(node_views(nodes@) =~= logical_nodes(v@));
    scalar_or_sequence(nodes)
}

/// Encodes an integer vector: the missing-integer sentinel is the null
/// scalar.
pub fn integer_to_yaml(v: &Vec<i32>) -> (n: Node)
    ensures
        n@ == vector_node(integer_nodes(v@)),
{
    let mut nodes: Vec<Node> = Vec::new();
    let mut i: usize = 0;
    while i < v.len()
        invariant
            i <= v.len(),
            nodes.len() == i,
            forall|j: int| 0 <= j < i ==> (#[trigger] nodes@[j])@ == integer_node(v@[j]),
        decreases v.len() - i,
    {
        let node = if v[i] == MISSING_INTEGER {
            Node::Value(Scalar::Null)
        } else {
            Node::Value(Scalar::Integer(v[i] as i64))
        };
        nodes.push(node);
        i = i + 1;
    }
    assert(node_views(nodes@) =~= integer_nodes(v@));
    scalar_or_sequence(nodes)
}

/// Encodes a vector of doubles: a NaN is the null scalar.
pub fn real_to_yaml(v: &Vec<u64>) -> (n: Node)
    ensures
        n@ == vector_node(real_nodes(v@)),
{
    let mut nodes: Vec<Node> = Vec::new();
    let mut i: usize = 0;
    while i < v.len()
        invariant
            i <= v.len(),
            nodes.len() == i,
            forall|j: int| 0 <= j < i ==> (#[trigger] nodes@[j])@ == real_node(v@[j]),
        decreases v.len() - i,
    {
        let node = if is_nan_bits(v[i]) {
            Node::Value(Scalar::Null)
        } else {
            Node::Value(Scalar::Float(v[i]))
        };
        nodes.push(node);
        i = i + 1;
    }
    assert(node_views(nodes@) =~= real_nodes(v@));
    scalar_or_sequence(nodes)
}

/// Encodes a text vector: a missing element is the null scalar.
pub fn character_to_yaml(v: &Vec<Option<String>>) -> (n: Node)
    ensures
        n@ == vector_node(text_nodes(text_options_view(v@))),
{
    let mut nodes: Vec<Node> = Vec::new();
    let mut i: usize = 0;
    while i < v.len()
        invariant
            i <= v.len(),
            nodes.len() == i,
            forall|j: int|
                0 <= j < i ==> (#[trigger] nodes@[j])@ == text_node(text_option_view(v@[j])),
        decreases v.len() - i,
    {
        let node = match &v[i] {
            Some(t) => Node::Value(Scalar::Text(t.clone())),
            None => Node::Value(Scalar::Null),
        };
        nodes.push(node);
        i = i + 1;
    }
    assert(node_views(nodes@) =~= text_nodes(text_options_view(v@)));
    scalar_or_sequence(nodes)
}

/// The text of a date given as a double of days: none where the double is
/// no whole number of days.
pub open spec fn date_text(bits: u64) -> Option<Seq<char>> {
    match day_count(bits) {
        Some(days) => Some(date_of_day(days as int).text()),
        None => None,
    }
}

/// Renders a date given as a double of days since 1970-01-01. The double
/// must be a whole number within a billionth.
pub fn render_date_timestamp(bits: u64) -> (r: Option<String>)
    ensures
        match r {
            Some(text) => date_text(bits) == Some(text@),
            None => date_text(bits) is None,
        },
{
    match whole_days(bits) {
        Some(days) => Some(render_date(days)),
        None => None,
    }
}

/// The text of an instant given as a double of seconds: none where the
/// double is not finite or out of range.
pub open spec fn timestamp_text(bits: u64) -> Option<Seq<char>> {
    match instant_parts(bits) {
        Some((seconds, digits)) => Some(instant_text(seconds as int, digits)),
        None => None,
    }
}

/// Renders an instant given as a double of seconds since
/// 1970-01-01T00:00:00Z.
pub fn render_posix_timestamp(bits: u64) -> (r: Option<String>)
    ensures
        match r {
            Some(text) => timestamp_text(bits) == Some(text@),
            None => timestamp_text(bits) is None,
        },
{
    match instant_of(bits) {
        Some((seconds, digits)) => Some(render_instant(seconds, &digits)),
        None => None,
    }
}

/// The node of one element of a date vector of doubles: the null scalar
/// for a double that is no number, a NaN or an infinity, which never reaches
/// the calendar.
pub open spec fn date_node(bits: u64) -> Result<NodeView, ErrorView> {
    if !is_finite(bits) {
        Ok(null_node())
    } else {
        match date_text(bits) {
            Some(text) => Ok(timestamp_node(text)),
            None => Err(ErrorView::InvalidDate),
        }
    }
}

/// The node of one element of a date vector of integers.
pub open spec fn integer_date_node(x: i32) -> NodeView {
    if x == MISSING_INTEGER {
        null_node()
    } else {
        timestamp_node(date_of_day(x as int).text())
    }
}

/// The node of one element of a vector of instants of doubles: the null
/// scalar for a double that is no number, a NaN or an infinity, which never
/// reaches the calendar.
pub open spec fn instant_node(bits: u64) -> Result<NodeView, ErrorView> {
    if !is_finite(bits) {
        Ok(null_node())
    } else {
        match timestamp_text(bits) {
            Some(text) => Ok(timestamp_node(text)),
            None => Err(ErrorView::InvalidTimestamp),
        }
    }
}

/// The node of one element of a vector of instants of integers.
pub open spec fn integer_instant_node(x: i32) -> NodeView {
    if x == MISSING_INTEGER {
        null_node()
    } else {
        timestamp_node(instant_text(x as int, Seq::empty()))
    }
}

/// The nodes of the elements of a date vector of doubles.
pub open spec fn date_nodes(v: Seq<u64>) -> Seq<Result<NodeView, ErrorView>> {
    Seq::new(v.len(), |i: int| date_node(v[i]))
}

/// The nodes of the elements of a vector of instants of doubles.
pub open spec fn instant_nodes(v: Seq<u64>) -> Seq<Result<NodeView, ErrorView>> {
    Seq::new(v.len(), |i: int| instant_node(v[i]))
}

/// The node of a value, given the nodes of its elements or the first
/// failure among them.
pub open spec fn vector_result(items: Result<Seq<NodeView>, ErrorView>) -> Result<
    NodeView,
    ErrorView,
> {
    match items {
        Ok(nodes) => Ok(vector_node(nodes)),
        Err(e) => Err(e),
    }
}

/// Encodes a date vector of doubles: each date under the timestamp tag, a
/// NaN or an infinity as the null scalar; the first number that is no whole
/// number of days ends the encoding.
pub fn date_to_yaml(v: &Vec<u64>) -> (r: Result<Node, Error>)
    ensures
        match r {
            Ok(n) => vector_result(gather(date_nodes(v@))) == Ok::<NodeView, ErrorView>(n@),
            Err(e) => vector_result(gather(date_nodes(v@))) == Err::<NodeView, ErrorView>(e@),
        },
{
    let mut nodes: Vec<Node> = Vec::new();
    let mut i: usize = 0;
    assert(date_nodes(v@).take(0) =~= Seq::empty());
    assert(node_views(nodes@) =~= Seq::empty());
    while i < v.len()
        invariant
            i <= v.len(),
            gather(date_nodes(v@).take(i as int)) == Ok::<Seq<NodeView>, ErrorView>(
                node_views(nodes@),
            ),
        decreases v.len() - i,
    {
        proof {
            lemma_gather_step(date_nodes(v@), i as int);
        }
        let ghost before = node_views(nodes@);
        if !is_finite_bits(v[i]) {
            nodes.push(Node::Value(Scalar::Null));
        } else {
            match render_date_timestamp(v[i]) {
                Some(text) => {
                    nodes.push(tagged_timestamp(text));
                },
                None => {
                    proof {
                        lemma_gather_fails(date_nodes(v@), i + 1);
                    }
                    return Err(Error::InvalidDate);
                },
            }
        }
        assert(node_views(nodes@) =~= before.push(date_node(v@[i as int])->Ok_0));
        i = i + 1;
    }
    assert(date_nodes(v@).take(v.len() as int) =~= date_nodes(v@));
    Ok(scalar_or_sequence(nodes))
}

/// Encodes a vector of instants of doubles: each instant under the
/// timestamp tag, a NaN or an infinity as the null scalar; the first number
/// that is out of range ends the encoding.
pub fn posix_to_yaml(v: &Vec<u64>) -> (r: Result<Node, Error>)
    ensures
        match r {
            Ok(n) => vector_result(gather(instant_nodes(v@))) == Ok::<NodeView, ErrorView>(n@),
            Err(e) => vector_result(gather(instant_nodes(v@))) == Err::<NodeView, ErrorView>(e@),
        },
{
    let mut nodes: Vec<Node> = Vec::new();
    let mut i: usize = 0;
    assert(instant_nodes(v@).take(0) =~= Seq::empty());
    assert(node_views(nodes@) =~= Seq::empty());
    while i < v.len()
        invariant
            i <= v.len(),
            gather(instant_nodes(v@).take(i as int)) == Ok::<Seq<NodeView>, ErrorView>(
                node_views(nodes@),
            ),
        decreases v.len() - i,
    {
        proof {
            lemma_gather_step(instant_nodes(v@), i as int);
        }
        let ghost before = node_views(nodes@);
        if !is_finite_bits(v[i]) {
            nodes.push(Node::Value(Scalar::Null));
        } else {
            match render_posix_timestamp(v[i]) {
                Some(text) => {
                    nodes.push(tagged_timestamp(text));
                },
                None => {
                    proof {
                        lemma_gather_fails(instant_nodes(v@), i + 1);
                    }
                    return Err(Error::InvalidTimestamp);
                },
            }
        }
        assert(node_views(nodes@) =~= before.push(instant_node(v@[i as int])->Ok_0));
        i = i + 1;
    }
    assert(instant_nodes(v@).take(v.len() as int) =~= instant_nodes(v@));
    Ok(scalar_or_sequence(nodes))
}

/// The nodes of the elements of a date vector of integers.
pub open spec fn integer_date_nodes(v: Seq<i32>) -> Seq<NodeView> {
    Seq::new(v.len(), |i: int| integer_date_node(v[i]))
}

/// The nodes of the elements of a vector of instants of integers.
pub open spec fn integer_instant_nodes(v: Seq<i32>) -> Seq<NodeView> {
    Seq::new(v.len(), |i: int| integer_instant_node(v[i]))
}

/// Encodes a date vector of integers.
pub fn integer_date_to_yaml(v: &Vec<i32>) -> (n: Node)
    ensures
        n@ == vector_node(integer_date_nodes(v@)),
{
    let mut nodes: Vec<Node> = Vec::new();
    let mut i: usize = 0;
    while i < v.len()
        invariant
            i <= v.len(),
            nodes.len() == i,
            forall|j: int| 0 <= j < i ==> (#[trigger] nodes@[j])@ == integer_date_node(v@[j]),
        decreases v.len() - i,
    {
        let node = if v[i] == MISSING_INTEGER {
            Node::Value(Scalar::Null)
        } else {
            tagged_timestamp(render_date(v[i] as i64))
        };
        nodes.push(node);
        i = i + 1;
    }
    assert(node_views(nodes@) =~= integer_date_nodes(v@));
    scalar_or_sequence(nodes)
}

/// Encodes a vector of instants of integers.
pub fn integer_posix_to_yaml(v: &Vec<i32>) -> (n: Node)
    ensures
        n@ == vector_node(integer_instant_nodes(v@)),
{
    let mut nodes: Vec<Node> = Vec::new();
    let mut i: usize = 0;
    while i < v.len()
        invariant
            i <= v.len(),
            nodes.len() == i,
            forall|j: int| 0 <= j < i ==> (#[trigger] nodes@[j])@ == integer_instant_node(v@[j]),
        decreases v.len() - i,
    {
        let node = if v[i] == MISSING_INTEGER {
            Node::Value(Scalar::Null)
        } else {
            tagged_timestamp(render_instant(v[i] as i64, &Vec::new()))
        };
        nodes.push(node);
        i = i + 1;
    }
    assert(node_views(nodes@) =~= integer_instant_nodes(v@));
    scalar_or_sequence(nodes)
}

/// The kinds of value that are rendered by the calendar.
#[derive(Clone, Copy, Debug, PartialEq, Eq, Structural)]
pub enum Temporal {
    /// Seconds since 1970-01-01T00:00:00Z.
    Instant,
    /// Days since 1970-01-01.
    Date,
}

/// The temporal kind that the type markers of a value give it: an instant
/// under `POSIXt` or `POSIXct`, else a date under `Date`.
pub open spec fn temporal_kind(classes: Seq<Seq<char>>) -> Option<Temporal> {
    if classes.contains("POSIXt"@) || classes.contains("POSIXct"@) {
        Some(Temporal::Instant)
    } else if classes.contains("Date"@) {
        Some(Temporal::Date)
    } else {
        None
    }
}

/// Tests whether `class` is among the type markers.
pub fn has_class(classes: &Vec<String>, class: &str) -> (r: bool)
    ensures
        r == texts_view(classes@).contains(class@),
{
    let wanted = String::from_str(class);
    let mut i: usize = 0;
    while i < classes.len()
        invariant
            i <= classes.len(),
            wanted@ == class@,
            forall|j: int| 0 <= j < i ==> texts_view(classes@)[j] != class@,
        decreases classes.len() - i,
    {
        if classes[i] == wanted {
            assert(texts_view(classes@)[i as int] == class@);
            return true;
        }
        i = i + 1;
    }
    false
}

/// The temporal kind of a value with these type markers.
pub fn temporal_kind_of(classes: &Vec<String>) -> (r: Option<Temporal>)
    ensures
        r == temporal_kind(texts_view(classes@)),
{
    if has_class(classes, "POSIXt") || has_class(classes, "POSIXct") {
        Some(Temporal::Instant)
    } else if has_class(classes, "Date") {
        Some(Temporal::Date)
    } else {
        None
    }
}

/// The node of a mapping or a sequence, given its entries or items or the
/// first failure among them.
pub open spec fn mapping_result(pairs: Result<Seq<(NodeView, NodeView)>, ErrorView>) -> Result<
    NodeView,
    ErrorView,
> {
    match pairs {
        Ok(p) => Ok(NodeView::Mapping(build_mapping(p))),
        Err(e) => Err(e),
    }
}

/// The node of a sequence, given its items or the first failure among them.
pub open spec fn sequence_result(items: Result<Seq<NodeView>, ErrorView>) -> Result<
    NodeView,
    ErrorView,
> {
    match items {
        Ok(nodes) => Ok(NodeView::Sequence(nodes)),
        Err(e) => Err(e),
    }
}

/// The node that a value is encoded as, or the first failure. The value is
/// encoded as if it had no tag, and the node then stands under the custom tag
/// that its tag attribute asks for.
pub open spec fn encode(v: ValueView) -> Result<NodeView, ErrorView>
    decreases v, 3nat, 0nat,
{
    match encode_untagged(v) {
        Err(e) => Err(e),
        Ok(node) => match custom_tag(v.tag) {
            Err(e) => Err(e),
            Ok(tag) => Ok(with_tag(tag, node)),
        },
    }
}

/// The node of a value without regard to its tag attribute: by the calendar
/// for a temporal kind, and otherwise by the kind of its content.
pub open spec fn encode_untagged(v: ValueView) -> Result<NodeView, ErrorView>
    decreases v, 2nat, 0nat,
{
    match temporal_kind(v.classes) {
        Some(Temporal::Instant) => match v.data {
            DataView::Doubles(x) => vector_result(gather(instant_nodes(x))),
            DataView::Integers(x) => Ok(vector_node(integer_instant_nodes(x))),
            _ => Err(ErrorView::InvalidTimestamp),
        },
        Some(Temporal::Date) => match v.data {
            DataView::Doubles(x) => vector_result(gather(date_nodes(x))),
            DataView::Integers(x) => Ok(vector_node(integer_date_nodes(x))),
            _ => Err(ErrorView::InvalidDate),
        },
        None => match v.data {
            DataView::Null => Ok(null_node()),
            DataView::Logicals(x) => Ok(vector_node(logical_nodes(x))),
            DataView::Integers(x) => Ok(vector_node(integer_nodes(x))),
            DataView::Doubles(x) => Ok(vector_node(real_nodes(x))),
            DataView::Strings(x) => Ok(vector_node(text_nodes(x))),
            DataView::List(_) => encode_list(v),
            DataView::Unsupported(kind) => Err(ErrorView::UnsupportedKind(kind)),
        },
    }
}

/// The node of a list. With a keys side-channel of the list's length, the
/// mapping from each encoded key to its encoded element; with a side-channel
/// of another length, a failure. Else, with names, the mapping from each
/// name, or the null scalar for a missing name, to its encoded element.
/// Else the sequence of the encoded elements. A value that is no list is of
/// an unsupported kind without a name.
pub open spec fn encode_list(v: ValueView) -> Result<NodeView, ErrorView>
    decreases v, 1nat, 0nat,
{
    match v.data {
        DataView::List(items) => match v.keys {
            Some(keys) => if keys.len() != items.len() {
                Err(ErrorView::KeyCount)
            } else {
                mapping_result(encode_keyed(v, items.len()))
            },
            None => match v.names {
                Some(names) => mapping_result(
                    encode_named(
                        v,
                        if names.len() < items.len() {
                            names.len()
                        } else {
                            items.len()
                        },
                    ),
                ),
                None => sequence_result(encode_plain(v, items.len())),
            },
        },
        _ => Err(ErrorView::UnsupportedKind(Seq::empty())),
    }
}

/// The first `n` pairs of encoded key and encoded element of a list with a
/// keys side-channel, each key before its element, or the first failure.
pub open spec fn encode_keyed(v: ValueView, n: nat) -> Result<
    Seq<(NodeView, NodeView)>,
    ErrorView,
>
    decreases v, 0nat, n,
{
    match (v.data, v.keys) {
        (DataView::List(items), Some(keys)) => if n == 0 || n > items.len() || n > keys.len() {
            Ok(Seq::empty())
        } else {
            match encode_keyed(v, (n - 1) as nat) {
                Err(e) => Err(e),
                Ok(pairs) => match encode(keys[n - 1]) {
                    Err(e) => Err(e),
                    Ok(key) => match encode(items[n - 1]) {
                        Err(e) => Err(e),
                        Ok(item) => Ok(pairs.push((key, item))),
                    },
                },
            }
        },
        _ => Ok(Seq::empty()),
    }
}

/// The first `n` pairs of name and encoded element of a list with names, or
/// the first failure.
pub open spec fn encode_named(v: ValueView, n: nat) -> Result<
    Seq<(NodeView, NodeView)>,
    ErrorView,
>
    decreases v, 0nat, n,
{
    match (v.data, v.names) {
        (DataView::List(items), Some(names)) => if n == 0 || n > items.len() || n > names.len() {
            Ok(Seq::empty())
        } else {
            match encode_named(v, (n - 1) as nat) {
                Err(e) => Err(e),
                Ok(pairs) => match encode(items[n - 1]) {
                    Err(e) => Err(e),
                    Ok(item) => Ok(pairs.push((text_node(names[n - 1]), item))),
                },
            }
        },
        _ => Ok(Seq::empty()),
    }
}

/// The first `n` encoded elements of a list, or the first failure.
pub open spec fn encode_plain(v: ValueView, n: nat) -> Result<Seq<NodeView>, ErrorView>
    decreases v, 0nat, n,
{
    match v.data {
        DataView::List(items) => if n == 0 || n > items.len() {
            Ok(Seq::empty())
        } else {
            match encode_plain(v, (n - 1) as nat) {
                Err(e) => Err(e),
                Ok(nodes) => match encode(items[n - 1]) {
                    Err(e) => Err(e),
                    Ok(item) => Ok(nodes.push(item)),
                },
            }
        },
        _ => Ok(Seq::empty()),
    }
}

/// Whether a node is a scalar, or a scalar under a tag.
pub open spec fn is_leaf(n: NodeView) -> bool {
    n is Value || (n matches NodeView::Tagged(_, inner) && *inner is Value)
}

/// What was gathered holds, in order, what each result held.
pub proof fn lemma_gather_ok<T>(results: Seq<Result<T, ErrorView>>)
    requires
        gather(results) is Ok,
    ensures
        gather(results)->Ok_0.len() == results.len(),
        forall|i: int|
            0 <= i < results.len() ==> #[trigger] results[i] == Ok::<T, ErrorView>(
                gather(results)->Ok_0[i],
            ),
    decreases results.len(),
{
    if results.len() > 0 {
        lemma_gather_ok(results.drop_last());
        assert forall|i: int| 0 <= i < results.len() implies #[trigger] results[i] == Ok::<
            T,
            ErrorView,
        >(gather(results)->Ok_0[i]) by {
            if i < results.len() - 1 {
                assert(results.drop_last()[i] == results[i]);
            }
        }
    }
}

/// Once the first pairs hold a failure, that failure is the outcome.
pub proof fn lemma_keyed_fails(v: ValueView, n: nat, m: nat)
    requires
        v.data is List,
        v.keys is Some,
        n <= m <= v.data->List_0.len(),
        m <= v.keys->Some_0.len(),
        encode_keyed(v, n) is Err,
    ensures
        encode_keyed(v, m) == encode_keyed(v, n),
    decreases m - n,
{
    if n < m {
        lemma_keyed_fails(v, n, (m - 1) as nat);
    }
}

/// Once the first pairs hold a failure, that failure is the outcome.
pub proof fn lemma_named_fails(v: ValueView, n: nat, m: nat)
    requires
        v.data is List,
        v.names is Some,
        n <= m <= v.data->List_0.len(),
        m <= v.names->Some_0.len(),
        encode_named(v, n) is Err,
    ensures
        encode_named(v, m) == encode_named(v, n),
    decreases m - n,
{
    if n < m {
        lemma_named_fails(v, n, (m - 1) as nat);
    }
}

/// Once the first elements hold a failure, that failure is the outcome.
pub proof fn lemma_plain_fails(v: ValueView, n: nat, m: nat)
    requires
        v.data is List,
        n <= m <= v.data->List_0.len(),
        encode_plain(v, n) is Err,
    ensures
        encode_plain(v, m) == encode_plain(v, n),
    decreases m - n,
{
    if n < m {
        lemma_plain_fails(v, n, (m - 1) as nat);
    }
}

/// Encodes a value: as if it had no tag, and then under the custom tag that
/// its tag attribute asks for. The node can be written as text: every
/// mapping in it has distinct keys, and it holds no raw scalar.
pub fn value_to_yaml(v: &Value) -> (r: Result<Node, Error>)
    ensures
        match r {
            Ok(n) => encode(v@) == Ok::<NodeView, ErrorView>(n@),
            Err(e) => encode(v@) == Err::<NodeView, ErrorView>(e@),
        },
        r matches Ok(n) ==> well_formed(n@) && emittable(n@),
    decreases v, 2nat,
{
    proof {
        lemma_keys_view(*v);
    }
    let node = match untagged_to_yaml(v) {
        Ok(node) => node,
        Err(e) => {
            return Err(e);
        },
    };
    match apply_tag_if_present(&v.tag, node) {
        Ok(tagged) => {
            proof {
                lemma_encoded_is_writable(v@);
            }
            Ok(tagged)
        },
        Err(e) => Err(e),
    }
}

/// Encodes a value without regard to its tag attribute.
fn untagged_to_yaml(v: &Value) -> (r: Result<Node, Error>)
    ensures
        match r {
            Ok(n) => encode_untagged(v@) == Ok::<NodeView, ErrorView>(n@),
            Err(e) => encode_untagged(v@) == Err::<NodeView, ErrorView>(e@),
        },
    decreases v, 1nat,
{
    proof {
        lemma_keys_view(*v);
    }
    match temporal_kind_of(&v.classes) {
        Some(Temporal::Instant) => match &v.data {
            Data::Doubles(x) => posix_to_yaml(x),
            Data::Integers(x) => Ok(integer_posix_to_yaml(x)),
            _ => Err(Error::InvalidTimestamp),
        },
        Some(Temporal::Date) => match &v.data {
            Data::Doubles(x) => date_to_yaml(x),
            Data::Integers(x) => Ok(integer_date_to_yaml(x)),
            _ => Err(Error::InvalidDate),
        },
        None => match &v.data {
            Data::Null => Ok(Node::Value(Scalar::Null)),
            Data::Logicals(x) => Ok(logical_to_yaml(x)),
            Data::Integers(x) => Ok(integer_to_yaml(x)),
            Data::Doubles(x) => Ok(real_to_yaml(x)),
            Data::Strings(x) => Ok(character_to_yaml(x)),
            Data::List(_) => list_to_yaml(v),
            Data::Unsupported(kind) => Err(Error::UnsupportedKind(kind.clone())),
        },
    }
}

/// Encodes a list: as a mapping from its keys side-channel, as a mapping
/// from its names, or as a sequence. A mapping is built in the engine's map,
/// which keeps one entry for each key.
pub fn list_to_yaml(v: &Value) -> (r: Result<Node, Error>)
    ensures
        match r {
            Ok(n) => encode_list(v@) == Ok::<NodeView, ErrorView>(n@),
            Err(e) => encode_list(v@) == Err::<NodeView, ErrorView>(e@),
        },
    decreases v, 0nat,
{
    proof {
        lemma_keys_view(*v);
    }
    let items = match &v.data {
        Data::List(items) => items,
        _ => {
            let kind = String::new();
            assert(kind@ =~= Seq::empty());
            return Err(Error::UnsupportedKind(kind));
        },
    };
    proof {
        lemma_list_view(*items);
    }
    if let Some(keys) = &v.keys {
        if keys.len() != items.len() {
            return Err(Error::KeyCount);
        }
        let mut map = yaml_mapping_new(items.len());
        let ghost mut pairs: Seq<(NodeView, NodeView)> = Seq::empty();
        let mut i: usize = 0;
        assert(build_mapping(pairs) =~= Seq::empty());
        while i < items.len()
            invariant
                i <= items.len() == keys.len(),
                v.data is List && v.data->List_0 == *items,
                v.keys is Some && v.keys->Some_0 == *keys,
                v@.data == DataView::List(value_views(items@)),
                v@.keys == Some(value_views(keys@)),
                encode_keyed(v@, i as nat) == Ok::<Seq<(NodeView, NodeView)>, ErrorView>(pairs),
                pairs.len() == i,
                yaml_model(map) == NodeView::Mapping(build_mapping(pairs)),
            decreases items.len() - i,
        {
            proof {
                assert(decreases_to!(v.keys->Some_0 => keys[i as int]));
                assert(decreases_to!(v.data->List_0 => items[i as int]));
                assert(value_views(keys@)[i as int] == keys@[i as int]@);
                assert(value_views(items@)[i as int] == items@[i as int]@);
            }
            let key = match value_to_yaml(&keys[i]) {
                Ok(key) => key,
                Err(e) => {
                    proof {
                        lemma_keyed_fails(v@, (i + 1) as nat, items.len() as nat);
                    }
                    return Err(e);
                },
            };
            let item = match value_to_yaml(&items[i]) {
                Ok(item) => item,
                Err(e) => {
                    proof {
                        lemma_keyed_fails(v@, (i + 1) as nat, items.len() as nat);
                    }
                    return Err(e);
                },
            };
            proof {
                let longer = pairs.push((key@, item@));
                lemma_build_mapping_step(longer, i as int);
                assert(longer.take(i as int) =~= pairs);
                assert(longer.take(i + 1) =~= longer);
                pairs = longer;
            }
            let (engine_key, _) = to_yaml(&key);
            let (engine_item, _) = to_yaml(&item);
            yaml_mapping_insert(&mut map, engine_key, engine_item);
            i = i + 1;
        }
        return Ok(from_yaml(&map));
    }
    if let Some(names) = &v.names {
        let count: usize = if names.len() < items.len() {
            names.len()
        } else {
            items.len()
        };
        let mut map = yaml_mapping_new(count);
        let ghost mut pairs: Seq<(NodeView, NodeView)> = Seq::empty();
        let mut i: usize = 0;
        assert(build_mapping(pairs) =~= Seq::empty());
        while i < count
            invariant
                i <= count,
                count == names.len() <= items.len() || count == items.len() <= names.len(),
                v.data is List && v.data->List_0 == *items,
                v@.data == DataView::List(value_views(items@)),
                v@.names == Some(text_options_view(names@)),
                v@.keys is None,
                encode_named(v@, i as nat) == Ok::<Seq<(NodeView, NodeView)>, ErrorView>(pairs),
                pairs.len() == i,
                yaml_model(map) == NodeView::Mapping(build_mapping(pairs)),
            decreases count - i,
        {
            proof {
                assert(decreases_to!(v.data->List_0 => items[i as int]));
                assert(value_views(items@)[i as int] == items@[i as int]@);
                assert(text_options_view(names@)[i as int] == text_option_view(names@[i as int]));
            }
            let item = match value_to_yaml(&items[i]) {
                Ok(item) => item,
                Err(e) => {
                    proof {
                        lemma_named_fails(v@, (i + 1) as nat, count as nat);
                    }
                    return Err(e);
                },
            };
            let key = match &names[i] {
                Some(name) => Node::Value(Scalar::Text(name.clone())),
                None => Node::Value(Scalar::Null),
            };
            proof {
                let longer = pairs.push((key@, item@));
                lemma_build_mapping_step(longer, i as int);
                assert(longer.take(i as int) =~= pairs);
                assert(longer.take(i + 1) =~= longer);
                pairs = longer;
            }
            let (engine_key, _) = to_yaml(&key);
            let (engine_item, _) = to_yaml(&item);
            yaml_mapping_insert(&mut map, engine_key, engine_item);
            i = i + 1;
        }
        return Ok(from_yaml(&map));
    }
    let mut nodes: Vec<Node> = Vec::new();
    let mut i: usize = 0;
    assert(node_views(nodes@) =~= Seq::empty());
    while i < items.len()
        invariant
            i <= items.len(),
            v.data is List && v.data->List_0 == *items,
            v@.data == DataView::List(value_views(items@)),
            v@.keys is None,
            v@.names is None,
            nodes.len() == i,
            encode_plain(v@, i as nat) == Ok::<Seq<NodeView>, ErrorView>(node_views(nodes@)),
        decreases items.len() - i,
    {
        proof {
            assert(decreases_to!(v.data->List_0 => items[i as int]));
            assert(value_views(items@)[i as int] == items@[i as int]@);
        }
        let ghost before = node_views(nodes@);
        let item = match value_to_yaml(&items[i]) {
            Ok(item) => item,
            Err(e) => {
                proof {
                    lemma_plain_fails(v@, (i + 1) as nat, items.len() as nat);
                }
                return Err(e);
            },
        };
        nodes.push(item);
        assert(node_views(nodes@) =~= before.push(item@));
        i = i + 1;
    }
    proof {
        lemma_sequence_view(nodes);
    }
    Ok(Node::Sequence(nodes))
}

} // verus!
