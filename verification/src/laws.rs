//! Laws of the conversion, proved from the definitions of the encoder and
//! the decoder.

use vstd::prelude::*;
use crate::decode::{
    decode, decode_entries, decode_items, key_text, named_list, strip_marker,
};
use crate::document::{closing, encodings, file_text, formatted, stream_text};
use crate::encode::{
    date_nodes, encode, encode_keyed, encode_list, encode_named, encode_plain, encode_untagged,
    gather, instant_nodes, integer_date_nodes, integer_instant_nodes, integer_node, integer_nodes,
    is_leaf, lemma_gather_ok, logical_node, logical_nodes, null_node, real_node, real_nodes,
    temporal_kind, text_node, text_nodes, vector_node, Temporal,
};
use crate::mapping::{build_mapping, entries_all, lemma_build_mapping, lemma_build_mapping_keeps};
use crate::engine::{emit_result, emitted};
use crate::error::{ErrorKind, ErrorView};
use crate::double::is_finite;
use crate::node::{
    contains_alias, emittable, is_nan, lemma_contains_alias_mapping,
    lemma_contains_alias_sequence, lemma_emittable_mapping, lemma_emittable_sequence,
    lemma_well_formed_mapping, lemma_well_formed_sequence, well_formed, NodeView,
};
use crate::tag::{
    core_schema_tag, custom_tag, last_bang, lemma_last_bang, lemma_trimmed_twice, trimmed,
};
use crate::value::{DataView, ValueView, MISSING_INTEGER};

verus! {

/// Whether a value is one scalar that is not missing, or the null value,
/// without any attribute.
pub open spec fn is_present_scalar(v: ValueView) -> bool {
    &&& v == ValueView::plain(v.data)
    &&& match v.data {
        DataView::Null => true,
        DataView::Logicals(x) => x.len() == 1 && x[0] is Some,
        DataView::Integers(x) => x.len() == 1 && x[0] != MISSING_INTEGER,
        DataView::Doubles(x) => x.len() == 1 && !is_nan(x[0]),
        DataView::Strings(x) => x.len() == 1 && x[0] is Some,
        _ => false,
    }
}

/// A value without type markers has no temporal kind.
pub proof fn lemma_no_marker_no_temporal_kind()
    ensures
        temporal_kind(Seq::empty()) is None,
{
}

/// Encoding a scalar and decoding the node gives the scalar back.
pub proof fn lemma_scalar_round_trip(v: ValueView)
    requires
        is_present_scalar(v),
    ensures
        encode(v) is Ok,
        decode(encode(v)->Ok_0) == Ok::<ValueView, ErrorView>(v),
{
    lemma_no_marker_no_temporal_kind();
    match v.data {
        DataView::Logicals(x) => {
            assert(seq![x[0]] =~= x);
        },
        DataView::Integers(x) => {
            assert(seq![x[0]] =~= x);
        },
        DataView::Doubles(x) => {
            assert(seq![x[0]] =~= x);
        },
        DataView::Strings(x) => {
            assert(seq![x[0]] =~= x);
        },
        _ => {},
    }
}

/// The nodes of the elements of a vector of scalars; none for other content.
pub open spec fn element_nodes(data: DataView) -> Option<Seq<NodeView>> {
    match data {
        DataView::Logicals(x) => Some(Seq::new(x.len(), |i: int| logical_node(x[i]))),
        DataView::Integers(x) => Some(Seq::new(x.len(), |i: int| integer_node(x[i]))),
        DataView::Doubles(x) => Some(Seq::new(x.len(), |i: int| real_node(x[i]))),
        DataView::Strings(x) => Some(Seq::new(x.len(), |i: int| text_node(x[i]))),
        _ => None,
    }
}

/// A vector of one scalar is encoded as that scalar, not as a sequence of
/// one item; an empty vector is encoded as the empty sequence; any other
/// vector as the sequence of its scalars.
pub proof fn lemma_vector_scalar_duality(v: ValueView)
    requires
        element_nodes(v.data) is Some,
        temporal_kind(v.classes) is None,
        custom_tag(v.tag) == Ok::<Option<crate::node::TagView>, ErrorView>(None),
    ensures
        encode(v) == Ok::<NodeView, ErrorView>(vector_node(element_nodes(v.data)->Some_0)),
        element_nodes(v.data)->Some_0.len() == 1 ==> encode(v) == Ok::<NodeView, ErrorView>(
            element_nodes(v.data)->Some_0[0],
        ),
        element_nodes(v.data)->Some_0.len() == 0 ==> encode(v) == Ok::<NodeView, ErrorView>(
            NodeView::Sequence(Seq::empty()),
        ),
{
    let nodes = element_nodes(v.data)->Some_0;
    match v.data {
        DataView::Logicals(x) => {
            assert(nodes =~= crate::encode::logical_nodes(x));
        },
        DataView::Integers(x) => {
            assert(nodes =~= crate::encode::integer_nodes(x));
        },
        DataView::Doubles(x) => {
            assert(nodes =~= crate::encode::real_nodes(x));
        },
        DataView::Strings(x) => {
            assert(nodes =~= crate::encode::text_nodes(x));
        },
        _ => {},
    }
    if nodes.len() == 0 {
        assert(nodes =~= Seq::empty());
    }
}

/// Whether the content is one missing scalar: a missing boolean, the
/// missing integer, a NaN or a missing text.
pub open spec fn is_missing_scalar(data: DataView) -> bool {
    match data {
        DataView::Logicals(x) => x.len() == 1 && x[0] is None,
        DataView::Integers(x) => x.len() == 1 && x[0] == MISSING_INTEGER,
        DataView::Doubles(x) => x.len() == 1 && is_nan(x[0]),
        DataView::Strings(x) => x.len() == 1 && x[0] is None,
        _ => false,
    }
}

/// A missing scalar of every kind is encoded as the null scalar, as the
/// null value is.
pub proof fn lemma_missing_scalars_are_null(v: ValueView)
    requires
        is_missing_scalar(v.data) || v.data is Null,
        temporal_kind(v.classes) is None,
        custom_tag(v.tag) == Ok::<Option<crate::node::TagView>, ErrorView>(None),
    ensures
        encode(v) == Ok::<NodeView, ErrorView>(null_node()),
{
}

/// Whether the content is one date or instant that is missing or no
/// number: the missing integer, a NaN or an infinity.
pub open spec fn is_missing_temporal(data: DataView) -> bool {
    match data {
        DataView::Integers(x) => x.len() == 1 && x[0] == MISSING_INTEGER,
        DataView::Doubles(x) => x.len() == 1 && !is_finite(x[0]),
        _ => false,
    }
}

/// A date or an instant that is missing or no number is encoded as the
/// null scalar, never as a failure.
pub proof fn lemma_missing_temporal_is_null(v: ValueView)
    requires
        is_missing_temporal(v.data),
        temporal_kind(v.classes) is Some,
        custom_tag(v.tag) == Ok::<Option<crate::node::TagView>, ErrorView>(None),
    ensures
        encode(v) == Ok::<NodeView, ErrorView>(null_node()),
{
    match v.data {
        DataView::Doubles(x) => {
            let dates = crate::encode::date_nodes(x);
            let instants = crate::encode::instant_nodes(x);
            assert(dates.drop_last() =~= Seq::empty());
            assert(instants.drop_last() =~= Seq::empty());
            assert(gather(dates) == Ok::<Seq<NodeView>, ErrorView>(seq![null_node()])) by {
                assert(gather(dates.drop_last()) == Ok::<Seq<NodeView>, ErrorView>(Seq::empty()));
                assert(Seq::<NodeView>::empty().push(null_node()) =~= seq![null_node()]);
            }
            assert(gather(instants) == Ok::<Seq<NodeView>, ErrorView>(seq![null_node()])) by {
                assert(gather(instants.drop_last()) == Ok::<Seq<NodeView>, ErrorView>(
                    Seq::empty(),
                ));
                assert(Seq::<NodeView>::empty().push(null_node()) =~= seq![null_node()]);
            }
        },
        _ => {},
    }
}

/// An empty vector of dates or instants is encoded as the empty sequence.
pub proof fn lemma_empty_temporal_is_empty_sequence(v: ValueView)
    requires
        v.data == DataView::Doubles(Seq::empty()) || v.data == DataView::Integers(Seq::empty()),
        temporal_kind(v.classes) is Some,
        custom_tag(v.tag) == Ok::<Option<crate::node::TagView>, ErrorView>(None),
    ensures
        encode(v) == Ok::<NodeView, ErrorView>(NodeView::Sequence(Seq::empty())),
{
    match v.data {
        DataView::Doubles(x) => {
            assert(date_nodes(x) =~= Seq::empty());
            assert(instant_nodes(x) =~= Seq::empty());
        },
        DataView::Integers(x) => {
            assert(integer_date_nodes(x) =~= Seq::empty());
            assert(integer_instant_nodes(x) =~= Seq::empty());
        },
        _ => {},
    }
}

/// A text without `!` has no last `!`.
pub proof fn lemma_no_bang(s: Seq<char>)
    requires
        !s.contains('!'),
    ensures
        last_bang(s) == -1,
{
    lemma_last_bang(s);
}

/// A tag attribute that is empty, or empty but for white space, fails the
/// encoding: as a malformed tag, where the value itself can be encoded.
pub proof fn lemma_empty_tag_fails(v: ValueView, attribute: Seq<char>)
    requires
        v.tag == Some(attribute),
        trimmed(attribute).len() == 0,
    ensures
        encode(v) is Err,
        encode_untagged(v) is Ok ==> encode(v) == Err::<NodeView, ErrorView>(
            ErrorView::MalformedTag(Seq::empty()),
        ),
{
    reveal_strlit("!!");
    reveal_strlit("!<tag:yaml.org,2002:");
    reveal_strlit("!tag:yaml.org,2002:");
    reveal_strlit("<tag:yaml.org,2002:");
    reveal_strlit("tag:yaml.org,2002:");
    let t = trimmed(attribute);
    lemma_trimmed_twice(attribute);
    assert(t =~= Seq::empty());
    assert(!core_schema_tag(t));
    assert(last_bang(t) == -1);
}

/// A tag attribute without `!` that names no tag of the core schema fails the
/// encoding: as a malformed tag, where the value itself can be encoded.
pub proof fn lemma_tag_without_bang_fails(v: ValueView, attribute: Seq<char>)
    requires
        v.tag == Some(attribute),
        !trimmed(attribute).contains('!'),
        !core_schema_tag(attribute),
    ensures
        encode(v) is Err,
        encode_untagged(v) is Ok ==> encode(v) == Err::<NodeView, ErrorView>(
            ErrorView::MalformedTag(trimmed(attribute)),
        ),
        encode_untagged(v) is Ok ==> encode(v)->Err_0.kind() == ErrorKind::MalformedTag,
{
    lemma_no_bang(trimmed(attribute));
    lemma_trimmed_twice(attribute);
}

/// A mapping key that is a sequence becomes the name that is the text the
/// emitter writes for the sequence, without the document-start marker.
pub proof fn lemma_sequence_key_is_its_text(key: NodeView, value: NodeView, text: Seq<char>)
    requires
        key is Sequence,
        !contains_alias(key),
        well_formed(key),
        emittable(key),
        emitted(key, false) == Ok::<Seq<char>, Seq<char>>(text),
        decode(value) is Ok,
    ensures
        key_text(key) == Ok::<Seq<char>, ErrorView>(strip_marker(text)),
        decode(NodeView::Mapping(seq![(key, value)])) == Ok::<ValueView, ErrorView>(
            named_list(seq![strip_marker(text)], seq![decode(value)->Ok_0]),
        ),
{
    let entries = seq![(key, value)];
    reveal_with_fuel(decode_entries, 3);
    assert(decode_entries(entries, 0) == Ok::<(Seq<Seq<char>>, Seq<ValueView>), ErrorView>(
        (Seq::empty(), Seq::empty()),
    ));
    assert(Seq::<Seq<char>>::empty().push(strip_marker(text)) =~= seq![strip_marker(text)]);
    assert(Seq::<ValueView>::empty().push(decode(value)->Ok_0) =~= seq![decode(value)->Ok_0]);
    assert(entries.len() == 1 && entries[0] == (key, value));
    assert(decode_entries(entries, 1) == Ok::<(Seq<Seq<char>>, Seq<ValueView>), ErrorView>(
        (seq![strip_marker(text)], seq![decode(value)->Ok_0]),
    ));
    let whole = NodeView::Mapping(entries);
    assert(whole->Mapping_0 == entries);
}

/// Formatting no document gives the empty text.
pub proof fn lemma_no_document_is_empty(v: ValueView)
    requires
        v.data == DataView::List(Seq::empty()),
    ensures
        formatted(v, true) == Ok::<Seq<char>, ErrorView>(Seq::empty()),
{
    assert(encodings(Seq::empty()) =~= Seq::empty());
}

/// The file of a stream of no document is the empty text, without any
/// marker.
pub proof fn lemma_no_document_is_empty_file(v: ValueView)
    requires
        v.data == DataView::List(Seq::empty()),
    ensures
        file_text(v, true) == Ok::<Seq<char>, ErrorView>(Seq::empty()),
{
    lemma_no_document_is_empty(v);
}

/// The file of a stream of at least one document is the text of the stream
/// and, behind it, the document-end marker and a line end; the text of the
/// stream is that of its first documents and, behind it, the last document
/// and a line end.
pub proof fn lemma_stream_file(v: ValueView, docs: Seq<NodeView>, text: Seq<char>)
    requires
        v.data is List,
        gather(encodings(v.data->List_0)) == Ok::<Seq<NodeView>, ErrorView>(docs),
        docs.len() > 0,
        stream_text(docs, docs.len()) == Ok::<Seq<char>, ErrorView>(text),
    ensures
        file_text(v, true) == Ok::<Seq<char>, ErrorView>(text + closing(true)),
        stream_text(docs, (docs.len() - 1) as nat) is Ok,
        emit_result(docs.last(), true) is Ok,
        text == stream_text(docs, (docs.len() - 1) as nat)->Ok_0 + emit_result(
            docs.last(),
            true,
        )->Ok_0 + seq!['\n'],
{
    lemma_gather_ok(encodings(v.data->List_0));
}

/// The file of a stream of two documents holds both, each from its
/// document-start marker to a line end, and ends with the document-end
/// marker on a line of its own.
pub proof fn lemma_stream_of_two(
    v: ValueView,
    first: NodeView,
    second: NodeView,
    first_text: Seq<char>,
    second_text: Seq<char>,
)
    requires
        v.data is List,
        v.data->List_0.len() == 2,
        encode(v.data->List_0[0]) == Ok::<NodeView, ErrorView>(first),
        encode(v.data->List_0[1]) == Ok::<NodeView, ErrorView>(second),
        emit_result(first, true) == Ok::<Seq<char>, ErrorView>(first_text),
        emit_result(second, true) == Ok::<Seq<char>, ErrorView>(second_text),
    ensures
        file_text(v, true) == Ok::<Seq<char>, ErrorView>(
            first_text + seq!['\n'] + second_text + seq!['\n'] + closing(true),
        ),
{
    let items = v.data->List_0;
    let all = encodings(items);
    let docs = seq![first, second];
    assert(all.drop_last().drop_last() =~= Seq::empty());
    assert(gather(all.drop_last().drop_last()) == Ok::<Seq<NodeView>, ErrorView>(Seq::empty()));
    assert(gather(all.drop_last()) == Ok::<Seq<NodeView>, ErrorView>(seq![first])) by {
        assert(all.drop_last().last() == all[0]);
        assert(Seq::<NodeView>::empty().push(first) =~= seq![first]);
    }
    assert(gather(all) == Ok::<Seq<NodeView>, ErrorView>(docs)) by {
        assert(seq![first].push(second) =~= docs);
    }
    reveal_with_fuel(stream_text, 3);
    assert(stream_text(docs, 2) == Ok::<Seq<char>, ErrorView>(
        Seq::<char>::empty() + first_text + seq!['\n'] + second_text + seq!['\n'],
    ));
    assert(Seq::<char>::empty() + first_text + seq!['\n'] + second_text + seq!['\n']
        + closing(true) =~= first_text + seq!['\n'] + second_text + seq!['\n'] + closing(true));
}

/// Whether no mapping key fails for its form or in the emitter, wherever
/// the decoder decodes: a key fails, if at all, for an alias in it.
pub open spec fn keys_have_form(n: NodeView) -> bool
    decreases n,
{
    match n {
        NodeView::Sequence(items) => forall|i: int|
            0 <= i < items.len() ==> keys_have_form(#[trigger] items[i]),
        NodeView::Mapping(entries) => forall|i: int|
            0 <= i < entries.len() ==> (key_text((#[trigger] entries[i]).0) is Ok || key_text(
                entries[i].0,
            ) == Err::<Seq<char>, ErrorView>(ErrorView::Alias)) && keys_have_form(entries[i].1),
        NodeView::Tagged(_, inner) => keys_have_form(*inner),
        _ => true,
    }
}

/// A failure among the first items is a failure of one of them.
proof fn lemma_items_failure(items: Seq<NodeView>, n: nat)
    requires
        n <= items.len(),
        decode_items(items, n) is Err,
    ensures
        exists|i: int|
            0 <= i < n && #[trigger] decode(items[i]) == Err::<ValueView, ErrorView>(
                decode_items(items, n)->Err_0,
            ),
    decreases n,
{
    if n > 0 {
        if decode_items(items, (n - 1) as nat) is Err {
            lemma_items_failure(items, (n - 1) as nat);
        } else {
            assert(decode(items[n - 1]) is Err);
        }
    }
}

/// A failure among the first entries is a failure of one of their keys or
/// of one of their values.
proof fn lemma_entries_failure(entries: Seq<(NodeView, NodeView)>, n: nat)
    requires
        n <= entries.len(),
        decode_entries(entries, n) is Err,
    ensures
        exists|i: int|
            0 <= i < n && (#[trigger] key_text(entries[i].0) == Err::<Seq<char>, ErrorView>(
                decode_entries(entries, n)->Err_0,
            ) || decode(entries[i].1) == Err::<ValueView, ErrorView>(
                decode_entries(entries, n)->Err_0,
            )),
    decreases n,
{
    if n > 0 {
        if decode_entries(entries, (n - 1) as nat) is Err {
            lemma_entries_failure(entries, (n - 1) as nat);
        } else {
            assert(key_text(entries[n - 1].0) is Err || decode(entries[n - 1].1) is Err);
        }
    }
}

/// Where no key fails for its form, the decoder fails only on an alias or on
/// a malformed scalar.
pub proof fn lemma_decode_failure_kind(n: NodeView)
    requires
        keys_have_form(n),
        decode(n) is Err,
    ensures
        decode(n)->Err_0.kind() == ErrorKind::UnsupportedConstruct,
    decreases n,
{
    match n {
        NodeView::Sequence(items) => {
            lemma_items_failure(items, items.len());
            let i = choose|i: int|
                0 <= i < items.len() && #[trigger] decode(items[i]) == Err::<ValueView, ErrorView>(
                    decode_items(items, items.len())->Err_0,
                );
            assert(keys_have_form(items[i]));
            lemma_decode_failure_kind(items[i]);
        },
        NodeView::Mapping(entries) => {
            lemma_entries_failure(entries, entries.len());
            let e = decode_entries(entries, entries.len())->Err_0;
            let i = choose|i: int|
                0 <= i < entries.len() && (#[trigger] key_text(entries[i].0) == Err::<
                    Seq<char>,
                    ErrorView,
                >(e) || decode(entries[i].1) == Err::<ValueView, ErrorView>(e));
            assert((key_text(entries[i].0) is Ok || key_text(entries[i].0) == Err::<
                Seq<char>,
                ErrorView,
            >(ErrorView::Alias)) && keys_have_form(entries[i].1));
            if decode(entries[i].1) == Err::<ValueView, ErrorView>(e) {
                lemma_decode_failure_kind(entries[i].1);
            }
        },
        NodeView::Tagged(_, inner) => {
            lemma_decode_failure_kind(*inner);
        },
        _ => {},
    }
}

/// A failure of one item is a failure of the items.
proof fn lemma_item_fails(items: Seq<NodeView>, i: int, n: nat)
    requires
        0 <= i < n <= items.len(),
        decode(items[i]) is Err,
    ensures
        decode_items(items, n) is Err,
    decreases n,
{
    if i < n - 1 {
        lemma_item_fails(items, i, (n - 1) as nat);
    }
}

/// A failure of one key or of one value is a failure of the entries.
proof fn lemma_entry_fails(entries: Seq<(NodeView, NodeView)>, i: int, n: nat)
    requires
        0 <= i < n <= entries.len(),
        key_text(entries[i].0) is Err || decode(entries[i].1) is Err,
    ensures
        decode_entries(entries, n) is Err,
    decreases n,
{
    if i < n - 1 {
        lemma_entry_fails(entries, i, (n - 1) as nat);
    }
}

/// A key that holds an alias gives no name.
pub proof fn lemma_alias_key_fails(key: NodeView)
    requires
        contains_alias(key),
    ensures
        key_text(key) == Err::<Seq<char>, ErrorView>(ErrorView::Alias),
{
}

/// A node that holds an alias anywhere, in a key as in any other place, is
/// never decoded.
pub proof fn lemma_alias_fails(n: NodeView)
    requires
        contains_alias(n),
    ensures
        decode(n) is Err,
    decreases n,
{
    match n {
        NodeView::Sequence(items) => {
            lemma_contains_alias_sequence(items);
            let i = choose|i: int| 0 <= i < items.len() && contains_alias(#[trigger] items[i]);
            lemma_alias_fails(items[i]);
            lemma_item_fails(items, i, items.len());
        },
        NodeView::Mapping(entries) => {
            lemma_contains_alias_mapping(entries);
            let i = choose|i: int|
                0 <= i < entries.len() && (contains_alias((#[trigger] entries[i]).0)
                    || contains_alias(entries[i].1));
            if contains_alias(entries[i].0) {
                lemma_alias_key_fails(entries[i].0);
            } else {
                lemma_alias_fails(entries[i].1);
            }
            lemma_entry_fails(entries, i, entries.len());
        },
        NodeView::Tagged(_, inner) => {
            lemma_alias_fails(*inner);
        },
        _ => {},
    }
}

/// Decoding a node that holds an alias anywhere always fails, and where no
/// key fails for its form the failure is an unsupported construct.
pub proof fn lemma_alias_is_unsupported(n: NodeView)
    requires
        contains_alias(n),
        keys_have_form(n),
    ensures
        decode(n) is Err,
        decode(n)->Err_0.kind() == ErrorKind::UnsupportedConstruct,
{
    lemma_alias_fails(n);
    lemma_decode_failure_kind(n);
}

/// Whether a node can be written as text: every mapping in it has distinct
/// keys, and it holds no raw scalar in a block style.
pub open spec fn writable(n: NodeView) -> bool {
    well_formed(n) && emittable(n)
}

/// The node of a vector of leaves can be written.
proof fn lemma_leaves_writable(items: Seq<NodeView>)
    requires
        forall|i: int| 0 <= i < items.len() ==> is_leaf(#[trigger] items[i]),
    ensures
        writable(vector_node(items)),
        forall|i: int| 0 <= i < items.len() ==> writable(#[trigger] items[i]),
{
    reveal_with_fuel(well_formed, 2);
    reveal_with_fuel(emittable, 2);
    assert forall|i: int| 0 <= i < items.len() implies writable(#[trigger] items[i]) by {
        assert(is_leaf(items[i]));
    }
    lemma_well_formed_sequence(items);
    lemma_emittable_sequence(items);
}

/// What is gathered from results that are leaves or failures is made of
/// leaves.
proof fn lemma_gathered_leaves(results: Seq<Result<NodeView, ErrorView>>)
    requires
        gather(results) is Ok,
        forall|i: int|
            0 <= i < results.len() ==> (#[trigger] results[i] matches Ok(n) ==> is_leaf(n)),
    ensures
        forall|i: int|
            0 <= i < gather(results)->Ok_0.len() ==> is_leaf(#[trigger] gather(results)->Ok_0[i]),
{
    lemma_gather_ok(results);
    let nodes = gather(results)->Ok_0;
    assert forall|i: int| 0 <= i < nodes.len() implies is_leaf(#[trigger] nodes[i]) by {
        assert(results[i] == Ok::<NodeView, ErrorView>(nodes[i]));
    }
}

/// Every node that the encoder gives can be written: the emitter is never
/// refused a node that was encoded.
pub proof fn lemma_encoded_is_writable(v: ValueView)
    requires
        encode(v) is Ok,
    ensures
        writable(encode(v)->Ok_0),
    decreases v, 3nat, 0nat,
{
    reveal_with_fuel(well_formed, 2);
    reveal_with_fuel(emittable, 2);
    lemma_untagged_is_writable(v);
}

/// Every node that the encoder gives for a value without regard to its tag
/// can be written.
proof fn lemma_untagged_is_writable(v: ValueView)
    requires
        encode_untagged(v) is Ok,
    ensures
        writable(encode_untagged(v)->Ok_0),
    decreases v, 2nat, 0nat,
{
    match temporal_kind(v.classes) {
        Some(Temporal::Instant) => match v.data {
            DataView::Doubles(x) => {
                lemma_gathered_leaves(instant_nodes(x));
                lemma_leaves_writable(gather(instant_nodes(x))->Ok_0);
            },
            DataView::Integers(x) => {
                lemma_leaves_writable(integer_instant_nodes(x));
            },
            _ => {},
        },
        Some(Temporal::Date) => match v.data {
            DataView::Doubles(x) => {
                lemma_gathered_leaves(date_nodes(x));
                lemma_leaves_writable(gather(date_nodes(x))->Ok_0);
            },
            DataView::Integers(x) => {
                lemma_leaves_writable(integer_date_nodes(x));
            },
            _ => {},
        },
        None => match v.data {
            DataView::Logicals(x) => {
                lemma_leaves_writable(logical_nodes(x));
            },
            DataView::Integers(x) => {
                lemma_leaves_writable(integer_nodes(x));
            },
            DataView::Doubles(x) => {
                lemma_leaves_writable(real_nodes(x));
            },
            DataView::Strings(x) => {
                lemma_leaves_writable(text_nodes(x));
            },
            DataView::List(_) => {
                lemma_list_is_writable(v);
            },
            _ => {},
        },
    }
}

/// Every node that the encoder gives for a list can be written.
proof fn lemma_list_is_writable(v: ValueView)
    requires
        encode_list(v) is Ok,
    ensures
        writable(encode_list(v)->Ok_0),
    decreases v, 1nat, 0nat,
{
    let p = |n: NodeView| writable(n);
    match v.data {
        DataView::List(items) => match v.keys {
            Some(keys) => {
                lemma_keyed_is_writable(v, items.len());
                let pairs = encode_keyed(v, items.len())->Ok_0;
                lemma_mapping_is_writable(pairs);
            },
            None => match v.names {
                Some(names) => {
                    let n = if names.len() < items.len() {
                        names.len()
                    } else {
                        items.len()
                    };
                    lemma_named_is_writable(v, n);
                    let pairs = encode_named(v, n)->Ok_0;
                    lemma_mapping_is_writable(pairs);
                },
                None => {
                    lemma_plain_is_writable(v, items.len());
                    let nodes = encode_plain(v, items.len())->Ok_0;
                    lemma_well_formed_sequence(nodes);
                    lemma_emittable_sequence(nodes);
                },
            },
        },
        _ => {},
    }
}

/// The mapping that is built from pairs that can be written can be written.
proof fn lemma_mapping_is_writable(pairs: Seq<(NodeView, NodeView)>)
    requires
        entries_all(pairs, |n: NodeView| writable(n)),
    ensures
        writable(NodeView::Mapping(build_mapping(pairs))),
{
    let p = |n: NodeView| writable(n);
    lemma_build_mapping(pairs);
    lemma_build_mapping_keeps(pairs, p);
    let built = build_mapping(pairs);
    assert forall|i: int| 0 <= i < built.len() implies well_formed((#[trigger] built[i]).0)
        && well_formed(built[i].1) && emittable(built[i].0) && emittable(built[i].1) by {
        assert(p(built[i].0) && p(built[i].1));
    }
    lemma_well_formed_mapping(built);
    lemma_emittable_mapping(built);
}

/// The first pairs of a list with a keys side-channel can be written.
proof fn lemma_keyed_is_writable(v: ValueView, n: nat)
    requires
        encode_keyed(v, n) is Ok,
    ensures
        entries_all(encode_keyed(v, n)->Ok_0, |n: NodeView| writable(n)),
    decreases v, 0nat, n,
{
    match (v.data, v.keys) {
        (DataView::List(items), Some(keys)) => {
            if !(n == 0 || n > items.len() || n > keys.len()) {
                lemma_keyed_is_writable(v, (n - 1) as nat);
                lemma_encoded_is_writable(keys[n - 1]);
                lemma_encoded_is_writable(items[n - 1]);
            }
        },
        _ => {},
    }
}

/// The first pairs of a list with names can be written.
proof fn lemma_named_is_writable(v: ValueView, n: nat)
    requires
        encode_named(v, n) is Ok,
    ensures
        entries_all(encode_named(v, n)->Ok_0, |n: NodeView| writable(n)),
    decreases v, 0nat, n,
{
    match (v.data, v.names) {
        (DataView::List(items), Some(names)) => {
            if !(n == 0 || n > items.len() || n > names.len()) {
                lemma_named_is_writable(v, (n - 1) as nat);
                lemma_encoded_is_writable(items[n - 1]);
            }
        },
        _ => {},
    }
}

/// The first encoded elements of a list can be written.
proof fn lemma_plain_is_writable(v: ValueView, n: nat)
    requires
        encode_plain(v, n) is Ok,
    ensures
        forall|i: int|
            0 <= i < encode_plain(v, n)->Ok_0.len() ==> writable(
                #[trigger] encode_plain(v, n)->Ok_0[i],
            ),
    decreases v, 0nat, n,
{
    match v.data {
        DataView::List(items) => {
            if !(n == 0 || n > items.len()) {
                lemma_plain_is_writable(v, (n - 1) as nat);
                lemma_encoded_is_writable(items[n - 1]);
            }
        },
        _ => {},
    }
}

/// What was encoded is never refused for its form: the text of one
/// document for a value that can be encoded is what the emitter writes for
/// its node, and fails only where the emitter fails.
pub proof fn lemma_formatted_is_emitted(v: ValueView)
    requires
        encode(v) is Ok,
    ensures
        formatted(v, false) == match emitted(encode(v)->Ok_0, true) {
            Ok(text) => Ok::<Seq<char>, ErrorView>(text),
            Err(message) => Err::<Seq<char>, ErrorView>(ErrorView::Emit(message)),
        },
{
    lemma_encoded_is_writable(v);
    let node = encode(v)->Ok_0;
    assert(seq![node][0] == node);
}

} // verus!
