//! The YAML node tree: scalars, sequences, mappings, tagged nodes, raw
//! representations, aliases and malformed markers, with the mathematical
//! model that the contracts of this crate speak of.

use vstd::prelude::*;

verus! {

/// How a raw scalar was written in the source text.
#[derive(Clone, Copy, Debug, PartialEq, Eq, Structural)]
pub enum ScalarStyle {
    Plain,
    SingleQuoted,
    DoubleQuoted,
    Literal,
    Folded,
}

/// An explicit type annotation: a handle (namespace prefix) and a suffix
/// (type name).
#[derive(Clone, Debug, PartialEq, Eq)]
pub struct Tag {
    pub handle: String,
    pub suffix: String,
}

/// The model of a [`Tag`].
pub struct TagView {
    pub handle: Seq<char>,
    pub suffix: Seq<char>,
}

impl View for Tag {
    type V = TagView;

    open spec fn view(&self) -> TagView {
        TagView { handle: self.handle@, suffix: self.suffix@ }
    }
}

impl TagView {
    /// The tag as it is written in a document: `!suffix` under the handle
    /// `!`, otherwise handle, `!` and suffix.
    pub open spec fn rendered(self) -> Seq<char> {
        if self.handle == seq!['!'] {
            seq!['!'] + self.suffix
        } else {
            self.handle + seq!['!'] + self.suffix
        }
    }
}

/// An atomic value. A floating-point number is held as its IEEE 754
/// double-precision bit pattern.
#[derive(Clone, Debug, PartialEq, Eq)]
pub enum Scalar {
    Null,
    Boolean(bool),
    Integer(i64),
    Float(u64),
    Text(String),
}

/// The model of a [`Scalar`].
pub enum ScalarView {
    Null,
    Boolean(bool),
    Integer(i64),
    Float(u64),
    Text(Seq<char>),
}

impl View for Scalar {
    type V = ScalarView;

    open spec fn view(&self) -> ScalarView {
        match self {
            Scalar::Null => ScalarView::Null,
            Scalar::Boolean(b) => ScalarView::Boolean(*b),
            Scalar::Integer(i) => ScalarView::Integer(*i),
            Scalar::Float(bits) => ScalarView::Float(*bits),
            Scalar::Text(s) => ScalarView::Text(s@),
        }
    }
}

/// A node of a YAML document.
#[derive(Debug, PartialEq, Eq)]
pub enum Node {
    /// A resolved scalar.
    Value(Scalar),
    /// An ordered list of nodes.
    Sequence(Vec<Node>),
    /// Ordered key and value pairs.
    Mapping(Vec<(Node, Node)>),
    /// A node under an explicit tag.
    Tagged(Tag, Box<Node>),
    /// The raw text of a scalar that was not resolved, its style and its tag.
    Representation(String, ScalarStyle, Option<Tag>),
    /// A reference to an anchored node.
    Alias(usize),
    /// A scalar whose text does not fit its tag.
    BadValue,
}

/// The model of a [`Node`].
pub enum NodeView {
    Value(ScalarView),
    Sequence(Seq<NodeView>),
    Mapping(Seq<(NodeView, NodeView)>),
    Tagged(TagView, Box<NodeView>),
    Representation(Seq<char>, ScalarStyle, Option<TagView>),
    Alias(usize),
    BadValue,
}

/// The model of an optional tag.
pub open spec fn tag_option_view(tag: Option<Tag>) -> Option<TagView> {
    match tag {
        Some(t) => Some(t@),
        None => None,
    }
}

impl Node {
    /// The model of the node: the same tree over sequences of models.
    pub open spec fn model(self) -> NodeView
        decreases self,
    {
        match self {
            Node::Value(s) => NodeView::Value(s@),
            Node::Sequence(items) => NodeView::Sequence(
                Seq::new(
                    items.len() as nat,
                    |i: int|
                        if 0 <= i < items.len() {
                            items[i].model()
                        } else {
                            NodeView::BadValue
                        },
                ),
            ),
            Node::Mapping(entries) => NodeView::Mapping(
                Seq::new(
                    entries.len() as nat,
                    |i: int|
                        if 0 <= i < entries.len() {
                            (entries[i].0.model(), entries[i].1.model())
                        } else {
                            (NodeView::BadValue, NodeView::BadValue)
                        },
                ),
            ),
            Node::Tagged(tag, inner) => NodeView::Tagged(tag@, Box::new((*inner).model())),
            Node::Representation(raw, style, tag) => NodeView::Representation(
                raw@,
                style,
                tag_option_view(tag),
            ),
            Node::Alias(anchor) => NodeView::Alias(anchor),
            Node::BadValue => NodeView::BadValue,
        }
    }
}

impl View for Node {
    type V = NodeView;

    open spec fn view(&self) -> NodeView {
        self.model()
    }
}

/// The models of a vector of nodes.
pub open spec fn node_views(items: Seq<Node>) -> Seq<NodeView> {
    Seq::new(items.len(), |i: int| items[i]@)
}

/// The models of a vector of key and value pairs.
pub open spec fn entry_views(entries: Seq<(Node, Node)>) -> Seq<(NodeView, NodeView)> {
    Seq::new(entries.len(), |i: int| (entries[i].0@, entries[i].1@))
}

/// A sequence node's model is made of the models of its items.
pub proof fn lemma_sequence_view(items: Vec<Node>)
    ensures
        Node::Sequence(items)@ == NodeView::Sequence(node_views(items@)),
{
    assert(Node::Sequence(items)@->Sequence_0 =~= node_views(items@));
}

/// A mapping node's model is made of the models of its entries.
pub proof fn lemma_mapping_view(entries: Vec<(Node, Node)>)
    ensures
        Node::Mapping(entries)@ == NodeView::Mapping(entry_views(entries@)),
{
    assert(Node::Mapping(entries)@->Mapping_0 =~= entry_views(entries@));
}

/// Whether the bit pattern is a NaN: every exponent bit set and a fraction
/// that is not zero.
pub open spec fn is_nan(bits: u64) -> bool {
    (bits / 0x10_0000_0000_0000) % 0x800 == 0x7ff && bits % 0x10_0000_0000_0000 != 0
}

/// Whether the bit pattern is one of the two zeros.
pub open spec fn is_zero(bits: u64) -> bool {
    bits == 0 || bits == 0x8000_0000_0000_0000
}

/// Whether two doubles are the same mapping key: two NaNs are, the two zeros
/// are, and otherwise only equal bit patterns.
pub open spec fn same_float(a: u64, b: u64) -> bool {
    if is_nan(a) {
        is_nan(b)
    } else {
        a == b || (is_zero(a) && is_zero(b))
    }
}

/// Whether two scalars are the same mapping key.
pub open spec fn same_scalar(a: ScalarView, b: ScalarView) -> bool {
    match (a, b) {
        (ScalarView::Float(x), ScalarView::Float(y)) => same_float(x, y),
        _ => a == b,
    }
}

/// Whether two nodes are the same mapping key: the same tree, order of
/// entries included, with doubles compared by [`same_float`].
pub open spec fn same_node(a: NodeView, b: NodeView) -> bool
    decreases a,
{
    match (a, b) {
        (NodeView::Value(x), NodeView::Value(y)) => same_scalar(x, y),
        (NodeView::Sequence(s), NodeView::Sequence(t)) => {
            &&& s.len() == t.len()
            &&& forall|i: int| 0 <= i < s.len() ==> same_node(#[trigger] s[i], t[i])
        },
        (NodeView::Mapping(s), NodeView::Mapping(t)) => {
            &&& s.len() == t.len()
            &&& forall|i: int|
                0 <= i < s.len() ==> same_node((#[trigger] s[i]).0, t[i].0) && same_node(
                    s[i].1,
                    t[i].1,
                )
        },
        (NodeView::Tagged(t1, n1), NodeView::Tagged(t2, n2)) => t1 == t2 && same_node(*n1, *n2),
        (NodeView::Representation(r1, s1, t1), NodeView::Representation(r2, s2, t2)) => r1 == r2
            && s1 == s2 && t1 == t2,
        (NodeView::Alias(i), NodeView::Alias(j)) => i == j,
        (NodeView::BadValue, NodeView::BadValue) => true,
        _ => false,
    }
}

/// No two entries have the same key.
pub open spec fn distinct_keys(entries: Seq<(NodeView, NodeView)>) -> bool {
    forall|i: int, j: int|
        0 <= i < j < entries.len() ==> !same_node(
            (#[trigger] entries[i]).0,
            (#[trigger] entries[j]).0,
        )
}

/// Every mapping in the tree has distinct keys.
pub open spec fn well_formed(n: NodeView) -> bool
    decreases n,
{
    match n {
        NodeView::Sequence(s) => {
            forall|i: int| 0 <= i < s.len() ==> well_formed(#[trigger] s[i])
        },
        NodeView::Mapping(m) => {
            &&& distinct_keys(m)
            &&& forall|i: int|
                0 <= i < m.len() ==> well_formed((#[trigger] m[i]).0) && well_formed(m[i].1)
        },
        NodeView::Tagged(_, inner) => well_formed(*inner),
        _ => true,
    }
}

/// No raw representation in the tree is in literal or folded style; the
/// emitter has no form for those.
pub open spec fn emittable(n: NodeView) -> bool
    decreases n,
{
    match n {
        NodeView::Sequence(s) => {
            forall|i: int| 0 <= i < s.len() ==> emittable(#[trigger] s[i])
        },
        NodeView::Mapping(m) => {
            forall|i: int|
                0 <= i < m.len() ==> emittable((#[trigger] m[i]).0) && emittable(m[i].1)
        },
        NodeView::Tagged(_, inner) => emittable(*inner),
        NodeView::Representation(_, style, _) => style != ScalarStyle::Literal && style
            != ScalarStyle::Folded,
        _ => true,
    }
}

/// Whether the tree holds an alias anywhere: the node itself, an item, a
/// key or a value, or the node under a tag.
pub open spec fn contains_alias(n: NodeView) -> bool
    decreases n,
{
    match n {
        NodeView::Alias(_) => true,
        NodeView::Sequence(s) => {
            exists|i: int| 0 <= i < s.len() && contains_alias(#[trigger] s[i])
        },
        NodeView::Mapping(m) => {
            exists|i: int|
                0 <= i < m.len() && (contains_alias((#[trigger] m[i]).0) || contains_alias(
                    m[i].1,
                ))
        },
        NodeView::Tagged(_, inner) => contains_alias(*inner),
        _ => false,
    }
}

/// A sequence holds an alias where one of its items does.
pub proof fn lemma_contains_alias_sequence(s: Seq<NodeView>)
    ensures
        contains_alias(NodeView::Sequence(s)) == (exists|i: int|
            0 <= i < s.len() && contains_alias(#[trigger] s[i])),
{
    let n = NodeView::Sequence(s);
    assert(n->Sequence_0 == s);
}

/// A mapping holds an alias where one of its keys or values does.
pub proof fn lemma_contains_alias_mapping(m: Seq<(NodeView, NodeView)>)
    ensures
        contains_alias(NodeView::Mapping(m)) == (exists|i: int|
            0 <= i < m.len() && (contains_alias((#[trigger] m[i]).0) || contains_alias(m[i].1))),
{
    let n = NodeView::Mapping(m);
    assert(n->Mapping_0 == m);
}

/// A sequence is emittable where each item is.
pub proof fn lemma_emittable_sequence(s: Seq<NodeView>)
    ensures
        emittable(NodeView::Sequence(s)) == (forall|i: int|
            0 <= i < s.len() ==> emittable(#[trigger] s[i])),
{
    let n = NodeView::Sequence(s);
    assert(n->Sequence_0 == s);
}

/// A mapping is emittable where each key and each value is.
pub proof fn lemma_emittable_mapping(m: Seq<(NodeView, NodeView)>)
    ensures
        emittable(NodeView::Mapping(m)) == (forall|i: int|
            0 <= i < m.len() ==> emittable((#[trigger] m[i]).0) && emittable(m[i].1)),
{
    let n = NodeView::Mapping(m);
    assert(n->Mapping_0 == m);
}

/// A sequence is well formed where each item is.
pub proof fn lemma_well_formed_sequence(s: Seq<NodeView>)
    ensures
        well_formed(NodeView::Sequence(s)) == (forall|i: int|
            0 <= i < s.len() ==> well_formed(#[trigger] s[i])),
{
    let n = NodeView::Sequence(s);
    assert(n->Sequence_0 == s);
}

/// A mapping is well formed where its keys are distinct and each key and
/// each value is well formed.
pub proof fn lemma_well_formed_mapping(m: Seq<(NodeView, NodeView)>)
    ensures
        well_formed(NodeView::Mapping(m)) == (distinct_keys(m) && forall|i: int|
            0 <= i < m.len() ==> well_formed((#[trigger] m[i]).0) && well_formed(m[i].1)),
{
    let n = NodeView::Mapping(m);
    assert(n->Mapping_0 == m);
}

/// Tests whether the bit pattern is a NaN.
pub fn is_nan_bits(bits: u64) -> (r: bool)
    ensures
        r == is_nan(bits),
{
    (bits / 0x10_0000_0000_0000) % 0x800 == 0x7ff && bits % 0x10_0000_0000_0000 != 0
}

impl Tag {
    /// A tag with the same handle and suffix.
    pub fn duplicate(&self) -> (r: Tag)
        ensures
            r@ == self@,
    {
        Tag { handle: self.handle.clone(), suffix: self.suffix.clone() }
    }
}

/// A copy of an optional tag.
pub fn duplicate_tag_option(tag: &Option<Tag>) -> (r: Option<Tag>)
    ensures
        tag_option_view(r) == tag_option_view(*tag),
{
    match tag {
        Some(t) => Some(t.duplicate()),
        None => None,
    }
}

impl Scalar {
    /// A scalar with the same content.
    pub fn duplicate(&self) -> (r: Scalar)
        ensures
            r@ == self@,
    {
        match self {
            Scalar::Null => Scalar::Null,
            Scalar::Boolean(b) => Scalar::Boolean(*b),
            Scalar::Integer(i) => Scalar::Integer(*i),
            Scalar::Float(bits) => Scalar::Float(*bits),
            Scalar::Text(s) => Scalar::Text(s.clone()),
        }
    }
}

impl Node {
    /// A node with the same content.
    pub fn duplicate(&self) -> (r: Node)
        ensures
            r@ == self@,
        decreases self,
    {
        match self {
            Node::Value(s) => Node::Value(s.duplicate()),
            Node::Sequence(items) => {
                let mut out: Vec<Node> = Vec::new();
                let mut i: usize = 0;
                while i < items.len()
                    invariant
                        i <= items.len(),
                        out.len() == i,
                        self is Sequence && self->Sequence_0 == *items,
                        forall|j: int| 0 <= j < i ==> (#[trigger] out@[j])@ == items@[j]@,
                    decreases items.len() - i,
                {
                    assert(decreases_to!(self->Sequence_0 => items[i as int]));
                    let copy = items[i].duplicate();
                    out.push(copy);
                    i = i + 1;
                }
                proof {
                    lemma_sequence_view(out);
                    lemma_sequence_view(*items);
                    assert(node_views(out@) =~= node_views(items@));
                }
                Node::Sequence(out)
            },
            Node::Mapping(entries) => {
                let mut out: Vec<(Node, Node)> = Vec::new();
                let mut i: usize = 0;
                while i < entries.len()
                    invariant
                        i <= entries.len(),
                        out.len() == i,
                        self is Mapping && self->Mapping_0 == *entries,
                        forall|j: int|
                            0 <= j < i ==> (#[trigger] out@[j]).0@ == entries@[j].0@ && out@[j].1@
                                == entries@[j].1@,
                    decreases entries.len() - i,
                {
                    assert(decreases_to!(self->Mapping_0 => entries[i as int]));
                    let key = entries[i].0.duplicate();
                    let value = entries[i].1.duplicate();
                    out.push((key, value));
                    i = i + 1;
                }
                proof {
                    lemma_mapping_view(out);
                    lemma_mapping_view(*entries);
                    assert(entry_views(out@) =~= entry_views(entries@));
                }
                Node::Mapping(out)
            },
            Node::Tagged(tag, inner) => Node::Tagged(tag.duplicate(), Box::new(inner.duplicate())),
            Node::Representation(raw, style, tag) => Node::Representation(
                raw.clone(),
                *style,
                duplicate_tag_option(tag),
            ),
            Node::Alias(anchor) => Node::Alias(*anchor),
            Node::BadValue => Node::BadValue,
        }
    }

    /// Tests whether the tree holds an alias anywhere.
    pub fn has_alias(&self) -> (r: bool)
        ensures
            r == contains_alias(self@),
        decreases self,
    {
        match self {
            Node::Alias(_) => true,
            Node::Sequence(items) => {
                proof {
                    lemma_sequence_view(*items);
                }
                let mut i: usize = 0;
                while i < items.len()
                    invariant
                        i <= items.len(),
                        self is Sequence && self->Sequence_0 == *items,
                        self@ == NodeView::Sequence(node_views(items@)),
                        forall|j: int|
                            0 <= j < i ==> !contains_alias(#[trigger] node_views(items@)[j]),
                    decreases items.len() - i,
                {
                    assert(decreases_to!(self->Sequence_0 => items[i as int]));
                    if items[i].has_alias() {
                        proof {
                            lemma_contains_alias_sequence(node_views(items@));
                            assert(contains_alias(node_views(items@)[i as int]));
                        }
                        return true;
                    }
                    i = i + 1;
                }
                proof {
                    lemma_contains_alias_sequence(node_views(items@));
                }
                false
            },
            Node::Mapping(entries) => {
                proof {
                    lemma_mapping_view(*entries);
                }
                let mut i: usize = 0;
                while i < entries.len()
                    invariant
                        i <= entries.len(),
                        self is Mapping && self->Mapping_0 == *entries,
                        self@ == NodeView::Mapping(entry_views(entries@)),
                        forall|j: int|
                            0 <= j < i ==> !contains_alias(
                                (#[trigger] entry_views(entries@)[j]).0,
                            ) && !contains_alias(entry_views(entries@)[j].1),
                    decreases entries.len() - i,
                {
                    assert(decreases_to!(self->Mapping_0 => entries[i as int]));
                    if entries[i].0.has_alias() || entries[i].1.has_alias() {
                        proof {
                            lemma_contains_alias_mapping(entry_views(entries@));
                            assert(contains_alias(entry_views(entries@)[i as int].0)
                                || contains_alias(entry_views(entries@)[i as int].1));
                        }
                        return true;
                    }
                    i = i + 1;
                }
                proof {
                    lemma_contains_alias_mapping(entry_views(entries@));
                }
                false
            },
            Node::Tagged(_, inner) => inner.has_alias(),
            _ => false,
        }
    }

    /// Tests whether no raw representation in the tree is in literal or
    /// folded style.
    pub fn is_emittable(&self) -> (r: bool)
        ensures
            r == emittable(self@),
        decreases self,
    {
        match self {
            Node::Sequence(items) => {
                proof {
                    lemma_sequence_view(*items);
                    lemma_emittable_sequence(node_views(items@));
                }
                let mut i: usize = 0;
                while i < items.len()
                    invariant
                        i <= items.len(),
                        self is Sequence && self->Sequence_0 == *items,
                        self@ == NodeView::Sequence(node_views(items@)),
                        forall|j: int| 0 <= j < i ==> emittable(#[trigger] node_views(items@)[j]),
                    decreases items.len() - i,
                {
                    assert(decreases_to!(self->Sequence_0 => items[i as int]));
                    if !items[i].is_emittable() {
                        proof {
                            lemma_emittable_sequence(node_views(items@));
                            assert(!emittable(node_views(items@)[i as int]));
                        }
                        return false;
                    }
                    i = i + 1;
                }
                true
            },
            Node::Mapping(entries) => {
                proof {
                    lemma_mapping_view(*entries);
                    lemma_emittable_mapping(entry_views(entries@));
                }
                let mut i: usize = 0;
                while i < entries.len()
                    invariant
                        i <= entries.len(),
                        self is Mapping && self->Mapping_0 == *entries,
                        self@ == NodeView::Mapping(entry_views(entries@)),
                        forall|j: int|
                            0 <= j < i ==> emittable((#[trigger] entry_views(entries@)[j]).0)
                                && emittable(entry_views(entries@)[j].1),
                    decreases entries.len() - i,
                {
                    assert(decreases_to!(self->Mapping_0 => entries[i as int]));
                    if !entries[i].0.is_emittable() || !entries[i].1.is_emittable() {
                        proof {
                            lemma_emittable_mapping(entry_views(entries@));
                            assert(!(emittable(entry_views(entries@)[i as int].0) && emittable(
                                entry_views(entries@)[i as int].1,
                            )));
                        }
                        return false;
                    }
                    i = i + 1;
                }
                true
            },
            Node::Tagged(_, inner) => inner.is_emittable(),
            Node::Representation(_, style, _) => !matches!(
                style,
                ScalarStyle::Literal | ScalarStyle::Folded
            ),
            _ => true,
        }
    }
}

} // verus!
