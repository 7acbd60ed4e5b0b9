//! The host side of the conversion: vectors of scalars with missing
//! elements, lists, and the attributes that travel with a value.

use vstd::prelude::*;

verus! {

/// The missing element of an integer vector.
pub const MISSING_INTEGER: i32 = -2147483648;

/// What a value holds, by kind.
#[derive(Debug, PartialEq, Eq)]
pub enum Data {
    /// The null value.
    Null,
    /// Booleans; `None` is a missing element.
    Logicals(Vec<Option<bool>>),
    /// Native integers; [`MISSING_INTEGER`] is a missing element.
    Integers(Vec<i32>),
    /// Doubles as IEEE 754 bit patterns; a NaN is a missing element.
    Doubles(Vec<u64>),
    /// Texts; `None` is a missing element.
    Strings(Vec<Option<String>>),
    /// An ordered collection of values.
    List(Vec<Value>),
    /// A kind that has no YAML form, by its name.
    Unsupported(String),
}

/// A host value with its attributes.
#[derive(Debug, PartialEq, Eq)]
pub struct Value {
    /// The content.
    pub data: Data,
    /// The per-position names of a list; `None` inside is a missing name.
    pub names: Option<Vec<Option<String>>>,
    /// The keys side-channel of a list: one raw key for each element.
    pub keys: Option<Vec<Value>>,
    /// The tag attribute.
    pub tag: Option<String>,
    /// The type markers, such as `Date` or `POSIXct`.
    pub classes: Vec<String>,
}

/// The model of [`Data`].
pub enum DataView {
    Null,
    Logicals(Seq<Option<bool>>),
    Integers(Seq<i32>),
    Doubles(Seq<u64>),
    Strings(Seq<Option<Seq<char>>>),
    List(Seq<ValueView>),
    Unsupported(Seq<char>),
}

/// The model of a [`Value`].
pub struct ValueView {
    pub data: DataView,
    pub names: Option<Seq<Option<Seq<char>>>>,
    pub keys: Option<Seq<ValueView>>,
    pub tag: Option<Seq<char>>,
    pub classes: Seq<Seq<char>>,
}

/// The model of an optional text.
pub open spec fn text_option_view(t: Option<String>) -> Option<Seq<char>> {
    match t {
        Some(s) => Some(s@),
        None => None,
    }
}

/// The models of a vector of optional texts.
pub open spec fn text_options_view(v: Seq<Option<String>>) -> Seq<Option<Seq<char>>> {
    Seq::new(v.len(), |i: int| text_option_view(v[i]))
}

/// The models of a vector of texts.
pub open spec fn texts_view(v: Seq<String>) -> Seq<Seq<char>> {
    Seq::new(v.len(), |i: int| v[i]@)
}

/// The models of a vector of values.
pub open spec fn value_views(v: Seq<Value>) -> Seq<ValueView> {
    Seq::new(v.len(), |i: int| v[i]@)
}

impl Data {
    /// The model of the content.
    pub open spec fn model(self) -> DataView
        decreases self,
    {
        match self {
            Data::Null => DataView::Null,
            Data::Logicals(v) => DataView::Logicals(v@),
            Data::Integers(v) => DataView::Integers(v@),
            Data::Doubles(v) => DataView::Doubles(v@),
            Data::Strings(v) => DataView::Strings(text_options_view(v@)),
            Data::List(items) => DataView::List(
                Seq::new(
                    items.len() as nat,
                    |i: int|
                        if 0 <= i < items.len() {
                            items[i].model()
                        } else {
                            ValueView::null()
                        },
                ),
            ),
            Data::Unsupported(kind) => DataView::Unsupported(kind@),
        }
    }
}

impl Value {
    /// The model of the value.
    pub open spec fn model(self) -> ValueView
        decreases self,
    {
        ValueView {
            data: self.data.model(),
            names: match self.names {
                Some(n) => Some(text_options_view(n@)),
                None => None,
            },
            keys: match self.keys {
                Some(k) => Some(
                    Seq::new(
                        k.len() as nat,
                        |i: int|
                            if 0 <= i < k.len() {
                                k[i].model()
                            } else {
                                ValueView::null()
                            },
                    ),
                ),
                None => None,
            },
            tag: text_option_view(self.tag),
            classes: texts_view(self.classes@),
        }
    }
}

impl View for Data {
    type V = DataView;

    open spec fn view(&self) -> DataView {
        self.model()
    }
}

impl View for Value {
    type V = ValueView;

    open spec fn view(&self) -> ValueView {
        self.model()
    }
}

impl ValueView {
    /// A value with this content and no attribute.
    pub open spec fn plain(data: DataView) -> ValueView {
        ValueView { data, names: None, keys: None, tag: None, classes: Seq::empty() }
    }

    /// The null value.
    pub open spec fn null() -> ValueView {
        ValueView::plain(DataView::Null)
    }
}

/// A list's model is made of the models of its items.
pub proof fn lemma_list_view(items: Vec<Value>)
    ensures
        Data::List(items)@ == DataView::List(value_views(items@)),
{
    assert(Data::List(items)@->List_0 =~= value_views(items@));
}

/// The model of a keys side-channel is made of the models of the keys.
pub proof fn lemma_keys_view(v: Value)
    ensures
        v@.keys == match v.keys {
            Some(k) => Some(value_views(k@)),
            None => None,
        },
        v@.data == v.data@,
        v@.names == match v.names {
            Some(n) => Some(text_options_view(n@)),
            None => None,
        },
        v@.tag == text_option_view(v.tag),
        v@.classes == texts_view(v.classes@),
{
    match v.keys {
        Some(k) => {
            assert(v@.keys->Some_0 =~= value_views(k@));
        },
        None => {},
    }
}

impl Value {
    /// A value with this content and no attribute.
    pub fn plain(data: Data) -> (v: Value)
        ensures
            v@ == ValueView::plain(data@),
    {
        let v = Value { data, names: None, keys: None, tag: None, classes: Vec::new() };
        assert(v@.classes =~= Seq::empty());
        v
    }
}

} // verus!
