//! The ways in which a conversion can fail.

use vstd::prelude::*;

verus! {

/// A failed conversion. The first failure met ends the conversion.
#[derive(Clone, Debug, PartialEq, Eq)]
pub enum Error {
    /// The text is not well-formed YAML; holds the parser's message.
    Parse(String),
    /// One of the lines of the input text is missing.
    MissingLine,
    /// The document holds an alias; shared nodes are not modelled.
    Alias,
    /// The document holds a scalar whose text does not fit its tag.
    BadScalar,
    /// A host value of a kind that has no YAML form; holds the kind's name.
    UnsupportedKind(String),
    /// Several documents were asked for from a value that is not a list.
    NotAList,
    /// A tag attribute that has no `!`, or nothing after its last `!`; holds
    /// the attribute.
    MalformedTag(String),
    /// A keys side-channel whose length is not that of its collection.
    KeyCount,
    /// A mapping key that cannot be written as text: one mapping in it gives
    /// a key twice, or it holds a raw scalar in a block style.
    KeyForm,
    /// The emitter failed on a mapping key; holds its message.
    KeyText(String),
    /// A date that is not a whole number of days, or lies out of range.
    InvalidDate,
    /// An instant that is not finite, or lies out of range.
    InvalidTimestamp,
    /// A node that cannot be written as text: one mapping in it gives a key
    /// twice, or it holds a raw scalar in a block style.
    NodeForm,
    /// The emitter failed on a document; holds its message.
    Emit(String),
}

/// The model of an [`Error`].
pub enum ErrorView {
    Parse(Seq<char>),
    MissingLine,
    Alias,
    BadScalar,
    UnsupportedKind(Seq<char>),
    NotAList,
    MalformedTag(Seq<char>),
    KeyCount,
    KeyForm,
    KeyText(Seq<char>),
    InvalidDate,
    InvalidTimestamp,
    NodeForm,
    Emit(Seq<char>),
}

impl View for Error {
    type V = ErrorView;

    open spec fn view(&self) -> ErrorView {
        match self {
            Error::Parse(m) => ErrorView::Parse(m@),
            Error::MissingLine => ErrorView::MissingLine,
            Error::Alias => ErrorView::Alias,
            Error::BadScalar => ErrorView::BadScalar,
            Error::UnsupportedKind(k) => ErrorView::UnsupportedKind(k@),
            Error::NotAList => ErrorView::NotAList,
            Error::MalformedTag(t) => ErrorView::MalformedTag(t@),
            Error::KeyCount => ErrorView::KeyCount,
            Error::KeyForm => ErrorView::KeyForm,
            Error::KeyText(m) => ErrorView::KeyText(m@),
            Error::InvalidDate => ErrorView::InvalidDate,
            Error::InvalidTimestamp => ErrorView::InvalidTimestamp,
            Error::NodeForm => ErrorView::NodeForm,
            Error::Emit(m) => ErrorView::Emit(m@),
        }
    }
}

/// The classes of failure.
#[derive(Clone, Copy, Debug, PartialEq, Eq, Structural)]
pub enum ErrorKind {
    /// Malformed YAML syntax.
    Parse,
    /// A YAML construct that has no host form: an alias, a bad scalar.
    UnsupportedConstruct,
    /// A host value that has no YAML form.
    TypeMismatch,
    /// A tag attribute that is no tag.
    MalformedTag,
    /// A key that cannot be used.
    MalformedKey,
    /// A date or an instant that cannot be rendered.
    InvalidTemporal,
    /// A node that the emitter cannot write.
    Emit,
}

impl ErrorView {
    /// The class of the failure.
    pub open spec fn kind(self) -> ErrorKind {
        match self {
            ErrorView::Parse(_) => ErrorKind::Parse,
            ErrorView::Alias | ErrorView::BadScalar => ErrorKind::UnsupportedConstruct,
            ErrorView::MissingLine | ErrorView::UnsupportedKind(_) | ErrorView::NotAList =>
                ErrorKind::TypeMismatch,
            ErrorView::MalformedTag(_) => ErrorKind::MalformedTag,
            ErrorView::KeyCount | ErrorView::KeyForm | ErrorView::KeyText(_) =>
                ErrorKind::MalformedKey,
            ErrorView::InvalidDate | ErrorView::InvalidTimestamp => ErrorKind::InvalidTemporal,
            ErrorView::NodeForm | ErrorView::Emit(_) => ErrorKind::Emit,
        }
    }
}

impl Error {
    /// The class of the failure.
    pub fn kind(&self) -> (k: ErrorKind)
        ensures
            k == self@.kind(),
    {
        match self {
            Error::Parse(_) => ErrorKind::Parse,
            Error::Alias | Error::BadScalar => ErrorKind::UnsupportedConstruct,
            Error::MissingLine | Error::UnsupportedKind(_) | Error::NotAList =>
                ErrorKind::TypeMismatch,
            Error::MalformedTag(_) => ErrorKind::MalformedTag,
            Error::KeyCount | Error::KeyForm | Error::KeyText(_) => ErrorKind::MalformedKey,
            Error::InvalidDate | Error::InvalidTimestamp => ErrorKind::InvalidTemporal,
            Error::NodeForm | Error::Emit(_) => ErrorKind::Emit,
        }
    }
}

impl ErrorView {
    /// The failure in words.
    pub open spec fn message(self) -> Seq<char> {
        match self {
            ErrorView::Parse(m) => "YAML parse error: "@ + m,
            ErrorView::MissingLine => "`text` must not contain missing strings"@,
            ErrorView::Alias => "Unsupported YAML: YAML aliases are not supported"@,
            ErrorView::BadScalar => "Unsupported YAML: Encountered an invalid YAML scalar value"@,
            ErrorView::UnsupportedKind(k) => "Unsupported type "@ + k + " for YAML conversion"@,
            ErrorView::NotAList => "`value` must be a list when `multi` is set"@,
            ErrorView::MalformedTag(t) => if t.len() == 0 {
                "`yaml_tag` attribute must not be the empty string"@
            } else {
                "Invalid YAML tag `"@ + t + "`"@
            },
            ErrorView::KeyCount => "`yaml_keys` attribute must have the same length as the list"@,
            ErrorView::KeyForm => "Unsupported YAML: a mapping key has no YAML text"@,
            ErrorView::KeyText(m) => "Unsupported YAML: "@ + m,
            ErrorView::InvalidDate => "Invalid Date value"@,
            ErrorView::InvalidTimestamp => "Invalid POSIXct value"@,
            ErrorView::NodeForm => "The node has no YAML text"@,
            ErrorView::Emit(m) => m,
        }
    }
}

impl Error {
    /// The failure in words.
    pub fn message(&self) -> (r: String)
        ensures
            r@ == self@.message(),
    {
        match self {
            Error::Parse(m) => String::from_str("YAML parse error: ").concat(m.as_str()),
            Error::MissingLine => String::from_str("`text` must not contain missing strings"),
            Error::Alias => String::from_str("Unsupported YAML: YAML aliases are not supported"),
            Error::BadScalar => String::from_str(
                "Unsupported YAML: Encountered an invalid YAML scalar value",
            ),
            Error::UnsupportedKind(k) => String::from_str("Unsupported type ").concat(
                k.as_str(),
            ).concat(" for YAML conversion"),
            Error::NotAList => String::from_str("`value` must be a list when `multi` is set"),
            Error::MalformedTag(t) => if t.as_str().unicode_len() == 0 {
                String::from_str("`yaml_tag` attribute must not be the empty string")
            } else {
                String::from_str("Invalid YAML tag `").concat(t.as_str()).concat("`")
            },
            Error::KeyCount => String::from_str(
                "`yaml_keys` attribute must have the same length as the list",
            ),
            Error::KeyForm => String::from_str("Unsupported YAML: a mapping key has no YAML text"),
            Error::KeyText(m) => String::from_str("Unsupported YAML: ").concat(m.as_str()),
            Error::InvalidDate => String::from_str("Invalid Date value"),
            Error::InvalidTimestamp => String::from_str("Invalid POSIXct value"),
            Error::NodeForm => String::from_str("The node has no YAML text"),
            Error::Emit(m) => m.clone(),
        }
    }
}

} // verus!
