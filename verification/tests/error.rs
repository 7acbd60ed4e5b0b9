use yaml12::error::{Error, ErrorKind};

#[test]
fn every_error_has_a_kind_and_a_message() {
    let cases = vec![
        (Error::Parse("bad".to_string()), ErrorKind::Parse, "YAML parse error: bad"),
        (
            Error::MissingLine,
            ErrorKind::TypeMismatch,
            "`text` must not contain missing strings",
        ),
        (
            Error::Alias,
            ErrorKind::UnsupportedConstruct,
            "Unsupported YAML: YAML aliases are not supported",
        ),
        (
            Error::BadScalar,
            ErrorKind::UnsupportedConstruct,
            "Unsupported YAML: Encountered an invalid YAML scalar value",
        ),
        (
            Error::UnsupportedKind("Function".to_string()),
            ErrorKind::TypeMismatch,
            "Unsupported type Function for YAML conversion",
        ),
        (
            Error::NotAList,
            ErrorKind::TypeMismatch,
            "`value` must be a list when `multi` is set",
        ),
        (
            Error::MalformedTag("point".to_string()),
            ErrorKind::MalformedTag,
            "Invalid YAML tag `point`",
        ),
        (
            Error::MalformedTag(String::new()),
            ErrorKind::MalformedTag,
            "`yaml_tag` attribute must not be the empty string",
        ),
        (
            Error::KeyCount,
            ErrorKind::MalformedKey,
            "`yaml_keys` attribute must have the same length as the list",
        ),
        (
            Error::KeyForm,
            ErrorKind::MalformedKey,
            "Unsupported YAML: a mapping key has no YAML text",
        ),
        (Error::KeyText("w".to_string()), ErrorKind::MalformedKey, "Unsupported YAML: w"),
        (Error::InvalidDate, ErrorKind::InvalidTemporal, "Invalid Date value"),
        (Error::InvalidTimestamp, ErrorKind::InvalidTemporal, "Invalid POSIXct value"),
        (Error::NodeForm, ErrorKind::Emit, "The node has no YAML text"),
        (Error::Emit("w".to_string()), ErrorKind::Emit, "w"),
    ];
    for (error, kind, message) in cases {
        assert_eq!(error.kind(), kind);
        assert_eq!(error.message(), message);
    }
}
