#![allow(non_snake_case)]

use ofx::{
    Charset, Data, Encoding, HeaderEntry, MessageSetAggregate, Ofx, OfxError, ParseError,
    Security, ServerTime, Severity, SignonResponseMessage, Status,
};

#[test]
fn message_set_aggregate__ordered_as_listed() {
    assert!(MessageSetAggregate::SignonRequestsV1 < MessageSetAggregate::SignonRequestsV2);
    assert!(MessageSetAggregate::SignonResponsesV2 < MessageSetAggregate::SignupRequestsV1);
    assert!(
        MessageSetAggregate::ImageDownloadResponsesV1
            < MessageSetAggregate::Other(String::from("A"))
    );
    assert!(
        MessageSetAggregate::Other(String::from("A")) < MessageSetAggregate::Other(String::from("B"))
    );
    assert_eq!(
        MessageSetAggregate::Other(String::from("A")).clone(),
        MessageSetAggregate::Other(String::from("A"))
    );
}

#[test]
fn signon_response__fields_and_equality() {
    let status = Status { code: 0, severity: Severity::Info, message: String::from("OK") };
    let dt_server = ServerTime { timestamp: 1_192_414_529, nanosecond: 0, utc_offset: -28_800 };
    let message = SignonResponseMessage { status: status.clone(), dt_server };
    assert_eq!(message.clone(), message);
    assert_eq!(message.status, status);
    assert_eq!(message.dt_server.utc_offset, -28_800);
    assert_ne!(Severity::Error, Severity::Warn);
}

#[test]
fn header_entries__equality() {
    let document = Ofx {
        headers: vec![
            HeaderEntry::Charset(Some(Charset::Iso88591)),
            HeaderEntry::Data(Data::Other(String::from("X"))),
            HeaderEntry::Encoding(Encoding::Utf8),
            HeaderEntry::Security(Some(Security::Type1)),
            HeaderEntry::Unknown(String::from("K"), String::from("V")),
        ],
    };
    assert_eq!(document.clone(), document);
    assert_ne!(
        HeaderEntry::Unknown(String::from("K"), String::from("V")),
        HeaderEntry::Unknown(String::from("L"), String::from("V"))
    );
    assert_ne!(HeaderEntry::OldFileUid(None), HeaderEntry::NewFileUid(None));
}

#[test]
fn errors__kinds_are_told_apart() {
    assert_ne!(ParseError::Syntax, ParseError::Incomplete);
    assert_ne!(ParseError::Incomplete, ParseError::NumericRange);
    assert_eq!(
        OfxError::ParseError(ParseError::Syntax),
        OfxError::ParseError(ParseError::Syntax)
    );
    assert_ne!(
        OfxError::ParseError(ParseError::Syntax),
        OfxError::ParseError(ParseError::NumericRange)
    );
}
