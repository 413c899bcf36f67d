#![allow(non_snake_case)]

use ofx::error::ParseError;
use ofx::header::{
    header_charset_value, header_data_value, header_encoding_value, header_file_id_value,
    header_security_value, header_value, none, ofx, v1_header, v1_header_entry,
};
use ofx::model::{Charset, Data, Encoding, HeaderEntry, Ofx, Security};
use ofx::sgml::unsigned_integer;

const SAMPLE: &str = "OFXHEADER:100\n\
                      DATA:OFXSGML\n\
                      VERSION:102\n\
                      SECURITY:NONE\n\
                      ENCODING:USASCII\n\
                      CHARSET:1252\n\
                      COMPRESSION:NONE\n\
                      OLDFILEUID:NONE\n\
                      NEWFILEUID:NONE";

fn sample_entries() -> Vec<HeaderEntry> {
    vec![
        HeaderEntry::OfxHeader(100u32),
        HeaderEntry::Data(Data::OfxSgml),
        HeaderEntry::Version(102u32),
        HeaderEntry::Security(None),
        HeaderEntry::Encoding(Encoding::UsAscii),
        HeaderEntry::Charset(Some(Charset::Windows1252)),
        HeaderEntry::Compression,
        HeaderEntry::OldFileUid(None),
        HeaderEntry::NewFileUid(None),
    ]
}

#[test]
fn v1_header__basic_sample__match() {
    assert_eq!(v1_header(SAMPLE), Ok(("", sample_entries())));
}

#[test]
fn v1_header_entry__valid_charset__match() {
    assert_eq!(
        v1_header_entry("CHARSET:1252"),
        Ok(("", HeaderEntry::Charset(Some(Charset::Windows1252))))
    );
}

#[test]
fn v1_header_entry__unknown__match() {
    assert_eq!(
        v1_header_entry("FOO:BAR"),
        Ok(("", HeaderEntry::Unknown(String::from("FOO"), String::from("BAR"))))
    );
}

#[test]
fn v1_header_entry__no_separator__no_match() {
    assert!(v1_header_entry("CHARSET1252").is_err());
}

#[test]
fn header_value__valid_charset__match() {
    assert_eq!(
        header_value("CHARSET", "1252"),
        Ok(("", HeaderEntry::Charset(Some(Charset::Windows1252))))
    );
}

#[test]
fn header_value__unknown__match() {
    assert_eq!(
        header_value("FOO", "BAR"),
        Ok(("", HeaderEntry::Unknown(String::from("FOO"), String::from("BAR"))))
    );
}

#[test]
fn header_charset_value__iso88591__match() {
    assert_eq!(header_charset_value("ISO-8859-1"), Ok(("", Some(Charset::Iso88591))));
}

#[test]
fn header_charset_value__1252__match() {
    assert_eq!(header_charset_value("1252"), Ok(("", Some(Charset::Windows1252))));
}

#[test]
fn header_charset_value__other_input__no_match() {
    assert!(header_charset_value("asdf").is_err());
}

#[test]
fn header_data_value__ofxsgml__match() {
    assert_eq!(header_data_value("OFXSGML"), Ok(("", Data::OfxSgml)));
}

#[test]
fn header_data_value__other_input__match() {
    assert_eq!(header_data_value("ASDF"), Ok(("", Data::Other(String::from("ASDF")))));
}

#[test]
fn header_encoding_value__utf8__match() {
    assert_eq!(header_encoding_value("UTF-8"), Ok(("", Encoding::Utf8)));
}

#[test]
fn header_encoding_value__usascii__match() {
    assert_eq!(header_encoding_value("USASCII"), Ok(("", Encoding::UsAscii)));
}

#[test]
fn header_encoding_value__other_input__no_match() {
    assert!(header_encoding_value("ASDF").is_err());
}

#[test]
fn header_file_id_value__none__match() {
    assert_eq!(header_file_id_value("NONE"), Ok(("", None)));
}

#[test]
fn header_file_id_value__other_input__match() {
    assert_eq!(header_file_id_value("FOO123"), Ok(("", Some(String::from("FOO123")))));
}

#[test]
fn header_security_value__none__match() {
    assert_eq!(header_security_value("NONE"), Ok(("", None)));
}

#[test]
fn header_security_value__type1__match() {
    assert_eq!(header_security_value("TYPE1"), Ok(("", Some(Security::Type1))));
}

#[test]
fn header_security_value__other_input__no_match() {
    assert!(header_security_value("ASDF").is_err());
}

#[test]
fn none__none_input__match() {
    assert_eq!(none("NONE"), Ok(("", "NONE")));
}

#[test]
fn none__other_input__no_match() {
    assert!(none("NONO").is_err());
}

#[test]
fn parser_unsigned_integer__zero__match() {
    assert_eq!(unsigned_integer("0"), Ok(("", 0u32)));
}

#[test]
fn parser_unsigned_integer__large_number__match() {
    assert_eq!(unsigned_integer("1234567890"), Ok(("", 1234567890u32)));
}

#[test]
fn parser_unsigned_integer__negative__no_match() {
    assert!(unsigned_integer("-123").is_err());
}

#[test]
fn ofx__basic_sample__headers() {
    assert_eq!(ofx(SAMPLE), Ok(("", Ofx { headers: sample_entries() })));
}

#[test]
fn v1_header__body_follows__rest_starts_at_line_ending() {
    assert_eq!(
        v1_header("VERSION:102\r\nDATA:OFXSGML\n\n<OFX>"),
        Ok(("\n\n<OFX>", vec![HeaderEntry::Version(102), HeaderEntry::Data(Data::OfxSgml)]))
    );
}

#[test]
fn v1_header__no_entry__empty() {
    assert_eq!(v1_header("<OFX>"), Ok(("<OFX>", vec![])));
    assert_eq!(v1_header(""), Ok(("", vec![])));
}

#[test]
fn v1_header__value_not_accepted__syntax_error() {
    assert_eq!(v1_header("VERSION:102\nCHARSET:asdf\n"), Err(ParseError::Syntax));
    assert_eq!(v1_header("ENCODING:LATIN"), Err(ParseError::Syntax));
}

#[test]
fn v1_header__number_too_large__numeric_range_error() {
    assert_eq!(v1_header("OFXHEADER:4294967295"), Ok(("", vec![HeaderEntry::OfxHeader(u32::MAX)])));
    assert_eq!(v1_header("OFXHEADER:4294967296"), Err(ParseError::NumericRange));
    assert_eq!(v1_header_entry("VERSION:99999999999999999999"), Err(ParseError::NumericRange));
}

#[test]
fn v1_header__leading_zeros__accepted() {
    assert_eq!(v1_header_entry("VERSION:000102"), Ok(("", HeaderEntry::Version(102))));
}

#[test]
fn header_value__compression__value_ignored() {
    assert_eq!(header_value("COMPRESSION", "anything at all\nNEXT"), Ok(("\nNEXT", HeaderEntry::Compression)));
    assert_eq!(header_value("COMPRESSION", ""), Ok(("", HeaderEntry::Compression)));
}

#[test]
fn header_value__keys_are_case_sensitive() {
    assert_eq!(
        header_value("charset", "1252"),
        Ok(("", HeaderEntry::Unknown(String::from("charset"), String::from("1252"))))
    );
}

#[test]
fn header_value__lone_carriage_return__syntax_error() {
    assert_eq!(header_value("FOO", "ab\rcd"), Err(ParseError::Syntax));
    assert_eq!(header_value("FOO", "ab\r\ncd"), Ok(("\r\ncd", HeaderEntry::Unknown(String::from("FOO"), String::from("ab")))));
}

#[test]
fn header_data_value__prefix_wins() {
    assert_eq!(header_data_value("OFXSGMLX"), Ok(("X", Data::OfxSgml)));
    assert_eq!(header_file_id_value("NONESUCH"), Ok(("SUCH", None)));
    assert_eq!(header_file_id_value(""), Ok(("", Some(String::new()))));
}
