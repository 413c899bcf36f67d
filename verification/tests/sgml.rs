#![allow(non_snake_case)]

use ofx::chars::{
    is_alphanumeric, is_breaking_whitespace, is_digit, is_lowercase, is_not_open_bracket,
    is_sgml_data_end, is_uppercase, is_whitespace,
};
use ofx::sgml::Entity;
use ofx::text::CharClass;
use ofx::error::ParseError;
use ofx::sgml::{
    not_open_bracket1, sgml_close_tag, sgml_data1, sgml_data_escaped, sgml_data_unescaped,
    sgml_open_tag, sgml_open_tag_named, tag_name, unsigned_integer, whitespace,
};

#[test]
fn sgml_open_tag__valid_tag__match() {
    assert_eq!(sgml_open_tag("<FOO>end"), Ok(("end", "FOO")));
}

#[test]
fn sgml_open_tag__lowercase_tag__no_match() {
    assert!(sgml_open_tag("<bad>end").is_err());
}

#[test]
fn sgml_open_tag__valid_tag_matching_any__match() {
    assert_eq!(sgml_open_tag("<FOO>end"), Ok(("end", "FOO")));
}

#[test]
fn sgml_open_tag__lowercase_tag_matching_any__no_match() {
    assert!(sgml_open_tag("<bad>end").is_err());
}

#[test]
fn sgml_open_tag__valid_tag_matching_specific__match() {
    assert_eq!(sgml_open_tag_named("FOO", "<FOO>end"), Ok(("end", "FOO")));
}

#[test]
fn sgml_open_tag__nonmatching_tag_matching_specific__no_match() {
    assert!(sgml_open_tag_named("FOO", "<BAR>end").is_err());
}

#[test]
fn sgml_open_tag_named__failures_are_syntax_errors() {
    for input in ["", "<", "<FOO", "<FOOD>", "<FO>", "</FOO>", " <FOO>"] {
        assert_eq!(sgml_open_tag_named("FOO", input), Err(ParseError::Syntax), "{:?}", input);
    }
    assert_eq!(sgml_open_tag_named("é", "<é>x"), Ok(("x", "é")));
}

#[test]
fn sgml_close_tag__valid_tag__match() {
    assert_eq!(sgml_close_tag("FOO", "</FOO>end"), Ok(("end", ())));
}

#[test]
fn sgml_sgml_close_tag__valid_tag__match() {
    assert_eq!(sgml_close_tag("FOO", "</FOO>end"), Ok(("end", ())));
}

#[test]
fn sgml_close_tag__different_tag__no_match() {
    assert!(sgml_close_tag("FOO", "</BAR>").is_err());
}

#[test]
fn sgml_sgml_close_tag__different_tag__no_match() {
    assert!(sgml_close_tag("FOO", "</BAR>").is_err());
}

#[test]
fn sgml_data1__immediate_open_bracket__no_match() {
    assert!(sgml_data1("</END>").is_err());
}

#[test]
fn sgml_sgml_data1__immediate_open_bracket__no_match() {
    assert!(sgml_data1("</END>").is_err());
}

#[test]
fn sgml_data1__data_with_whitespace__match() {
    assert_eq!(sgml_data_unescaped("a sdf 123  </END>"), Ok(("</END>", "a sdf 123  ")))
}

#[test]
fn sgml_data1__data_with_trailing_whitespace__match() {
    assert_eq!(sgml_data1("a sdf 123  </END>"), Ok(("</END>", vec!["a sdf 123"])))
}

#[test]
fn sgml_data1__data_with_escaped_chars__match() {
    assert_eq!(
        sgml_data1("&lt;test&gt; &amp;asdf&nbsp;</END>"),
        Ok(("</END>", vec!["<", "test", ">", " ", "&", "asdf", "\u{00a0}"]))
    )
}

#[test]
fn tag_name__immediate_end_bracket__no_match() {
    assert!(tag_name(">").is_err());
}

#[test]
fn sgml_tag_name__immediate_end_bracket__no_match() {
    assert!(tag_name(">").is_err());
}

#[test]
fn tag_name__uppercase_name__match() {
    assert_eq!(tag_name("FOO>"), Ok((">", "FOO")))
}

#[test]
fn sgml_tag_name__uppercase_name__match() {
    assert_eq!(tag_name("FOO>"), Ok((">", "FOO")))
}

#[test]
fn tag_name__lowercase_name__no_match() {
    assert!(tag_name("foo>").is_err());
}

#[test]
fn sgml_tag_name__lowercase_name__no_match() {
    assert!(tag_name("foo>").is_err());
}

#[test]
fn not_open_bracket1__immediate_bracket__no_match() {
    assert!(not_open_bracket1("<FOO").is_err());
}

#[test]
fn sgml_not_open_bracket1__immediate_bracket__no_match() {
    assert!(not_open_bracket1("<FOO").is_err());
}

#[test]
fn not_open_bracket1__no_brackets__full_match() {
    let input = " \tasdf1234>!$#$";
    assert_eq!(not_open_bracket1(input), Ok(("", input)));
}

#[test]
fn sgml_not_open_bracket1__no_brackets__full_match() {
    let input = " \tasdf1234>!$#$";
    assert_eq!(not_open_bracket1(input), Ok(("", input)));
}

#[test]
fn whitespace__multiple_whitespace_chars__match() {
    assert_eq!(whitespace(" \t \r\nend"), Ok(("end", " \t \r\n")));
}

#[test]
fn sgml_whitespace__multiple_whitespace_chars__match() {
    assert_eq!(whitespace(" \t \r\n"), Ok(("", " \t \r\n")));
}

#[test]
fn whitespace__not_whitespace__empty_match() {
    assert_eq!(whitespace("foo"), Ok(("foo", "")));
}

#[test]
fn sgml_whitespace__not_whitespace__empty_match() {
    assert_eq!(whitespace("foo"), Ok(("foo", "")));
}

#[test]
fn unsigned_integer__zero__match() {
    assert_eq!(unsigned_integer("0end"), Ok(("end", 0u32)));
}

#[test]
fn sgml_unsigned_integer__zero__match() {
    assert_eq!(unsigned_integer("0end"), Ok(("end", 0u32)));
}

#[test]
fn unsigned_integer__large_number__match() {
    assert_eq!(unsigned_integer("1234567890end"), Ok(("end", 1234567890u32)));
}

#[test]
fn sgml_unsigned_integer__large_number__match() {
    assert_eq!(unsigned_integer("1234567890end"), Ok(("end", 1234567890u32)));
}

#[test]
fn unsigned_integer__negative__no_match() {
    let input = "-123";
    assert!(unsigned_integer(input).is_err())
}

#[test]
fn sgml_unsigned_integer__negative__no_match() {
    let input = "-123";
    assert!(unsigned_integer(input).is_err())
}

#[test]
fn is_not_open_bracket__other_char__returns_true() {
    assert!(is_not_open_bracket('1'));
    assert!(is_not_open_bracket('>'));
}

#[test]
fn sgml_is_not_open_bracket__other_char__returns_true() {
    assert!(is_not_open_bracket('1'));
    assert!(is_not_open_bracket('>'));
}

#[test]
fn is_not_open_bracket__open_bracket__returns_false() {
    assert!(!is_not_open_bracket('<'));
}

#[test]
fn sgml_is_not_open_bracket__open_bracket__returns_false() {
    assert!(!is_not_open_bracket('<'));
}

#[test]
fn is_lowercase__lowercase_a__returns_true() {
    assert!(is_lowercase('a'));
}

#[test]
fn is_lowercase__capital_a__returns_false() {
    assert!(!is_lowercase('A'));
}

#[test]
fn is_uppercase__capital_a__returns_true() {
    assert!(is_uppercase('A'));
}

#[test]
fn sgml_is_uppercase__capital_a__returns_true() {
    assert!(is_uppercase('A'));
}

#[test]
fn is_uppercase__lowercase_a__returns_false() {
    assert!(!is_uppercase('a'));
}

#[test]
fn sgml_is_uppercase__lowercase_a__returns_false() {
    assert!(!is_uppercase('a'));
}

#[test]
fn is_whitespace__whitespace_char__returns_true() {
    let chars = ['\t', '\r', '\n', ' '];
    for c in &chars {
        assert!(is_whitespace(*c));
    }
}

#[test]
fn sgml_is_whitespace__whitespace_char__returns_true() {
    let chars = ['\t', '\r', '\n', ' '];
    for c in &chars {
        assert!(is_whitespace(*c));
    }
}

#[test]
fn is_whitespace__letter_char__returns_false() {
    assert!(!is_whitespace('a'));
}

#[test]
fn sgml_is_whitespace__letter_char__returns_false() {
    assert!(!is_whitespace('a'));
}

#[test]
fn classes__exact_code_points() {
    assert!(is_uppercase('Z') && !is_uppercase('[') && !is_uppercase('@'));
    assert!(!is_uppercase('\u{141}'));
    assert!(is_lowercase('z') && !is_lowercase('{') && !is_lowercase('`'));
    assert!(!is_whitespace('\u{109}') && !is_whitespace('\u{a0}'));
    assert!(!is_not_open_bracket('<') && is_not_open_bracket('\u{13c}'));
    assert!(is_breaking_whitespace(' ') && is_breaking_whitespace('\t'));
    assert!(is_breaking_whitespace('\r') && !is_breaking_whitespace('\n'));
    assert!(is_sgml_data_end('<') && is_sgml_data_end('&') && !is_sgml_data_end('>'));
}

#[test]
fn sgml_open_tag__failures_are_syntax_errors() {
    for input in ["", "<", "<>", "<FOO", "<FOO ", "<FOo>", "FOO>", "</FOO>", "<F1>"] {
        assert_eq!(sgml_open_tag(input), Err(ParseError::Syntax), "{:?}", input);
    }
}

#[test]
fn sgml_close_tag__failures_are_syntax_errors() {
    for input in ["", "<FOO>", "</FOO", "</FOOD>", "</>", " </FOO>"] {
        assert_eq!(sgml_close_tag("FOO", input), Err(ParseError::Syntax), "{:?}", input);
    }
    assert_eq!(sgml_close_tag("", "</>x"), Ok(("x", ())));
}

#[test]
fn sgml_data1__entities_in_order() {
    assert_eq!(sgml_data1("&lt;&gt;&amp;&nbsp;"), Ok(("", vec!["<", ">", "&", "\u{a0}"])));
}

#[test]
fn sgml_data1__cdata_is_passed_through() {
    assert_eq!(
        sgml_data1("<!CDATA[a <b> &amp; ]] c]]><X>"),
        Ok(("<X>", vec!["a <b> &amp; ]] c"]))
    );
    assert_eq!(sgml_data1("x<!CDATA[]]>y<"), Ok(("<", vec!["x", "", "y"])));
}

#[test]
fn sgml_data1__last_chunk_is_trimmed_or_dropped() {
    assert_eq!(sgml_data1("a&amp; \t\r<"), Ok(("<", vec!["a", "&"])));
    assert_eq!(sgml_data1("a \n<"), Ok(("<", vec!["a \n"])));
    assert_eq!(sgml_data1(" \t"), Ok(("", vec![])));
    assert_eq!(sgml_data1("<!CDATA[ ]]>"), Ok(("", vec![])));
    assert_eq!(sgml_data1("a <!CDATA[b ]]>"), Ok(("", vec!["a ", "b"])));
}

#[test]
fn sgml_data1__no_chunk__syntax_error() {
    assert_eq!(sgml_data1(""), Err(ParseError::Syntax));
    assert_eq!(sgml_data1("<FOO>"), Err(ParseError::Syntax));
    assert_eq!(sgml_data1("<!CDATA"), Err(ParseError::Syntax));
}

#[test]
fn sgml_data1__entity_not_known__syntax_error() {
    assert_eq!(sgml_data1("&quot;"), Err(ParseError::Syntax));
    assert_eq!(sgml_data1("abc&foo;def"), Err(ParseError::Syntax));
    assert_eq!(sgml_data1("a & b"), Err(ParseError::Syntax));
    assert_eq!(sgml_data1("&ltx"), Err(ParseError::Syntax));
    assert_eq!(sgml_data1("&LT;"), Err(ParseError::Syntax));
}

#[test]
fn sgml_data1__input_ends_within_a_form__incomplete() {
    for input in ["&", "&l", "&lt", "&am", "&amp", "&nbsp", "abc&g", "<!CDATA[", "x<!CDATA[abc]]"] {
        assert_eq!(sgml_data1(input), Err(ParseError::Incomplete), "{:?}", input);
    }
}

#[test]
fn sgml_data_escaped__each_form() {
    assert_eq!(sgml_data_escaped("&lt;x"), Ok(("x", "<")));
    assert_eq!(sgml_data_escaped("&gt;x"), Ok(("x", ">")));
    assert_eq!(sgml_data_escaped("&amp;x"), Ok(("x", "&")));
    assert_eq!(sgml_data_escaped("&nbsp;x"), Ok(("x", "\u{a0}")));
    assert_eq!(sgml_data_escaped("<!CDATA[ raw ]]>x"), Ok(("x", " raw ")));
    assert_eq!(sgml_data_escaped("<!CDATA[]]>]]>"), Ok(("]]>", "")));
    assert_eq!(sgml_data_escaped("text"), Err(ParseError::Syntax));
    assert_eq!(sgml_data_escaped(""), Err(ParseError::Syntax));
    assert_eq!(sgml_data_escaped("&apos;"), Err(ParseError::Syntax));
    assert_eq!(sgml_data_escaped("&amp"), Err(ParseError::Incomplete));
    assert_eq!(sgml_data_escaped("<!CDATA[ raw ]>"), Err(ParseError::Incomplete));
}

#[test]
fn sgml_data_unescaped__stops_at_either_end() {
    assert_eq!(sgml_data_unescaped("ab&lt;"), Ok(("&lt;", "ab")));
    assert_eq!(sgml_data_unescaped("ab<X>"), Ok(("<X>", "ab")));
    assert_eq!(sgml_data_unescaped("&"), Err(ParseError::Syntax));
    assert_eq!(sgml_data_unescaped(""), Err(ParseError::Syntax));
}

#[test]
fn unsigned_integer__limits() {
    assert_eq!(unsigned_integer("4294967295"), Ok(("", u32::MAX)));
    assert_eq!(unsigned_integer("4294967296"), Err(ParseError::NumericRange));
    assert_eq!(unsigned_integer("0000000000000012x"), Ok(("x", 12)));
    assert_eq!(unsigned_integer(""), Err(ParseError::Syntax));
    assert_eq!(unsigned_integer("+1"), Err(ParseError::Syntax));
}

#[test]
fn text_beyond_ascii__positions_count_characters() {
    assert_eq!(sgml_data_unescaped("née <"), Ok(("<", "née ")));
    assert_eq!(sgml_data1("é\u{a0}ü  <X>"), Ok(("<X>", vec!["é\u{a0}ü"])));
    assert_eq!(whitespace(" \u{a0}x"), Ok(("\u{a0}x", " ")));
}

#[test]
fn classes__digits_and_letters() {
    assert!(is_digit('0') && is_digit('9') && !is_digit('/') && !is_digit(':'));
    assert!(!is_digit('\u{661}'));
    assert!(is_alphanumeric('a') && is_alphanumeric('Z') && is_alphanumeric('5'));
    assert!(!is_alphanumeric('_') && !is_alphanumeric('é') && !is_alphanumeric(':'));
}

#[test]
fn char_class__contains__as_the_tests_of_characters() {
    for chr in ['A', 'z', '7', ' ', '\t', '\n', '\r', '<', '&', '>', ':', 'é', '\u{a0}'] {
        assert_eq!(CharClass::Uppercase.contains(chr), is_uppercase(chr));
        assert_eq!(CharClass::Alphanumeric.contains(chr), is_alphanumeric(chr));
        assert_eq!(CharClass::Digit.contains(chr), is_digit(chr));
        assert_eq!(CharClass::Whitespace.contains(chr), is_whitespace(chr));
        assert_eq!(CharClass::NotOpenBracket.contains(chr), is_not_open_bracket(chr));
        assert_eq!(CharClass::DataText.contains(chr), !is_sgml_data_end(chr));
        assert_eq!(CharClass::LineText.contains(chr), chr != '\r' && chr != '\n');
    }
}

#[test]
fn entity__text_and_character() {
    let entities = [
        (Entity::Lt, "&lt;", '<'),
        (Entity::Gt, "&gt;", '>'),
        (Entity::Amp, "&amp;", '&'),
        (Entity::Nbsp, "&nbsp;", '\u{a0}'),
    ];
    for (entity, text, chr) in entities {
        assert_eq!(entity.text(), text);
        assert_eq!(entity.text_len(), text.chars().count());
        assert_eq!(entity.decoded(), chr);
        assert_eq!(entity.decoded_str(), chr.to_string());
        assert_eq!(sgml_data_escaped(text), Ok(("", entity.decoded_str())));
    }
}
