#![allow(non_snake_case)]

use nom::branch::alt;
use nom::bytes::complete::{tag, take_till1, take_until, take_while, take_while1};
use nom::character::complete::{alphanumeric1, char, digit1, line_ending, not_line_ending};
use nom::combinator;
use nom::multi::{many1, separated_list};
use nom::sequence::{delimited, pair};
use nom::IResult;

use ofx::chars::{is_breaking_whitespace, is_sgml_data_end, is_uppercase, is_whitespace};
use ofx::header::{header_value, v1_header, v1_header_entry};
use ofx::model::{Charset, Data, Encoding, HeaderEntry, Security};
use ofx::sgml::{
    sgml_close_tag, sgml_data1, sgml_data_unescaped, sgml_open_tag, tag_name, unsigned_integer,
    whitespace,
};

fn open_tag(i: &str) -> IResult<&str, &str> {
    delimited(char('<'), take_while1(is_uppercase), char('>'))(i)
}

fn close_tag<'a>(name: &'a str, i: &'a str) -> IResult<&'a str, ()> {
    delimited(tag("</"), tag(name), char('>'))(i).map(|(r, _)| (r, ()))
}

fn data_chunks(i: &str) -> IResult<&str, Vec<&str>> {
    let (i, mut results) = many1(alt((
        delimited(
            char('&'),
            alt((
                combinator::map(tag("lt"), |_| "<"),
                combinator::map(tag("gt"), |_| ">"),
                combinator::map(tag("amp"), |_| "&"),
                combinator::map(tag("nbsp"), |_| "\u{a0}"),
            )),
            char(';'),
        ),
        delimited(tag("<!CDATA["), take_until("]]>"), tag("]]>")),
        take_till1(is_sgml_data_end),
    )))(i)?;
    let last = results.len() - 1;
    results[last] = results[last].trim_end_matches(is_breaking_whitespace);
    if results[last].is_empty() {
        results.pop();
    }
    Ok((i, results))
}

fn header_line(i: &str) -> IResult<&str, (&str, &str)> {
    pair(alphanumeric1, delimited(char(':'), not_line_ending, take_while(|_| false)))(i)
}

fn header_lines(i: &str) -> IResult<&str, Vec<(&str, &str)>> {
    separated_list(line_ending, header_line)(i)
}

const MARKUP: [&str; 24] = [
    "",
    "<FOO>end",
    "<FOO",
    "<>",
    "<foo>",
    "<FOo>",
    "</FOO>end",
    "</FOO",
    "</BAR>",
    "FOO>",
    "a sdf 123  </END>",
    "&lt;test&gt; &amp;asdf&nbsp;</END>",
    "&lt;&gt;&amp;&nbsp;",
    "<!CDATA[a <b> &amp; ]] c]]><X>",
    "x<!CDATA[]]>y<",
    "a&amp; \t\r<",
    "a \n<",
    " \t",
    "<!CDATA[ ]]>",
    "&quot;",
    "&am",
    "<!CDATA[abc",
    " \t \r\nend",
    "12345abc",
];

#[test]
fn primitives__same_as_combinators() {
    for input in MARKUP {
        assert_eq!(sgml_open_tag(input).ok(), open_tag(input).ok(), "{:?}", input);
        assert_eq!(
            sgml_close_tag("FOO", input).ok(),
            close_tag("FOO", input).ok(),
            "{:?}",
            input
        );
        let name: IResult<&str, &str> = take_while1(is_uppercase)(input);
        assert_eq!(tag_name(input).ok(), name.ok(), "{:?}", input);
        let blank: IResult<&str, &str> = take_while(is_whitespace)(input);
        assert_eq!(whitespace(input).ok(), blank.ok(), "{:?}", input);
        let chunk: IResult<&str, &str> = take_till1(is_sgml_data_end)(input);
        assert_eq!(sgml_data_unescaped(input).ok(), chunk.ok(), "{:?}", input);
        let digits: IResult<&str, &str> = digit1(input);
        assert_eq!(
            unsigned_integer(input).ok(),
            digits.ok().map(|(rest, text)| (rest, text.parse::<u32>().unwrap())),
            "{:?}",
            input
        );
    }
}

#[test]
fn data_run__well_formed__same_as_combinators() {
    for input in MARKUP {
        assert_eq!(sgml_data1(input).ok(), data_chunks(input).ok(), "{:?}", input);
    }
}

#[test]
fn data_run__bad_form_behind_data__fails_where_combinators_stop() {
    assert_eq!(data_chunks("abc&foo;def"), Ok(("&foo;def", vec!["abc"])));
    assert!(sgml_data1("abc&foo;def").is_err());
    assert_eq!(data_chunks("abc<!CDATA[def"), Ok(("<!CDATA[def", vec!["abc"])));
    assert!(sgml_data1("abc<!CDATA[def").is_err());
}

#[test]
fn header__lines_and_values__same_as_combinators() {
    let inputs = [
        "",
        "FOO:BAR",
        "FOO:BAR\nBAZ:1\r\nQUX:\n\n<OFX>",
        "FOO:a\rb",
        "FOO:a\r\nb",
        "FOO BAR",
        ":x",
        "A1:x\n\nB2:y",
        "é:x",
    ];
    for input in inputs {
        let expected = header_lines(input).ok().map(|(rest, lines)| {
            let entries: Vec<HeaderEntry> = lines
                .iter()
                .map(|(key, value)| HeaderEntry::Unknown(String::from(*key), String::from(*value)))
                .collect();
            (rest, entries)
        });
        if input == "FOO:a\rb" {
            assert_eq!(expected, Some((input, vec![])));
            assert!(v1_header(input).is_err());
        } else {
            assert_eq!(v1_header(input).ok(), expected, "{:?}", input);
        }
        let line = header_line(input).ok().map(|(rest, (key, value))| {
            (rest, HeaderEntry::Unknown(String::from(key), String::from(value)))
        });
        assert_eq!(v1_header_entry(input).ok(), line, "{:?}", input);
    }
}

fn each_text(alphabet: &[char], longest: usize, visit: &mut dyn FnMut(&str)) {
    let mut text = String::new();
    each_text_from(alphabet, longest, &mut text, visit);
}

fn each_text_from(alphabet: &[char], left: usize, text: &mut String, visit: &mut dyn FnMut(&str)) {
    visit(text);
    if left == 0 {
        return;
    }
    for chr in alphabet {
        text.push(*chr);
        each_text_from(alphabet, left - 1, text, visit);
        text.pop();
    }
}

#[test]
fn tags__every_short_text__same_as_combinators() {
    let alphabet = ['<', '/', '>', 'F', 'O', 'x', ' '];
    each_text(&alphabet, 6, &mut |input| {
        assert_eq!(sgml_open_tag(input).ok(), open_tag(input).ok(), "{:?}", input);
        assert_eq!(sgml_close_tag("FO", input).ok(), close_tag("FO", input).ok(), "{:?}", input);
        let name: IResult<&str, &str> = take_while1(is_uppercase)(input);
        assert_eq!(tag_name(input).ok(), name.ok(), "{:?}", input);
    });
}

#[test]
fn scanning__every_short_text__same_as_combinators() {
    let alphabet = [' ', '\t', '\n', '\r', '1', '0', 'a', '<', '&'];
    each_text(&alphabet, 5, &mut |input| {
        let blank: IResult<&str, &str> = take_while(is_whitespace)(input);
        assert_eq!(whitespace(input).ok(), blank.ok(), "{:?}", input);
        let chunk: IResult<&str, &str> = take_till1(is_sgml_data_end)(input);
        assert_eq!(sgml_data_unescaped(input).ok(), chunk.ok(), "{:?}", input);
        let digits: IResult<&str, &str> = digit1(input);
        assert_eq!(
            unsigned_integer(input).ok(),
            digits.ok().map(|(rest, text)| (rest, text.parse::<u32>().unwrap())),
            "{:?}",
            input
        );
    });
}

fn data_run_agrees(input: &str) {
    match data_chunks(input) {
        Err(_) => assert!(sgml_data1(input).is_err(), "{:?}", input),
        Ok((rest, chunks)) => {
            if rest.starts_with('&') || rest.starts_with("<!CDATA[") {
                assert!(sgml_data1(input).is_err(), "{:?}", input);
            } else {
                assert_eq!(sgml_data1(input), Ok((rest, chunks)), "{:?}", input);
            }
        }
    }
}

#[test]
fn data_run__every_short_text_with_entities__same_as_combinators() {
    let alphabet = ['&', 'l', 't', 'g', ';', 'x', ' ', '<', '\n'];
    each_text(&alphabet, 5, &mut data_run_agrees);
}

#[test]
fn data_run__every_short_text_with_sections__same_as_combinators() {
    let pieces = ["<!CDATA[", "]]>", "]", ">", " ", "x", "&amp;", "&nbsp", "<", "\t"];
    let mut inputs = vec![String::new()];
    for _ in 0..4 {
        let mut longer = Vec::new();
        for input in &inputs {
            for piece in pieces {
                longer.push(format!("{}{}", input, piece));
            }
        }
        for input in &longer {
            data_run_agrees(input);
        }
        inputs = longer;
    }
}

fn charset_value(i: &str) -> IResult<&str, Option<Charset>> {
    alt((
        combinator::map(tag("NONE"), |_| None),
        combinator::map(tag("ISO-8859-1"), |_| Some(Charset::Iso88591)),
        combinator::map(tag("1252"), |_| Some(Charset::Windows1252)),
    ))(i)
}

fn data_value(i: &str) -> IResult<&str, Data> {
    alt((
        combinator::map(tag("OFXSGML"), |_| Data::OfxSgml),
        combinator::map(not_line_ending, |v| Data::Other(String::from(v))),
    ))(i)
}

fn encoding_value(i: &str) -> IResult<&str, Encoding> {
    alt((
        combinator::map(tag("USASCII"), |_| Encoding::UsAscii),
        combinator::map(tag("UTF-8"), |_| Encoding::Utf8),
    ))(i)
}

fn file_id_value(i: &str) -> IResult<&str, Option<String>> {
    alt((
        combinator::map(tag("NONE"), |_| None),
        combinator::map(not_line_ending, |v| Some(String::from(v))),
    ))(i)
}

fn security_value(i: &str) -> IResult<&str, Option<Security>> {
    alt((
        combinator::map(tag("NONE"), |_| None),
        combinator::map(tag("TYPE1"), |_| Some(Security::Type1)),
    ))(i)
}

fn number(i: &str) -> IResult<&str, u32> {
    combinator::map(digit1, |v: &str| v.parse::<u32>().unwrap())(i)
}

fn value_of<'a>(key: &str, i: &'a str) -> IResult<&'a str, HeaderEntry> {
    match key {
        "CHARSET" => combinator::map(charset_value, HeaderEntry::Charset)(i),
        "COMPRESSION" => combinator::map(not_line_ending, |_| HeaderEntry::Compression)(i),
        "DATA" => combinator::map(data_value, HeaderEntry::Data)(i),
        "ENCODING" => combinator::map(encoding_value, HeaderEntry::Encoding)(i),
        "NEWFILEUID" => combinator::map(file_id_value, HeaderEntry::NewFileUid)(i),
        "OFXHEADER" => combinator::map(number, HeaderEntry::OfxHeader)(i),
        "OLDFILEUID" => combinator::map(file_id_value, HeaderEntry::OldFileUid)(i),
        "SECURITY" => combinator::map(security_value, HeaderEntry::Security)(i),
        "VERSION" => combinator::map(number, HeaderEntry::Version)(i),
        _ => combinator::map(not_line_ending, |v| {
            HeaderEntry::Unknown(String::from(key), String::from(v))
        })(i),
    }
}

#[test]
fn header_values__every_key_and_value__same_as_combinators() {
    let keys = [
        "CHARSET", "COMPRESSION", "DATA", "ENCODING", "NEWFILEUID", "OFXHEADER", "OLDFILEUID",
        "SECURITY", "VERSION", "OTHER", "charset", "VERSION2", "",
    ];
    let values = [
        "", "NONE", "NONE\n", "NONEX", "NON", "ISO-8859-1", "ISO-8859-15", "1252", "12520",
        "125", "OFXSGML", "OFXSGML2", "OFXSGM", "USASCII", "UTF-8", "UTF-16", "TYPE1", "TYPE2",
        "100", "0", "007", "4294967295", "12a", "a12", "-1", " 1", "free text", "a\nb",
        "a\r\nb", "a\rb", "a\r", "\r\n", "\n", "\r", "x:y", "é",
    ];
    for key in keys {
        for value in values {
            assert_eq!(
                header_value(key, value).ok(),
                value_of(key, value).ok(),
                "{:?} {:?}",
                key,
                value
            );
        }
    }
}
