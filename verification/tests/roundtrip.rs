#![allow(non_snake_case)]

use ofx::element::{sgml_element, SgmlElement, SgmlElementKind};
use ofx::header::{encode_header, v1_header};
use ofx::model::{Charset, Data, Encoding, HeaderEntry, Ofx, Security};
use ofx::read::Read;
use ofx::render::render_element;
use ofx::sgml::{sgml_data1, sgml_data_escaped};
use ofx::{OfxError, ParseError};

fn data(name: &str, text: &str) -> SgmlElement {
    SgmlElement { name: String::from(name), kind: SgmlElementKind::Data(String::from(text)) }
}

fn aggregate(name: &str, children: Vec<SgmlElement>) -> SgmlElement {
    SgmlElement { name: String::from(name), kind: SgmlElementKind::Aggregate(children) }
}

fn trim_breaking(text: &str) -> &str {
    text.trim_end_matches(|c| c == ' ' || c == '\t' || c == '\r')
}

#[test]
fn encode_header__each_entry__exact_text() {
    let entries = vec![
        HeaderEntry::OfxHeader(100),
        HeaderEntry::Data(Data::OfxSgml),
        HeaderEntry::Data(Data::Other(String::from("XML v2"))),
        HeaderEntry::Version(0),
        HeaderEntry::Version(4294967295),
        HeaderEntry::Security(None),
        HeaderEntry::Security(Some(Security::Type1)),
        HeaderEntry::Encoding(Encoding::UsAscii),
        HeaderEntry::Encoding(Encoding::Utf8),
        HeaderEntry::Charset(None),
        HeaderEntry::Charset(Some(Charset::Iso88591)),
        HeaderEntry::Charset(Some(Charset::Windows1252)),
        HeaderEntry::Compression,
        HeaderEntry::OldFileUid(None),
        HeaderEntry::NewFileUid(Some(String::from("abc-123"))),
        HeaderEntry::Unknown(String::from("X1"), String::from("any: thing")),
    ];
    let expected = "OFXHEADER:100\nDATA:OFXSGML\nDATA:XML v2\nVERSION:0\nVERSION:4294967295\n\
                    SECURITY:NONE\nSECURITY:TYPE1\nENCODING:USASCII\nENCODING:UTF-8\n\
                    CHARSET:NONE\nCHARSET:ISO-8859-1\nCHARSET:1252\nCOMPRESSION:NONE\n\
                    OLDFILEUID:NONE\nNEWFILEUID:abc-123\nX1:any: thing";
    let text = encode_header(&entries);
    assert_eq!(text, expected);
    assert_eq!(v1_header(&text), Ok(("", entries)));
}

#[test]
fn encode_header__no_entry__empty_text() {
    assert_eq!(encode_header(&vec![]), "");
    assert_eq!(encode_header(&vec![HeaderEntry::Compression]), "COMPRESSION:NONE");
}

#[test]
fn header__read_write_read__same_entries() {
    let inputs = [
        "",
        "OFXHEADER:100\nDATA:OFXSGML\nVERSION:102\nSECURITY:NONE\nENCODING:USASCII\nCHARSET:1252\nCOMPRESSION:NONE\nOLDFILEUID:NONE\nNEWFILEUID:NONE",
        "OFXHEADER:000100\r\nDATA:SOMETHING ELSE\r\nCOMPRESSION:GZIP\r\nNEWFILEUID:42\r\n\r\n<OFX>",
        "VERSION:7junk\nDATA:OFXSGML",
        "CHARSET:NONESUCH",
        "Foo9:\nbar:baz:qux\nDATA:\n",
        "DATA:OFXSGM\nOLDFILEUID:NON\nNEWFILEUID: NONE",
    ];
    for input in inputs {
        let (_, entries) = v1_header(input).unwrap();
        let written = encode_header(&entries);
        assert_eq!(v1_header(&written), Ok(("", entries)), "{:?}", input);
    }
}

#[test]
fn data_element__open_text_close__text_trimmed() {
    let names = ["A", "FOO", "STMTTRN"];
    let texts = ["", "x", "asdf fdsa", "a  b \t\r", "1 > 0 ; ok]]>", "line\n", "ends \n ", "é\u{a0}ü "];
    for name in names {
        for text in texts {
            let input = format!("<{}>{}</{}>", name, text, name);
            assert_eq!(
                sgml_element(&input),
                Ok(("", data(name, trim_breaking(text)))),
                "{:?}",
                input
            );
            let followed = format!("{}<NEXT>more", input);
            assert_eq!(
                sgml_element(&followed),
                Ok(("<NEXT>more", data(name, trim_breaking(text)))),
                "{:?}",
                followed
            );
        }
    }
}

#[test]
fn data_element__text_starts_with_whitespace__skipped() {
    assert_eq!(sgml_element("<A> \n x </A>"), Ok(("", data("A", "x"))));
    assert_eq!(sgml_element("<A> \n </A>"), Ok(("", data("A", ""))));
}

#[test]
fn aggregate__one_child__child_as_read_in_place() {
    let children = [
        "<BAR>asdf</BAR>",
        "<BAR>asdf",
        "<BAR>a &amp; b  ",
        "<BAR></BAR>",
        "<BAR><BAZ>1</BAZ><QUX>2</BAR>",
        "<BAR><!CDATA[</FOO>]]></BAR>",
    ];
    for child_text in children {
        let in_place = format!("{}</FOO>tail", child_text);
        let (rest, child) = sgml_element(&in_place).unwrap();
        assert_eq!(rest, "</FOO>tail", "{:?}", child_text);
        let input = format!("<FOO>{}</FOO>tail", child_text);
        assert_eq!(
            sgml_element(&input),
            Ok(("tail", aggregate("FOO", vec![child]))),
            "{:?}",
            input
        );
    }
}

#[test]
fn entities__four_in_a_row__four_characters() {
    assert_eq!(sgml_data1("&lt;&gt;&amp;&nbsp;"), Ok(("", vec!["<", ">", "&", "\u{a0}"])));
    assert_eq!(sgml_element("<A>&lt;&gt;&amp;&nbsp;</A>"), Ok(("", data("A", "<>&\u{a0}"))));
}

#[test]
fn cdata__anything_inside__passed_through() {
    let literals = ["", "plain", "<FOO>&amp;</FOO>", "a]]b]>c", "]", "]]", "x]]", "> <!CDATA[ <"];
    for literal in literals {
        let input = format!("<!CDATA[{}]]>", literal);
        assert_eq!(sgml_data_escaped(&input), Ok(("", literal)), "{:?}", input);
        let run = format!("x{}y<", input);
        assert_eq!(sgml_data1(&run), Ok(("<", vec!["x", literal, "y"])), "{:?}", run);
    }
}

#[test]
fn read__document__header_entries() {
    let document = "OFXHEADER:100\nDATA:OFXSGML\n\n<OFX><A>1</A></OFX>";
    assert_eq!(
        Ofx::read(document),
        Ok(Ofx { headers: vec![HeaderEntry::OfxHeader(100), HeaderEntry::Data(Data::OfxSgml)] })
    );
    assert_eq!(Ofx::read("<OFX>"), Ok(Ofx { headers: vec![] }));
    assert_eq!(Ofx::read("ENCODING:EBCDIC"), Err(OfxError::ParseError(ParseError::Syntax)));
    assert_eq!(
        Ofx::read("VERSION:123456789012"),
        Err(OfxError::ParseError(ParseError::NumericRange))
    );
}

#[test]
fn render_element__data__exact_text() {
    assert_eq!(render_element(&data("A", "x")), "<A>x</A>");
    assert_eq!(render_element(&data("A", "")), "<A></A>");
    assert_eq!(render_element(&data("MEMO", "1 < 2 && 3 > 2")), "<MEMO>1 &lt; 2 &amp;&amp; 3 > 2</MEMO>");
    assert_eq!(render_element(&data("A", "&lt;")), "<A>&amp;lt;</A>");
}

#[test]
fn render_element__whitespace_at_the_ends__guarded() {
    assert_eq!(render_element(&data("A", " x")), "<A><!CDATA[]]> x</A>");
    assert_eq!(render_element(&data("A", "x\t")), "<A>x\t<!CDATA[]]></A>");
    assert_eq!(render_element(&data("A", "\n")), "<A><!CDATA[]]>\n</A>");
    assert_eq!(render_element(&data("A", " ")), "<A><!CDATA[]]> <!CDATA[]]></A>");
    assert_eq!(render_element(&data("A", "x\n")), "<A>x\n</A>");
}

#[test]
fn render_element__aggregate__exact_text() {
    let tree = aggregate(
        "OFX",
        vec![
            aggregate("STATUS", vec![data("CODE", "0"), data("SEVERITY", "INFO")]),
            data("MEMO", "a<b"),
        ],
    );
    assert_eq!(
        render_element(&tree),
        "<OFX><STATUS><CODE>0</CODE><SEVERITY>INFO</SEVERITY></STATUS><MEMO>a&lt;b</MEMO></OFX>"
    );
}

#[test]
fn element__write_read__same_element() {
    let trees = [
        data("A", ""),
        data("A", "x"),
        data("NAME", "</NAME>"),
        data("NAME", "<!CDATA[x]]>"),
        data("NAME", "&amp; & &&lt;;"),
        data("NAME", "a \n b\n"),
        data("NAME", "é\u{a0}"),
        data("NAME", " "),
        data("NAME", "\r\n\t x \t\r"),
        data("NAME", "  < & >  "),
        aggregate("A", vec![data("A", "A")]),
        aggregate(
            "OFX",
            vec![
                aggregate("STATUS", vec![data("CODE", "0"), data("SEVERITY", "<INFO>")]),
                aggregate("X", vec![aggregate("Y", vec![aggregate("Z", vec![data("W", "&")])])]),
                data("MEMO", ""),
            ],
        ),
    ];
    for tree in trees {
        let text = render_element(&tree);
        assert_eq!(sgml_element(&text), Ok(("", tree.clone())), "{:?}", text);
        let followed = format!("{}</END> and more", text);
        assert_eq!(sgml_element(&followed), Ok(("</END> and more", tree)), "{:?}", followed);
    }
}

#[test]
fn element__read_write_read__same_element() {
    let inputs = [
        "<A>x",
        "<STATUS><CODE>0<SEVERITY>INFO</STATUS>",
        "<A> \n <B>1 &lt; 2<C><!CDATA[ <raw> ]]>c</C> \n</A>",
        "<A><B><C><D>deep</C></B></A>",
    ];
    for input in inputs {
        let (_, first) = sgml_element(input).unwrap();
        let text = render_element(&first);
        let (rest, second) = sgml_element(&text).unwrap();
        assert_eq!(rest, "");
        assert_eq!(second, first, "{:?}", input);
    }
}
