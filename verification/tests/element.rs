#![allow(non_snake_case)]

use ofx::element::{sgml_element, sgml_elements, SgmlElement, SgmlElementKind};
use ofx::error::ParseError;

fn data(name: &str, text: &str) -> SgmlElement {
    SgmlElement { name: String::from(name), kind: SgmlElementKind::Data(String::from(text)) }
}

fn aggregate(name: &str, children: Vec<SgmlElement>) -> SgmlElement {
    SgmlElement { name: String::from(name), kind: SgmlElementKind::Aggregate(children) }
}

#[test]
fn sgml_element__with_data_and_terminated_by_end_tag__match() {
    assert_eq!(sgml_element("<FOO>asdf fdsa</FOO><END>"), Ok(("<END>", data("FOO", "asdf fdsa"))));
}

#[test]
fn sgml_element__with_data_and_terminated_by_new_tag__match() {
    assert_eq!(sgml_element("<FOO>asdf<BAR>"), Ok(("<BAR>", data("FOO", "asdf"))));
}

#[test]
fn sgml_element__with_child__match() {
    assert_eq!(
        sgml_element("<FOO><BAR>asdf</BAR></FOO><END>"),
        Ok(("<END>", aggregate("FOO", vec![data("BAR", "asdf")])))
    );
}

#[test]
fn sgml_element__data_with_whitespace__leading_skipped_trailing_breaking_trimmed() {
    assert_eq!(
        sgml_element("<FOO>  \n \tasdf fdsa \t\r</FOO><END>"),
        Ok(("<END>", data("FOO", "asdf fdsa")))
    );
    assert_eq!(
        sgml_element("<FOO>  \n \tasdf fdsa  \n\n</FOO><END>"),
        Ok(("<END>", data("FOO", "asdf fdsa  \n\n")))
    );
}

#[test]
fn sgml_element__empty_body__empty_data() {
    assert_eq!(sgml_element("<FOO></FOO><END>"), Ok(("<END>", data("FOO", ""))));
    assert_eq!(sgml_element("<FOO> \n </FOO>"), Ok(("", data("FOO", ""))));
    assert_eq!(sgml_element("<FOO>"), Ok(("", data("FOO", ""))));
    assert_eq!(sgml_element("<FOO></BAR>"), Ok(("</BAR>", data("FOO", ""))));
    assert_eq!(sgml_element("<FOO><bar>"), Ok(("<bar>", data("FOO", ""))));
    assert_eq!(sgml_element("<FOO><!CDATA[]]></FOO>"), Ok(("", data("FOO", ""))));
}

#[test]
fn sgml_element__data_first__aggregate_only_on_open_tag() {
    assert_eq!(
        sgml_element("<FOO>x<BAR>y</BAR></FOO>"),
        Ok(("<BAR>y</BAR></FOO>", data("FOO", "x")))
    );
    assert_eq!(
        sgml_element("<FOO> <BAR>y</BAR></FOO>"),
        Ok(("", aggregate("FOO", vec![data("BAR", "y")])))
    );
}

#[test]
fn sgml_element__entities_and_cdata__decoded_and_joined() {
    assert_eq!(
        sgml_element("<MEMO>a &lt; b &amp;&amp; <!CDATA[<c> ]]>&nbsp;d  </MEMO>"),
        Ok(("", data("MEMO", "a < b && <c> \u{a0}d")))
    );
}

#[test]
fn sgml_element__children_without_close_tags__match() {
    assert_eq!(
        sgml_element("<STATUS><CODE>0<SEVERITY>INFO</STATUS>rest"),
        Ok(("rest", aggregate("STATUS", vec![data("CODE", "0"), data("SEVERITY", "INFO")])))
    );
}

#[test]
fn sgml_element__nested_aggregates__match() {
    assert_eq!(
        sgml_element("<A><B><C>1</C><D>2</D></B><E>3</E> \n</A>"),
        Ok((
            "",
            aggregate(
                "A",
                vec![aggregate("B", vec![data("C", "1"), data("D", "2")]), data("E", "3")]
            )
        ))
    );
}

#[test]
fn sgml_element__whitespace_between_children__syntax_error() {
    assert_eq!(sgml_element("<A><B>1</B> <C>2</C></A>"), Err(ParseError::Syntax));
}

#[test]
fn sgml_element__no_open_tag__syntax_error() {
    for input in ["", "text", " <FOO>x", "</FOO>", "<foo>x", "<FOO", "&lt;"] {
        assert_eq!(sgml_element(input), Err(ParseError::Syntax), "{:?}", input);
    }
}

#[test]
fn sgml_element__aggregate_closed_by_another_name__syntax_error() {
    assert_eq!(sgml_element("<FOO><BAR>x</BAR></BAZ>"), Err(ParseError::Syntax));
    assert_eq!(sgml_element("<FOO><BAR>x</FOOD>"), Err(ParseError::Syntax));
    assert_eq!(sgml_element("<FOO><BAR>x</BAR>text</FOO>"), Err(ParseError::Syntax));
}

#[test]
fn sgml_element__aggregate_not_closed__incomplete() {
    for input in ["<FOO><BAR>x", "<FOO><BAR>x</BAR>", "<FOO><BAR>x</BAR> \n", "<FOO><BAR>x</BAR></FO", "<A><B><C>x</C></B>"] {
        assert_eq!(sgml_element(input), Err(ParseError::Incomplete), "{:?}", input);
    }
}

#[test]
fn sgml_element__child_closes_with_the_parents_name__incomplete() {
    assert_eq!(sgml_element("<FOO><FOO>x</FOO>"), Err(ParseError::Incomplete));
}

#[test]
fn sgml_element__bad_entity_in_data__error() {
    assert_eq!(sgml_element("<FOO>a&b;c</FOO>"), Err(ParseError::Syntax));
    assert_eq!(sgml_element("<FOO>a&amp"), Err(ParseError::Incomplete));
    assert_eq!(sgml_element("<FOO><!CDATA[a</FOO>"), Err(ParseError::Incomplete));
    assert_eq!(sgml_element("<FOO><BAR>&bad;</BAR></FOO>"), Err(ParseError::Syntax));
}

#[test]
fn sgml_elements__close_tag_mismatch__syntax_error() {
    assert_eq!(sgml_elements("<FOO>x</BAR>"), Err(ParseError::Syntax));
}

#[test]
fn sgml_elements__whole_input() {
    assert_eq!(sgml_elements(""), Ok(vec![]));
    assert_eq!(
        sgml_elements("<A>1</A><B><C>2</B><D>3"),
        Ok(vec![data("A", "1"), aggregate("B", vec![data("C", "2")]), data("D", "3")])
    );
    assert_eq!(sgml_elements("<A>1</A>\n"), Err(ParseError::Syntax));
    assert_eq!(sgml_elements("<A><B>1</B>"), Err(ParseError::Incomplete));
}

#[test]
fn sgml_element__clone_is_equal() {
    let (_, element) = sgml_element("<A><B><C>1</C><D>2</D></B><E>3</E></A>").unwrap();
    assert_eq!(element.clone(), element);
    assert_eq!(element.kind.clone(), element.kind);
}

#[test]
fn sgml_element__deep_nesting() {
    let depth = 200;
    let mut input = String::new();
    for _ in 0..depth {
        input.push_str("<A>");
    }
    input.push_str("<B>x</B>");
    for _ in 0..depth {
        input.push_str("</A>");
    }
    let mut expected = data("B", "x");
    for _ in 0..depth {
        expected = aggregate("A", vec![expected]);
    }
    assert_eq!(sgml_element(&input), Ok(("", expected)));
}
