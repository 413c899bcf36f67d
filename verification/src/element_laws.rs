//! What holds of the reading of elements that are written out in full.

use crate::chars::{spec_is_sgml_data_end, spec_is_whitespace};
use crate::element::{
    lemma_element_advances, spec_children, spec_content, spec_element, Element, ElementKind,
};
use crate::error::ParseError;
use crate::sgml::{
    cdata_close, cdata_open, close_tag, is_tag_name, open_tag, run_after, spec_data_run,
    spec_data_step, spec_escaped, spec_open_tag, trim_breaking, trim_last, DataStep,
};
use crate::text::{
    is_first_at, lemma_find_first_unique, lemma_run_ends_within, lemma_run_fills, lemma_run_len,
    occurs_nowhere, run_len, CharClass,
};
use vstd::prelude::*;

verus! {

/// An open tag written out is read as an open tag of that name.
pub proof fn lemma_open_tag_reads(name: Seq<char>, rest: Seq<char>)
    requires
        is_tag_name(name),
    ensures
        spec_open_tag(open_tag(name) + rest) == Some(name.len()),
        (open_tag(name) + rest).subrange(1, name.len() as int + 1) == name,
        (open_tag(name) + rest).skip(name.len() as int + 2) == rest,
        open_tag(name).len() == name.len() + 2,
{
    reveal_strlit("<");
    reveal_strlit(">");
    let s = open_tag(name) + rest;
    let after = ">"@ + rest;
    assert(s.skip(1) =~= name + after);
    lemma_run_fills(name, after, CharClass::Uppercase);
    assert(s.subrange(1, name.len() as int + 1) =~= name);
    assert(s.skip(name.len() as int + 2) =~= rest);
}

/// A close tag is no open tag, no data, and no whitespace.
pub proof fn lemma_close_tag_ends(name: Seq<char>, rest: Seq<char>)
    ensures
        spec_open_tag(close_tag(name) + rest) is None,
        spec_data_step(close_tag(name) + rest) == DataStep::End,
        run_len(close_tag(name) + rest, CharClass::Whitespace) == 0,
        close_tag(name).is_prefix_of(close_tag(name) + rest),
        close_tag(name).len() == name.len() + 3,
        (close_tag(name) + rest).skip(close_tag(name).len() as int) == rest,
        (close_tag(name) + rest)[0] == '<',
{
    reveal_strlit("</");
    reveal_strlit(">");
    reveal_strlit("<!CDATA[");
    let s = close_tag(name) + rest;
    assert(s[0] == '<');
    assert(s[1] == '/');
    assert(s.skip(1)[0] == '/');
    assert(!cdata_open().is_prefix_of(s)) by {
        if cdata_open().is_prefix_of(s) {
            assert(s.subrange(0, 8)[1] == '!');
        }
    }
    assert(close_tag(name) =~= s.subrange(0, close_tag(name).len() as int));
    assert(s.skip(close_tag(name).len() as int) =~= rest);
}

/// The element at the start of `s`, put together from its parts: the name in
/// the open tag, the whitespace behind it, and the content behind that.
pub(crate) proof fn lemma_element_of_parts(
    s: Seq<char>,
    name: Seq<char>,
    blank: nat,
    body: Seq<char>,
    kind: ElementKind,
    n: nat,
)
    requires
        spec_open_tag(s) == Some(name.len()),
        s.subrange(1, name.len() as int + 1) == name,
        run_len(s.skip(name.len() as int + 2), CharClass::Whitespace) == blank,
        s.skip((name.len() + 2 + blank) as int) == body,
        spec_content(name, body) == Ok::<_, ParseError>((kind, n)),
    ensures
        spec_element(s) == Ok::<_, ParseError>((Element { name, kind }, name.len() + 2 + blank + n)),
{
    reveal(spec_element);
    reveal(spec_content);
    reveal(spec_children);
}

/// An element that is written as an open tag with its content behind it,
/// where the content does not start with whitespace, is read as the element
/// with that content.
pub(crate) proof fn lemma_element_written(name: Seq<char>, inside: Seq<char>, kind: ElementKind, n: nat)
    requires
        is_tag_name(name),
        inside.len() > 0,
        !spec_is_whitespace(inside[0]),
        spec_content(name, inside) == Ok::<_, ParseError>((kind, n)),
    ensures
        spec_element(open_tag(name) + inside) == Ok::<_, ParseError>(
            (Element { name, kind }, open_tag(name).len() + n),
        ),
        open_tag(name).len() == name.len() + 2,
{
    lemma_open_tag_reads(name, inside);
    assert(inside.skip(0) == inside) by {
        assert(inside.skip(0) =~= inside);
    }
    lemma_element_of_parts(open_tag(name) + inside, name, 0, inside, kind, n);
}

/// Text without `<` and `&` that stands before a close tag is one chunk of
/// data, or no chunk where it is empty; and no open tag starts there.
proof fn lemma_text_is_one_chunk(kept: Seq<char>, name: Seq<char>, rest: Seq<char>)
    requires
        forall|j: int| 0 <= j < kept.len() ==> !spec_is_sgml_data_end(#[trigger] kept[j]),
    ensures
        spec_open_tag(kept + (close_tag(name) + rest)) is None,
        spec_data_run(kept + (close_tag(name) + rest)) == Ok::<_, ParseError>(
            (
                if kept.len() == 0 {
                    Seq::<Seq<char>>::empty()
                } else {
                    seq![kept]
                },
                kept.len(),
            ),
        ),
        (kept + (close_tag(name) + rest)).skip(kept.len() as int) == close_tag(name) + rest,
{
    let closing = close_tag(name) + rest;
    let body = kept + closing;
    lemma_close_tag_ends(name, rest);
    assert(body.skip(kept.len() as int) =~= closing);
    assert(spec_data_run(closing) == Ok::<_, ParseError>((Seq::<Seq<char>>::empty(), 0nat)));
    if kept.len() == 0 {
        assert(body =~= closing);
    } else {
        reveal_strlit("<!CDATA[");
        assert(body[0] == kept[0]);
        assert(!spec_is_sgml_data_end(kept[0]));
        assert(!cdata_open().is_prefix_of(body)) by {
            if cdata_open().is_prefix_of(body) {
                assert(body.subrange(0, 8)[0] == '<');
            }
        }
        lemma_run_fills(kept, closing, CharClass::DataText);
        assert(body.take(kept.len() as int) =~= kept);
        assert(spec_data_step(body) == DataStep::Chunk(kept, kept.len()));
        assert(seq![kept] + Seq::<Seq<char>>::empty() =~= seq![kept]);
    }
}

/// The one chunk of some text, trimmed and joined, is the text trimmed.
proof fn lemma_trim_one_chunk(kept: Seq<char>)
    ensures
        trim_last(
            if kept.len() == 0 {
                Seq::<Seq<char>>::empty()
            } else {
                seq![kept]
            },
        ).flatten() == trim_breaking(kept),
{
    if kept.len() == 0 {
        assert(Seq::<Seq<char>>::empty().flatten() =~= Seq::<char>::empty());
    } else {
        assert(seq![kept].drop_last() =~= Seq::<Seq<char>>::empty());
        assert(seq![kept].last() == kept);
        if trim_breaking(kept).len() == 0 {
            assert(Seq::<Seq<char>>::empty().flatten() =~= Seq::<char>::empty());
            assert(trim_breaking(kept) =~= Seq::<char>::empty());
        } else {
            assert(Seq::<Seq<char>>::empty().push(trim_breaking(kept)) =~= seq![
                trim_breaking(kept),
            ]);
            seq![trim_breaking(kept)].lemma_flatten_one_element();
        }
    }
}

/// Text without `<` and `&` that stands before the close tag of `name` is
/// the content of a data element of that name.
proof fn lemma_text_is_data_content(kept: Seq<char>, name: Seq<char>, rest: Seq<char>)
    requires
        forall|j: int| 0 <= j < kept.len() ==> !spec_is_sgml_data_end(#[trigger] kept[j]),
    ensures
        spec_content(name, kept + (close_tag(name) + rest)) == Ok::<_, ParseError>(
            (ElementKind::Data(trim_breaking(kept)), kept.len() + close_tag(name).len()),
        ),
{
    reveal(spec_element);
    reveal(spec_content);
    reveal(spec_children);
    lemma_text_is_one_chunk(kept, name, rest);
    lemma_trim_one_chunk(kept);
    lemma_close_tag_ends(name, rest);
}

/// The whitespace at the start of text that stands before a close tag is
/// the whitespace at the start of the text.
proof fn lemma_blank_before_text(text: Seq<char>, name: Seq<char>, rest: Seq<char>)
    ensures
        run_len(text + (close_tag(name) + rest), CharClass::Whitespace) == run_len(
            text,
            CharClass::Whitespace,
        ),
        run_len(text, CharClass::Whitespace) <= text.len(),
        (text + (close_tag(name) + rest)).skip(run_len(text, CharClass::Whitespace) as int)
            == text.skip(run_len(text, CharClass::Whitespace) as int) + (close_tag(name) + rest),
{
    let closing = close_tag(name) + rest;
    let blank = run_len(text, CharClass::Whitespace);
    lemma_close_tag_ends(name, rest);
    lemma_run_len(text, CharClass::Whitespace);
    if blank < text.len() {
        lemma_run_ends_within(text, closing, CharClass::Whitespace);
    } else {
        lemma_run_fills(text, closing, CharClass::Whitespace);
    }
    assert((text + closing).skip(blank as int) =~= text.skip(blank as int) + closing);
}

/// What `lemma_data_element` states, with the text grouped as it is read.
proof fn lemma_data_element_grouped(name: Seq<char>, text: Seq<char>, rest: Seq<char>)
    requires
        is_tag_name(name),
        forall|j: int| 0 <= j < text.len() ==> !spec_is_sgml_data_end(#[trigger] text[j]),
    ensures
        spec_element(open_tag(name) + (text + (close_tag(name) + rest))) == Ok::<_, ParseError>(
            (
                Element {
                    name,
                    kind: ElementKind::Data(
                        trim_breaking(text.skip(run_len(text, CharClass::Whitespace) as int)),
                    ),
                },
                name.len() + 2 + text.len() + close_tag(name).len(),
            ),
        ),
{
    let closing = close_tag(name) + rest;
    let blank = run_len(text, CharClass::Whitespace);
    let kept = text.skip(blank as int);
    lemma_open_tag_reads(name, text + closing);
    lemma_blank_before_text(text, name, rest);
    assert forall|j: int| 0 <= j < kept.len() implies !spec_is_sgml_data_end(
        #[trigger] kept[j],
    ) by {
        assert(kept[j] == text[blank + j]);
    }
    lemma_text_is_data_content(kept, name, rest);
    assert((open_tag(name) + (text + closing)).skip((name.len() + 2 + blank) as int) == kept
        + closing) by {
        assert((text + closing).skip(blank as int) =~= (open_tag(name) + (text + closing)).skip(
            (name.len() + 2 + blank) as int,
        ));
    }
    lemma_element_of_parts(
        open_tag(name) + (text + closing),
        name,
        blank,
        kept + closing,
        ElementKind::Data(trim_breaking(kept)),
        kept.len() + close_tag(name).len(),
    );
}

/// An element that is written as an open tag, text without `<` and `&`, and
/// the close tag of the same name is read as a data element of that name.
/// It holds the text without the whitespace at its start and without the
/// breaking whitespace at its end, and whatever follows the close tag is
/// left.
///
/// Where the text does not start with whitespace, what the element holds is
/// therefore the text without the breaking whitespace at its end.
pub proof fn lemma_data_element(name: Seq<char>, text: Seq<char>, rest: Seq<char>)
    requires
        is_tag_name(name),
        forall|j: int| 0 <= j < text.len() ==> !spec_is_sgml_data_end(#[trigger] text[j]),
    ensures
        spec_element(open_tag(name) + text + close_tag(name) + rest) == Ok::<_, ParseError>(
            (
                Element {
                    name,
                    kind: ElementKind::Data(
                        trim_breaking(text.skip(run_len(text, CharClass::Whitespace) as int)),
                    ),
                },
                (open_tag(name) + text + close_tag(name)).len(),
            ),
        ),
        run_len(text, CharClass::Whitespace) == 0 ==> spec_element(
            open_tag(name) + text + close_tag(name) + rest,
        ) == Ok::<_, ParseError>(
            (
                Element { name, kind: ElementKind::Data(trim_breaking(text)) },
                (open_tag(name) + text + close_tag(name)).len(),
            ),
        ),
{
    lemma_data_element_grouped(name, text, rest);
    lemma_open_tag_reads(name, text);
    assert(open_tag(name) + text + close_tag(name) + rest =~= open_tag(name) + (text + (
        close_tag(name) + rest)));
    assert(text.skip(0) =~= text);
}

/// One element that stands before the close tag of `name` is the content of
/// an aggregate of that name.
proof fn lemma_child_is_aggregate_content(
    name: Seq<char>,
    child_text: Seq<char>,
    child: Element,
    rest: Seq<char>,
)
    requires
        spec_element(child_text + (close_tag(name) + rest)) == Ok::<_, ParseError>(
            (child, child_text.len()),
        ),
    ensures
        spec_content(name, child_text + (close_tag(name) + rest)) == Ok::<_, ParseError>(
            (ElementKind::Aggregate(seq![child]), child_text.len() + close_tag(name).len()),
        ),
{
    reveal(spec_element);
    reveal(spec_content);
    reveal(spec_children);
    let closing = close_tag(name) + rest;
    let body = child_text + closing;
    lemma_close_tag_ends(name, rest);
    lemma_element_advances(body);
    assert(body.skip(child_text.len() as int) =~= closing);
    assert(spec_children(closing) == Ok::<_, ParseError>((Seq::<Element>::empty(), 0nat)));
    assert(seq![child] + Seq::<Element>::empty() =~= seq![child]);
    assert(spec_children(body) == Ok::<_, ParseError>((seq![child], child_text.len())));
    assert(closing.skip(0) =~= closing);
}

/// What `lemma_aggregate_of_one` states, with the text grouped as it is read.
proof fn lemma_aggregate_of_one_grouped(
    name: Seq<char>,
    child_text: Seq<char>,
    child: Element,
    rest: Seq<char>,
)
    requires
        is_tag_name(name),
        spec_element(child_text + (close_tag(name) + rest)) == Ok::<_, ParseError>(
            (child, child_text.len()),
        ),
    ensures
        spec_element(open_tag(name) + (child_text + (close_tag(name) + rest))) == Ok::<
            _,
            ParseError,
        >(
            (
                Element { name, kind: ElementKind::Aggregate(seq![child]) },
                name.len() + 2 + child_text.len() + close_tag(name).len(),
            ),
        ),
{
    let body = child_text + (close_tag(name) + rest);
    lemma_open_tag_reads(name, body);
    // The child starts with `<`, so no whitespace is skipped before it.
    assert(run_len(body, CharClass::Whitespace) == 0) by {
        lemma_child_starts_with_bracket(body);
    }
    assert(body.skip(0) == body) by {
        assert(body.skip(0) =~= body);
    }
    lemma_child_is_aggregate_content(name, child_text, child, rest);
    lemma_element_of_parts(
        open_tag(name) + body,
        name,
        0,
        body,
        ElementKind::Aggregate(seq![child]),
        child_text.len() + close_tag(name).len(),
    );
}

/// Where an element is read, the text starts with `<`.
proof fn lemma_child_starts_with_bracket(s: Seq<char>)
    requires
        spec_element(s) is Ok,
    ensures
        s.len() > 0,
        s[0] == '<',
{
    reveal(spec_element);
    reveal(spec_content);
    reveal(spec_children);
}

/// An element that is written as an open tag, one child element and the
/// close tag of the same name is read as an aggregate of that name whose
/// only child is what the child element is read as in that place.
pub proof fn lemma_aggregate_of_one(
    name: Seq<char>,
    child_text: Seq<char>,
    child: Element,
    rest: Seq<char>,
)
    requires
        is_tag_name(name),
        spec_element(child_text + close_tag(name) + rest) == Ok::<_, ParseError>(
            (child, child_text.len()),
        ),
    ensures
        spec_element(open_tag(name) + child_text + close_tag(name) + rest) == Ok::<_, ParseError>(
            (
                Element { name, kind: ElementKind::Aggregate(seq![child]) },
                (open_tag(name) + child_text + close_tag(name)).len(),
            ),
        ),
{
    assert(child_text + close_tag(name) + rest =~= child_text + (close_tag(name) + rest));
    assert(open_tag(name) + child_text + close_tag(name) + rest =~= open_tag(name) + (child_text
        + (close_tag(name) + rest)));
    lemma_aggregate_of_one_grouped(name, child_text, child, rest);
    lemma_open_tag_reads(name, child_text);
}

/// Where the closing marker does not occur in `literal`, its first place in
/// `literal` with the marker behind it is at the end of `literal`.
proof fn lemma_close_marker_first(literal: Seq<char>, rest: Seq<char>)
    requires
        occurs_nowhere(literal, cdata_close()),
    ensures
        is_first_at(literal + (cdata_close() + rest), cdata_close(), literal.len()),
{
    reveal_strlit("]]>");
    let inner = literal + (cdata_close() + rest);
    assert(inner.skip(literal.len() as int) =~= cdata_close() + rest);
    assert(cdata_close() =~= (cdata_close() + rest).subrange(0, 3));
    assert forall|j: int| 0 <= j < literal.len() implies !cdata_close().is_prefix_of(
        #[trigger] inner.skip(j),
    ) by {
        let here = inner.skip(j);
        if cdata_close().is_prefix_of(here) {
            let found = here.subrange(0, 3);
            assert(found[0] == ']' && found[1] == ']' && found[2] == '>');
            assert(here[2] == inner[j + 2]);
            if j + 2 < literal.len() {
                assert(literal.skip(j).subrange(0, 3) =~= found);
                assert(cdata_close().is_prefix_of(literal.skip(j)));
            } else {
                assert(inner[j + 2] == ']');
            }
        }
    }
}

/// A literal section is read as what stands between its markers, whatever
/// that is, as long as the closing marker does not occur in it: nothing in
/// it is decoded. A data run goes on behind the section.
pub proof fn lemma_cdata_passes(literal: Seq<char>, rest: Seq<char>)
    requires
        occurs_nowhere(literal, cdata_close()),
    ensures
        spec_escaped(cdata_open() + literal + cdata_close() + rest) == Ok::<_, ParseError>(
            (literal, (cdata_open() + literal + cdata_close()).len()),
        ),
        spec_data_run(cdata_open() + literal + cdata_close() + rest) == run_after(
            seq![literal],
            (cdata_open() + literal + cdata_close()).len(),
            spec_data_run(rest),
        ),
{
    let s = cdata_open() + literal + cdata_close() + rest;
    let inner = literal + (cdata_close() + rest);
    lemma_close_marker_first(literal, rest);
    lemma_find_first_unique(inner, cdata_close(), literal.len());
    assert(s == cdata_open() + inner) by {
        assert(s =~= cdata_open() + inner);
    }
    assert(s[0] == '<' && cdata_open().is_prefix_of(s) && s.skip(cdata_open().len() as int)
        == inner) by {
        reveal_strlit("<!CDATA[");
        assert(cdata_open() =~= s.subrange(0, 8));
        assert(s.skip(8) =~= inner);
    }
    assert(inner.take(literal.len() as int) == literal) by {
        assert(inner.take(literal.len() as int) =~= literal);
    }
    assert(s.skip((cdata_open() + literal + cdata_close()).len() as int) == rest) by {
        assert(s.skip((cdata_open() + literal + cdata_close()).len() as int) =~= rest);
    }
}

} // verus!
