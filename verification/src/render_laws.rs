//! An element that is written out is read back as it was.

use crate::chars::{spec_is_sgml_data_end, spec_is_whitespace};
use crate::element::{
    lemma_element_advances, lemma_element_well_formed, spec_children, spec_content,
    spec_element, Element, ElementKind,
};
use crate::element_laws::{
    lemma_cdata_passes, lemma_close_tag_ends, lemma_element_written, lemma_open_tag_reads,
};
use crate::error::ParseError;
use crate::render::{
    empty_section, escape, escape_char, needs_guard_before, needs_guard_behind, render,
    render_from, render_kind, render_text,
};
use crate::sgml::{
    cdata_close, cdata_open, close_tag, is_tag_name, lemma_run_after_nothing, open_tag,
    run_after, spec_data_run, spec_data_step, spec_open_tag, trim_breaking, trim_last, DataStep,
};
use crate::text::{lemma_run_fills, lemma_run_len, occurs_nowhere, run_len, CharClass};
use vstd::prelude::*;

verus! {

/// Characters that need no escape are written as they are.
proof fn lemma_escape_plain_prefix(text: Seq<char>, k: int)
    requires
        0 <= k <= text.len(),
        forall|j: int| 0 <= j < k ==> !spec_is_sgml_data_end(#[trigger] text[j]),
    ensures
        escape(text) == text.take(k) + escape(text.skip(k)),
    decreases k,
{
    if k == 0 {
        assert(text.skip(0) =~= text);
        assert(text.take(0) + escape(text) =~= escape(text));
    } else {
        let tail = text.skip(1);
        assert forall|j: int| 0 <= j < k - 1 implies !spec_is_sgml_data_end(
            #[trigger] tail[j],
        ) by {
            assert(tail[j] == text[j + 1]);
        }
        lemma_escape_plain_prefix(tail, k - 1);
        assert(!spec_is_sgml_data_end(text[0]));
        assert(tail.skip(k - 1) =~= text.skip(k));
        assert(seq![text[0]] + tail.take(k - 1) =~= text.take(k));
        assert(escape(text) =~= text.take(k) + escape(text.skip(k)));
    }
}

/// What is written for text that starts with `<` or `&` starts with `&`.
proof fn lemma_escape_starts(text: Seq<char>)
    requires
        text.len() > 0,
    ensures
        escape(text).len() > 0,
        spec_is_sgml_data_end(text[0]) ==> escape(text)[0] == '&',
        !spec_is_sgml_data_end(text[0]) ==> escape(text)[0] == text[0],
{
    reveal_strlit("&lt;");
    reveal_strlit("&amp;");
    assert(escape(text)[0] == escape_char(text[0])[0]);
}

/// An entity that is written for a character is read as that character.
proof fn lemma_escaped_char_step(chr: char, after: Seq<char>)
    requires
        spec_is_sgml_data_end(chr),
    ensures
        spec_data_step(escape_char(chr) + after) == DataStep::Chunk(
            seq![chr],
            escape_char(chr).len(),
        ),
        (escape_char(chr) + after).skip(escape_char(chr).len() as int) == after,
        0 < escape_char(chr).len(),
{
    reveal_strlit("&lt;");
    reveal_strlit("&gt;");
    reveal_strlit("&amp;");
    reveal_strlit("&nbsp;");
    reveal_strlit("<!CDATA[");
    let word = escape_char(chr);
    let s = word + after;
    assert(word =~= s.subrange(0, word.len() as int));
    assert(s.skip(word.len() as int) =~= after);
    assert(s[0] == '&');
    assert(s[1] == word[1]);
    if chr == '&' {
        assert(!"&lt;"@.is_prefix_of(s)) by {
            if "&lt;"@.is_prefix_of(s) {
                assert(s.subrange(0, 4)[1] == 'l');
            }
        }
        assert(!"&gt;"@.is_prefix_of(s)) by {
            if "&gt;"@.is_prefix_of(s) {
                assert(s.subrange(0, 4)[1] == 'g');
            }
        }
    }
}

/// Where the first chunk of text that is written out ends in the text:
/// behind the first character, where that one is escaped, and else before
/// the first character that is.
pub open spec fn first_chunk_len(text: Seq<char>) -> nat {
    if text.len() > 0 && spec_is_sgml_data_end(text[0]) {
        1
    } else {
        run_len(text, CharClass::DataText)
    }
}

/// The chunks that text is read as where it is written out: the escaped
/// characters one by one, and what stands between them.
pub open spec fn chunks_of(text: Seq<char>) -> Seq<Seq<char>>
    decreases text.len(),
{
    if text.len() == 0 || first_chunk_len(text) == 0 || first_chunk_len(text) > text.len() {
        Seq::empty()
    } else {
        seq![text.take(first_chunk_len(text) as int)] + chunks_of(
            text.skip(first_chunk_len(text) as int),
        )
    }
}

/// A first chunk is not empty, and lies within the text.
proof fn lemma_first_chunk_len(text: Seq<char>)
    requires
        text.len() > 0,
    ensures
        0 < first_chunk_len(text) <= text.len(),
{
    lemma_run_len(text, CharClass::DataText);
}

/// Chunks with one more before them, joined, are that one and then the
/// others joined; and they end as the others end, or as that one ends where
/// there are no others.
proof fn lemma_chunks_with_first(chunk: Seq<char>, more: Seq<Seq<char>>)
    ensures
        (seq![chunk] + more).flatten() == chunk + more.flatten(),
        (seq![chunk] + more).len() > 0,
        more.len() > 0 ==> (seq![chunk] + more).last() == more.last(),
        more.len() == 0 ==> (seq![chunk] + more).last() == chunk,
{
    vstd::seq_lib::lemma_flatten_concat(seq![chunk], more);
    seq![chunk].lemma_flatten_one_element();
}

/// The chunks of text are the text when they are joined; there are some
/// where the text is not empty, and the last of them ends as the text ends.
proof fn lemma_chunks_of(text: Seq<char>)
    ensures
        chunks_of(text).flatten() == text,
        text.len() == 0 ==> chunks_of(text).len() == 0,
        text.len() > 0 ==> chunks_of(text).len() > 0 && chunks_of(text).last().len() > 0
            && chunks_of(text).last().last() == text.last(),
    decreases text.len(),
{
    if text.len() == 0 {
        assert(Seq::<Seq<char>>::empty().flatten() =~= Seq::<char>::empty());
        assert(text =~= Seq::<char>::empty());
    } else {
        let k = first_chunk_len(text) as int;
        let chunk = text.take(k);
        let left = text.skip(k);
        lemma_first_chunk_len(text);
        lemma_chunks_of(left);
        lemma_chunks_with_first(chunk, chunks_of(left));
        assert(chunk + left == text) by {
            assert(chunk + left =~= text);
        }
        if left.len() == 0 {
            assert(chunk == text) by {
                assert(chunk =~= text);
            }
        } else {
            assert(left.last() == text.last());
        }
    }
}

/// The first chunk of text that is written out before a `<` is read as the
/// first chunk of the text.
proof fn lemma_escaped_first_chunk(text: Seq<char>, tail: Seq<char>)
    requires
        text.len() > 0,
        tail.len() > 0,
        tail[0] == '<',
    ensures
        spec_data_step(escape(text) + tail) matches DataStep::Chunk(chunk, n) && {
            &&& chunk == text.take(first_chunk_len(text) as int)
            &&& 0 < n
            &&& n + escape(text.skip(first_chunk_len(text) as int)).len() == escape(text).len()
            &&& (escape(text) + tail).skip(n as int) == escape(
                text.skip(first_chunk_len(text) as int),
            ) + tail
        },
{
    let s = escape(text) + tail;
    let k = first_chunk_len(text) as int;
    let chunk = text.take(k);
    let left = text.skip(k);
    let after = escape(left) + tail;
    lemma_first_chunk_len(text);
    lemma_run_len(text, CharClass::DataText);
    if spec_is_sgml_data_end(text[0]) {
        lemma_escaped_char_step(text[0], after);
        assert(s =~= escape_char(text[0]) + after);
        assert(chunk =~= seq![text[0]]);
    } else {
        reveal_strlit("<!CDATA[");
        lemma_escape_plain_prefix(text, k);
        assert(s =~= chunk + after);
        if left.len() > 0 {
            lemma_escape_starts(left);
            assert(left[0] == text[k]);
            assert(after[0] == escape(left)[0]);
        } else {
            assert(escape(left) =~= Seq::<char>::empty());
            assert(after =~= tail);
        }
        lemma_run_fills(chunk, after, CharClass::DataText);
        assert(s.take(k) =~= chunk);
        assert(s.skip(k) =~= after);
        assert(s[0] == text[0]);
        assert(!cdata_open().is_prefix_of(s)) by {
            if cdata_open().is_prefix_of(s) {
                assert(s.subrange(0, 8)[0] == '<');
            }
        }
    }
}

/// A data run, put together from its first chunk and the run behind it.
proof fn lemma_data_run_of_parts(
    s: Seq<char>,
    chunk: Seq<char>,
    n: nat,
    then: Result<(Seq<Seq<char>>, nat), ParseError>,
)
    requires
        spec_data_step(s) == DataStep::Chunk(chunk, n),
        spec_data_run(s.skip(n as int)) == then,
    ensures
        spec_data_run(s) == run_after(seq![chunk], n, then),
{
}

/// Text that is written out before a `<` is read as its chunks, and the
/// data run goes on behind it.
proof fn lemma_escaped_run(text: Seq<char>, tail: Seq<char>)
    requires
        tail.len() > 0,
        tail[0] == '<',
    ensures
        spec_data_run(escape(text) + tail) == run_after(
            chunks_of(text),
            escape(text).len(),
            spec_data_run(tail),
        ),
    decreases text.len(),
{
    let s = escape(text) + tail;
    if text.len() == 0 {
        assert(s =~= tail);
        lemma_run_after_nothing(spec_data_run(tail));
    } else {
        let k = first_chunk_len(text) as int;
        let chunk = text.take(k);
        let left = text.skip(k);
        lemma_first_chunk_len(text);
        lemma_escaped_first_chunk(text, tail);
        lemma_escaped_run(left, tail);
        let n = spec_data_step(s)->Chunk_1;
        lemma_data_run_of_parts(s, chunk, n, spec_data_run(escape(left) + tail));
        lemma_run_after_twice(seq![chunk], n, chunks_of(left), escape(left).len(), spec_data_run(tail));
    }
}

/// Running on after some chunks, and then after some more, is running on
/// after all of them.
proof fn lemma_run_after_twice(
    done: Seq<Seq<char>>,
    n: nat,
    more: Seq<Seq<char>>,
    m: nat,
    then: Result<(Seq<Seq<char>>, nat), ParseError>,
)
    ensures
        run_after(done, n, run_after(more, m, then)) == run_after(done + more, n + m, then),
{
    if let Ok((last, k)) = then {
        assert(done + (more + last) =~= (done + more) + last);
    }
}

/// An empty literal section before a close tag is read as one empty chunk.
proof fn lemma_guard_behind_reads(name: Seq<char>, rest: Seq<char>)
    ensures
        spec_data_run(empty_section() + (close_tag(name) + rest)) == Ok::<_, ParseError>(
            (seq![Seq::<char>::empty()], empty_section().len()),
        ),
        (empty_section() + (close_tag(name) + rest))[0] == '<',
{
    reveal_strlit("<!CDATA[]]>");
    reveal_strlit("<!CDATA[");
    reveal_strlit("]]>");
    let closing = close_tag(name) + rest;
    let literal = Seq::<char>::empty();
    assert(occurs_nowhere(literal, cdata_close())) by {
        assert forall|j: int| 0 <= j <= literal.len() implies !cdata_close().is_prefix_of(
            #[trigger] literal.skip(j),
        ) by {}
    }
    lemma_cdata_passes(literal, closing);
    lemma_close_tag_ends(name, rest);
    assert(empty_section() =~= cdata_open() + literal + cdata_close());
    assert(empty_section() + closing =~= cdata_open() + literal + cdata_close() + closing);
    assert(seq![literal] + Seq::<Seq<char>>::empty() =~= seq![literal]);
}

/// What text is written as before the close tag of `name` is read as
/// chunks that are the text, once the last of them is trimmed and they are
/// joined.
proof fn lemma_rendered_text_run(text: Seq<char>, name: Seq<char>, rest: Seq<char>)
    ensures
        spec_data_run(render_text(text) + (close_tag(name) + rest)) matches Ok((chunks, n)) && {
            &&& n == render_text(text).len()
            &&& trim_last(chunks).flatten() == text
        },
{
    reveal_strlit("<!CDATA[]]>");
    let closing = close_tag(name) + rest;
    let guard = empty_section();
    let nothing = Seq::<char>::empty();
    let tail = if needs_guard_behind(text) {
        guard + closing
    } else {
        closing
    };
    let tail_chunks = if needs_guard_behind(text) {
        seq![nothing]
    } else {
        Seq::<Seq<char>>::empty()
    };
    let tail_len = if needs_guard_behind(text) {
        guard.len()
    } else {
        0
    };
    lemma_close_tag_ends(name, rest);
    lemma_guard_behind_reads(name, rest);
    assert(spec_data_run(tail) == Ok::<_, ParseError>((tail_chunks, tail_len)));
    lemma_escaped_run(text, tail);
    lemma_chunks_of(text);
    let inner = chunks_of(text) + tail_chunks;
    assert(spec_data_run(escape(text) + tail) == Ok::<_, ParseError>(
        (inner, escape(text).len() + tail_len),
    ));
    // The chunks behind the guard at the start, trimmed and joined, are the text.
    assert(trim_last(inner).flatten() == text && (needs_guard_before(text) ==> inner.len() > 0
        && trim_last(seq![nothing] + inner) == seq![nothing] + trim_last(inner))) by {
        if needs_guard_behind(text) {
            assert(inner.drop_last() =~= chunks_of(text));
            assert(inner.last() == nothing);
            assert(trim_breaking(nothing) =~= nothing);
            assert((seq![nothing] + inner).drop_last() =~= seq![nothing] + chunks_of(text));
        } else if text.len() > 0 {
            assert(inner =~= chunks_of(text));
            assert(trim_breaking(inner.last()) == inner.last());
            assert(inner.drop_last().push(inner.last()) =~= inner);
            assert((seq![nothing] + inner).drop_last().push(inner.last()) =~= seq![nothing]
                + inner);
        } else {
            assert(inner =~= Seq::<Seq<char>>::empty());
        }
    }
    if needs_guard_before(text) {
        let s = render_text(text) + closing;
        assert(s == guard + (escape(text) + tail)) by {
            assert(s =~= guard + (escape(text) + tail));
        }
        lemma_guard_before_reads(escape(text) + tail);
        lemma_chunks_with_first(nothing, trim_last(inner));
        assert(nothing + text =~= text);
    } else {
        assert(render_text(text) + closing =~= escape(text) + tail);
    }
}

/// An empty literal section is read as one empty chunk, and the data run
/// goes on behind it.
proof fn lemma_guard_before_reads(after: Seq<char>)
    ensures
        spec_data_run(empty_section() + after) == run_after(
            seq![Seq::<char>::empty()],
            empty_section().len(),
            spec_data_run(after),
        ),
{
    reveal_strlit("<!CDATA[]]>");
    reveal_strlit("<!CDATA[");
    reveal_strlit("]]>");
    let literal = Seq::<char>::empty();
    assert(occurs_nowhere(literal, cdata_close())) by {
        assert forall|j: int| 0 <= j <= literal.len() implies !cdata_close().is_prefix_of(
            #[trigger] literal.skip(j),
        ) by {}
    }
    lemma_cdata_passes(literal, after);
    assert(empty_section() =~= cdata_open() + literal + cdata_close());
    assert(empty_section() + after =~= cdata_open() + literal + cdata_close() + after);
}

/// What text is written as starts with no whitespace and with no open tag,
/// where it stands before a close tag.
proof fn lemma_rendered_text_starts(text: Seq<char>, name: Seq<char>, rest: Seq<char>)
    ensures
        run_len(render_text(text) + (close_tag(name) + rest), CharClass::Whitespace) == 0,
        spec_open_tag(render_text(text) + (close_tag(name) + rest)) is None,
{
    reveal_strlit("<!CDATA[]]>");
    let closing = close_tag(name) + rest;
    let s = render_text(text) + closing;
    lemma_close_tag_ends(name, rest);
    if needs_guard_before(text) {
        assert(s[0] == '<');
        assert(s[1] == '!');
        assert(s.skip(1)[0] == '!');
    } else if text.len() > 0 {
        lemma_escape_starts(text);
        assert(s[0] == escape(text)[0]);
    } else {
        assert(escape(text) =~= Seq::<char>::empty());
        assert(s =~= closing);
    }
}

/// What text is written as before the close tag of `name` is the content
/// of a data element of that name that holds the text.
proof fn lemma_rendered_text_is_data_content(text: Seq<char>, name: Seq<char>, rest: Seq<char>)
    ensures
        spec_content(name, render_text(text) + (close_tag(name) + rest)) == Ok::<_, ParseError>(
            (ElementKind::Data(text), render_text(text).len() + close_tag(name).len()),
        ),
{
    reveal(spec_element);
    reveal(spec_content);
    reveal(spec_children);
    let closing = close_tag(name) + rest;
    let s = render_text(text) + closing;
    lemma_close_tag_ends(name, rest);
    lemma_rendered_text_run(text, name, rest);
    lemma_rendered_text_starts(text, name, rest);
    assert(s.skip(render_text(text).len() as int) =~= closing);
}

/// What is written for an element starts with the open tag of the element.
proof fn lemma_render_starts(element: Element, rest: Seq<char>)
    requires
        is_tag_name(element.name),
    ensures
        spec_open_tag(render(element) + rest) is Some,
{
    let inner = render_kind(element.kind);
    assert(render(element) + rest =~= open_tag(element.name) + (inner + close_tag(element.name)
        + rest));
    lemma_open_tag_reads(element.name, inner + close_tag(element.name) + rest);
}

/// The content of an aggregate, put together from its children and its end.
proof fn lemma_aggregate_content_of_parts(
    name: Seq<char>,
    body: Seq<char>,
    children: Seq<Element>,
    n: nat,
    rest: Seq<char>,
)
    requires
        spec_open_tag(body) is Some,
        spec_children(body) == Ok::<_, ParseError>((children, n)),
        body.skip(n as int) == close_tag(name) + rest,
    ensures
        spec_content(name, body) == Ok::<_, ParseError>(
            (ElementKind::Aggregate(children), n + close_tag(name).len()),
        ),
{
    reveal(spec_element);
    reveal(spec_content);
    reveal(spec_children);
    lemma_close_tag_ends(name, rest);
    assert((close_tag(name) + rest).skip(0) =~= close_tag(name) + rest);
}

/// The elements that are read one after the other, put together from the
/// first of them and those after it.
proof fn lemma_children_of_parts(
    s: Seq<char>,
    first: Element,
    n: nat,
    more: Seq<Element>,
    m: nat,
)
    requires
        spec_open_tag(s) is Some,
        spec_element(s) == Ok::<_, ParseError>((first, n)),
        spec_children(s.skip(n as int)) == Ok::<_, ParseError>((more, m)),
    ensures
        spec_children(s) == Ok::<_, ParseError>((seq![first] + more, n + m)),
{
    lemma_element_advances(s);
    reveal(spec_element);
    reveal(spec_content);
    reveal(spec_children);
}

/// No elements are read where a close tag stands.
proof fn lemma_no_children_at_close_tag(name: Seq<char>, rest: Seq<char>)
    ensures
        spec_children(close_tag(name) + rest) == Ok::<_, ParseError>(
            (Seq::<Element>::empty(), 0nat),
        ),
{
    reveal(spec_element);
    reveal(spec_content);
    reveal(spec_children);
    lemma_close_tag_ends(name, rest);
}

/// A data element that is written out in full is read as that element.
proof fn lemma_rendered_data_reads(element: Element, rest: Seq<char>)
    requires
        is_tag_name(element.name),
        element.kind is Data,
    ensures
        spec_element(render(element) + rest) == Ok::<_, ParseError>(
            (element, render(element).len()),
        ),
{
    let name = element.name;
    let text = element.kind->Data_0;
    let inside = render_text(text) + (close_tag(name) + rest);
    lemma_rendered_text_is_data_content(text, name, rest);
    assert(inside.len() > 0 && !spec_is_whitespace(inside[0])) by {
        lemma_rendered_text_starts(text, name, rest);
        lemma_run_len(inside, CharClass::Whitespace);
        lemma_close_tag_ends(name, rest);
    }
    lemma_element_written(
        name,
        inside,
        element.kind,
        render_text(text).len() + close_tag(name).len(),
    );
    assert(render(element) + rest == open_tag(name) + inside) by {
        assert(render(element) + rest =~= open_tag(name) + inside);
    }
}

/// An aggregate that is written out in full is read as that aggregate where
/// what is written for its children is read as its children.
proof fn lemma_rendered_aggregate_reads(element: Element, rest: Seq<char>)
    requires
        is_tag_name(element.name),
        element.kind is Aggregate,
        element.kind->Aggregate_0.len() > 0,
        is_tag_name(element.kind->Aggregate_0[0].name),
        spec_children(
            render_from(element.kind->Aggregate_0, 0) + (close_tag(element.name) + rest),
        ) == Ok::<_, ParseError>(
            (element.kind->Aggregate_0, render_from(element.kind->Aggregate_0, 0).len()),
        ),
    ensures
        spec_element(render(element) + rest) == Ok::<_, ParseError>(
            (element, render(element).len()),
        ),
{
    let name = element.name;
    let children = element.kind->Aggregate_0;
    let body = render_from(children, 0);
    let closing = close_tag(name) + rest;
    assert((body + closing).skip(body.len() as int) == closing) by {
        assert((body + closing).skip(body.len() as int) =~= closing);
    }
    assert(spec_open_tag(body + closing) is Some) by {
        assert(body + closing =~= render(children[0]) + (render_from(children, 1) + closing));
        lemma_render_starts(children[0], render_from(children, 1) + closing);
    }
    lemma_aggregate_content_of_parts(name, body + closing, children, body.len(), rest);
    lemma_aggregate_of_parts(element, body, rest);
}

/// An element that is written out in full is read as that element, and all
/// of what was written is taken, whatever follows it.
pub proof fn lemma_rendered_element_reads(element: Element, rest: Seq<char>)
    requires
        element.well_formed(),
    ensures
        spec_element(render(element) + rest) == Ok::<_, ParseError>(
            (element, render(element).len()),
        ),
    decreases element, element.kind->Aggregate_0.len() + 1,
{
    match element.kind {
        ElementKind::Data(_) => {
            lemma_rendered_data_reads(element, rest);
        },
        ElementKind::Aggregate(children) => {
            lemma_rendered_children_read(element, 0, rest);
            assert(children.skip(0) == children) by {
                assert(children.skip(0) =~= children);
            }
            assert(children[0].well_formed());
            lemma_rendered_aggregate_reads(element, rest);
        },
    }
}

/// An aggregate that is written out in full is read as that aggregate where
/// what is written for its children is read as its content.
proof fn lemma_aggregate_of_parts(element: Element, body: Seq<char>, rest: Seq<char>)
    requires
        is_tag_name(element.name),
        element.kind is Aggregate,
        body == render_from(element.kind->Aggregate_0, 0),
        spec_open_tag(body + (close_tag(element.name) + rest)) is Some,
        spec_content(element.name, body + (close_tag(element.name) + rest)) == Ok::<
            _,
            ParseError,
        >((element.kind, body.len() + close_tag(element.name).len())),
    ensures
        spec_element(render(element) + rest) == Ok::<_, ParseError>(
            (element, render(element).len()),
        ),
{
    let name = element.name;
    let inside = body + (close_tag(name) + rest);
    lemma_element_written(name, inside, element.kind, body.len() + close_tag(name).len());
    assert(render(element) + rest == open_tag(name) + inside) by {
        assert(render(element) + rest =~= open_tag(name) + inside);
    }
}

/// The children of an aggregate from the one at `k` on, written out one
/// after the other before the close tag of the aggregate, are read as those
/// children.
proof fn lemma_rendered_children_read(element: Element, k: int, rest: Seq<char>)
    requires
        element.well_formed(),
        element.kind is Aggregate,
        0 <= k <= element.kind->Aggregate_0.len(),
    ensures
        spec_children(
            render_from(element.kind->Aggregate_0, k) + (close_tag(element.name) + rest),
        ) == Ok::<_, ParseError>(
            (element.kind->Aggregate_0.skip(k), render_from(element.kind->Aggregate_0, k).len()),
        ),
    decreases element, element.kind->Aggregate_0.len() - k,
{
    let children = element.kind->Aggregate_0;
    let closing = close_tag(element.name) + rest;
    if k == children.len() {
        lemma_no_children_at_close_tag(element.name, rest);
        assert(render_from(children, k) + closing =~= closing);
        assert(children.skip(k) =~= Seq::<Element>::empty());
    } else {
        let first = children[k];
        let after = render_from(children, k + 1) + closing;
        let s = render_from(children, k) + closing;
        assert(first.well_formed());
        lemma_rendered_element_reads(first, after);
        lemma_rendered_children_read(element, k + 1, rest);
        assert(s == render(first) + after) by {
            assert(s =~= render(first) + after);
        }
        lemma_render_starts(first, after);
        assert(s.skip(render(first).len() as int) == after) by {
            assert(s.skip(render(first).len() as int) =~= after);
        }
        lemma_children_of_parts(
            s,
            first,
            render(first).len(),
            children.skip(k + 1),
            render_from(children, k + 1).len(),
        );
        assert(seq![first] + children.skip(k + 1) == children.skip(k)) by {
            assert(seq![first] + children.skip(k + 1) =~= children.skip(k));
        }
    }
}

/// Reading an element, writing it out and reading what was written gives
/// the element of the first reading again.
pub proof fn lemma_element_round_trip(s: Seq<char>)
    requires
        spec_element(s) is Ok,
    ensures
        spec_element(render(spec_element(s)->Ok_0.0)) == Ok::<_, ParseError>(
            (spec_element(s)->Ok_0.0, render(spec_element(s)->Ok_0.0).len()),
        ),
{
    let element = spec_element(s)->Ok_0.0;
    lemma_element_well_formed(s);
    lemma_rendered_element_reads(element, Seq::empty());
    assert(render(element) + Seq::<char>::empty() =~= render(element));
}

} // verus!
