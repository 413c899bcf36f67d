//! Writing elements out as markup.

use crate::chars::{
    is_breaking_whitespace, is_whitespace, spec_is_breaking_whitespace, spec_is_whitespace,
};
use crate::element::{
    elements_view, lemma_aggregate_view, Element, ElementKind, SgmlElement, SgmlElementKind,
};
use crate::sgml::{close_tag, open_tag};
use crate::text::push_char;
use vstd::prelude::*;
use vstd::std_specs::iter::IteratorSpec;

verus! {

/// How one character of data is written: `<` and `&` as their entities, any
/// other character as it is.
pub open spec fn escape_char(chr: char) -> Seq<char> {
    if chr == '<' {
        "&lt;"@
    } else if chr == '&' {
        "&amp;"@
    } else {
        seq![chr]
    }
}

/// How data is written: character by character.
pub open spec fn escape(text: Seq<char>) -> Seq<char>
    decreases text.len(),
{
    if text.len() == 0 {
        Seq::empty()
    } else {
        escape_char(text[0]) + escape(text.skip(1))
    }
}

/// A literal section with nothing in it. It stands for no text, and keeps
/// whitespace beside it from being skipped or trimmed.
pub open spec fn empty_section() -> Seq<char> {
    "<!CDATA[]]>"@
}

/// The text of an element needs a guard before it: it starts with
/// whitespace, which would be skipped behind the open tag.
pub open spec fn needs_guard_before(text: Seq<char>) -> bool {
    text.len() > 0 && spec_is_whitespace(text[0])
}

/// The text of an element needs a guard behind it: it ends with breaking
/// whitespace, which would be trimmed.
pub open spec fn needs_guard_behind(text: Seq<char>) -> bool {
    text.len() > 0 && spec_is_breaking_whitespace(text.last())
}

/// How the text of an element is written: escaped, with an empty literal
/// section before it where it starts with whitespace, and one behind it
/// where it ends with breaking whitespace.
pub open spec fn render_text(text: Seq<char>) -> Seq<char> {
    (if needs_guard_before(text) {
        empty_section()
    } else {
        Seq::empty()
    }) + escape(text) + (if needs_guard_behind(text) {
        empty_section()
    } else {
        Seq::empty()
    })
}

/// How an element is written out in full: its open tag, what it holds, and
/// its close tag. Text is written so that it is read back as it is, and
/// children one after the other.
pub open spec fn render(element: Element) -> Seq<char>
    decreases element, 0nat,
{
    open_tag(element.name) + render_kind(element.kind) + close_tag(element.name)
}

/// How what an element holds is written out.
pub open spec fn render_kind(kind: ElementKind) -> Seq<char>
    decreases kind, 0nat,
{
    match kind {
        ElementKind::Data(text) => render_text(text),
        ElementKind::Aggregate(children) => render_from(children, 0),
    }
}

/// How the elements of `children` from the one at `k` on are written out,
/// one after the other.
pub open spec fn render_from(children: Seq<Element>, k: int) -> Seq<char>
    decreases children, children.len() - k,
{
    if 0 <= k < children.len() {
        render(children[k]) + render_from(children, k + 1)
    } else {
        Seq::empty()
    }
}

/// Writing goes on where it stopped: what is written for some text with a
/// character behind it is what is written for the text, and then what is
/// written for the character.
pub proof fn lemma_escape_push(text: Seq<char>, chr: char)
    ensures
        escape(text.push(chr)) == escape(text) + escape_char(chr),
    decreases text.len(),
{
    let longer = text.push(chr);
    if text.len() == 0 {
        assert(longer.skip(1) =~= Seq::<char>::empty());
        assert(escape(longer.skip(1)) =~= Seq::<char>::empty());
        assert(escape(longer) =~= escape(text) + escape_char(chr));
    } else {
        assert(longer.skip(1) =~= text.skip(1).push(chr));
        lemma_escape_push(text.skip(1), chr);
        assert(escape(longer) =~= escape(text) + escape_char(chr));
    }
}

/// What is written for the children from `k` on is what is written for
/// them up to `to`, and then what is written from `to` on.
pub proof fn lemma_render_from_split(children: Seq<Element>, k: int, to: int)
    requires
        0 <= k <= to <= children.len(),
    ensures
        render_from(children, k) == render_between(children, k, to) + render_from(children, to),
    decreases to - k,
{
    if k < to {
        lemma_render_from_split(children, k + 1, to);
        assert(render_from(children, k) =~= render_between(children, k, to) + render_from(
            children,
            to,
        ));
    } else {
        assert(render_from(children, k) =~= render_between(children, k, to) + render_from(
            children,
            to,
        ));
    }
}

/// How the elements of `children` from the one at `k` up to the one before
/// `to` are written out, one after the other.
pub open spec fn render_between(children: Seq<Element>, k: int, to: int) -> Seq<char>
    decreases to - k,
{
    if 0 <= k < to <= children.len() {
        render(children[k]) + render_between(children, k + 1, to)
    } else {
        Seq::empty()
    }
}

/// Writing the children up to one more is writing them up to there, and
/// then that one.
pub proof fn lemma_render_between_push(children: Seq<Element>, k: int, to: int)
    requires
        0 <= k <= to < children.len(),
    ensures
        render_between(children, k, to + 1) == render_between(children, k, to) + render(
            children[to],
        ),
    decreases to - k,
{
    if k < to {
        lemma_render_between_push(children, k + 1, to);
        assert(render_between(children, k, to + 1) =~= render_between(children, k, to) + render(
            children[to],
        ));
    } else {
        assert(render_between(children, to + 1, to + 1) =~= Seq::<char>::empty());
        assert(render_between(children, k, to + 1) =~= render_between(children, k, to) + render(
            children[to],
        ));
    }
}

/// Adds at the end of `s` how `text` is written as data.
fn push_escaped(s: &mut String, text: &str)
    ensures
        final(s)@ == old(s)@ + escape(text@),
{
    let ghost before = s@;
    let it = text.chars();
    proof {
        assert(text@.take(0) =~= Seq::<char>::empty());
        assert(before + escape(text@.take(0)) =~= before);
    }
    for chr in iter: it
        invariant
            iter.seq() == text@,
            s@ == before + escape(text@.take(iter.index() as int)),
    {
        let ghost done = text@.take(iter.index() as int);
        let ghost so_far = s@;
        proof {
            assert(text@.take(iter.index() + 1) =~= done.push(chr));
            lemma_escape_push(done, chr);
        }
        if chr == '<' {
            s.append("&lt;");
        } else if chr == '&' {
            s.append("&amp;");
        } else {
            push_char(s, chr);
            assert(s@ =~= so_far + seq![chr]);
        }
        assert(s@ =~= before + (escape(done) + escape_char(chr)));
    }
    assert(text@.take(text@.len() as int) =~= text@);
}

/// Adds at the end of `s` how `element` is written out in full.
pub fn push_rendered(s: &mut String, element: &SgmlElement)
    ensures
        final(s)@ == old(s)@ + render(element@),
    decreases element,
{
    let ghost before = s@;
    s.append("<");
    s.append(element.name.as_str());
    s.append(">");
    let ghost opened = s@;
    match &element.kind {
        SgmlElementKind::Data(text) => {
            let len = text.as_str().unicode_len();
            if len > 0 && is_whitespace(text.as_str().get_char(0)) {
                s.append("<!CDATA[]]>");
            }
            push_escaped(s, text.as_str());
            if len > 0 && is_breaking_whitespace(text.as_str().get_char(len - 1)) {
                s.append("<!CDATA[]]>");
            }
            assert(s@ =~= opened + render_text(text@));
        },
        SgmlElementKind::Aggregate(children) => {
            let ghost views = elements_view(children@);
            let mut k: usize = 0;
            proof {
                lemma_aggregate_view(*children);
                assert(opened + render_between(views, 0, 0) =~= opened);
            }
            while k < children.len()
                invariant
                    k <= children.len(),
                    views == elements_view(children@),
                    element.kind == SgmlElementKind::Aggregate(*children),
                    s@ == opened + render_between(views, 0, k as int),
                decreases children.len() - k,
            {
                let ghost so_far = s@;
                proof {
                    broadcast use vstd::std_specs::vec::axiom_vec_index_decreases;

                    assert(element.kind is Aggregate);
                    assert(element.kind->Aggregate_0 == *children);
                    assert(decreases_to!(*element => element.kind));
                    assert(decreases_to!(element.kind => element.kind->Aggregate_0));
                    assert(decreases_to!(*children => children[k as int]));
                    lemma_render_between_push(views, 0, k as int);
                }
                push_rendered(s, &children[k]);
                assert(s@ =~= opened + (render_between(views, 0, k as int) + render(
                    views[k as int],
                )));
                k += 1;
            }
            proof {
                lemma_render_from_split(views, 0, views.len() as int);
                assert(render_from(views, views.len() as int) =~= Seq::<char>::empty());
                assert(render_between(views, 0, views.len() as int) + Seq::<char>::empty()
                    =~= render_between(views, 0, views.len() as int));
            }
        },
    }
    let ghost filled = s@;
    s.append("</");
    s.append(element.name.as_str());
    s.append(">");
    proof {
        reveal_strlit("<");
        reveal_strlit(">");
        reveal_strlit("</");
        assert(s@ =~= before + (open_tag(element@.name) + render_kind(element@.kind) + close_tag(
            element@.name,
        )));
    }
}

/// Writes `element` out in full: every element with its open tag and its
/// close tag, children one after the other, and text with `<` and `&` as
/// their entities. Text that starts with whitespace, or ends with breaking
/// whitespace, gets an empty literal section at that end, so that it is
/// read back as it is.
pub fn render_element(element: &SgmlElement) -> (text: String)
    ensures
        text@ == render(element@),
{
    let mut text = String::new();
    push_rendered(&mut text, element);
    assert(Seq::<char>::empty() + render(element@) =~= render(element@));
    text
}

} // verus!
