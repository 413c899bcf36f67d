//! The tree of elements, and the reading of one element with all that is
//! in it.

use crate::error::ParseError;
use crate::sgml::{
    chunk_texts, chunks_fit, close_tag, close_tag_of, data_run_at, is_proper_prefix, is_tag_name,
    lemma_data_step_advances, lemma_run_after_nothing, lemma_run_after_step, open_tag_at,
    run_after, spec_data_run, spec_data_step, spec_open_tag, trim_last, trim_last_chunk, Chunk,
    DataStep,
};
use crate::text::{
    chars_of, lemma_run_len, push_char, push_span, rest_starts, run_len, scan_run,
    starts_with_at, string_of, CharClass,
};
use vstd::prelude::*;

verus! {

/// One element of the markup: a name, and either text or child elements.
#[derive(Debug, Eq, PartialEq)]
pub struct SgmlElement {
    pub name: String,
    pub kind: SgmlElementKind,
}

/// What an element holds.
#[derive(Debug, Eq, PartialEq)]
pub enum SgmlElementKind {
    /// Child elements, in the order of the source.
    Aggregate(Vec<SgmlElement>),
    /// Decoded text.
    Data(String),
}

/// An element as a mathematical value.
pub struct Element {
    pub name: Seq<char>,
    pub kind: ElementKind,
}

/// What an element holds, as a mathematical value.
pub enum ElementKind {
    Aggregate(Seq<Element>),
    Data(Seq<char>),
}

impl Element {
    /// The element is one that markup can hold: its name can stand in a tag,
    /// an aggregate has at least one child, and the children are such
    /// elements themselves.
    pub open spec fn well_formed(self) -> bool
        decreases self,
    {
        &&& is_tag_name(self.name)
        &&& match self.kind {
            ElementKind::Aggregate(children) => {
                &&& children.len() > 0
                &&& forall|j: int|
                    0 <= j < children.len() ==> (#[trigger] children[j]).well_formed()
            },
            ElementKind::Data(_) => true,
        }
    }
}

impl SgmlElementKind {
    /// The content as a mathematical value.
    pub open spec fn model(self) -> ElementKind
        decreases self,
    {
        match self {
            SgmlElementKind::Aggregate(children) => ElementKind::Aggregate(
                Seq::new(
                    children.len() as nat,
                    |j: int|
                        if 0 <= j < children.len() {
                            children[j].model()
                        } else {
                            arbitrary()
                        },
                ),
            ),
            SgmlElementKind::Data(text) => ElementKind::Data(text@),
        }
    }
}

impl SgmlElement {
    /// The element as a mathematical value.
    pub open spec fn model(self) -> Element
        decreases self,
    {
        Element { name: self.name@, kind: self.kind.model() }
    }
}

impl View for SgmlElementKind {
    type V = ElementKind;

    open spec fn view(&self) -> ElementKind {
        self.model()
    }
}

impl View for SgmlElement {
    type V = Element;

    open spec fn view(&self) -> Element {
        self.model()
    }
}

/// The elements of `elements` as mathematical values, in their order.
pub open spec fn elements_view(elements: Seq<SgmlElement>) -> Seq<Element> {
    Seq::new(elements.len(), |j: int| elements[j]@)
}

/// The content of an aggregate is the sequence of its children.
pub proof fn lemma_aggregate_view(children: Vec<SgmlElement>)
    ensures
        SgmlElementKind::Aggregate(children)@ == ElementKind::Aggregate(elements_view(children@)),
{
    assert(SgmlElementKind::Aggregate(children).model()->Aggregate_0 =~= elements_view(children@));
}

fn clone_kind(kind: &SgmlElementKind) -> (copy: SgmlElementKind)
    ensures
        copy@ == kind@,
    decreases kind,
{
    match kind {
        SgmlElementKind::Aggregate(children) => {
            let mut copies: Vec<SgmlElement> = Vec::new();
            let mut j: usize = 0;
            while j < children.len()
                invariant
                    j <= children.len(),
                    copies.len() == j,
                    *kind == SgmlElementKind::Aggregate(*children),
                    forall|k: int| 0 <= k < j ==> copies[k]@ == children[k]@,
                decreases children.len() - j,
            {
                let child = &children[j];
                proof {
                    broadcast use vstd::std_specs::vec::axiom_vec_index_decreases;

                    assert(kind is Aggregate);
                    assert(kind->Aggregate_0 == *children);
                    assert(decreases_to!(*kind => kind->Aggregate_0));
                    assert(decreases_to!(*children => children[j as int]));
                    assert(decreases_to!(children[j as int] => children[j as int].kind));
                }
                let copy = SgmlElement {
                    name: child.name.clone(),
                    kind: clone_kind(&child.kind),
                };
                copies.push(copy);
                j += 1;
            }
            proof {
                lemma_aggregate_view(copies);
                lemma_aggregate_view(*children);
                assert(elements_view(copies@) =~= elements_view(children@));
            }
            SgmlElementKind::Aggregate(copies)
        },
        SgmlElementKind::Data(text) => SgmlElementKind::Data(text.clone()),
    }
}

impl Clone for SgmlElementKind {
    fn clone(&self) -> (copy: Self)
        ensures
            copy@ == self@,
    {
        clone_kind(self)
    }
}

impl Clone for SgmlElement {
    fn clone(&self) -> (copy: Self)
        ensures
            copy@ == self@,
    {
        SgmlElement { name: self.name.clone(), kind: clone_kind(&self.kind) }
    }
}

/// How an aggregate named `name` ends at the start of `s`, once its children
/// are read: whitespace, then its close tag. Gives the number of characters
/// of both. Where `s` ends within them the aggregate is incomplete; anything
/// else in their place is a syntax error.
pub open spec fn spec_aggregate_end(name: Seq<char>, s: Seq<char>) -> Result<nat, ParseError> {
    let blank = run_len(s, CharClass::Whitespace);
    let tail = s.skip(blank as int);
    if close_tag(name).is_prefix_of(tail) {
        Ok(blank + close_tag(name).len())
    } else if is_proper_prefix(tail, close_tag(name)) {
        Err(ParseError::Incomplete)
    } else {
        Err(ParseError::Syntax)
    }
}

/// How much a data element named `name` takes at the start of `s`, once its
/// data is read: its close tag, where that stands there, and nothing else.
pub open spec fn spec_data_end(name: Seq<char>, s: Seq<char>) -> nat {
    if close_tag(name).is_prefix_of(s) {
        close_tag(name).len()
    } else {
        0
    }
}

/// The element at the start of `s`, and the number of characters that it
/// takes: an open tag, whitespace, and the content that belongs to the
/// name in the tag.
#[verifier::opaque]
pub open spec fn spec_element(s: Seq<char>) -> Result<(Element, nat), ParseError>
    decreases s.len(), 0nat,
{
    match spec_open_tag(s) {
        None => Err(ParseError::Syntax),
        Some(k) => {
            let name = s.subrange(1, k as int + 1);
            let open = k + 2 + run_len(s.skip(k as int + 2), CharClass::Whitespace);
            proof {
                lemma_run_len(s.skip(k as int + 2), CharClass::Whitespace);
            }
            match spec_content(name, s.skip(open as int)) {
                Err(e) => Err(e),
                Ok((kind, n)) => Ok((Element { name, kind }, open + n)),
            }
        },
    }
}

/// The content at the start of `s` of an element named `name`, and the
/// number of characters that it takes.
///
/// The element is an aggregate exactly if `s` starts with an open tag. An
/// aggregate holds the elements that follow one another from there, and
/// must end with its close tag. Any other element holds the data run found
/// there, trimmed and joined, and takes its own close tag along if that
/// follows the data.
#[verifier::opaque]
pub open spec fn spec_content(name: Seq<char>, s: Seq<char>) -> Result<
    (ElementKind, nat),
    ParseError,
>
    decreases s.len(), 2nat,
{
    if spec_open_tag(s) is Some {
        match spec_children(s) {
            Err(e) => Err(e),
            Ok((children, n)) => match spec_aggregate_end(name, s.skip(n as int)) {
                Err(e) => Err(e),
                Ok(m) => Ok((ElementKind::Aggregate(children), n + m)),
            },
        }
    } else {
        match spec_data_run(s) {
            Err(e) => Err(e),
            Ok((chunks, n)) => Ok(
                (
                    ElementKind::Data(trim_last(chunks).flatten()),
                    n + spec_data_end(name, s.skip(n as int)),
                ),
            ),
        }
    }
}

/// The elements that follow one another from the start of `s`, up to the
/// first place where no open tag stands, and the number of characters that
/// they take. An element that fails after its open tag fails them all.
#[verifier::opaque]
pub open spec fn spec_children(s: Seq<char>) -> Result<(Seq<Element>, nat), ParseError>
    decreases s.len(), 1nat,
{
    if spec_open_tag(s) is None {
        Ok((Seq::empty(), 0))
    } else {
        match spec_element(s) {
            Err(e) => Err(e),
            Ok((first, n)) => if 0 < n <= s.len() {
                run_after(seq![first], n, spec_children(s.skip(n as int)))
            } else {
                // An element is never empty: see `lemma_element_advances`.
                Err(ParseError::Syntax)
            },
        }
    }
}

/// The elements that `s` is made of from its start to its end. Where an
/// element leaves something behind that is no element, that is an error.
#[verifier::opaque]
pub open spec fn spec_elements(s: Seq<char>) -> Result<Seq<Element>, ParseError>
    decreases s.len(),
{
    if s.len() == 0 {
        Ok(Seq::empty())
    } else {
        match spec_element(s) {
            Err(e) => Err(e),
            Ok((first, n)) => if 0 < n <= s.len() {
                match spec_elements(s.skip(n as int)) {
                    Err(e) => Err(e),
                    Ok(more) => Ok(seq![first] + more),
                }
            } else {
                // An element is never empty: see `lemma_element_advances`.
                Err(ParseError::Syntax)
            },
        }
    }
}

/// A data run takes no more characters than there are.
pub proof fn lemma_data_run_within(s: Seq<char>)
    ensures
        spec_data_run(s) matches Ok((_, n)) ==> n <= s.len(),
    decreases s.len(),
{
    lemma_data_step_advances(s);
    if let DataStep::Chunk(_, n) = spec_data_step(s) {
        lemma_data_run_within(s.skip(n as int));
    }
}

/// An element takes at least the three characters of the shortest open tag,
/// and no more characters than there are.
pub proof fn lemma_element_advances(s: Seq<char>)
    ensures
        spec_element(s) matches Ok((_, n)) ==> 3 <= n <= s.len(),
    decreases s.len(), 0nat,
{
    reveal(spec_element);
    reveal(spec_content);
    reveal(spec_children);
    if let Some(k) = spec_open_tag(s) {
        lemma_run_len(s.skip(k as int + 2), CharClass::Whitespace);
        let open = k + 2 + run_len(s.skip(k as int + 2), CharClass::Whitespace);
        lemma_content_within(s.subrange(1, k as int + 1), s.skip(open as int));
    }
}

/// The content of an element takes no more characters than there are.
pub proof fn lemma_content_within(name: Seq<char>, s: Seq<char>)
    ensures
        spec_content(name, s) matches Ok((_, n)) ==> n <= s.len(),
    decreases s.len(), 2nat,
{
    reveal(spec_element);
    reveal(spec_content);
    reveal(spec_children);
    reveal_strlit("</");
    reveal_strlit(">");
    if spec_open_tag(s) is Some {
        lemma_children_within(s);
        if let Ok((_, n)) = spec_children(s) {
            lemma_run_len(s.skip(n as int), CharClass::Whitespace);
        }
    } else {
        lemma_data_run_within(s);
    }
}

/// The elements that follow one another take no more characters than there
/// are.
pub proof fn lemma_children_within(s: Seq<char>)
    ensures
        spec_children(s) matches Ok((_, n)) ==> n <= s.len(),
    decreases s.len(), 1nat,
{
    reveal(spec_element);
    reveal(spec_content);
    reveal(spec_children);
    if spec_open_tag(s) is Some {
        lemma_element_advances(s);
        if let Ok((_, n)) = spec_element(s) {
            lemma_children_within(s.skip(n as int));
        }
    }
}

/// An element that is read is well formed.
pub proof fn lemma_element_well_formed(s: Seq<char>)
    ensures
        spec_element(s) matches Ok((element, _)) ==> element.well_formed(),
    decreases s.len(), 0nat,
{
    reveal(spec_element);
    reveal(spec_content);
    reveal(spec_children);
    if let Some(k) = spec_open_tag(s) {
        let name = s.subrange(1, k as int + 1);
        let open = k + 2 + run_len(s.skip(k as int + 2), CharClass::Whitespace);
        let body = s.skip(open as int);
        lemma_run_len(s.skip(1), CharClass::Uppercase);
        lemma_run_len(s.skip(k as int + 2), CharClass::Whitespace);
        assert forall|j: int| 0 <= j < name.len() implies CharClass::Uppercase.spec_contains(
            #[trigger] name[j],
        ) by {
            assert(name[j] == s.skip(1)[j]);
        }
        if spec_open_tag(body) is Some {
            lemma_children_well_formed(body);
        }
    }
}

/// The elements that are read one after the other are well formed, and
/// there is one of them at least where an open tag stands.
pub proof fn lemma_children_well_formed(s: Seq<char>)
    ensures
        spec_children(s) matches Ok((children, _)) ==> {
            &&& forall|j: int| 0 <= j < children.len() ==> (#[trigger] children[j]).well_formed()
            &&& spec_open_tag(s) is Some ==> children.len() > 0
        },
    decreases s.len(), 1nat,
{
    reveal(spec_element);
    reveal(spec_content);
    reveal(spec_children);
    if spec_open_tag(s) is Some {
        lemma_element_well_formed(s);
        lemma_element_advances(s);
        if let Ok((first, n)) = spec_element(s) {
            lemma_children_well_formed(s.skip(n as int));
            if let Ok((more, _)) = spec_children(s.skip(n as int)) {
                let children = seq![first] + more;
                assert forall|j: int| 0 <= j < children.len() implies (
                #[trigger] children[j]).well_formed() by {
                    if j > 0 {
                        assert(children[j] == more[j - 1]);
                    }
                }
            }
        }
    }
}

/// The elements that the whole of some text is made of are well formed.
pub proof fn lemma_elements_well_formed(s: Seq<char>)
    ensures
        spec_elements(s) matches Ok(elements) ==> forall|j: int|
            0 <= j < elements.len() ==> (#[trigger] elements[j]).well_formed(),
    decreases s.len(),
{
    reveal(spec_elements);
    if s.len() > 0 {
        lemma_element_well_formed(s);
        lemma_element_advances(s);
        if let Ok((first, n)) = spec_element(s) {
            lemma_elements_well_formed(s.skip(n as int));
            if let Ok(more) = spec_elements(s.skip(n as int)) {
                let elements = seq![first] + more;
                assert forall|j: int| 0 <= j < elements.len() implies (
                #[trigger] elements[j]).well_formed() by {
                    if j > 0 {
                        assert(elements[j] == more[j - 1]);
                    }
                }
            }
        }
    }
}

/// Joins the texts of `chunks` into one string.
fn join_chunks(buf: &[char], chunks: &Vec<Chunk>) -> (text: String)
    requires
        chunks_fit(chunks@, buf@),
    ensures
        text@ == chunk_texts(chunks@, buf@).flatten(),
{
    let ghost texts = chunk_texts(chunks@, buf@);
    let mut text = String::new();
    let mut j: usize = 0;
    assert(texts.take(0) =~= Seq::empty());
    while j < chunks.len()
        invariant
            j <= chunks.len(),
            chunks_fit(chunks@, buf@),
            texts == chunk_texts(chunks@, buf@),
            text@ == texts.take(j as int).flatten(),
        decreases chunks.len() - j,
    {
        proof {
            assert(texts.take(j + 1) =~= texts.take(j as int).push(texts[j as int]));
            texts.take(j as int).lemma_flatten_push(texts[j as int]);
        }
        match chunks[j] {
            Chunk::Span(from, to) => {
                push_span(&mut text, buf, from, to);
            },
            Chunk::Decoded(entity) => {
                let ghost before = text@;
                push_char(&mut text, entity.decoded());
                assert(text@ =~= before + seq![entity.spec_decoded()]);
            },
        }
        j += 1;
    }
    assert(texts.take(chunks.len() as int) =~= texts);
    text
}

/// Reads the end of an aggregate at `pos`, where `closer` is its close tag;
/// gives the place after it.
fn aggregate_end_at(buf: &[char], pos: usize, closer: &str, Ghost(name): Ghost<Seq<char>>) -> (r:
    Result<usize, ParseError>)
    requires
        pos <= buf.len(),
        closer@ == close_tag(name),
    ensures
        match spec_aggregate_end(name, buf@.skip(pos as int)) {
            Ok(n) => r == Ok::<_, ParseError>((pos + n) as usize) && pos + n <= buf.len(),
            Err(e) => r == Err::<usize, _>(e),
        },
{
    let at = scan_run(buf, pos, CharClass::Whitespace);
    assert(buf@.skip(pos as int).skip(at - pos) =~= buf@.skip(at as int));
    if starts_with_at(buf, at, closer) {
        Ok(at + closer.unicode_len())
    } else if rest_starts(buf, at, closer) {
        Err(ParseError::Incomplete)
    } else {
        Err(ParseError::Syntax)
    }
}

/// Reads the end of a data element at `pos`, where `closer` is its close
/// tag; gives the place after it.
fn data_end_at(buf: &[char], pos: usize, closer: &str, Ghost(name): Ghost<Seq<char>>) -> (end:
    usize)
    requires
        pos <= buf.len(),
        closer@ == close_tag(name),
    ensures
        end == pos + spec_data_end(name, buf@.skip(pos as int)),
        end <= buf.len(),
{
    if starts_with_at(buf, pos, closer) {
        pos + closer.unicode_len()
    } else {
        pos
    }
}

/// Reads the data of a data element at `pos`; gives it, trimmed and joined,
/// and the place after it.
fn data_at(buf: &[char], pos: usize) -> (r: Result<(String, usize), ParseError>)
    requires
        pos <= buf.len(),
    ensures
        match spec_data_run(buf@.skip(pos as int)) {
            Ok((chunks, n)) => r matches Ok(p) && p.0@ == trim_last(chunks).flatten() && p.1
                == pos + n && p.1 <= buf.len(),
            Err(e) => r == Err::<(String, usize), _>(e),
        },
{
    match data_run_at(buf, pos) {
        Ok(p) => {
            let (mut chunks, after) = p;
            trim_last_chunk(buf, &mut chunks);
            Ok((join_chunks(buf, &chunks), after))
        },
        Err(e) => Err(e),
    }
}

/// Reads the element whose open tag stands at `pos`; gives it and the place
/// after it.
pub(crate) fn element_at(buf: &[char], pos: usize) -> (r: Result<(SgmlElement, usize), ParseError>)
    requires
        pos <= buf.len(),
    ensures
        match spec_element(buf@.skip(pos as int)) {
            Ok((element, n)) => r matches Ok(p) && p.0@ == element && p.1 == pos + n && p.1
                <= buf.len(),
            Err(e) => r == Err::<(SgmlElement, usize), _>(e),
        },
    decreases buf.len() - pos, 0nat,
{
    reveal(spec_element);
    reveal(spec_content);
    reveal(spec_children);
    let ghost s = buf@.skip(pos as int);
    match open_tag_at(buf, pos) {
        Some(name_end) => {
            let name = string_of(buf, pos + 1, name_end);
            let open = scan_run(buf, name_end + 1, CharClass::Whitespace);
            proof {
                assert(s.subrange(1, name_end - pos) =~= buf@.subrange(pos + 1, name_end as int));
                assert(s.skip(name_end - pos + 1) =~= buf@.skip(name_end + 1));
                assert(s.skip(open - pos) =~= buf@.skip(open as int));
            }
            match content_at(buf, open, name.as_str()) {
                Ok(p) => Ok((SgmlElement { name, kind: p.0 }, p.1)),
                Err(e) => Err(e),
            }
        },
        None => Err(ParseError::Syntax),
    }
}

/// Reads at `pos` the content of an element named `name`; gives it and the
/// place after it.
fn content_at(buf: &[char], pos: usize, name: &str) -> (r: Result<
    (SgmlElementKind, usize),
    ParseError,
>)
    requires
        pos <= buf.len(),
    ensures
        match spec_content(name@, buf@.skip(pos as int)) {
            Ok((kind, n)) => r matches Ok(p) && p.0@ == kind && p.1 == pos + n && p.1 <= buf.len(),
            Err(e) => r == Err::<(SgmlElementKind, usize), _>(e),
        },
    decreases buf.len() - pos, 2nat,
{
    reveal(spec_element);
    reveal(spec_content);
    reveal(spec_children);
    let ghost s = buf@.skip(pos as int);
    let closer = close_tag_of(name);
    if open_tag_at(buf, pos).is_some() {
        match children_at(buf, pos) {
            Ok(p) => {
                let (children, after) = p;
                proof {
                    assert(s.skip(after - pos) =~= buf@.skip(after as int));
                    lemma_aggregate_view(children);
                }
                match aggregate_end_at(buf, after, closer.as_str(), Ghost(name@)) {
                    Ok(end) => Ok((SgmlElementKind::Aggregate(children), end)),
                    Err(e) => Err(e),
                }
            },
            Err(e) => Err(e),
        }
    } else {
        match data_at(buf, pos) {
            Ok(p) => {
                let (text, after) = p;
                proof {
                    assert(s.skip(after - pos) =~= buf@.skip(after as int));
                }
                let end = data_end_at(buf, after, closer.as_str(), Ghost(name@));
                Ok((SgmlElementKind::Data(text), end))
            },
            Err(e) => Err(e),
        }
    }
}

/// Reads the elements that follow one another from `pos`; gives them and
/// the place after them.
fn children_at(buf: &[char], pos: usize) -> (r: Result<(Vec<SgmlElement>, usize), ParseError>)
    requires
        pos <= buf.len(),
    ensures
        match spec_children(buf@.skip(pos as int)) {
            Ok((children, n)) => r matches Ok(p) && elements_view(p.0@) == children && p.1 == pos
                + n && p.1 <= buf.len(),
            Err(e) => r == Err::<(Vec<SgmlElement>, usize), _>(e),
        },
    decreases buf.len() - pos, 1nat,
{
    let ghost whole = spec_children(buf@.skip(pos as int));
    let mut children: Vec<SgmlElement> = Vec::new();
    let mut cur: usize = pos;
    proof {
        assert(elements_view(children@) =~= Seq::empty());
        lemma_run_after_nothing(spec_children(buf@.skip(cur as int)));
    }
    loop
        invariant
            pos <= cur <= buf.len(),
            whole == spec_children(buf@.skip(pos as int)),
            whole == run_after(
                elements_view(children@),
                (cur - pos) as nat,
                spec_children(buf@.skip(cur as int)),
            ),
        decreases buf.len() - cur,
    {
        let ghost s = buf@.skip(cur as int);
        let ghost done = elements_view(children@);
        proof {
            reveal(spec_element);
            reveal(spec_content);
            reveal(spec_children);
        }
        if open_tag_at(buf, cur).is_none() {
            assert(done + Seq::<Element>::empty() =~= done);
            return Ok((children, cur));
        }
        proof {
            lemma_element_advances(s);
        }
        match element_at(buf, cur) {
            Ok(p) => {
                let (child, next) = p;
                proof {
                    let n = (next - cur) as nat;
                    assert(s.skip(n as int) =~= buf@.skip(next as int));
                    lemma_run_after_step(
                        done,
                        (cur - pos) as nat,
                        child@,
                        n,
                        spec_children(buf@.skip(next as int)),
                    );
                    assert(elements_view(children@.push(child)) =~= done.push(child@));
                }
                children.push(child);
                cur = next;
            },
            Err(e) => {
                return Err(e);
            },
        }
    }
}

/// One element: an open tag and what belongs to it. Gives the rest of the
/// input and the element.
///
/// Whitespace after the open tag is skipped. Where another open tag
/// follows, the element is an aggregate of the elements found from there on,
/// and must end with whitespace, if any, and its own close tag. Otherwise
/// it is a data element that holds the decoded data found there, without
/// breaking whitespace at its end; its close tag is taken where it follows
/// the data and is not asked for.
pub fn sgml_element(i: &str) -> (r: Result<(&str, SgmlElement), ParseError>)
    ensures
        match spec_element(i@) {
            Ok((element, n)) => r matches Ok(p) && p.0@ == i@.skip(n as int) && p.1@ == element,
            Err(e) => r == Err::<(&str, SgmlElement), _>(e),
        },
        r matches Ok(p) ==> p.1@.well_formed(),
{
    proof {
        lemma_element_well_formed(i@);
    }
    let buf = chars_of(i);
    assert(buf@.skip(0) =~= buf@);
    match element_at(buf.as_slice(), 0) {
        Ok(p) => Ok((i.substring_char(p.1, buf.len()), p.0)),
        Err(e) => Err(e),
    }
}

/// The result of reading elements with `done` behind and `then` before.
pub open spec fn elements_after(done: Seq<Element>, then: Result<Seq<Element>, ParseError>) -> Result<
    Seq<Element>,
    ParseError,
> {
    match then {
        Ok(more) => Ok(done + more),
        Err(e) => Err(e),
    }
}

/// Reading on after one element is the same as having it behind.
proof fn lemma_elements_after_step(done: Seq<Element>, s: Seq<char>, first: Element, n: nat)
    requires
        s.len() > 0,
        spec_element(s) == Ok::<_, ParseError>((first, n)),
    ensures
        0 < n <= s.len(),
        elements_after(done, spec_elements(s)) == elements_after(
            done.push(first),
            spec_elements(s.skip(n as int)),
        ),
{
    reveal(spec_elements);
    lemma_element_advances(s);
    if let Ok(more) = spec_elements(s.skip(n as int)) {
        assert(done + (seq![first] + more) =~= done.push(first) + more);
    }
}

/// The elements that the whole of `i` is made of, one after the other.
pub fn sgml_elements(i: &str) -> (r: Result<Vec<SgmlElement>, ParseError>)
    ensures
        match spec_elements(i@) {
            Ok(elements) => r matches Ok(v) && elements_view(v@) == elements,
            Err(e) => r == Err::<Vec<SgmlElement>, _>(e),
        },
        r matches Ok(v) ==> forall|j: int| 0 <= j < v.len() ==> (#[trigger] v[j])@.well_formed(),
{
    proof {
        lemma_elements_well_formed(i@);
    }
    let buf = chars_of(i);
    let ghost whole = spec_elements(buf@);
    let mut elements: Vec<SgmlElement> = Vec::new();
    let mut cur: usize = 0;
    proof {
        assert(buf@.skip(0) =~= buf@);
        assert(elements_view(elements@) =~= Seq::empty());
        if let Ok(more) = spec_elements(buf@) {
            assert(Seq::<Element>::empty() + more =~= more);
        }
    }
    while cur < buf.len()
        invariant
            cur <= buf.len(),
            buf@ == i@,
            whole == spec_elements(buf@),
            whole == elements_after(elements_view(elements@), spec_elements(buf@.skip(cur as int))),
        decreases buf.len() - cur,
    {
        let ghost done = elements_view(elements@);
        proof {
            reveal(spec_elements);
        }
        match element_at(buf.as_slice(), cur) {
            Ok(p) => {
                let (element, next) = p;
                proof {
                    lemma_elements_after_step(
                        done,
                        buf@.skip(cur as int),
                        element@,
                        (next - cur) as nat,
                    );
                    assert(buf@.skip(cur as int).skip(next - cur) =~= buf@.skip(next as int));
                    assert(elements_view(elements@.push(element)) =~= done.push(element@));
                }
                elements.push(element);
                cur = next;
            },
            Err(e) => {
                assert(buf@.skip(cur as int).len() > 0);
                assert(spec_elements(buf@.skip(cur as int)) == Err::<Seq<Element>, _>(e));
                return Err(e);
            },
        }
    }
    proof {
        reveal(spec_elements);
        assert(elements_view(elements@) + Seq::<Element>::empty() =~= elements_view(elements@));
        assert forall|j: int| 0 <= j < elements.len() implies (#[trigger] elements[j])@.well_formed() by {
            assert(elements_view(elements@)[j] == elements[j]@);
        }
    }
    Ok(elements)
}

} // verus!
