//! The tokens of the markup: tags, names, whitespace, numbers, and runs of
//! data with their entities and literal sections.

use crate::chars::{is_breaking_whitespace, spec_is_breaking_whitespace};
use crate::error::ParseError;
use crate::text::{
    chars_of, find_at, find_first, lemma_find_first, lemma_run_len, lit_at, rest_starts, run_len,
    scan_run, starts_with_at, CharClass,
};
use vstd::prelude::*;

verus! {

/// `r` is the success that took the first `n` characters of `s`: it holds
/// the rest of `s` first and what was taken second.
pub open spec fn took(r: Result<(&str, &str), ParseError>, s: Seq<char>, n: nat) -> bool {
    r matches Ok(p) && p.0@ == s.skip(n as int) && p.1@ == s.take(n as int)
}

/// Splits `i`, whose length is `len`, after `at` characters: the rest first,
/// the part before it second.
fn cut(i: &str, len: usize, at: usize) -> (r: (&str, &str))
    requires
        len == i@.len(),
        at <= len,
    ensures
        r.0@ == i@.skip(at as int),
        r.1@ == i@.take(at as int),
{
    (i.substring_char(at, len), i.substring_char(0, at))
}

/// Takes the longest prefix of `i` within `class`; an empty one is a syntax
/// error.
fn take_run1(i: &str, class: CharClass) -> (r: Result<(&str, &str), ParseError>)
    ensures
        run_len(i@, class) == 0 ==> r == Err::<(&str, &str), _>(ParseError::Syntax),
        run_len(i@, class) > 0 ==> took(r, i@, run_len(i@, class)),
{
    let buf = chars_of(i);
    assert(buf@.skip(0) =~= buf@);
    let end = scan_run(buf.as_slice(), 0, class);
    if end == 0 {
        Err(ParseError::Syntax)
    } else {
        Ok(cut(i, buf.len(), end))
    }
}

/// A tag name: the uppercase letters at the start of `i`, of which there
/// must be at least one.
pub fn tag_name(i: &str) -> (r: Result<(&str, &str), ParseError>)
    ensures
        run_len(i@, CharClass::Uppercase) == 0 ==> r == Err::<(&str, &str), _>(
            ParseError::Syntax,
        ),
        run_len(i@, CharClass::Uppercase) > 0 ==> took(r, i@, run_len(i@, CharClass::Uppercase)),
{
    take_run1(i, CharClass::Uppercase)
}

/// The characters at the start of `i` up to the first `<`, of which there
/// must be at least one.
pub fn not_open_bracket1(i: &str) -> (r: Result<(&str, &str), ParseError>)
    ensures
        run_len(i@, CharClass::NotOpenBracket) == 0 ==> r == Err::<(&str, &str), _>(
            ParseError::Syntax,
        ),
        run_len(i@, CharClass::NotOpenBracket) > 0 ==> took(
            r,
            i@,
            run_len(i@, CharClass::NotOpenBracket),
        ),
{
    take_run1(i, CharClass::NotOpenBracket)
}

/// The whitespace at the start of `i`, which may be none: this never fails.
pub fn whitespace(i: &str) -> (r: Result<(&str, &str), ParseError>)
    ensures
        took(r, i@, run_len(i@, CharClass::Whitespace)),
{
    let buf = chars_of(i);
    assert(buf@.skip(0) =~= buf@);
    let end = scan_run(buf.as_slice(), 0, CharClass::Whitespace);
    Ok(cut(i, buf.len(), end))
}

/// A chunk of literal data: the characters at the start of `i` up to the
/// first `<` or `&`, of which there must be at least one.
pub fn sgml_data_unescaped(i: &str) -> (r: Result<(&str, &str), ParseError>)
    ensures
        run_len(i@, CharClass::DataText) == 0 ==> r == Err::<(&str, &str), _>(
            ParseError::Syntax,
        ),
        run_len(i@, CharClass::DataText) > 0 ==> took(r, i@, run_len(i@, CharClass::DataText)),
{
    take_run1(i, CharClass::DataText)
}

/// The number that the decimal digits `digits` write.
pub open spec fn decimal_value(digits: Seq<char>) -> nat
    decreases digits.len(),
{
    if digits.len() == 0 {
        0
    } else {
        (10 * decimal_value(digits.drop_last()) + (digits.last() as int - '0' as int)) as nat
    }
}

/// The unsigned integer at the start of `s` and the number of its digits.
pub open spec fn spec_unsigned_integer(s: Seq<char>) -> Result<(u32, nat), ParseError> {
    let n = run_len(s, CharClass::Digit);
    if n == 0 {
        Err(ParseError::Syntax)
    } else if decimal_value(s.take(n as int)) > u32::MAX {
        Err(ParseError::NumericRange)
    } else {
        Ok((decimal_value(s.take(n as int)) as u32, n))
    }
}

/// A number only grows when digits are added to it.
proof fn lemma_decimal_value_grows(digits: Seq<char>, k: int)
    requires
        0 <= k <= digits.len(),
        forall|j: int| 0 <= j < digits.len() ==> CharClass::Digit.spec_contains(#[trigger] digits[j]),
    ensures
        decimal_value(digits.take(k)) <= decimal_value(digits),
    decreases digits.len() - k,
{
    if k == digits.len() {
        assert(digits.take(k) =~= digits);
    } else {
        let longer = digits.take(k + 1);
        assert(longer.drop_last() =~= digits.take(k));
        assert(longer.last() == digits[k]);
        lemma_decimal_value_grows(digits, k + 1);
    }
}

/// Reads the digits of `buf` from `from` up to `to` as a number.
fn read_decimal(buf: &[char], from: usize, to: usize) -> (r: Option<u32>)
    requires
        from <= to <= buf.len(),
        forall|j: int| from <= j < to ==> CharClass::Digit.spec_contains(#[trigger] buf@[j]),
    ensures
        decimal_value(buf@.subrange(from as int, to as int)) <= u32::MAX ==> r == Some(
            decimal_value(buf@.subrange(from as int, to as int)) as u32,
        ),
        decimal_value(buf@.subrange(from as int, to as int)) > u32::MAX ==> r is None,
{
    let ghost digits = buf@.subrange(from as int, to as int);
    let mut value: u32 = 0;
    let mut i: usize = from;
    while i < to
        invariant
            from <= i <= to <= buf.len(),
            digits == buf@.subrange(from as int, to as int),
            forall|j: int| from <= j < to ==> CharClass::Digit.spec_contains(#[trigger] buf@[j]),
            value == decimal_value(digits.take(i - from)),
        decreases to - i,
    {
        let digit: u32 = buf[i] as u32 - '0' as u32;
        proof {
            let longer = digits.take(i - from + 1);
            assert(longer.drop_last() =~= digits.take(i - from));
            assert(longer.last() == buf@[i as int]);
            assert forall|j: int| 0 <= j < digits.len() implies CharClass::Digit.spec_contains(
                #[trigger] digits[j],
            ) by {
                assert(digits[j] == buf@[from + j]);
            }
            lemma_decimal_value_grows(digits, i - from + 1);
        }
        if value > (u32::MAX - digit) / 10 {
            return None;
        }
        value = value * 10 + digit;
        i += 1;
    }
    assert(digits.take(to - from) =~= digits);
    Some(value)
}

/// Reads the unsigned integer at `pos`; gives it and the place after it.
pub(crate) fn unsigned_integer_at(buf: &[char], pos: usize) -> (r: Result<(u32, usize), ParseError>)
    requires
        pos <= buf.len(),
    ensures
        match spec_unsigned_integer(buf@.skip(pos as int)) {
            Ok((value, n)) => r == Ok::<_, ParseError>((value, (pos + n) as usize)) && pos + n
                <= buf.len(),
            Err(e) => r == Err::<(u32, usize), _>(e),
        },
{
    let ghost s = buf@.skip(pos as int);
    let end = scan_run(buf, pos, CharClass::Digit);
    if end == pos {
        return Err(ParseError::Syntax);
    }
    proof {
        lemma_run_len(s, CharClass::Digit);
        assert(s.take(end - pos) =~= buf@.subrange(pos as int, end as int));
        assert forall|j: int| pos <= j < end implies CharClass::Digit.spec_contains(
            #[trigger] buf@[j],
        ) by {
            assert(buf@[j] == s[j - pos]);
        }
    }
    match read_decimal(buf, pos, end) {
        Some(value) => Ok((value, end)),
        None => Err(ParseError::NumericRange),
    }
}

/// An unsigned integer: the decimal digits at the start of `i`, of which
/// there must be at least one, read as a number that must fit 32 bits.
/// Gives the rest and the number.
pub fn unsigned_integer(i: &str) -> (r: Result<(&str, u32), ParseError>)
    ensures
        match spec_unsigned_integer(i@) {
            Ok((value, n)) => r matches Ok(p) && p.0@ == i@.skip(n as int) && p.1 == value,
            Err(e) => r == Err::<(&str, u32), _>(e),
        },
{
    let buf = chars_of(i);
    assert(buf@.skip(0) =~= buf@);
    match unsigned_integer_at(buf.as_slice(), 0) {
        Ok(p) => Ok((i.substring_char(p.1, buf.len()), p.0)),
        Err(e) => Err(e),
    }
}

/// The length of the name of the open tag at the start of `s`: `<`, one or
/// more uppercase letters, `>`.
pub open spec fn spec_open_tag(s: Seq<char>) -> Option<nat> {
    if s.len() > 0 && s[0] == '<' {
        let n = run_len(s.skip(1), CharClass::Uppercase);
        if n > 0 && 1 + n < s.len() && s[1 + n as int] == '>' {
            Some(n)
        } else {
            None
        }
    } else {
        None
    }
}

/// Looks for an open tag at `pos`; gives the place of its `>`.
pub(crate) fn open_tag_at(buf: &[char], pos: usize) -> (r: Option<usize>)
    requires
        pos <= buf.len(),
    ensures
        match spec_open_tag(buf@.skip(pos as int)) {
            Some(n) => r == Some((pos + n + 1) as usize) && pos + n + 1 < buf.len(),
            None => r is None,
        },
{
    if pos < buf.len() && buf[pos] == '<' {
        assert(buf@.skip(pos as int).skip(1) =~= buf@.skip(pos + 1));
        let end = scan_run(buf, pos + 1, CharClass::Uppercase);
        if end > pos + 1 && end < buf.len() && buf[end] == '>' {
            Some(end)
        } else {
            None
        }
    } else {
        None
    }
}

/// An open tag: `<`, a tag name, `>`. Gives the rest and the name.
pub fn sgml_open_tag(i: &str) -> (r: Result<(&str, &str), ParseError>)
    ensures
        match spec_open_tag(i@) {
            Some(n) => r matches Ok(p) && p.0@ == i@.skip(n as int + 2) && p.1@ == i@.subrange(
                1,
                n as int + 1,
            ),
            None => r == Err::<(&str, &str), _>(ParseError::Syntax),
        },
{
    let buf = chars_of(i);
    assert(buf@.skip(0) =~= buf@);
    match open_tag_at(buf.as_slice(), 0) {
        Some(end) => Ok((i.substring_char(end + 1, buf.len()), i.substring_char(1, end))),
        None => Err(ParseError::Syntax),
    }
}

/// `name` can stand in a tag: it is not empty, and all of it is uppercase
/// letters.
pub open spec fn is_tag_name(name: Seq<char>) -> bool {
    &&& name.len() > 0
    &&& forall|j: int| 0 <= j < name.len() ==> CharClass::Uppercase.spec_contains(#[trigger] name[j])
}

/// The text of the open tag of `name`.
pub open spec fn open_tag(name: Seq<char>) -> Seq<char> {
    "<"@ + name + ">"@
}

/// The text of the close tag of `name`.
pub open spec fn close_tag(name: Seq<char>) -> Seq<char> {
    "</"@ + name + ">"@
}

/// The open tag of one given name: `<`, the name, `>`. Gives the rest and
/// the name as it stands in the input.
pub fn sgml_open_tag_named<'a>(name: &str, i: &'a str) -> (r: Result<(&'a str, &'a str), ParseError>)
    ensures
        open_tag(name@).is_prefix_of(i@) ==> (r matches Ok(p) && p.0@ == i@.skip(
            name@.len() as int + 2,
        ) && p.1@ == name@),
        !open_tag(name@).is_prefix_of(i@) ==> r == Err::<(&str, &str), _>(ParseError::Syntax),
{
    proof {
        reveal_strlit("<");
        reveal_strlit(">");
    }
    let buf = chars_of(i);
    assert(buf@.skip(0) =~= buf@);
    let opener = String::from_str("<").concat(name).concat(">");
    match lit_at(buf.as_slice(), 0, opener.as_str()) {
        Some(end) => {
            assert(i@.subrange(1, end - 1) =~= name@) by {
                assert(opener@ =~= i@.subrange(0, end as int));
                assert forall|j: int| 0 <= j < name@.len() implies i@.subrange(1, end - 1)[j]
                    == name@[j] by {
                    assert(opener@[j + 1] == name@[j]);
                    assert(i@.subrange(0, end as int)[j + 1] == i@[j + 1]);
                }
            }
            Ok((i.substring_char(end, buf.len()), i.substring_char(1, end - 1)))
        },
        None => Err(ParseError::Syntax),
    }
}

/// Writes the close tag of `name`.
pub(crate) fn close_tag_of(name: &str) -> (closer: String)
    ensures
        closer@ == close_tag(name@),
        closer@.len() == name@.len() + 3,
{
    proof {
        reveal_strlit("</");
        reveal_strlit(">");
    }
    String::from_str("</").concat(name).concat(">")
}

/// The close tag of `name`: `</`, the name, `>`. Gives the rest.
pub fn sgml_close_tag<'a>(name: &str, i: &'a str) -> (r: Result<(&'a str, ()), ParseError>)
    ensures
        close_tag(name@).is_prefix_of(i@) ==> (r matches Ok(p) && p.0@ == i@.skip(
            name@.len() as int + 3,
        )),
        !close_tag(name@).is_prefix_of(i@) ==> r == Err::<(&str, ()), _>(ParseError::Syntax),
{
    let buf = chars_of(i);
    assert(buf@.skip(0) =~= buf@);
    let closer = close_tag_of(name);
    if starts_with_at(buf.as_slice(), 0, closer.as_str()) {
        let n = closer.as_str().unicode_len();
        Ok((i.substring_char(n, buf.len()), ()))
    } else {
        Err(ParseError::Syntax)
    }
}

/// The character entities that data may hold.
#[derive(Clone, Copy, Debug, PartialEq, Eq, Structural)]
pub enum Entity {
    Lt,
    Gt,
    Amp,
    Nbsp,
}

impl Entity {
    /// How the entity is written.
    pub open spec fn spec_text(self) -> Seq<char> {
        match self {
            Entity::Lt => "&lt;"@,
            Entity::Gt => "&gt;"@,
            Entity::Amp => "&amp;"@,
            Entity::Nbsp => "&nbsp;"@,
        }
    }

    /// The character that the entity stands for.
    pub open spec fn spec_decoded(self) -> char {
        match self {
            Entity::Lt => '<',
            Entity::Gt => '>',
            Entity::Amp => '&',
            Entity::Nbsp => '\u{a0}',
        }
    }

    #[verifier::when_used_as_spec(spec_decoded)]
    pub fn decoded(self) -> (chr: char)
        ensures
            chr == self.spec_decoded(),
    {
        match self {
            Entity::Lt => '<',
            Entity::Gt => '>',
            Entity::Amp => '&',
            Entity::Nbsp => '\u{a0}',
        }
    }

    /// How the entity is written.
    pub fn text(self) -> (s: &'static str)
        ensures
            s@ == self.spec_text(),
    {
        match self {
            Entity::Lt => "&lt;",
            Entity::Gt => "&gt;",
            Entity::Amp => "&amp;",
            Entity::Nbsp => "&nbsp;",
        }
    }

    /// The number of characters that write the entity.
    pub fn text_len(self) -> (n: usize)
        ensures
            n == self.spec_text().len(),
            4 <= n <= 6,
    {
        proof {
            reveal_strlit("&lt;");
            reveal_strlit("&gt;");
            reveal_strlit("&amp;");
            reveal_strlit("&nbsp;");
        }
        match self {
            Entity::Lt => 4,
            Entity::Gt => 4,
            Entity::Amp => 5,
            Entity::Nbsp => 6,
        }
    }

    /// The decoded character as a string of its own.
    pub fn decoded_str(self) -> (s: &'static str)
        ensures
            s@ == seq![self.spec_decoded()],
    {
        proof {
            reveal_strlit("<");
            reveal_strlit(">");
            reveal_strlit("&");
            reveal_strlit("\u{a0}");
        }
        let s = match self {
            Entity::Lt => "<",
            Entity::Gt => ">",
            Entity::Amp => "&",
            Entity::Nbsp => "\u{a0}",
        };
        assert(s@ =~= seq![self.spec_decoded()]);
        s
    }
}

/// `s` is a prefix of `of` and shorter than it.
pub open spec fn is_proper_prefix(s: Seq<char>, of: Seq<char>) -> bool {
    s.len() < of.len() && s.is_prefix_of(of)
}

/// The entity that is written at the start of `s`.
pub open spec fn spec_entity(s: Seq<char>) -> Option<Entity> {
    if Entity::Lt.spec_text().is_prefix_of(s) {
        Some(Entity::Lt)
    } else if Entity::Gt.spec_text().is_prefix_of(s) {
        Some(Entity::Gt)
    } else if Entity::Amp.spec_text().is_prefix_of(s) {
        Some(Entity::Amp)
    } else if Entity::Nbsp.spec_text().is_prefix_of(s) {
        Some(Entity::Nbsp)
    } else {
        None
    }
}

/// `s` ends within an entity: more input could complete one.
pub open spec fn spec_entity_truncated(s: Seq<char>) -> bool {
    ||| is_proper_prefix(s, Entity::Lt.spec_text())
    ||| is_proper_prefix(s, Entity::Gt.spec_text())
    ||| is_proper_prefix(s, Entity::Amp.spec_text())
    ||| is_proper_prefix(s, Entity::Nbsp.spec_text())
}

/// The marker that opens a literal section.
pub open spec fn cdata_open() -> Seq<char> {
    "<!CDATA["@
}

/// The marker that closes a literal section.
pub open spec fn cdata_close() -> Seq<char> {
    "]]>"@
}

/// The escaped form at the start of `s`, an entity or a literal section:
/// the text that it stands for and the number of characters that write it.
pub open spec fn spec_escaped(s: Seq<char>) -> Result<(Seq<char>, nat), ParseError> {
    if s.len() > 0 && s[0] == '&' {
        match spec_entity(s) {
            Some(entity) => Ok((seq![entity.spec_decoded()], entity.spec_text().len())),
            None => if spec_entity_truncated(s) {
                Err(ParseError::Incomplete)
            } else {
                Err(ParseError::Syntax)
            },
        }
    } else if cdata_open().is_prefix_of(s) {
        let body = s.skip(cdata_open().len() as int);
        match find_first(body, cdata_close()) {
            Some(k) => Ok((body.take(k as int), cdata_open().len() + k + cdata_close().len())),
            None => Err(ParseError::Incomplete),
        }
    } else {
        Err(ParseError::Syntax)
    }
}

/// What a data run finds at one place.
pub enum DataStep {
    /// A chunk of data: its text, and the number of characters that write it.
    Chunk(Seq<char>, nat),
    /// Nothing that data could start with: the run ends here.
    End,
    /// An escaped form that is not well formed.
    Fail(ParseError),
}

/// One step of a data run at the start of `s`.
pub open spec fn spec_data_step(s: Seq<char>) -> DataStep {
    if s.len() == 0 {
        DataStep::End
    } else if s[0] == '&' || cdata_open().is_prefix_of(s) {
        match spec_escaped(s) {
            Ok((text, n)) => DataStep::Chunk(text, n),
            Err(e) => DataStep::Fail(e),
        }
    } else if s[0] == '<' {
        DataStep::End
    } else {
        DataStep::Chunk(
            s.take(run_len(s, CharClass::DataText) as int),
            run_len(s, CharClass::DataText),
        )
    }
}

/// A step that finds a chunk consumes at least one character, and no more
/// than there are.
pub proof fn lemma_data_step_advances(s: Seq<char>)
    ensures
        spec_data_step(s) matches DataStep::Chunk(_, n) ==> 0 < n <= s.len(),
{
    reveal_strlit("&lt;");
    reveal_strlit("&gt;");
    reveal_strlit("&amp;");
    reveal_strlit("&nbsp;");
    reveal_strlit("<!CDATA[");
    reveal_strlit("]]>");
    if s.len() > 0 {
        if s[0] == '&' || cdata_open().is_prefix_of(s) {
            if s[0] != '&' {
                lemma_find_first(s.skip(cdata_open().len() as int), cdata_close());
            }
        } else if s[0] != '<' {
            lemma_run_len(s, CharClass::DataText);
        }
    }
}

/// The chunks of the data run at the start of `s`, as they are written, and
/// the number of characters that the run takes. The run goes on until a
/// place where no chunk can start; an escaped form that is not well formed
/// fails the whole run.
pub open spec fn spec_data_run(s: Seq<char>) -> Result<(Seq<Seq<char>>, nat), ParseError>
    decreases s.len(),
{
    match spec_data_step(s) {
        DataStep::End => Ok((Seq::empty(), 0)),
        DataStep::Fail(e) => Err(e),
        DataStep::Chunk(text, n) => {
            proof {
                lemma_data_step_advances(s);
            }
            run_after(seq![text], n, spec_data_run(s.skip(n as int)))
        },
    }
}

/// The result of a run that has `done` behind it, written with `n`
/// characters, and `then` before it.
pub open spec fn run_after<T>(done: Seq<T>, n: nat, then: Result<(Seq<T>, nat), ParseError>) -> Result<
    (Seq<T>, nat),
    ParseError,
> {
    match then {
        Ok((more, m)) => Ok((done + more, n + m)),
        Err(e) => Err(e),
    }
}

/// Running on after one item is the same as having it behind.
pub proof fn lemma_run_after_step<T>(
    done: Seq<T>,
    k: nat,
    item: T,
    n: nat,
    then: Result<(Seq<T>, nat), ParseError>,
)
    ensures
        run_after(done, k, run_after(seq![item], n, then)) == run_after(
            done.push(item),
            k + n,
            then,
        ),
{
    if let Ok((more, m)) = then {
        assert(done + (seq![item] + more) =~= done.push(item) + more);
    }
}

/// A run with nothing behind it is the run itself.
pub proof fn lemma_run_after_nothing<T>(then: Result<(Seq<T>, nat), ParseError>)
    ensures
        run_after(Seq::empty(), 0, then) == then,
{
    if let Ok((more, m)) = then {
        assert(Seq::<T>::empty() + more =~= more);
    }
}

/// `s` without the breaking whitespace at its end.
pub open spec fn trim_breaking(s: Seq<char>) -> Seq<char>
    decreases s.len(),
{
    if s.len() > 0 && spec_is_breaking_whitespace(s.last()) {
        trim_breaking(s.drop_last())
    } else {
        s
    }
}

/// The chunks of a run with the last of them trimmed, and dropped where
/// nothing is left of it.
pub open spec fn trim_last(chunks: Seq<Seq<char>>) -> Seq<Seq<char>> {
    if chunks.len() == 0 {
        chunks
    } else if trim_breaking(chunks.last()).len() == 0 {
        chunks.drop_last()
    } else {
        chunks.drop_last().push(trim_breaking(chunks.last()))
    }
}

/// The decoded data at the start of `s`: the chunks of its data run, of
/// which there must be at least one, with the last one trimmed.
pub open spec fn spec_data1(s: Seq<char>) -> Result<(Seq<Seq<char>>, nat), ParseError> {
    match spec_data_run(s) {
        Ok((chunks, n)) => if chunks.len() == 0 {
            Err(ParseError::Syntax)
        } else {
            Ok((trim_last(chunks), n))
        },
        Err(e) => Err(e),
    }
}

/// One chunk of a data run in a buffer: a span of the buffer, or the
/// character that an entity stands for.
#[derive(Clone, Copy, Debug)]
pub enum Chunk {
    Span(usize, usize),
    Decoded(Entity),
}

impl Chunk {
    /// The text of the chunk, where the spans are those of `buf`.
    pub open spec fn text(self, buf: Seq<char>) -> Seq<char> {
        match self {
            Chunk::Span(from, to) => buf.subrange(from as int, to as int),
            Chunk::Decoded(entity) => seq![entity.spec_decoded()],
        }
    }

    /// A span lies within `buf`.
    pub open spec fn fits(self, buf: Seq<char>) -> bool {
        match self {
            Chunk::Span(from, to) => from <= to <= buf.len(),
            Chunk::Decoded(_) => true,
        }
    }
}

/// The texts of `chunks`, in their order.
pub open spec fn chunk_texts(chunks: Seq<Chunk>, buf: Seq<char>) -> Seq<Seq<char>> {
    Seq::new(chunks.len(), |j: int| chunks[j].text(buf))
}

/// Every one of `chunks` lies within `buf`.
pub open spec fn chunks_fit(chunks: Seq<Chunk>, buf: Seq<char>) -> bool {
    forall|j: int| 0 <= j < chunks.len() ==> (#[trigger] chunks[j]).fits(buf)
}

fn entity_at(buf: &[char], pos: usize) -> (r: Option<Entity>)
    requires
        pos <= buf.len(),
    ensures
        r == spec_entity(buf@.skip(pos as int)),
{
    if starts_with_at(buf, pos, Entity::Lt.text()) {
        Some(Entity::Lt)
    } else if starts_with_at(buf, pos, Entity::Gt.text()) {
        Some(Entity::Gt)
    } else if starts_with_at(buf, pos, Entity::Amp.text()) {
        Some(Entity::Amp)
    } else if starts_with_at(buf, pos, Entity::Nbsp.text()) {
        Some(Entity::Nbsp)
    } else {
        None
    }
}

fn entity_truncated_at(buf: &[char], pos: usize) -> (b: bool)
    requires
        pos <= buf.len(),
    ensures
        b == spec_entity_truncated(buf@.skip(pos as int)),
{
    rest_starts(buf, pos, Entity::Lt.text()) || rest_starts(buf, pos, Entity::Gt.text())
        || rest_starts(buf, pos, Entity::Amp.text()) || rest_starts(
        buf,
        pos,
        Entity::Nbsp.text(),
    )
}

/// Reads the escaped form at `pos`; gives its chunk and the place after it.
pub(crate) fn escaped_at(buf: &[char], pos: usize) -> (r: Result<(Chunk, usize), ParseError>)
    requires
        pos <= buf.len(),
    ensures
        match spec_escaped(buf@.skip(pos as int)) {
            Ok((text, n)) => r matches Ok(p) && p.0.text(buf@) == text && p.0.fits(buf@) && p.1
                == pos + n && p.1 <= buf.len(),
            Err(e) => r == Err::<(Chunk, usize), _>(e),
        },
{
    let ghost s = buf@.skip(pos as int);
    if pos < buf.len() && buf[pos] == '&' {
        match entity_at(buf, pos) {
            Some(entity) => Ok((Chunk::Decoded(entity), pos + entity.text_len())),
            None => if entity_truncated_at(buf, pos) {
                Err(ParseError::Incomplete)
            } else {
                Err(ParseError::Syntax)
            },
        }
    } else if starts_with_at(buf, pos, "<!CDATA[") {
        proof {
            reveal_strlit("<!CDATA[");
            reveal_strlit("]]>");
            assert(s.skip(8) =~= buf@.skip(pos + 8));
            lemma_find_first(s.skip(8), cdata_close());
        }
        match find_at(buf, pos + 8, "]]>") {
            Some(end) => {
                assert(s.skip(8).take(end - pos - 8) =~= buf@.subrange(pos + 8, end as int));
                Ok((Chunk::Span(pos + 8, end), end + 3))
            },
            None => Err(ParseError::Incomplete),
        }
    } else {
        Err(ParseError::Syntax)
    }
}

/// Reads the data run at `pos`; gives its chunks as they are written and the
/// place after them.
pub(crate) fn data_run_at(buf: &[char], pos: usize) -> (r: Result<(Vec<Chunk>, usize), ParseError>)
    requires
        pos <= buf.len(),
    ensures
        match spec_data_run(buf@.skip(pos as int)) {
            Ok((texts, n)) => r matches Ok(p) && chunk_texts(p.0@, buf@) == texts && chunks_fit(
                p.0@,
                buf@,
            ) && p.1 == pos + n && p.1 <= buf.len(),
            Err(e) => r == Err::<(Vec<Chunk>, usize), _>(e),
        },
{
    let ghost whole = spec_data_run(buf@.skip(pos as int));
    let mut chunks: Vec<Chunk> = Vec::new();
    let mut cur: usize = pos;
    assert(chunk_texts(chunks@, buf@) =~= Seq::empty());
    proof {
        lemma_run_after_nothing(spec_data_run(buf@.skip(cur as int)));
    }
    loop
        invariant
            pos <= cur <= buf.len(),
            chunks_fit(chunks@, buf@),
            whole == spec_data_run(buf@.skip(pos as int)),
            whole == run_after(
                chunk_texts(chunks@, buf@),
                (cur - pos) as nat,
                spec_data_run(buf@.skip(cur as int)),
            ),
        decreases buf.len() - cur,
    {
        let ghost s = buf@.skip(cur as int);
        let ghost done = chunk_texts(chunks@, buf@);
        proof {
            reveal_strlit("<!CDATA[");
            lemma_data_step_advances(s);
        }
        if cur == buf.len() {
            assert(done + Seq::<Seq<char>>::empty() =~= done);
            return Ok((chunks, cur));
        }
        let chr = buf[cur];
        let chunk: Chunk;
        let next: usize;
        if chr == '&' || starts_with_at(buf, cur, "<!CDATA[") {
            match escaped_at(buf, cur) {
                Ok(p) => {
                    chunk = p.0;
                    next = p.1;
                },
                Err(e) => {
                    return Err(e);
                },
            }
        } else if chr == '<' {
            assert(done + Seq::<Seq<char>>::empty() =~= done);
            return Ok((chunks, cur));
        } else {
            next = scan_run(buf, cur, CharClass::DataText);
            chunk = Chunk::Span(cur, next);
            assert(s.take(next - cur) =~= buf@.subrange(cur as int, next as int));
        }
        proof {
            let text = chunk.text(buf@);
            let n = (next - cur) as nat;
            assert(spec_data_step(s) == DataStep::Chunk(text, n));
            assert(s.skip(n as int) =~= buf@.skip(next as int));
            lemma_run_after_step(
                done,
                (cur - pos) as nat,
                text,
                n,
                spec_data_run(buf@.skip(next as int)),
            );
            assert(chunk_texts(chunks@.push(chunk), buf@) =~= done.push(text));
        }
        chunks.push(chunk);
        cur = next;
    }
}

/// Where the span of `buf` from `from` up to `to` ends once the breaking
/// whitespace at its end is left off.
fn trim_end_at(buf: &[char], from: usize, to: usize) -> (end: usize)
    requires
        from <= to <= buf.len(),
    ensures
        from <= end <= to,
        buf@.subrange(from as int, end as int) == trim_breaking(
            buf@.subrange(from as int, to as int),
        ),
{
    let mut end: usize = to;
    while end > from && is_breaking_whitespace(buf[end - 1])
        invariant
            from <= end <= to <= buf.len(),
            trim_breaking(buf@.subrange(from as int, end as int)) == trim_breaking(
                buf@.subrange(from as int, to as int),
            ),
        decreases end,
    {
        assert(buf@.subrange(from as int, end as int).drop_last() =~= buf@.subrange(
            from as int,
            end - 1,
        ));
        end -= 1;
    }
    end
}

/// Trims the last of `chunks`, and drops it where nothing is left of it.
pub(crate) fn trim_last_chunk(buf: &[char], chunks: &mut Vec<Chunk>)
    requires
        chunks_fit(old(chunks)@, buf@),
    ensures
        chunks_fit(final(chunks)@, buf@),
        chunk_texts(final(chunks)@, buf@) == trim_last(chunk_texts(old(chunks)@, buf@)),
{
    let ghost before = chunk_texts(chunks@, buf@);
    let len = chunks.len();
    if len == 0 {
        return ;
    }
    match chunks[len - 1] {
        Chunk::Span(from, to) => {
            let end = trim_end_at(buf, from, to);
            if end == from {
                chunks.pop();
                assert(chunk_texts(chunks@, buf@) =~= before.drop_last());
            } else {
                chunks.set(len - 1, Chunk::Span(from, end));
                assert(chunk_texts(chunks@, buf@) =~= before.drop_last().push(
                    trim_breaking(before.last()),
                ));
            }
        },
        Chunk::Decoded(entity) => {
            assert(before.last() == seq![entity.spec_decoded()]);
            assert(trim_breaking(before.last()) == before.last());
            assert(before.drop_last().push(before.last()) =~= before);
        },
    }
}

/// The views of the strings of `strs`, in their order.
pub open spec fn strs_view(strs: Seq<&str>) -> Seq<Seq<char>> {
    Seq::new(strs.len(), |j: int| strs[j]@)
}

/// An escaped form: one of the entities `&lt;`, `&gt;`, `&amp;`, `&nbsp;`,
/// or a literal section between `<!CDATA[` and the first `]]>` after it.
/// Gives the rest and the text that the form stands for. A form that the
/// input ends within is incomplete; any other failure is a syntax error.
pub fn sgml_data_escaped(i: &str) -> (r: Result<(&str, &str), ParseError>)
    ensures
        match spec_escaped(i@) {
            Ok((text, n)) => r matches Ok(p) && p.0@ == i@.skip(n as int) && p.1@ == text,
            Err(e) => r == Err::<(&str, &str), _>(e),
        },
{
    let buf = chars_of(i);
    assert(buf@.skip(0) =~= buf@);
    match escaped_at(buf.as_slice(), 0) {
        Ok(p) => {
            let rest = i.substring_char(p.1, buf.len());
            match p.0 {
                Chunk::Span(from, to) => Ok((rest, i.substring_char(from, to))),
                Chunk::Decoded(entity) => Ok((rest, entity.decoded_str())),
            }
        },
        Err(e) => Err(e),
    }
}

/// The decoded data at the start of `i`: unescaped chunks, decoded entities
/// and literal sections in turn, up to a place where none of them can start.
/// There must be at least one. The last chunk loses the breaking whitespace
/// at its end, and is dropped where nothing else is in it. Gives the rest
/// and the chunks.
pub fn sgml_data1(i: &str) -> (r: Result<(&str, Vec<&str>), ParseError>)
    ensures
        match spec_data1(i@) {
            Ok((texts, n)) => r matches Ok(p) && p.0@ == i@.skip(n as int) && strs_view(p.1@)
                == texts,
            Err(e) => r == Err::<(&str, Vec<&str>), _>(e),
        },
{
    let buf = chars_of(i);
    assert(buf@.skip(0) =~= buf@);
    match data_run_at(buf.as_slice(), 0) {
        Ok(p) => {
            let mut chunks = p.0;
            if chunks.len() == 0 {
                return Err(ParseError::Syntax);
            }
            trim_last_chunk(buf.as_slice(), &mut chunks);
            let ghost texts = chunk_texts(chunks@, buf@);
            let mut strs: Vec<&str> = Vec::new();
            let mut j: usize = 0;
            while j < chunks.len()
                invariant
                    j <= chunks.len(),
                    buf@ == i@,
                    chunks_fit(chunks@, buf@),
                    texts == chunk_texts(chunks@, buf@),
                    strs@.len() == j,
                    strs_view(strs@) == texts.take(j as int),
                decreases chunks.len() - j,
            {
                let s = match chunks[j] {
                    Chunk::Span(from, to) => i.substring_char(from, to),
                    Chunk::Decoded(entity) => entity.decoded_str(),
                };
                assert(s@ == texts[j as int]);
                let ghost before = strs@;
                strs.push(s);
                assert forall|k: int| 0 <= k <= j implies strs_view(strs@)[k] == texts[k] by {
                    if k < j {
                        assert(strs_view(before)[k] == texts.take(j as int)[k]);
                    }
                }
                assert(strs_view(strs@) =~= texts.take(j + 1));
                j += 1;
            }
            assert(texts.take(chunks.len() as int) =~= texts);
            Ok((i.substring_char(p.1, buf.len()), strs))
        },
        Err(e) => Err(e),
    }
}

} // verus!
