//! Text as a buffer of characters: runs of a class of characters, words at
//! a place, and strings made of spans.

use crate::chars::{
    is_alphanumeric, is_digit, is_not_open_bracket, is_sgml_data_end, is_uppercase, is_whitespace,
    spec_is_alphanumeric, spec_is_digit, spec_is_not_open_bracket, spec_is_sgml_data_end,
    spec_is_uppercase, spec_is_whitespace,
};
use vstd::prelude::*;
use vstd::std_specs::iter::IteratorSpec;

verus! {

/// The classes of characters of which the grammars scan runs.
#[derive(Clone, Copy, Debug, PartialEq, Eq, Structural)]
pub enum CharClass {
    /// `A` to `Z`.
    Uppercase,
    /// ASCII letters and digits.
    Alphanumeric,
    /// `0` to `9`.
    Digit,
    /// Tab, line feed, carriage return, space.
    Whitespace,
    /// Every character but `<`.
    NotOpenBracket,
    /// Every character but `<` and `&`.
    DataText,
    /// Every character but carriage return and line feed.
    LineText,
}

impl CharClass {
    pub open spec fn spec_contains(self, chr: char) -> bool {
        match self {
            CharClass::Uppercase => spec_is_uppercase(chr),
            CharClass::Alphanumeric => spec_is_alphanumeric(chr),
            CharClass::Digit => spec_is_digit(chr),
            CharClass::Whitespace => spec_is_whitespace(chr),
            CharClass::NotOpenBracket => spec_is_not_open_bracket(chr),
            CharClass::DataText => !spec_is_sgml_data_end(chr),
            CharClass::LineText => chr != '\r' && chr != '\n',
        }
    }

    #[verifier::when_used_as_spec(spec_contains)]
    pub fn contains(self, chr: char) -> (b: bool)
        ensures
            b == self.spec_contains(chr),
    {
        match self {
            CharClass::Uppercase => is_uppercase(chr),
            CharClass::Alphanumeric => is_alphanumeric(chr),
            CharClass::Digit => is_digit(chr),
            CharClass::Whitespace => is_whitespace(chr),
            CharClass::NotOpenBracket => is_not_open_bracket(chr),
            CharClass::DataText => !is_sgml_data_end(chr),
            CharClass::LineText => chr != '\r' && chr != '\n',
        }
    }
}

/// The length of the longest prefix of `s` that lies within `class`.
pub open spec fn run_len(s: Seq<char>, class: CharClass) -> nat
    decreases s.len(),
{
    if s.len() > 0 && class.spec_contains(s[0]) {
        1 + run_len(s.skip(1), class)
    } else {
        0
    }
}

/// `n` characters of `s` lie within `class`, and the one after them, if
/// there is one, does not.
pub open spec fn is_run(s: Seq<char>, class: CharClass, n: nat) -> bool {
    &&& n <= s.len()
    &&& forall|j: int| 0 <= j < n ==> class.spec_contains(#[trigger] s[j])
    &&& (n < s.len() ==> !class.spec_contains(s[n as int]))
}

/// `run_len` is the one length that `is_run` accepts.
pub proof fn lemma_run_len(s: Seq<char>, class: CharClass)
    ensures
        is_run(s, class, run_len(s, class)),
    decreases s.len(),
{
    if s.len() > 0 && class.spec_contains(s[0]) {
        let t = s.skip(1);
        lemma_run_len(t, class);
        let n = run_len(t, class);
        assert forall|j: int| 0 <= j < n + 1 implies class.spec_contains(#[trigger] s[j]) by {
            if j > 0 {
                assert(s[j] == t[j - 1]);
            }
        }
        if n + 1 < s.len() {
            assert(s[n as int + 1] == t[n as int]);
        }
    }
}

pub proof fn lemma_run_unique(s: Seq<char>, class: CharClass, n: nat)
    requires
        is_run(s, class, n),
    ensures
        run_len(s, class) == n,
    decreases s.len(),
{
    if n > 0 {
        let t = s.skip(1);
        assert(class.spec_contains(s[0]));
        assert forall|j: int| 0 <= j < n - 1 implies class.spec_contains(#[trigger] t[j]) by {
            assert(t[j] == s[j + 1]);
        }
        if n - 1 < t.len() {
            assert(t[n - 1] == s[n as int]);
        }
        lemma_run_unique(t, class, (n - 1) as nat);
    }
}

/// A run that fills `a` ends with `a` where what follows `a` is not of the
/// class.
pub proof fn lemma_run_fills(a: Seq<char>, b: Seq<char>, class: CharClass)
    requires
        forall|j: int| 0 <= j < a.len() ==> class.spec_contains(#[trigger] a[j]),
        b.len() > 0 ==> !class.spec_contains(b[0]),
    ensures
        run_len(a + b, class) == a.len(),
{
    let s = a + b;
    assert forall|j: int| 0 <= j < a.len() implies class.spec_contains(#[trigger] s[j]) by {
        assert(s[j] == a[j]);
    }
    if a.len() < s.len() {
        assert(s[a.len() as int] == b[0]);
    }
    lemma_run_unique(s, class, a.len());
}

/// A run that ends within `a` is not changed by what follows `a`.
pub proof fn lemma_run_ends_within(a: Seq<char>, b: Seq<char>, class: CharClass)
    requires
        run_len(a, class) < a.len(),
    ensures
        run_len(a + b, class) == run_len(a, class),
{
    let s = a + b;
    let n = run_len(a, class);
    lemma_run_len(a, class);
    assert forall|j: int| 0 <= j < n implies class.spec_contains(#[trigger] s[j]) by {
        assert(s[j] == a[j]);
    }
    assert(s[n as int] == a[n as int]);
    lemma_run_unique(s, class, n);
}

/// The first offset in `s` at which `pat` occurs, if it occurs at all.
pub open spec fn find_first(s: Seq<char>, pat: Seq<char>) -> Option<nat>
    decreases s.len(),
{
    if pat.is_prefix_of(s) {
        Some(0)
    } else if s.len() == 0 {
        None
    } else {
        match find_first(s.skip(1), pat) {
            Some(k) => Some(k + 1),
            None => None,
        }
    }
}

/// `pat` occurs in `s` at offset `k` and at no offset before it.
pub open spec fn is_first_at(s: Seq<char>, pat: Seq<char>, k: nat) -> bool {
    &&& k <= s.len()
    &&& pat.is_prefix_of(s.skip(k as int))
    &&& forall|j: int| 0 <= j < k ==> !pat.is_prefix_of(#[trigger] s.skip(j))
}

/// `pat` occurs nowhere in `s`.
pub open spec fn occurs_nowhere(s: Seq<char>, pat: Seq<char>) -> bool {
    forall|j: int| 0 <= j <= s.len() ==> !pat.is_prefix_of(#[trigger] s.skip(j))
}

pub proof fn lemma_find_first(s: Seq<char>, pat: Seq<char>)
    ensures
        match find_first(s, pat) {
            Some(k) => is_first_at(s, pat, k),
            None => occurs_nowhere(s, pat),
        },
    decreases s.len(),
{
    assert(s.skip(0) =~= s);
    if pat.is_prefix_of(s) {
    } else if s.len() == 0 {
    } else {
        let t = s.skip(1);
        lemma_find_first(t, pat);
        assert forall|j: int| 1 <= j <= s.len() implies #[trigger] s.skip(j) == t.skip(j - 1) by {
            assert(s.skip(j) =~= t.skip(j - 1));
        }
        match find_first(t, pat) {
            Some(k) => {
                assert(s.skip(k as int + 1) == t.skip(k as int));
                assert forall|j: int| 0 <= j < k + 1 implies !pat.is_prefix_of(
                    #[trigger] s.skip(j),
                ) by {
                    if j > 0 {
                        assert(s.skip(j) == t.skip(j - 1));
                    }
                }
            },
            None => {
                assert forall|j: int| 0 <= j <= s.len() implies !pat.is_prefix_of(
                    #[trigger] s.skip(j),
                ) by {
                    if j > 0 {
                        assert(s.skip(j) == t.skip(j - 1));
                    }
                }
            },
        }
    }
}

pub proof fn lemma_find_first_unique(s: Seq<char>, pat: Seq<char>, k: nat)
    requires
        is_first_at(s, pat, k),
    ensures
        find_first(s, pat) == Some(k),
{
    lemma_find_first(s, pat);
    match find_first(s, pat) {
        Some(m) => {
            if m < k {
                assert(!pat.is_prefix_of(s.skip(m as int)));
            }
            if k < m {
                assert(!pat.is_prefix_of(s.skip(k as int)));
            }
        },
        None => {
            assert(!pat.is_prefix_of(s.skip(k as int)));
        },
    }
}

/// Decodes a string slice into its characters.
pub(crate) fn chars_of(s: &str) -> (buf: Vec<char>)
    ensures
        buf@ == s@,
{
    let mut buf: Vec<char> = Vec::new();
    let it = s.chars();
    for c in iter: it
        invariant
            buf@ == iter.seq().take(iter.index() as int),
            iter.seq() == s@,
    {
        buf.push(c);
    }
    buf
}

/// `String::push` of the standard library: the string afterwards is the
/// string before with `chr` added at its end.
#[verifier::external_body]
pub(crate) fn push_char(s: &mut String, chr: char)
    ensures
        final(s)@ == old(s)@.push(chr),
{
    s.push(chr);
}

/// Adds the characters of `buf` from `from` up to `to` at the end of `s`.
pub(crate) fn push_span(s: &mut String, buf: &[char], from: usize, to: usize)
    requires
        from <= to <= buf.len(),
    ensures
        final(s)@ == old(s)@ + buf@.subrange(from as int, to as int),
{
    let ghost before = s@;
    let mut i: usize = from;
    assert(before + buf@.subrange(from as int, i as int) =~= before);
    while i < to
        invariant
            from <= i <= to <= buf.len(),
            s@ == before + buf@.subrange(from as int, i as int),
        decreases to - i,
    {
        push_char(s, buf[i]);
        assert(s@ =~= before + buf@.subrange(from as int, i + 1));
        i += 1;
    }
}

/// The characters of `buf` from `from` up to `to`, as a string.
pub(crate) fn string_of(buf: &[char], from: usize, to: usize) -> (s: String)
    requires
        from <= to <= buf.len(),
    ensures
        s@ == buf@.subrange(from as int, to as int),
{
    let mut s = String::new();
    push_span(&mut s, buf, from, to);
    assert(Seq::<char>::empty() + buf@.subrange(from as int, to as int) =~= buf@.subrange(
        from as int,
        to as int,
    ));
    s
}

/// Where the run of `class` characters that starts at `pos` ends.
pub(crate) fn scan_run(buf: &[char], pos: usize, class: CharClass) -> (end: usize)
    requires
        pos <= buf.len(),
    ensures
        end == pos + run_len(buf@.skip(pos as int), class),
        pos <= end <= buf.len(),
{
    let mut i: usize = pos;
    while i < buf.len() && class.contains(buf[i])
        invariant
            pos <= i <= buf.len(),
            forall|j: int| pos <= j < i ==> class.spec_contains(#[trigger] buf@[j]),
        decreases buf.len() - i,
    {
        i += 1;
    }
    proof {
        let s = buf@.skip(pos as int);
        assert forall|j: int| 0 <= j < i - pos implies class.spec_contains(#[trigger] s[j]) by {
            assert(s[j] == buf@[pos + j]);
        }
        lemma_run_unique(s, class, (i - pos) as nat);
    }
    i
}

/// Whether `pat` stands in `buf` at `pos`.
pub(crate) fn starts_with_at(buf: &[char], pos: usize, pat: &str) -> (b: bool)
    requires
        pos <= buf.len(),
    ensures
        b == pat@.is_prefix_of(buf@.skip(pos as int)),
{
    let ghost s = buf@.skip(pos as int);
    let mut j: usize = pos;
    let it = pat.chars();
    for c in iter: it
        invariant
            iter.seq() == pat@,
            s == buf@.skip(pos as int),
            pos <= buf.len(),
            j == pos + iter.index(),
            j <= buf.len(),
            forall|k: int| 0 <= k < iter.index() ==> s[k] == pat@[k],
    {
        if j >= buf.len() || buf[j] != c {
            proof {
                if pat@.len() <= s.len() {
                    assert(s[j - pos] == buf@[j as int]);
                    assert(s.subrange(0, pat@.len() as int)[j - pos] == s[j - pos]);
                }
            }
            return false;
        }
        assert(s[j - pos] == buf@[j as int]);
        j += 1;
    }
    assert(pat@ =~= s.subrange(0, pat@.len() as int));
    true
}

/// The first place at or after `pos` where `pat` stands in `buf`.
pub(crate) fn find_at(buf: &[char], pos: usize, pat: &str) -> (found: Option<usize>)
    requires
        pos <= buf.len(),
    ensures
        match find_first(buf@.skip(pos as int), pat@) {
            Some(k) => found == Some((pos + k) as usize) && pos + k <= buf.len(),
            None => found is None,
        },
{
    let ghost s = buf@.skip(pos as int);
    let mut i: usize = pos;
    loop
        invariant
            pos <= i <= buf.len(),
            s == buf@.skip(pos as int),
            forall|j: int| 0 <= j < i - pos ==> !pat@.is_prefix_of(#[trigger] s.skip(j)),
        decreases buf.len() - i,
    {
        assert(s.skip(i - pos) =~= buf@.skip(i as int));
        if starts_with_at(buf, i, pat) {
            proof {
                lemma_find_first_unique(s, pat@, (i - pos) as nat);
            }
            return Some(i);
        }
        if i == buf.len() {
            proof {
                lemma_find_first(s, pat@);
            }
            return None;
        }
        i += 1;
    }
}

/// Whether what is left of `buf` from `pos` on is the start of `pat`, and
/// not all of it.
pub(crate) fn rest_starts(buf: &[char], pos: usize, pat: &str) -> (b: bool)
    requires
        pos <= buf.len(),
    ensures
        b == (buf@.skip(pos as int).len() < pat@.len() && buf@.skip(pos as int).is_prefix_of(
            pat@,
        )),
{
    let ghost s = buf@.skip(pos as int);
    let pat_buf = chars_of(pat);
    let left = buf.len() - pos;
    if left >= pat_buf.len() {
        return false;
    }
    let mut j: usize = 0;
    while j < left
        invariant
            j <= left,
            left == buf.len() - pos,
            left < pat_buf.len(),
            pat_buf@ == pat@,
            s == buf@.skip(pos as int),
            forall|k: int| 0 <= k < j ==> s[k] == pat@[k],
        decreases left - j,
    {
        if buf[pos + j] != pat_buf[j] {
            assert(s[j as int] == buf@[pos + j]);
            assert(pat@.subrange(0, s.len() as int)[j as int] == pat@[j as int]);
            return false;
        }
        assert(s[j as int] == buf@[pos + j]);
        j += 1;
    }
    assert(s =~= pat@.subrange(0, s.len() as int));
    true
}

/// Looks for `lit` at `pos`; gives the place after it.
pub(crate) fn lit_at(buf: &[char], pos: usize, lit: &str) -> (end: Option<usize>)
    requires
        pos <= buf.len(),
    ensures
        lit@.is_prefix_of(buf@.skip(pos as int)) ==> end == Some((pos + lit@.len()) as usize) && pos
            + lit@.len() <= buf.len(),
        !lit@.is_prefix_of(buf@.skip(pos as int)) ==> end is None,
{
    if starts_with_at(buf, pos, lit) {
        Some(pos + lit.unicode_len())
    } else {
        None
    }
}

/// Whether the characters of `buf` from `from` up to `to` are those of `pat`.
pub(crate) fn span_equals(buf: &[char], from: usize, to: usize, pat: &str) -> (b: bool)
    requires
        from <= to <= buf.len(),
    ensures
        b == (buf@.subrange(from as int, to as int) == pat@),
{
    let ghost s = buf@.skip(from as int);
    let ghost span = buf@.subrange(from as int, to as int);
    assert(s.len() >= pat@.len() ==> s.subrange(0, pat@.len() as int) =~= buf@.subrange(
        from as int,
        from + pat@.len(),
    ));
    match lit_at(buf, from, pat) {
        Some(end) => {
            assert(end == to ==> span =~= pat@);
            end == to
        },
        None => {
            assert(span.len() == pat@.len() ==> span =~= s.subrange(0, pat@.len() as int));
            false
        },
    }
}

} // verus!
