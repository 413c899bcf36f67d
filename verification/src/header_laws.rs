//! What was read from a header block is read again from what is written
//! of it.

use crate::error::ParseError;
use crate::header::{
    decimal_digits, digit_char, entry_key_text, entry_value_text, file_id_text,
    lemma_header_entry_within, spec_encode_entry, spec_encode_header, spec_encode_lines,
    spec_charset_value, spec_data_value, spec_encoding_value, spec_entry_key, spec_file_id_value,
    spec_header, spec_header_entry, spec_header_key, spec_header_lines, spec_header_value,
    spec_line_ending, spec_line_text, spec_security_value, HeaderKey,
};
use crate::model::{Charset, DataView, Encoding, HeaderEntryView, Security};
use crate::sgml::{decimal_value, spec_unsigned_integer};
use crate::text::{lemma_run_fills, lemma_run_len, run_len, CharClass};
use vstd::prelude::*;

verus! {

/// The digits that write a number are digits, and are read as that number.
pub proof fn lemma_decimal_digits(n: nat)
    ensures
        decimal_digits(n).len() > 0,
        forall|j: int|
            0 <= j < decimal_digits(n).len() ==> CharClass::Digit.spec_contains(
                #[trigger] decimal_digits(n)[j],
            ),
        decimal_value(decimal_digits(n)) == n,
    decreases n,
{
    if n < 10 {
        let digits = seq![digit_char(n)];
        assert(digits.drop_last() =~= Seq::<char>::empty());
        assert(decimal_value(digits.drop_last()) == 0);
        assert(digits.last() == digit_char(n));
    } else {
        lemma_decimal_digits(n / 10);
        let front = decimal_digits(n / 10);
        let digits = front.push(digit_char(n % 10));
        assert(digits.drop_last() =~= front);
        assert(digits.last() == digit_char(n % 10));
        assert forall|j: int| 0 <= j < digits.len() implies CharClass::Digit.spec_contains(
            #[trigger] digits[j],
        ) by {
            if j < front.len() {
                assert(digits[j] == front[j]);
            }
        }
    }
}

/// What follows a value that is written out: nothing, or a line feed.
pub open spec fn ends_line(rest: Seq<char>) -> bool {
    rest.len() == 0 || rest[0] == '\n'
}

/// A number that is written out is read as that number.
pub proof fn lemma_number_reads(n: u32, rest: Seq<char>)
    requires
        ends_line(rest),
    ensures
        spec_unsigned_integer(decimal_digits(n as nat) + rest) == Ok::<_, ParseError>(
            (n, decimal_digits(n as nat).len()),
        ),
{
    let digits = decimal_digits(n as nat);
    lemma_decimal_digits(n as nat);
    lemma_run_fills(digits, rest, CharClass::Digit);
    assert((digits + rest).take(digits.len() as int) =~= digits);
}

/// `text` has no carriage return and no line feed in it.
pub open spec fn is_line_text(text: Seq<char>) -> bool {
    forall|j: int| 0 <= j < text.len() ==> CharClass::LineText.spec_contains(#[trigger] text[j])
}

/// Text of one line that is written out is read as the text of the line.
pub proof fn lemma_line_text_reads(text: Seq<char>, rest: Seq<char>)
    requires
        is_line_text(text),
        ends_line(rest),
    ensures
        spec_line_text(text + rest) == Some(text.len()),
        (text + rest).take(text.len() as int) == text,
{
    lemma_run_fills(text, rest, CharClass::LineText);
    assert((text + rest).take(text.len() as int) =~= text);
    if rest.len() > 0 {
        assert((text + rest)[text.len() as int] == rest[0]);
    }
}

/// `key` can be the key of an entry: letters and digits, at least one.
pub open spec fn is_key_text(key: Seq<char>) -> bool {
    &&& key.len() > 0
    &&& forall|j: int| 0 <= j < key.len() ==> CharClass::Alphanumeric.spec_contains(#[trigger] key[j])
}

/// A key that is written out before a colon is read as that key.
pub proof fn lemma_key_reads(key: Seq<char>, after: Seq<char>)
    requires
        is_key_text(key),
    ensures
        spec_entry_key(key + ":"@ + after) == Some(key.len()),
        (key + ":"@ + after).take(key.len() as int) == key,
        (key + ":"@ + after).skip(key.len() as int + 1) == after,
{
    reveal_strlit(":");
    let s = key + ":"@ + after;
    assert(s =~= key + (":"@ + after));
    lemma_run_fills(key, ":"@ + after, CharClass::Alphanumeric);
    assert(s.take(key.len() as int) =~= key);
    assert(s.skip(key.len() as int + 1) =~= after);
    assert(s[key.len() as int] == ':');
}

/// A file identifier can be read back: it is text of one line, and not
/// text that starts with `NONE`.
pub open spec fn is_plain_file_id(id: Option<Seq<char>>) -> bool {
    match id {
        None => true,
        Some(text) => is_line_text(text) && !"NONE"@.is_prefix_of(text),
    }
}

/// `entry` can be read back from how it is written: its free text is text
/// of one line that no other value of its key starts, and the key of an
/// entry that is not known is a key, and none of the known ones.
#[verifier::opaque]
pub open spec fn is_plain_entry(entry: HeaderEntryView) -> bool {
    match entry {
        HeaderEntryView::Data(DataView::Other(text)) => is_line_text(text) && !"OFXSGML"@.is_prefix_of(
            text,
        ),
        HeaderEntryView::NewFileUid(id) => is_plain_file_id(id),
        HeaderEntryView::OldFileUid(id) => is_plain_file_id(id),
        HeaderEntryView::Unknown(key, text) => is_key_text(key) && spec_header_key(key)
            == HeaderKey::Unknown && is_line_text(text),
        _ => true,
    }
}

/// Every one of `entries` can be read back.
pub open spec fn are_plain_entries(entries: Seq<HeaderEntryView>) -> bool {
    forall|j: int| 0 <= j < entries.len() ==> is_plain_entry(#[trigger] entries[j])
}

/// The keys that are known are keys, and each is told from the others.
pub proof fn lemma_known_keys()
    ensures
        is_key_text("CHARSET"@) && spec_header_key("CHARSET"@) == HeaderKey::Charset,
        is_key_text("COMPRESSION"@) && spec_header_key("COMPRESSION"@) == HeaderKey::Compression,
        is_key_text("DATA"@) && spec_header_key("DATA"@) == HeaderKey::Data,
        is_key_text("ENCODING"@) && spec_header_key("ENCODING"@) == HeaderKey::Encoding,
        is_key_text("NEWFILEUID"@) && spec_header_key("NEWFILEUID"@) == HeaderKey::NewFileUid,
        is_key_text("OFXHEADER"@) && spec_header_key("OFXHEADER"@) == HeaderKey::OfxHeader,
        is_key_text("OLDFILEUID"@) && spec_header_key("OLDFILEUID"@) == HeaderKey::OldFileUid,
        is_key_text("SECURITY"@) && spec_header_key("SECURITY"@) == HeaderKey::Security,
        is_key_text("VERSION"@) && spec_header_key("VERSION"@) == HeaderKey::Version,
{
    reveal_strlit("CHARSET");
    reveal_strlit("COMPRESSION");
    reveal_strlit("DATA");
    reveal_strlit("ENCODING");
    reveal_strlit("NEWFILEUID");
    reveal_strlit("OFXHEADER");
    reveal_strlit("OLDFILEUID");
    reveal_strlit("SECURITY");
    reveal_strlit("VERSION");
    assert("CHARSET"@[0] == 'C' && "VERSION"@[0] == 'V');
    assert("ENCODING"@[0] == 'E' && "SECURITY"@[0] == 'S');
    assert("NEWFILEUID"@[0] == 'N' && "OLDFILEUID"@[0] == 'O');
}

/// A word is the start of itself with anything behind it.
proof fn lemma_word_starts(word: Seq<char>, rest: Seq<char>)
    ensures
        word.is_prefix_of(word + rest),
{
    assert(word =~= (word + rest).subrange(0, word.len() as int));
}

/// A word that starts text of one line with a line end behind it starts the
/// text itself.
proof fn lemma_word_starts_text(word: Seq<char>, text: Seq<char>, rest: Seq<char>)
    requires
        is_line_text(word),
        ends_line(rest),
        word.is_prefix_of(text + rest),
    ensures
        word.is_prefix_of(text),
{
    let s = text + rest;
    let found = s.subrange(0, word.len() as int);
    if word.len() > text.len() {
        assert(found[text.len() as int] == s[text.len() as int]);
        assert(s[text.len() as int] == rest[0]);
        assert(CharClass::LineText.spec_contains(word[text.len() as int]));
    } else {
        assert(word =~= text.subrange(0, word.len() as int));
    }
}

/// A character set that is written out is read as that character set.
proof fn lemma_charset_reads(v: Option<Charset>, rest: Seq<char>)
    ensures
        spec_charset_value(entry_value_text(HeaderEntryView::Charset(v)) + rest) == Ok::<
            _,
            ParseError,
        >((v, entry_value_text(HeaderEntryView::Charset(v)).len())),
{
    reveal_strlit("NONE");
    reveal_strlit("ISO-8859-1");
    reveal_strlit("1252");
    let text = entry_value_text(HeaderEntryView::Charset(v));
    let s = text + rest;
    lemma_word_starts(text, rest);
    assert(s[0] == text[0]);
    if "NONE"@.is_prefix_of(s) {
        assert(s.subrange(0, 4)[0] == 'N');
    }
    if "ISO-8859-1"@.is_prefix_of(s) {
        assert(s.subrange(0, 10)[0] == 'I');
    }
}

/// An encoding that is written out is read as that encoding.
proof fn lemma_encoding_reads(v: Encoding, rest: Seq<char>)
    ensures
        spec_encoding_value(entry_value_text(HeaderEntryView::Encoding(v)) + rest) == Ok::<
            _,
            ParseError,
        >((v, entry_value_text(HeaderEntryView::Encoding(v)).len())),
{
    reveal_strlit("USASCII");
    reveal_strlit("UTF-8");
    let text = entry_value_text(HeaderEntryView::Encoding(v));
    let s = text + rest;
    lemma_word_starts(text, rest);
    assert(s[1] == text[1]);
    if "USASCII"@.is_prefix_of(s) {
        assert(s.subrange(0, 7)[1] == 'S');
    }
}

/// A security that is written out is read as that security.
proof fn lemma_security_reads(v: Option<Security>, rest: Seq<char>)
    ensures
        spec_security_value(entry_value_text(HeaderEntryView::Security(v)) + rest) == Ok::<
            _,
            ParseError,
        >((v, entry_value_text(HeaderEntryView::Security(v)).len())),
{
    reveal_strlit("NONE");
    reveal_strlit("TYPE1");
    let text = entry_value_text(HeaderEntryView::Security(v));
    let s = text + rest;
    lemma_word_starts(text, rest);
    assert(s[0] == text[0]);
    match v {
        None => {
            assert("NONE"@.is_prefix_of(s));
        },
        Some(Security::Type1) => {
            assert(v == Some(Security::Type1));
            assert(text == "TYPE1"@);
            assert("TYPE1"@.is_prefix_of(s));
            if "NONE"@.is_prefix_of(s) {
                assert(s.subrange(0, 4)[0] == 'N');
            }
        },
    }
}

/// A format of the body that is written out is read as that format.
proof fn lemma_data_reads(v: DataView, rest: Seq<char>)
    requires
        is_plain_entry(HeaderEntryView::Data(v)),
        ends_line(rest),
    ensures
        spec_data_value(entry_value_text(HeaderEntryView::Data(v)) + rest) == Ok::<_, ParseError>(
            (v, entry_value_text(HeaderEntryView::Data(v)).len()),
        ),
{
    reveal(is_plain_entry);
    reveal_strlit("OFXSGML");
    let text = entry_value_text(HeaderEntryView::Data(v));
    match v {
        DataView::OfxSgml => {
            lemma_word_starts(text, rest);
        },
        DataView::Other(_) => {
            if "OFXSGML"@.is_prefix_of(text + rest) {
                lemma_word_starts_text("OFXSGML"@, text, rest);
            }
            lemma_line_text_reads(text, rest);
        },
    }
}

/// A file identifier that is written out is read as that identifier.
proof fn lemma_file_id_reads(id: Option<Seq<char>>, rest: Seq<char>)
    requires
        is_plain_file_id(id),
        ends_line(rest),
    ensures
        spec_file_id_value(file_id_text(id) + rest) == Ok::<_, ParseError>(
            (id, file_id_text(id).len()),
        ),
{
    reveal_strlit("NONE");
    let text = file_id_text(id);
    match id {
        None => {
            lemma_word_starts(text, rest);
        },
        Some(_) => {
            if "NONE"@.is_prefix_of(text + rest) {
                lemma_word_starts_text("NONE"@, text, rest);
            }
            lemma_line_text_reads(text, rest);
        },
    }
}

/// The value of an entry that is written out is read, under the key of the
/// entry, as the entry.
proof fn lemma_value_reads(entry: HeaderEntryView, rest: Seq<char>)
    requires
        is_plain_entry(entry),
        ends_line(rest),
    ensures
        spec_header_value(entry_key_text(entry), entry_value_text(entry) + rest) == Ok::<
            _,
            ParseError,
        >((entry, entry_value_text(entry).len())),
{
    reveal(spec_header_value);
    reveal(is_plain_entry);
    lemma_known_keys();
    match entry {
        HeaderEntryView::Charset(v) => {
            lemma_charset_reads(v, rest);
        },
        HeaderEntryView::Compression => {
            reveal_strlit("NONE");
            lemma_line_text_reads("NONE"@, rest);
        },
        HeaderEntryView::Data(v) => {
            lemma_data_reads(v, rest);
        },
        HeaderEntryView::Encoding(v) => {
            lemma_encoding_reads(v, rest);
        },
        HeaderEntryView::NewFileUid(id) => {
            lemma_file_id_reads(id, rest);
        },
        HeaderEntryView::OfxHeader(n) => {
            lemma_number_reads(n, rest);
        },
        HeaderEntryView::OldFileUid(id) => {
            lemma_file_id_reads(id, rest);
        },
        HeaderEntryView::Security(v) => {
            lemma_security_reads(v, rest);
        },
        HeaderEntryView::Version(n) => {
            lemma_number_reads(n, rest);
        },
        HeaderEntryView::Unknown(key, text) => {
            lemma_line_text_reads(text, rest);
        },
    }
}

/// An entry that is written out, with nothing or a line feed behind it, is
/// read as that entry, and all of what was written is taken.
pub proof fn lemma_entry_reads(entry: HeaderEntryView, rest: Seq<char>)
    requires
        is_plain_entry(entry),
        ends_line(rest),
    ensures
        spec_entry_key(spec_encode_entry(entry) + rest) is Some,
        spec_header_entry(spec_encode_entry(entry) + rest) == Ok::<_, ParseError>(
            (entry, spec_encode_entry(entry).len()),
        ),
        (spec_encode_entry(entry) + rest).skip(spec_encode_entry(entry).len() as int) == rest,
{
    reveal(spec_header_entry);
    reveal(spec_encode_entry);
    reveal(is_plain_entry);
    reveal_strlit(":");
    let key = entry_key_text(entry);
    let value = entry_value_text(entry);
    let s = spec_encode_entry(entry) + rest;
    lemma_known_keys();
    assert(s == key + ":"@ + (value + rest)) by {
        assert(s =~= key + ":"@ + (value + rest));
    }
    lemma_key_reads(key, value + rest);
    lemma_value_reads(entry, rest);
    assert(s.skip(spec_encode_entry(entry).len() as int) =~= rest);
}

/// What is written for the entries after the first is nothing, or starts
/// with a line feed.
proof fn lemma_lines_end_line(entries: Seq<HeaderEntryView>)
    ensures
        ends_line(spec_encode_lines(entries)),
{
    reveal_strlit("\n");
    if entries.len() > 0 {
        let s = spec_encode_lines(entries);
        assert(s[0] == "\n"@[0]);
    }
}

/// The entries read after the first, put together from the next entry and
/// the entries after it.
proof fn lemma_lines_of_parts(
    s: Seq<char>,
    ending: nat,
    entry: HeaderEntryView,
    n: nat,
    more: Seq<HeaderEntryView>,
    m: nat,
)
    requires
        ending > 0,
        spec_line_ending(s) == ending,
        spec_entry_key(s.skip(ending as int)) is Some,
        spec_header_entry(s.skip(ending as int)) == Ok::<_, ParseError>((entry, n)),
        spec_header_lines(s.skip((ending + n) as int)) == Ok::<_, ParseError>((more, m)),
    ensures
        spec_header_lines(s) == Ok::<_, ParseError>((seq![entry] + more, ending + n + m)),
{
}

/// The entries of a header block, put together from the first entry and the
/// entries after it.
proof fn lemma_header_of_parts(
    s: Seq<char>,
    entry: HeaderEntryView,
    n: nat,
    more: Seq<HeaderEntryView>,
    m: nat,
)
    requires
        spec_entry_key(s) is Some,
        spec_header_entry(s) == Ok::<_, ParseError>((entry, n)),
        spec_header_lines(s.skip(n as int)) == Ok::<_, ParseError>((more, m)),
    ensures
        spec_header(s) == Ok::<_, ParseError>((seq![entry] + more, n + m)),
{
}

/// The parts of a line feed with `a` and `b` behind it.
proof fn lemma_line_shape(a: Seq<char>, b: Seq<char>)
    ensures
        spec_line_ending("\n"@ + a + b) == 1,
        ("\n"@ + a + b).skip(1) == a + b,
        ("\n"@ + a + b).skip((1 + a.len()) as int) == b,
        ("\n"@ + a + b).len() == 1 + a.len() + b.len(),
{
    reveal_strlit("\n");
    let s = "\n"@ + a + b;
    assert(s[0] == '\n');
    assert(s.skip(1) =~= a + b);
    assert(s.skip((1 + a.len()) as int) =~= b);
}

/// The entries after the first that are written out, each behind a line
/// feed, are read as those entries, and all of what was written is taken.
proof fn lemma_lines_read(entries: Seq<HeaderEntryView>)
    requires
        are_plain_entries(entries),
    ensures
        spec_header_lines(spec_encode_lines(entries)) == Ok::<_, ParseError>(
            (entries, spec_encode_lines(entries).len()),
        ),
    decreases entries.len(),
{
    let s = spec_encode_lines(entries);
    if entries.len() == 0 {
        assert(spec_line_ending(s) == 0);
        assert(entries =~= Seq::<HeaderEntryView>::empty());
    } else {
        let first = entries[0];
        let more = entries.skip(1);
        let rest = spec_encode_lines(more);
        let line = spec_encode_entry(first) + rest;
        let n = spec_encode_entry(first).len();
        assert(is_plain_entry(first));
        assert(are_plain_entries(more)) by {
            assert forall|j: int| 0 <= j < more.len() implies is_plain_entry(
                #[trigger] more[j],
            ) by {
                assert(more[j] == entries[j + 1]);
            }
        }
        lemma_lines_end_line(more);
        lemma_entry_reads(first, rest);
        lemma_lines_read(more);
        lemma_line_shape(spec_encode_entry(first), rest);
        lemma_lines_of_parts(s, 1, first, n, more, rest.len());
        assert(seq![first] + more == entries) by {
            assert(seq![first] + more =~= entries);
        }
    }
}

/// A header block that is written out is read as the entries that it was
/// written from, and all of what was written is taken.
pub proof fn lemma_header_reads(entries: Seq<HeaderEntryView>)
    requires
        are_plain_entries(entries),
    ensures
        spec_header(spec_encode_header(entries)) == Ok::<_, ParseError>(
            (entries, spec_encode_header(entries).len()),
        ),
{
    let s = spec_encode_header(entries);
    if entries.len() == 0 {
        assert(run_len(s, CharClass::Alphanumeric) == 0);
        assert(spec_entry_key(s) is None);
        assert(entries =~= Seq::<HeaderEntryView>::empty());
    } else {
        let first = entries[0];
        let more = entries.skip(1);
        let rest = spec_encode_lines(more);
        let n = spec_encode_entry(first).len();
        assert(is_plain_entry(first));
        assert(are_plain_entries(more)) by {
            assert forall|j: int| 0 <= j < more.len() implies is_plain_entry(
                #[trigger] more[j],
            ) by {
                assert(more[j] == entries[j + 1]);
            }
        }
        lemma_lines_end_line(more);
        lemma_entry_reads(first, rest);
        lemma_lines_read(more);
        lemma_header_of_parts(s, first, n, more, rest.len());
        assert(seq![first] + more == entries) by {
            assert(seq![first] + more =~= entries);
        }
    }
}

/// An entry that was read can be read back.
pub proof fn lemma_read_entry_is_plain(s: Seq<char>)
    ensures
        spec_header_entry(s) matches Ok((entry, _)) ==> is_plain_entry(entry),
{
    reveal(spec_header_entry);
    reveal(spec_header_value);
    reveal(is_plain_entry);
    reveal_strlit("OFXSGML");
    reveal_strlit("NONE");
    if let Some(k) = spec_entry_key(s) {
        let key = s.take(k as int);
        let value = s.skip(k as int + 1);
        lemma_run_len(s, CharClass::Alphanumeric);
        lemma_run_len(value, CharClass::LineText);
        assert forall|j: int| 0 <= j < key.len() implies CharClass::Alphanumeric.spec_contains(
            #[trigger] key[j],
        ) by {
            assert(key[j] == s[j]);
        }
        if let Some(n) = spec_line_text(value) {
            let text = value.take(n as int);
            assert forall|j: int| 0 <= j < text.len() implies CharClass::LineText.spec_contains(
                #[trigger] text[j],
            ) by {
                assert(text[j] == value[j]);
            }
            if "OFXSGML"@.is_prefix_of(text) {
                assert("OFXSGML"@ =~= value.subrange(0, 7));
            }
            if "NONE"@.is_prefix_of(text) {
                assert("NONE"@ =~= value.subrange(0, 4));
            }
        }
    }
}

/// The entries that were read after the first can be read back.
proof fn lemma_read_lines_are_plain(s: Seq<char>)
    ensures
        spec_header_lines(s) matches Ok((entries, _)) ==> are_plain_entries(entries),
    decreases s.len(),
{
    let ending = spec_line_ending(s);
    if ending != 0 && spec_entry_key(s.skip(ending as int)) is Some {
        let line = s.skip(ending as int);
        lemma_read_entry_is_plain(line);
        lemma_header_entry_within(line);
        if let Ok((entry, n)) = spec_header_entry(line) {
            let then = spec_header_lines(s.skip((ending + n) as int));
            lemma_read_lines_are_plain(s.skip((ending + n) as int));
            if let Ok((more, _)) = then {
                let entries = seq![entry] + more;
                assert forall|j: int| 0 <= j < entries.len() implies is_plain_entry(
                    #[trigger] entries[j],
                ) by {
                    if j > 0 {
                        assert(entries[j] == more[j - 1]);
                    }
                }
            }
        }
    }
}

/// The entries of a header block that was read can be read back.
pub proof fn lemma_read_header_is_plain(s: Seq<char>)
    ensures
        spec_header(s) matches Ok((entries, _)) ==> are_plain_entries(entries),
{
    if spec_entry_key(s) is Some {
        lemma_read_entry_is_plain(s);
        if let Ok((entry, n)) = spec_header_entry(s) {
            lemma_read_lines_are_plain(s.skip(n as int));
            if let Ok((more, _)) = spec_header_lines(s.skip(n as int)) {
                let entries = seq![entry] + more;
                assert forall|j: int| 0 <= j < entries.len() implies is_plain_entry(
                    #[trigger] entries[j],
                ) by {
                    if j > 0 {
                        assert(entries[j] == more[j - 1]);
                    }
                }
            }
        }
    }
}

/// Reading a header block, writing its entries out and reading what was
/// written gives the entries of the first reading again.
pub proof fn lemma_header_round_trip(s: Seq<char>)
    requires
        spec_header(s) is Ok,
    ensures
        spec_header(spec_encode_header(spec_header(s)->Ok_0.0)) == Ok::<_, ParseError>(
            (spec_header(s)->Ok_0.0, spec_encode_header(spec_header(s)->Ok_0.0).len()),
        ),
{
    lemma_read_header_is_plain(s);
    lemma_header_reads(spec_header(s)->Ok_0.0);
}

} // verus!
