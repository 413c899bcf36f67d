//! The header block: reading it, and writing it.

use crate::error::ParseError;
use crate::model::{
    entries_view, Charset, Data, DataView, Encoding, HeaderEntry, HeaderEntryView, Ofx, Security,
};
use crate::sgml::{
    lemma_run_after_step, run_after, spec_unsigned_integer, took, unsigned_integer_at,
};
use crate::text::{
    chars_of, lemma_run_len, lit_at, push_char, run_len, scan_run, span_equals, string_of,
    CharClass,
};
use vstd::prelude::*;

verus! {

/// The text up to the end of the line at the start of `s`: the number of
/// characters before the first line feed or carriage return, or before the
/// end. A carriage return that no line feed follows is in no line: there is
/// no such text then.
pub open spec fn spec_line_text(s: Seq<char>) -> Option<nat> {
    let k = run_len(s, CharClass::LineText);
    if k < s.len() && s[k as int] == '\r' && !(k + 1 < s.len() && s[k as int + 1] == '\n') {
        None
    } else {
        Some(k)
    }
}

/// The length of the line ending at the start of `s`, a line feed or a
/// carriage return with a line feed; 0 where there is none.
pub open spec fn spec_line_ending(s: Seq<char>) -> nat {
    if s.len() > 0 && s[0] == '\n' {
        1
    } else if s.len() > 1 && s[0] == '\r' && s[1] == '\n' {
        2
    } else {
        0
    }
}

/// The value of `CHARSET`: `NONE`, `ISO-8859-1` or `1252`.
pub open spec fn spec_charset_value(s: Seq<char>) -> Result<(Option<Charset>, nat), ParseError> {
    if "NONE"@.is_prefix_of(s) {
        Ok((None, "NONE"@.len()))
    } else if "ISO-8859-1"@.is_prefix_of(s) {
        Ok((Some(Charset::Iso88591), "ISO-8859-1"@.len()))
    } else if "1252"@.is_prefix_of(s) {
        Ok((Some(Charset::Windows1252), "1252"@.len()))
    } else {
        Err(ParseError::Syntax)
    }
}

/// The value of `DATA`: `OFXSGML`, or else the text of the line.
pub open spec fn spec_data_value(s: Seq<char>) -> Result<(DataView, nat), ParseError> {
    if "OFXSGML"@.is_prefix_of(s) {
        Ok((DataView::OfxSgml, "OFXSGML"@.len()))
    } else {
        match spec_line_text(s) {
            Some(k) => Ok((DataView::Other(s.take(k as int)), k)),
            None => Err(ParseError::Syntax),
        }
    }
}

/// The value of `ENCODING`: `USASCII` or `UTF-8`.
pub open spec fn spec_encoding_value(s: Seq<char>) -> Result<(Encoding, nat), ParseError> {
    if "USASCII"@.is_prefix_of(s) {
        Ok((Encoding::UsAscii, "USASCII"@.len()))
    } else if "UTF-8"@.is_prefix_of(s) {
        Ok((Encoding::Utf8, "UTF-8"@.len()))
    } else {
        Err(ParseError::Syntax)
    }
}

/// The value of `OLDFILEUID` and `NEWFILEUID`: `NONE`, or else the text of
/// the line.
pub open spec fn spec_file_id_value(s: Seq<char>) -> Result<(Option<Seq<char>>, nat), ParseError> {
    if "NONE"@.is_prefix_of(s) {
        Ok((None, "NONE"@.len()))
    } else {
        match spec_line_text(s) {
            Some(k) => Ok((Some(s.take(k as int)), k)),
            None => Err(ParseError::Syntax),
        }
    }
}

/// The value of `SECURITY`: `NONE` or `TYPE1`.
pub open spec fn spec_security_value(s: Seq<char>) -> Result<(Option<Security>, nat), ParseError> {
    if "NONE"@.is_prefix_of(s) {
        Ok((None, "NONE"@.len()))
    } else if "TYPE1"@.is_prefix_of(s) {
        Ok((Some(Security::Type1), "TYPE1"@.len()))
    } else {
        Err(ParseError::Syntax)
    }
}

/// The keys of the header block.
#[derive(Clone, Copy, Debug, PartialEq, Eq, Structural)]
pub enum HeaderKey {
    Charset,
    Compression,
    Data,
    Encoding,
    NewFileUid,
    OfxHeader,
    OldFileUid,
    Security,
    Version,
    /// Any other key.
    Unknown,
}

/// The key that is written as `key`.
pub open spec fn spec_header_key(key: Seq<char>) -> HeaderKey {
    if key == "CHARSET"@ {
        HeaderKey::Charset
    } else if key == "COMPRESSION"@ {
        HeaderKey::Compression
    } else if key == "DATA"@ {
        HeaderKey::Data
    } else if key == "ENCODING"@ {
        HeaderKey::Encoding
    } else if key == "NEWFILEUID"@ {
        HeaderKey::NewFileUid
    } else if key == "OFXHEADER"@ {
        HeaderKey::OfxHeader
    } else if key == "OLDFILEUID"@ {
        HeaderKey::OldFileUid
    } else if key == "SECURITY"@ {
        HeaderKey::Security
    } else if key == "VERSION"@ {
        HeaderKey::Version
    } else {
        HeaderKey::Unknown
    }
}

/// The entry that `key` makes of the value at the start of `s`, and the
/// number of characters of the value.
#[verifier::opaque]
pub open spec fn spec_header_value(key: Seq<char>, s: Seq<char>) -> Result<
    (HeaderEntryView, nat),
    ParseError,
> {
    match spec_header_key(key) {
        HeaderKey::Charset => match spec_charset_value(s) {
            Ok((v, n)) => Ok((HeaderEntryView::Charset(v), n)),
            Err(e) => Err(e),
        },
        HeaderKey::Compression => match spec_line_text(s) {
            Some(k) => Ok((HeaderEntryView::Compression, k)),
            None => Err(ParseError::Syntax),
        },
        HeaderKey::Data => match spec_data_value(s) {
            Ok((v, n)) => Ok((HeaderEntryView::Data(v), n)),
            Err(e) => Err(e),
        },
        HeaderKey::Encoding => match spec_encoding_value(s) {
            Ok((v, n)) => Ok((HeaderEntryView::Encoding(v), n)),
            Err(e) => Err(e),
        },
        HeaderKey::NewFileUid => match spec_file_id_value(s) {
            Ok((v, n)) => Ok((HeaderEntryView::NewFileUid(v), n)),
            Err(e) => Err(e),
        },
        HeaderKey::OfxHeader => match spec_unsigned_integer(s) {
            Ok((v, n)) => Ok((HeaderEntryView::OfxHeader(v), n)),
            Err(e) => Err(e),
        },
        HeaderKey::OldFileUid => match spec_file_id_value(s) {
            Ok((v, n)) => Ok((HeaderEntryView::OldFileUid(v), n)),
            Err(e) => Err(e),
        },
        HeaderKey::Security => match spec_security_value(s) {
            Ok((v, n)) => Ok((HeaderEntryView::Security(v), n)),
            Err(e) => Err(e),
        },
        HeaderKey::Version => match spec_unsigned_integer(s) {
            Ok((v, n)) => Ok((HeaderEntryView::Version(v), n)),
            Err(e) => Err(e),
        },
        HeaderKey::Unknown => match spec_line_text(s) {
            Some(k) => Ok((HeaderEntryView::Unknown(key, s.take(k as int)), k)),
            None => Err(ParseError::Syntax),
        },
    }
}

/// The length of the key at the start of `s`: letters and digits, at least
/// one, with a colon behind them.
pub open spec fn spec_entry_key(s: Seq<char>) -> Option<nat> {
    let k = run_len(s, CharClass::Alphanumeric);
    if 0 < k < s.len() && s[k as int] == ':' {
        Some(k)
    } else {
        None
    }
}

/// The entry at the start of `s`, a key, a colon and the value that belongs
/// to the key, and the number of characters that it takes.
#[verifier::opaque]
pub open spec fn spec_header_entry(s: Seq<char>) -> Result<(HeaderEntryView, nat), ParseError> {
    match spec_entry_key(s) {
        None => Err(ParseError::Syntax),
        Some(k) => match spec_header_value(s.take(k as int), s.skip(k as int + 1)) {
            Ok((entry, n)) => Ok((entry, k + 1 + n)),
            Err(e) => Err(e),
        },
    }
}

/// The header block at the start of `s`: the entries, one to a line, up to
/// the first line that does not start with a key and a colon, and the number
/// of characters that they take. The line ending after the last entry is
/// not taken. A value that its key does not accept fails the block.
pub open spec fn spec_header(s: Seq<char>) -> Result<(Seq<HeaderEntryView>, nat), ParseError> {
    if spec_entry_key(s) is None {
        Ok((Seq::empty(), 0))
    } else {
        match spec_header_entry(s) {
            Err(e) => Err(e),
            Ok((first, n)) => run_after(seq![first], n, spec_header_lines(s.skip(n as int))),
        }
    }
}

/// The entries on the lines that follow an entry, where `s` starts at the
/// end of that entry.
pub open spec fn spec_header_lines(s: Seq<char>) -> Result<(Seq<HeaderEntryView>, nat), ParseError>
    decreases s.len(),
{
    let ending = spec_line_ending(s);
    if ending == 0 || spec_entry_key(s.skip(ending as int)) is None {
        Ok((Seq::empty(), 0))
    } else {
        match spec_header_entry(s.skip(ending as int)) {
            Err(e) => Err(e),
            Ok((entry, n)) => {
                proof {
                    lemma_header_entry_within(s.skip(ending as int));
                }
                run_after(seq![entry], ending + n, spec_header_lines(s.skip((ending + n) as int)))
            },
        }
    }
}

/// The character that writes the digit `d`.
pub open spec fn digit_char(d: nat) -> char {
    ('0' as nat + d) as char
}

/// The digits that write `n` in decimal, without zeros before them.
pub open spec fn decimal_digits(n: nat) -> Seq<char>
    decreases n,
{
    if n < 10 {
        seq![digit_char(n)]
    } else {
        decimal_digits(n / 10).push(digit_char(n % 10))
    }
}

/// How the key of `entry` is written.
pub open spec fn entry_key_text(entry: HeaderEntryView) -> Seq<char> {
    match entry {
        HeaderEntryView::Charset(_) => "CHARSET"@,
        HeaderEntryView::Compression => "COMPRESSION"@,
        HeaderEntryView::Data(_) => "DATA"@,
        HeaderEntryView::Encoding(_) => "ENCODING"@,
        HeaderEntryView::NewFileUid(_) => "NEWFILEUID"@,
        HeaderEntryView::OfxHeader(_) => "OFXHEADER"@,
        HeaderEntryView::OldFileUid(_) => "OLDFILEUID"@,
        HeaderEntryView::Security(_) => "SECURITY"@,
        HeaderEntryView::Version(_) => "VERSION"@,
        HeaderEntryView::Unknown(key, _) => key,
    }
}

/// How a file identifier is written.
pub open spec fn file_id_text(id: Option<Seq<char>>) -> Seq<char> {
    match id {
        None => "NONE"@,
        Some(text) => text,
    }
}

/// How the value of `entry` is written. The value of `COMPRESSION`, which
/// says nothing, is written as `NONE`.
pub open spec fn entry_value_text(entry: HeaderEntryView) -> Seq<char> {
    match entry {
        HeaderEntryView::Charset(None) => "NONE"@,
        HeaderEntryView::Charset(Some(Charset::Iso88591)) => "ISO-8859-1"@,
        HeaderEntryView::Charset(Some(Charset::Windows1252)) => "1252"@,
        HeaderEntryView::Compression => "NONE"@,
        HeaderEntryView::Data(DataView::OfxSgml) => "OFXSGML"@,
        HeaderEntryView::Data(DataView::Other(text)) => text,
        HeaderEntryView::Encoding(Encoding::UsAscii) => "USASCII"@,
        HeaderEntryView::Encoding(Encoding::Utf8) => "UTF-8"@,
        HeaderEntryView::NewFileUid(id) => file_id_text(id),
        HeaderEntryView::OfxHeader(n) => decimal_digits(n as nat),
        HeaderEntryView::OldFileUid(id) => file_id_text(id),
        HeaderEntryView::Security(None) => "NONE"@,
        HeaderEntryView::Security(Some(Security::Type1)) => "TYPE1"@,
        HeaderEntryView::Version(n) => decimal_digits(n as nat),
        HeaderEntryView::Unknown(_, text) => text,
    }
}

/// How `entry` is written: its key, a colon, its value.
#[verifier::opaque]
pub open spec fn spec_encode_entry(entry: HeaderEntryView) -> Seq<char> {
    entry_key_text(entry) + ":"@ + entry_value_text(entry)
}

/// How a header block is written: its entries, with a line feed between one
/// and the next.
pub open spec fn spec_encode_header(entries: Seq<HeaderEntryView>) -> Seq<char>
    decreases entries.len(),
{
    if entries.len() == 0 {
        Seq::empty()
    } else {
        spec_encode_entry(entries[0]) + spec_encode_lines(entries.skip(1))
    }
}

/// How the entries after the first one are written: each on a line of its
/// own, behind a line feed.
pub open spec fn spec_encode_lines(entries: Seq<HeaderEntryView>) -> Seq<char>
    decreases entries.len(),
{
    if entries.len() == 0 {
        Seq::empty()
    } else {
        "\n"@ + spec_encode_entry(entries[0]) + spec_encode_lines(entries.skip(1))
    }
}

/// The text of a line ends within the input.
pub proof fn lemma_line_text_within(s: Seq<char>)
    ensures
        spec_line_text(s) matches Some(k) ==> k <= s.len(),
{
    lemma_run_len(s, CharClass::LineText);
}

/// The value of an entry ends within the input.
pub proof fn lemma_header_value_within(key: Seq<char>, s: Seq<char>)
    ensures
        spec_header_value(key, s) matches Ok((_, n)) ==> n <= s.len(),
{
    reveal(spec_header_value);
    lemma_line_text_within(s);
    lemma_run_len(s, CharClass::Digit);
}

/// An entry takes at least its key and the colon, and ends within the input.
pub proof fn lemma_header_entry_within(s: Seq<char>)
    ensures
        spec_header_entry(s) matches Ok((_, n)) ==> 2 <= n <= s.len(),
{
    reveal(spec_header_entry);
    if let Some(k) = spec_entry_key(s) {
        lemma_header_value_within(s.take(k as int), s.skip(k as int + 1));
    }
}

/// Reads the text of the line at `pos`; gives the place where it ends.
fn line_text_at(buf: &[char], pos: usize) -> (end: Option<usize>)
    requires
        pos <= buf.len(),
    ensures
        match spec_line_text(buf@.skip(pos as int)) {
            Some(k) => end == Some((pos + k) as usize) && pos + k <= buf.len(),
            None => end is None,
        },
{
    let end = scan_run(buf, pos, CharClass::LineText);
    if end < buf.len() && buf[end] == '\r' && !(end + 1 < buf.len() && buf[end + 1] == '\n') {
        None
    } else {
        Some(end)
    }
}

/// Reads the line ending at `pos`; gives the place after it, which is `pos`
/// where there is none.
fn line_ending_at(buf: &[char], pos: usize) -> (end: usize)
    requires
        pos <= buf.len(),
    ensures
        end == pos + spec_line_ending(buf@.skip(pos as int)),
        end <= buf.len(),
{
    if pos < buf.len() && buf[pos] == '\n' {
        pos + 1
    } else if pos < buf.len() && buf[pos] == '\r' && pos + 1 < buf.len() && buf[pos + 1] == '\n' {
        pos + 2
    } else {
        pos
    }
}

fn charset_value_at(buf: &[char], pos: usize) -> (r: Result<(Option<Charset>, usize), ParseError>)
    requires
        pos <= buf.len(),
    ensures
        match spec_charset_value(buf@.skip(pos as int)) {
            Ok((v, n)) => r == Ok::<_, ParseError>((v, (pos + n) as usize)) && pos + n
                <= buf.len(),
            Err(e) => r == Err::<(Option<Charset>, usize), _>(e),
        },
{
    if let Some(end) = lit_at(buf, pos, "NONE") {
        Ok((None, end))
    } else if let Some(end) = lit_at(buf, pos, "ISO-8859-1") {
        Ok((Some(Charset::Iso88591), end))
    } else if let Some(end) = lit_at(buf, pos, "1252") {
        Ok((Some(Charset::Windows1252), end))
    } else {
        Err(ParseError::Syntax)
    }
}

fn data_value_at(buf: &[char], pos: usize) -> (r: Result<(Data, usize), ParseError>)
    requires
        pos <= buf.len(),
    ensures
        match spec_data_value(buf@.skip(pos as int)) {
            Ok((v, n)) => r matches Ok(p) && p.0@ == v && p.1 == pos + n && p.1 <= buf.len(),
            Err(e) => r == Err::<(Data, usize), _>(e),
        },
{
    if let Some(end) = lit_at(buf, pos, "OFXSGML") {
        Ok((Data::OfxSgml, end))
    } else {
        match line_text_at(buf, pos) {
            Some(end) => {
                assert(buf@.skip(pos as int).take(end - pos) =~= buf@.subrange(
                    pos as int,
                    end as int,
                ));
                Ok((Data::Other(string_of(buf, pos, end)), end))
            },
            None => Err(ParseError::Syntax),
        }
    }
}

fn encoding_value_at(buf: &[char], pos: usize) -> (r: Result<(Encoding, usize), ParseError>)
    requires
        pos <= buf.len(),
    ensures
        match spec_encoding_value(buf@.skip(pos as int)) {
            Ok((v, n)) => r == Ok::<_, ParseError>((v, (pos + n) as usize)) && pos + n
                <= buf.len(),
            Err(e) => r == Err::<(Encoding, usize), _>(e),
        },
{
    if let Some(end) = lit_at(buf, pos, "USASCII") {
        Ok((Encoding::UsAscii, end))
    } else if let Some(end) = lit_at(buf, pos, "UTF-8") {
        Ok((Encoding::Utf8, end))
    } else {
        Err(ParseError::Syntax)
    }
}

fn file_id_value_at(buf: &[char], pos: usize) -> (r: Result<(Option<String>, usize), ParseError>)
    requires
        pos <= buf.len(),
    ensures
        match spec_file_id_value(buf@.skip(pos as int)) {
            Ok((v, n)) => r matches Ok(p) && crate::model::option_view(p.0) == v && p.1 == pos + n
                && p.1 <= buf.len(),
            Err(e) => r == Err::<(Option<String>, usize), _>(e),
        },
{
    if let Some(end) = lit_at(buf, pos, "NONE") {
        Ok((None, end))
    } else {
        match line_text_at(buf, pos) {
            Some(end) => {
                assert(buf@.skip(pos as int).take(end - pos) =~= buf@.subrange(
                    pos as int,
                    end as int,
                ));
                Ok((Some(string_of(buf, pos, end)), end))
            },
            None => Err(ParseError::Syntax),
        }
    }
}

fn security_value_at(buf: &[char], pos: usize) -> (r: Result<(Option<Security>, usize), ParseError>)
    requires
        pos <= buf.len(),
    ensures
        match spec_security_value(buf@.skip(pos as int)) {
            Ok((v, n)) => r == Ok::<_, ParseError>((v, (pos + n) as usize)) && pos + n
                <= buf.len(),
            Err(e) => r == Err::<(Option<Security>, usize), _>(e),
        },
{
    if let Some(end) = lit_at(buf, pos, "NONE") {
        Ok((None, end))
    } else if let Some(end) = lit_at(buf, pos, "TYPE1") {
        Ok((Some(Security::Type1), end))
    } else {
        Err(ParseError::Syntax)
    }
}

/// Tells which key stands in `keys` from `from` up to `to`.
fn header_key_at(keys: &[char], from: usize, to: usize) -> (key: HeaderKey)
    requires
        from <= to <= keys.len(),
    ensures
        key == spec_header_key(keys@.subrange(from as int, to as int)),
{
    if span_equals(keys, from, to, "CHARSET") {
        HeaderKey::Charset
    } else if span_equals(keys, from, to, "COMPRESSION") {
        HeaderKey::Compression
    } else if span_equals(keys, from, to, "DATA") {
        HeaderKey::Data
    } else if span_equals(keys, from, to, "ENCODING") {
        HeaderKey::Encoding
    } else if span_equals(keys, from, to, "NEWFILEUID") {
        HeaderKey::NewFileUid
    } else if span_equals(keys, from, to, "OFXHEADER") {
        HeaderKey::OfxHeader
    } else if span_equals(keys, from, to, "OLDFILEUID") {
        HeaderKey::OldFileUid
    } else if span_equals(keys, from, to, "SECURITY") {
        HeaderKey::Security
    } else if span_equals(keys, from, to, "VERSION") {
        HeaderKey::Version
    } else {
        HeaderKey::Unknown
    }
}

/// Reads at `pos` the value of the key that stands in `keys` from `from` up
/// to `to`; gives the entry and the place after the value.
fn header_value_at(keys: &[char], from: usize, to: usize, buf: &[char], pos: usize) -> (r: Result<
    (HeaderEntry, usize),
    ParseError,
>)
    requires
        from <= to <= keys.len(),
        pos <= buf.len(),
    ensures
        match spec_header_value(keys@.subrange(from as int, to as int), buf@.skip(pos as int)) {
            Ok((entry, n)) => r matches Ok(p) && p.0@ == entry && p.1 == pos + n && p.1
                <= buf.len(),
            Err(e) => r == Err::<(HeaderEntry, usize), _>(e),
        },
{
    reveal(spec_header_value);
    match header_key_at(keys, from, to) {
        HeaderKey::Charset => match charset_value_at(buf, pos) {
            Ok(p) => Ok((HeaderEntry::Charset(p.0), p.1)),
            Err(e) => Err(e),
        },
        HeaderKey::Compression => match line_text_at(buf, pos) {
            Some(end) => Ok((HeaderEntry::Compression, end)),
            None => Err(ParseError::Syntax),
        },
        HeaderKey::Data => match data_value_at(buf, pos) {
            Ok(p) => Ok((HeaderEntry::Data(p.0), p.1)),
            Err(e) => Err(e),
        },
        HeaderKey::Encoding => match encoding_value_at(buf, pos) {
            Ok(p) => Ok((HeaderEntry::Encoding(p.0), p.1)),
            Err(e) => Err(e),
        },
        HeaderKey::NewFileUid => match file_id_value_at(buf, pos) {
            Ok(p) => Ok((HeaderEntry::NewFileUid(p.0), p.1)),
            Err(e) => Err(e),
        },
        HeaderKey::OfxHeader => match unsigned_integer_at(buf, pos) {
            Ok(p) => Ok((HeaderEntry::OfxHeader(p.0), p.1)),
            Err(e) => Err(e),
        },
        HeaderKey::OldFileUid => match file_id_value_at(buf, pos) {
            Ok(p) => Ok((HeaderEntry::OldFileUid(p.0), p.1)),
            Err(e) => Err(e),
        },
        HeaderKey::Security => match security_value_at(buf, pos) {
            Ok(p) => Ok((HeaderEntry::Security(p.0), p.1)),
            Err(e) => Err(e),
        },
        HeaderKey::Version => match unsigned_integer_at(buf, pos) {
            Ok(p) => Ok((HeaderEntry::Version(p.0), p.1)),
            Err(e) => Err(e),
        },
        HeaderKey::Unknown => match line_text_at(buf, pos) {
            Some(end) => {
                assert(buf@.skip(pos as int).take(end - pos) =~= buf@.subrange(
                    pos as int,
                    end as int,
                ));
                Ok((HeaderEntry::Unknown(string_of(keys, from, to), string_of(buf, pos, end)), end))
            },
            None => Err(ParseError::Syntax),
        },
    }
}

/// Looks for a key and its colon at `pos`; gives the place of the colon.
fn entry_key_at(buf: &[char], pos: usize) -> (colon: Option<usize>)
    requires
        pos <= buf.len(),
    ensures
        match spec_entry_key(buf@.skip(pos as int)) {
            Some(k) => colon == Some((pos + k) as usize) && pos + k < buf.len(),
            None => colon is None,
        },
{
    let end = scan_run(buf, pos, CharClass::Alphanumeric);
    if end > pos && end < buf.len() && buf[end] == ':' {
        Some(end)
    } else {
        None
    }
}

/// Reads the entry at `pos`; gives it and the place after it.
fn header_entry_at(buf: &[char], pos: usize) -> (r: Result<(HeaderEntry, usize), ParseError>)
    requires
        pos <= buf.len(),
    ensures
        match spec_header_entry(buf@.skip(pos as int)) {
            Ok((entry, n)) => r matches Ok(p) && p.0@ == entry && p.1 == pos + n && p.1
                <= buf.len(),
            Err(e) => r == Err::<(HeaderEntry, usize), _>(e),
        },
{
    reveal(spec_header_entry);
    let ghost s = buf@.skip(pos as int);
    match entry_key_at(buf, pos) {
        Some(colon) => {
            proof {
                assert(s.take(colon - pos) =~= buf@.subrange(pos as int, colon as int));
                assert(s.skip(colon - pos + 1) =~= buf@.skip(colon + 1));
            }
            header_value_at(buf, pos, colon, buf, colon + 1)
        },
        None => Err(ParseError::Syntax),
    }
}

/// Reads the header block at `pos`; gives its entries and the place after
/// them.
fn header_at(buf: &[char], pos: usize) -> (r: Result<(Vec<HeaderEntry>, usize), ParseError>)
    requires
        pos <= buf.len(),
    ensures
        match spec_header(buf@.skip(pos as int)) {
            Ok((entries, n)) => r matches Ok(p) && entries_view(p.0@) == entries && p.1 == pos + n
                && p.1 <= buf.len(),
            Err(e) => r == Err::<(Vec<HeaderEntry>, usize), _>(e),
        },
{
    let ghost whole = spec_header(buf@.skip(pos as int));
    let mut entries: Vec<HeaderEntry> = Vec::new();
    if entry_key_at(buf, pos).is_none() {
        assert(entries_view(entries@) =~= Seq::empty());
        return Ok((entries, pos));
    }
    let mut cur: usize = match header_entry_at(buf, pos) {
        Ok(p) => {
            proof {
                assert(buf@.skip(pos as int).skip(p.1 - pos) =~= buf@.skip(p.1 as int));
                assert(entries_view(entries@.push(p.0)) =~= seq![p.0@]);
            }
            entries.push(p.0);
            p.1
        },
        Err(e) => {
            return Err(e);
        },
    };
    loop
        invariant
            pos <= cur <= buf.len(),
            whole == spec_header(buf@.skip(pos as int)),
            whole == run_after(
                entries_view(entries@),
                (cur - pos) as nat,
                spec_header_lines(buf@.skip(cur as int)),
            ),
        decreases buf.len() - cur,
    {
        let ghost s = buf@.skip(cur as int);
        let ghost done = entries_view(entries@);
        let start = line_ending_at(buf, cur);
        assert(s.skip(start - cur) =~= buf@.skip(start as int));
        if start == cur || entry_key_at(buf, start).is_none() {
            assert(done + Seq::<HeaderEntryView>::empty() =~= done);
            return Ok((entries, cur));
        }
        match header_entry_at(buf, start) {
            Ok(p) => {
                let (entry, next) = p;
                proof {
                    lemma_header_entry_within(buf@.skip(start as int));
                    assert(s.skip(next - cur) =~= buf@.skip(next as int));
                    lemma_run_after_step(
                        done,
                        (cur - pos) as nat,
                        entry@,
                        (next - cur) as nat,
                        spec_header_lines(buf@.skip(next as int)),
                    );
                    assert(entries_view(entries@.push(entry)) =~= done.push(entry@));
                }
                entries.push(entry);
                cur = next;
            },
            Err(e) => {
                return Err(e);
            },
        }
    }
}

/// The word `NONE`. Gives the rest and the word.
pub fn none(i: &str) -> (r: Result<(&str, &str), ParseError>)
    ensures
        "NONE"@.is_prefix_of(i@) ==> took(r, i@, "NONE"@.len()),
        !"NONE"@.is_prefix_of(i@) ==> r == Err::<(&str, &str), _>(ParseError::Syntax),
{
    let buf = chars_of(i);
    assert(buf@.skip(0) =~= buf@);
    match lit_at(buf.as_slice(), 0, "NONE") {
        Some(end) => Ok((i.substring_char(end, buf.len()), i.substring_char(0, end))),
        None => Err(ParseError::Syntax),
    }
}

/// The value of `CHARSET`: `NONE`, `ISO-8859-1` or `1252`. Gives the rest
/// and the character set.
pub fn header_charset_value(i: &str) -> (r: Result<(&str, Option<Charset>), ParseError>)
    ensures
        match spec_charset_value(i@) {
            Ok((v, n)) => r matches Ok(p) && p.0@ == i@.skip(n as int) && p.1 == v,
            Err(e) => r == Err::<(&str, Option<Charset>), _>(e),
        },
{
    let buf = chars_of(i);
    assert(buf@.skip(0) =~= buf@);
    match charset_value_at(buf.as_slice(), 0) {
        Ok(p) => Ok((i.substring_char(p.1, buf.len()), p.0)),
        Err(e) => Err(e),
    }
}

/// The value of `DATA`: `OFXSGML`, or else whatever the line holds. Gives
/// the rest and the format.
pub fn header_data_value(i: &str) -> (r: Result<(&str, Data), ParseError>)
    ensures
        match spec_data_value(i@) {
            Ok((v, n)) => r matches Ok(p) && p.0@ == i@.skip(n as int) && p.1@ == v,
            Err(e) => r == Err::<(&str, Data), _>(e),
        },
{
    let buf = chars_of(i);
    assert(buf@.skip(0) =~= buf@);
    match data_value_at(buf.as_slice(), 0) {
        Ok(p) => Ok((i.substring_char(p.1, buf.len()), p.0)),
        Err(e) => Err(e),
    }
}

/// The value of `ENCODING`: `USASCII` or `UTF-8`. Gives the rest and the
/// encoding.
pub fn header_encoding_value(i: &str) -> (r: Result<(&str, Encoding), ParseError>)
    ensures
        match spec_encoding_value(i@) {
            Ok((v, n)) => r matches Ok(p) && p.0@ == i@.skip(n as int) && p.1 == v,
            Err(e) => r == Err::<(&str, Encoding), _>(e),
        },
{
    let buf = chars_of(i);
    assert(buf@.skip(0) =~= buf@);
    match encoding_value_at(buf.as_slice(), 0) {
        Ok(p) => Ok((i.substring_char(p.1, buf.len()), p.0)),
        Err(e) => Err(e),
    }
}

/// The value of `OLDFILEUID` and `NEWFILEUID`: `NONE`, or else whatever the
/// line holds. Gives the rest and the identifier.
pub fn header_file_id_value(i: &str) -> (r: Result<(&str, Option<String>), ParseError>)
    ensures
        match spec_file_id_value(i@) {
            Ok((v, n)) => r matches Ok(p) && p.0@ == i@.skip(n as int) && crate::model::option_view(
                p.1,
            ) == v,
            Err(e) => r == Err::<(&str, Option<String>), _>(e),
        },
{
    let buf = chars_of(i);
    assert(buf@.skip(0) =~= buf@);
    match file_id_value_at(buf.as_slice(), 0) {
        Ok(p) => Ok((i.substring_char(p.1, buf.len()), p.0)),
        Err(e) => Err(e),
    }
}

/// The value of `SECURITY`: `NONE` or `TYPE1`. Gives the rest and the
/// security.
pub fn header_security_value(i: &str) -> (r: Result<(&str, Option<Security>), ParseError>)
    ensures
        match spec_security_value(i@) {
            Ok((v, n)) => r matches Ok(p) && p.0@ == i@.skip(n as int) && p.1 == v,
            Err(e) => r == Err::<(&str, Option<Security>), _>(e),
        },
{
    let buf = chars_of(i);
    assert(buf@.skip(0) =~= buf@);
    match security_value_at(buf.as_slice(), 0) {
        Ok(p) => Ok((i.substring_char(p.1, buf.len()), p.0)),
        Err(e) => Err(e),
    }
}

/// The value at the start of `i` of the key `element`: what the key's own
/// decoder makes of it. A key that is not known keeps its value as it is
/// written. Gives the rest and the entry.
pub fn header_value<'a>(element: &str, i: &'a str) -> (r: Result<(&'a str, HeaderEntry), ParseError>)
    ensures
        match spec_header_value(element@, i@) {
            Ok((entry, n)) => r matches Ok(p) && p.0@ == i@.skip(n as int) && p.1@ == entry,
            Err(e) => r == Err::<(&str, HeaderEntry), _>(e),
        },
{
    reveal(spec_header_value);
    let keys = chars_of(element);
    let buf = chars_of(i);
    assert(buf@.skip(0) =~= buf@);
    assert(keys@.subrange(0, keys@.len() as int) =~= keys@);
    match header_value_at(keys.as_slice(), 0, keys.len(), buf.as_slice(), 0) {
        Ok(p) => Ok((i.substring_char(p.1, buf.len()), p.0)),
        Err(e) => Err(e),
    }
}

/// One entry of the header block: a key of letters and digits, a colon, and
/// the value that the key accepts. Gives the rest and the entry.
pub fn v1_header_entry(i: &str) -> (r: Result<(&str, HeaderEntry), ParseError>)
    ensures
        match spec_header_entry(i@) {
            Ok((entry, n)) => r matches Ok(p) && p.0@ == i@.skip(n as int) && p.1@ == entry,
            Err(e) => r == Err::<(&str, HeaderEntry), _>(e),
        },
{
    let buf = chars_of(i);
    assert(buf@.skip(0) =~= buf@);
    match header_entry_at(buf.as_slice(), 0) {
        Ok(p) => Ok((i.substring_char(p.1, buf.len()), p.0)),
        Err(e) => Err(e),
    }
}

/// The header block: entries, one to a line, up to the first line that does
/// not start with a key and a colon. Gives the rest, which starts at the end
/// of the last entry, and the entries. A block without entries is no error;
/// a value that its key does not accept is one.
pub fn v1_header(i: &str) -> (r: Result<(&str, Vec<HeaderEntry>), ParseError>)
    ensures
        match spec_header(i@) {
            Ok((entries, n)) => r matches Ok(p) && p.0@ == i@.skip(n as int) && entries_view(p.1@)
                == entries,
            Err(e) => r == Err::<(&str, Vec<HeaderEntry>), _>(e),
        },
{
    let buf = chars_of(i);
    assert(buf@.skip(0) =~= buf@);
    match header_at(buf.as_slice(), 0) {
        Ok(p) => Ok((i.substring_char(p.1, buf.len()), p.0)),
        Err(e) => Err(e),
    }
}

/// A document, as far as it is read: its header block. Gives the rest and
/// the document.
pub fn ofx(i: &str) -> (r: Result<(&str, Ofx), ParseError>)
    ensures
        match spec_header(i@) {
            Ok((entries, n)) => r matches Ok(p) && p.0@ == i@.skip(n as int) && p.1@ == entries,
            Err(e) => r == Err::<(&str, Ofx), _>(e),
        },
{
    match v1_header(i) {
        Ok(p) => Ok((p.0, Ofx { headers: p.1 })),
        Err(e) => Err(e),
    }
}

/// Adds the digits that write `n` at the end of `s`.
fn push_decimal(s: &mut String, n: u32)
    ensures
        final(s)@ == old(s)@ + decimal_digits(n as nat),
    decreases n,
{
    let ghost before = s@;
    if n >= 10 {
        push_decimal(s, n / 10);
    }
    let digit: u8 = (n % 10) as u8;
    push_char(s, (digit + 48u8) as char);
    proof {
        if n >= 10 {
            assert(s@ =~= before + decimal_digits(n as nat));
        } else {
            assert(s@ =~= before + decimal_digits(n as nat));
        }
    }
}

/// Adds at the end of `s` how a file identifier is written.
fn push_file_id(s: &mut String, id: &Option<String>)
    ensures
        final(s)@ == old(s)@ + file_id_text(crate::model::option_view(*id)),
{
    match id {
        None => s.append("NONE"),
        Some(text) => s.append(text.as_str()),
    }
}

/// Adds at the end of `s` how `entry` is written: its key, a colon, and its
/// value.
fn push_entry(s: &mut String, entry: &HeaderEntry)
    ensures
        final(s)@ == old(s)@ + spec_encode_entry(entry@),
{
    let ghost before = s@;
    match entry {
        HeaderEntry::Charset(v) => {
            s.append("CHARSET");
            s.append(":");
            match v {
                None => s.append("NONE"),
                Some(Charset::Iso88591) => s.append("ISO-8859-1"),
                Some(Charset::Windows1252) => s.append("1252"),
            }
        },
        HeaderEntry::Compression => {
            s.append("COMPRESSION");
            s.append(":");
            s.append("NONE");
        },
        HeaderEntry::Data(v) => {
            s.append("DATA");
            s.append(":");
            match v {
                Data::OfxSgml => s.append("OFXSGML"),
                Data::Other(text) => s.append(text.as_str()),
            }
        },
        HeaderEntry::Encoding(v) => {
            s.append("ENCODING");
            s.append(":");
            match v {
                Encoding::UsAscii => s.append("USASCII"),
                Encoding::Utf8 => s.append("UTF-8"),
            }
        },
        HeaderEntry::NewFileUid(id) => {
            s.append("NEWFILEUID");
            s.append(":");
            push_file_id(s, id);
        },
        HeaderEntry::OfxHeader(n) => {
            s.append("OFXHEADER");
            s.append(":");
            push_decimal(s, *n);
        },
        HeaderEntry::OldFileUid(id) => {
            s.append("OLDFILEUID");
            s.append(":");
            push_file_id(s, id);
        },
        HeaderEntry::Security(v) => {
            s.append("SECURITY");
            s.append(":");
            match v {
                None => s.append("NONE"),
                Some(Security::Type1) => s.append("TYPE1"),
            }
        },
        HeaderEntry::Version(n) => {
            s.append("VERSION");
            s.append(":");
            push_decimal(s, *n);
        },
        HeaderEntry::Unknown(key, text) => {
            s.append(key.as_str());
            s.append(":");
            s.append(text.as_str());
        },
    }
    proof {
        reveal(spec_encode_entry);
        assert(s@ =~= before + (entry_key_text(entry@) + ":"@ + entry_value_text(entry@)));
    }
}

/// Writes a header block: each entry as its key, a colon and its value,
/// with a line feed between one entry and the next. Numbers are written in
/// decimal, and the value of `COMPRESSION` as `NONE`.
pub fn encode_header(entries: &Vec<HeaderEntry>) -> (text: String)
    ensures
        text@ == spec_encode_header(entries_view(entries@)),
{
    let ghost views = entries_view(entries@);
    let mut text = String::new();
    if entries.len() == 0 {
        return text;
    }
    push_entry(&mut text, &entries[0]);
    let mut j: usize = 1;
    proof {
        assert(views.skip(entries.len() as int) =~= Seq::<HeaderEntryView>::empty());
        assert(text@ =~= spec_encode_entry(views[0]));
    }
    while j < entries.len()
        invariant
            1 <= j <= entries.len(),
            views == entries_view(entries@),
            text@ + spec_encode_lines(views.skip(j as int)) == spec_encode_header(views),
        decreases entries.len() - j,
    {
        let ghost before = text@;
        text.append("\n");
        push_entry(&mut text, &entries[j]);
        proof {
            assert(views.skip(j as int)[0] == views[j as int]);
            assert(views.skip(j as int).skip(1) =~= views.skip(j + 1));
            assert(text@ + spec_encode_lines(views.skip(j + 1)) =~= before + spec_encode_lines(
                views.skip(j as int),
            ));
        }
        j += 1;
    }
    proof {
        assert(views.skip(entries.len() as int) =~= Seq::<HeaderEntryView>::empty());
        assert(text@ + Seq::<char>::empty() =~= text@);
    }
    text
}

} // verus!
