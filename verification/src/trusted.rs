//! The crate's trusted boundary: every call into an outside crate, and into
//! the parts of std that vstd gives no specification, goes through one of
//! the items here. Each wrapper's contract states what the outside source
//! shows; results that take pages to state are given a name instead.

use vstd::prelude::*;
use base64::Engine;
use vstd::utf8::{decode_utf8, encode_utf8, valid_utf8};
use crate::token::HtmlToken;

verus! {

/// The hash an item's canonical locator is keyed by; a function of the
/// characters alone.
pub uninterp spec fn seahash_of(s: Seq<char>) -> u64;

/// Relies on seahash::hash: a deterministic 64-bit digest of the string's
/// bytes.
#[verifier::external_body]
pub(crate) fn seahash_str(s: &str) -> (r: u64)
    ensures
        r == seahash_of(s@),
{
    seahash::hash(s.as_bytes())
}

/// The URL-safe, unpadded base64 rendering of a string's bytes; a function
/// of the characters alone.
pub uninterp spec fn base64_url_of(s: Seq<char>) -> Seq<char>;

/// A character of the URL-safe base64 alphabet: letters, digits, hyphen
/// or underscore — all of them filesystem safe.
pub open spec fn base64_url_char(c: char) -> bool {
    ('A' <= c && c <= 'Z') || ('a' <= c && c <= 'z') || ('0' <= c && c <= '9') || c == '-'
        || c == '_'
}

/// Relies on base64's URL_SAFE_NO_PAD engine: four output characters for
/// every three input bytes, rounded up, nothing from empty input, and
/// every output character drawn from the URL-safe alphabet.
#[verifier::external_body]
pub(crate) fn base64_url(s: &str) -> (r: String)
    ensures
        r@ == base64_url_of(s@),
        r@.len() == (4 * encode_utf8(s@).len() + 2) / 3,
        forall|i: int| 0 <= i < r@.len() ==> base64_url_char(#[trigger] r@[i]),
{
    base64::engine::general_purpose::URL_SAFE_NO_PAD.encode(s.as_bytes())
}

/// What standard base64 decoding yields for a string, when it is valid
/// base64; a function of the characters alone.
pub uninterp spec fn base64_decoded_of(s: Seq<char>) -> Option<Seq<u8>>;

/// Relies on base64's STANDARD engine: decodes valid padded base64 and
/// rejects everything else.
#[verifier::external_body]
pub(crate) fn base64_decode(s: &str) -> (r: Option<Vec<u8>>)
    ensures
        match (r, base64_decoded_of(s@)) {
            (Some(v), Some(m)) => v@ == m,
            (None, None) => true,
            _ => false,
        },
{
    base64::engine::general_purpose::STANDARD.decode(s).ok()
}

/// What backslash-escape resolution yields for a string, when every escape
/// in it is well formed; a function of the characters alone.
pub uninterp spec fn unescaped_of(s: Seq<char>) -> Option<Seq<char>>;

/// Relies on unescape::unescape: resolves backslash escape sequences,
/// returning nothing on a malformed escape.
#[verifier::external_body]
pub(crate) fn unescape_text(s: &str) -> (r: Option<String>)
    ensures
        match (r, unescaped_of(s@)) {
            (Some(v), Some(m)) => v@ == m,
            (None, None) => true,
            _ => false,
        },
{
    unescape::unescape(s)
}

/// What percent-decoding yields for a string, undecodable bytes replaced;
/// a function of the characters alone.
pub uninterp spec fn percent_decoded_of(s: Seq<char>) -> Seq<char>;

/// Relies on percent_encoding::percent_decode_str with lossy UTF-8
/// decoding: total on every input.
#[verifier::external_body]
pub(crate) fn percent_decode_text(s: &str) -> (r: String)
    ensures
        r@ == percent_decoded_of(s@),
{
    percent_encoding::percent_decode_str(s).decode_utf8_lossy().to_string()
}

/// The byte count a human-readable size string denotes, when it parses; a
/// function of the characters alone.
pub uninterp spec fn parsed_size_of(s: Seq<char>) -> Option<u128>;

/// Relies on byte_unit::Byte::parse_str (case-insensitive): reads strings
/// such as "1.21 GB" into a byte count.
#[verifier::external_body]
pub(crate) fn parse_size_text(s: &str) -> (r: Option<u128>)
    ensures
        r == parsed_size_of(s@),
{
    byte_unit::Byte::parse_str(s, true).ok().map(|b| b.as_u128())
}

/// The human-readable rendering of a byte count in binary units; a
/// function of the count alone.
pub uninterp spec fn human_size_of(n: u128) -> Seq<char>;

/// Relies on byte_unit::Byte::get_appropriate_unit with binary units;
/// counts beyond the crate's range render as nothing.
#[verifier::external_body]
pub(crate) fn human_size(n: u128) -> (r: String)
    ensures
        r@ == human_size_of(n),
{
    match byte_unit::Byte::from_u128(n) {
        Some(b) => b.get_appropriate_unit(byte_unit::UnitType::Binary).to_string(),
        None => String::new(),
    }
}

/// The human-readable rendering of a whole number of seconds; a function
/// of the count alone.
pub uninterp spec fn duration_text_of(secs: u64) -> Seq<char>;

/// Relies on humantime::format_duration: renders a duration as text such
/// as "2m 5s".
#[verifier::external_body]
pub(crate) fn duration_text(secs: u64) -> (r: String)
    ensures
        r@ == duration_text_of(secs),
{
    humantime::format_duration(std::time::Duration::from_secs(secs)).to_string()
}

/// Relies on String::from_utf8: accepts exactly the valid UTF-8 byte
/// strings and returns the character sequence they encode.
#[verifier::external_body]
pub(crate) fn utf8_to_string(bytes: Vec<u8>) -> (r: Option<String>)
    ensures
        match r {
            Some(s) => valid_utf8(bytes@) && s@ == decode_utf8(bytes@),
            None => !valid_utf8(bytes@),
        },
{
    String::from_utf8(bytes).ok()
}

/// What the tokenizer yields for a page within its input subset; a
/// function of the characters alone.
pub uninterp spec fn tokens_of(page: Seq<char>) -> Seq<crate::token::TokenModel>;

/// Relies on rusthtml::HtmlTag::parse: splits raw markup into opening
/// tags with attributes, closing tags, and text runs, in document order.
/// Outside the stated input subset the parser can panic (it indexes the
/// first character of an empty tag slice, and its attribute splitter
/// compares byte positions against character counts), so those inputs are
/// excluded here and rejected by the verified callers.
#[verifier::external_body]
pub(crate) fn tokenize_html(content: &str) -> (r: Vec<HtmlToken>)
    requires
        crate::token::spec_page_tokenizable(content@),
    ensures
        r@.map_values(|t: HtmlToken| t@) == tokens_of(content@),
{
    rusthtml::HtmlTag::parse(content)
        .into_iter()
        .map(|t| match t {
            rusthtml::HtmlTag::OpeningTag(n, a) => HtmlToken::Open(
                n.to_string(),
                a.into_iter().map(|x| (x.0.to_string(), x.1.map(|v| v.to_string()))).collect(),
            ),
            rusthtml::HtmlTag::ClosingTag(n) => HtmlToken::Close(n.to_string()),
            rusthtml::HtmlTag::Unparsable(t) => HtmlToken::Text(t.to_string()),
        })
        .collect()
}

/// Relies on char::to_string: the one-character string.
#[verifier::external_body]
pub(crate) fn char_to_string(c: char) -> (r: String)
    ensures
        r@ == seq![c],
{
    c.to_string()
}

/// Declares std::time::Instant for the logging clock; its values stay
/// opaque and only the two calls below touch them.
#[verifier::external_type_specification]
#[verifier::external_body]
pub struct ExInstant(std::time::Instant);

/// Relies on std::time::Instant::now.
#[verifier::external_body]
pub(crate) fn instant_now() -> (r: std::time::Instant) {
    std::time::Instant::now()
}

/// Relies on std::time::Instant::elapsed: the microseconds since the
/// instant, saturated to 64 bits.
#[verifier::external_body]
pub(crate) fn elapsed_micros_since(t: &std::time::Instant) -> (r: u64) {
    u64::try_from(t.elapsed().as_micros()).unwrap_or(u64::MAX)
}

} // verus!
