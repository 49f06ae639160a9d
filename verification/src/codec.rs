//! The archive's persistent encoding. The record list is a line-oriented
//! text form — every number stands on its own line, every string as a
//! length line followed by its raw UTF-8 and a line break — so archives
//! diff line by line; the blob store is the same framing around raw
//! bytes. Both halves decode back to exactly what was encoded; the round
//! trip is proved.

use vstd::prelude::*;
use vstd::utf8::{decode_utf8, encode_utf8, valid_utf8};
use crate::record::{
    comment_model, comments_model, opt_text, paragraph_model, Comment, CommentModel,
    ContentModel, GameBinaryDatabase, GameTextInformation, ParagraphContent, RecordModel,
};
use crate::datetime::SimpleDateTime;
use crate::extract::{build_run, build_step, flush_model, CommentEvent};

verus! {

pub open spec fn is_digit_byte(b: u8) -> bool {
    48 <= b <= 57
}

/// The decimal digits of a number, as bytes, most significant first.
pub open spec fn nat_digits(n: u128) -> Seq<u8>
    decreases n,
{
    if n < 10 {
        seq![(48 + n) as u8]
    } else {
        nat_digits(n / 10).push((48 + n % 10) as u8)
    }
}

/// The value of a digit-byte string.
pub open spec fn bytes_val(s: Seq<u8>) -> nat
    decreases s.len(),
{
    if s.len() == 0 {
        0
    } else {
        bytes_val(s.drop_last()) * 10 + (s.last() - 48) as nat
    }
}

/// The encoding of a number: its digits and a terminating newline.
pub open spec fn enc_nat(n: u128) -> Seq<u8> {
    nat_digits(n).push(10)
}

/// A number's digits read back as the number, and are nonempty digits.
pub proof fn lemma_nat_digits(n: u128)
    ensures
        bytes_val(nat_digits(n)) == n,
        nat_digits(n).len() >= 1,
        forall|i: int| 0 <= i < nat_digits(n).len() ==> is_digit_byte(#[trigger] nat_digits(n)[i]),
    decreases n,
{
    if n < 10 {
        assert(nat_digits(n).last() == (48 + n) as u8);
        assert(nat_digits(n).drop_last() =~= Seq::<u8>::empty());
        assert((48 + n) as u8 as u128 == 48 + n);
        let s = nat_digits(n);
        assert(s.len() == 1);
        assert(bytes_val(s) == bytes_val(s.drop_last()) * 10 + (s.last() - 48) as nat);
        assert(bytes_val(s.drop_last()) == 0);
        assert((s.last() - 48) as nat == n);
        assert(bytes_val(nat_digits(n)) == n);
        assert(forall|i: int|
            0 <= i < nat_digits(n).len() ==> is_digit_byte(#[trigger] nat_digits(n)[i])) by {
            assert(nat_digits(n)[0] == (48 + n) as u8);
        }
    } else {
        lemma_nat_digits(n / 10);
        assert(nat_digits(n).drop_last() =~= nat_digits(n / 10));
        assert((n / 10) * 10 + n % 10 == n) by (nonlinear_arith);
        assert(nat_digits(n).last() == (48 + n % 10) as u8);
        assert((48 + n % 10) as u8 as u128 == 48 + n % 10);
        assert(forall|i: int|
            0 <= i < nat_digits(n).len() ==> is_digit_byte(#[trigger] nat_digits(n)[i])) by {
            assert(forall|i: int|
                0 <= i < nat_digits(n).len() - 1 ==> nat_digits(n)[i] == nat_digits(n / 10)[i]);
            assert(forall|i: int|
                0 <= i < nat_digits(n / 10).len() ==> is_digit_byte(
                    #[trigger] nat_digits(n / 10)[i],
                ));
            assert(is_digit_byte(nat_digits(n).last()));
        }
    }
}

/// The end of the digit run starting at a position.
pub open spec fn digits_end(b: Seq<u8>, i: int) -> int
    decreases b.len() - i,
{
    if 0 <= i < b.len() && is_digit_byte(b[i]) {
        digits_end(b, i + 1)
    } else {
        i
    }
}

/// The digit run ends where the digits end.
pub proof fn lemma_digits_end(b: Seq<u8>, i: int, j: int)
    requires
        0 <= i <= j <= b.len(),
        forall|k: int| i <= k < j ==> is_digit_byte(#[trigger] b[k]),
        j == b.len() || !is_digit_byte(b[j]),
    ensures
        digits_end(b, i) == j,
    decreases j - i,
{
    if i < j {
        lemma_digits_end(b, i + 1, j);
    }
}

/// The run of digits never ends out of bounds.
pub proof fn lemma_digits_end_bounds(b: Seq<u8>, i: int)
    requires
        0 <= i <= b.len(),
    ensures
        i <= digits_end(b, i) <= b.len(),
        forall|k: int| i <= k < digits_end(b, i) ==> is_digit_byte(#[trigger] b[k]),
        digits_end(b, i) == b.len() || !is_digit_byte(b[digits_end(b, i)]),
    decreases b.len() - i,
{
    if i < b.len() && is_digit_byte(b[i]) {
        lemma_digits_end_bounds(b, i + 1);
    }
}

/// The value of a digit-run prefix never exceeds the value of the run.
pub proof fn lemma_bytes_val_prefix(s: Seq<u8>, k: int)
    requires
        0 <= k <= s.len(),
    ensures
        bytes_val(s.take(k)) <= bytes_val(s),
    decreases s.len(),
{
    if k < s.len() {
        assert(s.drop_last().take(k) =~= s.take(k));
        lemma_bytes_val_prefix(s.drop_last(), k);
    } else {
        assert(s.take(k) =~= s);
    }
}

/// Reading a number: the digit run, its value, and the newline after it;
/// what follows is handed back.
pub open spec fn parse_nat(b: Seq<u8>) -> Option<(u128, Seq<u8>)> {
    let j = digits_end(b, 0);
    if j == 0 {
        None
    } else if bytes_val(b.subrange(0, j)) > u128::MAX {
        None
    } else if j < b.len() && b[j] == 10 {
        Some((bytes_val(b.subrange(0, j)) as u128, b.skip(j + 1)))
    } else {
        None
    }
}

/// Reading an encoded number yields the number and the rest.
pub proof fn lemma_parse_nat(n: u128, rest: Seq<u8>)
    ensures
        parse_nat(enc_nat(n) + rest) == Some((n, rest)),
{
    lemma_nat_digits(n);
    let b = enc_nat(n) + rest;
    let d = nat_digits(n);
    let j = d.len() as int;
    assert(forall|k: int| 0 <= k < j ==> #[trigger] b[k] == d[k]) by {
        assert(forall|k: int| 0 <= k < j ==> #[trigger] b[k] == enc_nat(n)[k]);
    }
    assert(b[j] == 10) by {
        assert(b[j] == enc_nat(n)[j]);
    }
    lemma_digits_end(b, 0, j);
    assert(b.subrange(0, j) =~= d);
    assert(b.skip(j + 1) =~= rest);
}

/// The encoding of raw bytes: their count, the bytes, a newline.
pub open spec fn enc_bytes(v: Seq<u8>) -> Seq<u8> {
    enc_nat(v.len() as u128) + v + seq![10u8]
}

/// Reading raw bytes: the count, that many bytes, the newline.
pub open spec fn parse_bytes(b: Seq<u8>) -> Option<(Seq<u8>, Seq<u8>)> {
    match parse_nat(b) {
        None => None,
        Some((n, r1)) => if n <= usize::MAX as u128 && n + 1 <= r1.len() && r1[n as int] == 10 {
            Some((r1.take(n as int), r1.skip(n as int + 1)))
        } else {
            None
        },
    }
}

/// Reading encoded bytes yields the bytes and the rest.
pub proof fn lemma_parse_bytes(v: Seq<u8>, rest: Seq<u8>)
    requires
        v.len() <= usize::MAX,
    ensures
        parse_bytes(enc_bytes(v) + rest) == Some((v, rest)),
{
    let mid = v + seq![10u8] + rest;
    assert(enc_bytes(v) + rest =~= enc_nat(v.len() as u128) + mid);
    lemma_parse_nat(v.len() as u128, mid);
    assert(mid[v.len() as int] == 10);
    assert(mid.take(v.len() as int) =~= v);
    assert(mid.skip(v.len() as int + 1) =~= rest);
}

/// The encoding of a string: its UTF-8 bytes, length-prefixed.
pub open spec fn enc_string(s: Seq<char>) -> Seq<u8> {
    enc_bytes(encode_utf8(s))
}

/// Reading a string: length-prefixed bytes that must be valid UTF-8.
pub open spec fn parse_string(b: Seq<u8>) -> Option<(Seq<char>, Seq<u8>)> {
    match parse_bytes(b) {
        None => None,
        Some((v, r)) => if valid_utf8(v) {
            Some((decode_utf8(v), r))
        } else {
            None
        },
    }
}

/// Reading an encoded string yields the string and the rest.
pub proof fn lemma_parse_string(s: Seq<char>, rest: Seq<u8>)
    requires
        encode_utf8(s).len() <= usize::MAX,
    ensures
        parse_string(enc_string(s) + rest) == Some((s, rest)),
{
    lemma_parse_bytes(encode_utf8(s), rest);
    broadcast use vstd::utf8::encode_utf8_valid_utf8, vstd::utf8::encode_utf8_decode_utf8;

}

/// The encoding of an optional number: a presence tag, then the number.
pub open spec fn enc_opt_nat(o: Option<u128>) -> Seq<u8> {
    match o {
        None => enc_nat(0),
        Some(n) => enc_nat(1) + enc_nat(n),
    }
}

pub open spec fn parse_opt_nat(b: Seq<u8>) -> Option<(Option<u128>, Seq<u8>)> {
    match parse_nat(b) {
        None => None,
        Some((tag, r1)) => if tag == 0 {
            Some((None, r1))
        } else if tag == 1 {
            match parse_nat(r1) {
                None => None,
                Some((n, r2)) => Some((Some(n), r2)),
            }
        } else {
            None
        },
    }
}

pub proof fn lemma_parse_opt_nat(o: Option<u128>, rest: Seq<u8>)
    ensures
        parse_opt_nat(enc_opt_nat(o) + rest) == Some((o, rest)),
{
    match o {
        None => {
            lemma_parse_nat(0, rest);
        },
        Some(n) => {
            assert(enc_opt_nat(o) + rest =~= enc_nat(1) + (enc_nat(n) + rest));
            lemma_parse_nat(1, enc_nat(n) + rest);
            lemma_parse_nat(n, rest);
        },
    }
}

/// The encoding of an optional string: a presence tag, then the string.
pub open spec fn enc_opt_string(o: Option<Seq<char>>) -> Seq<u8> {
    match o {
        None => enc_nat(0),
        Some(s) => enc_nat(1) + enc_string(s),
    }
}

pub open spec fn parse_opt_string(b: Seq<u8>) -> Option<(Option<Seq<char>>, Seq<u8>)> {
    match parse_nat(b) {
        None => None,
        Some((tag, r1)) => if tag == 0 {
            Some((None, r1))
        } else if tag == 1 {
            match parse_string(r1) {
                None => None,
                Some((v, r2)) => Some((Some(v), r2)),
            }
        } else {
            None
        },
    }
}

pub proof fn lemma_parse_opt_string(o: Option<Seq<char>>, rest: Seq<u8>)
    requires
        match o {
            Some(s) => encode_utf8(s).len() <= usize::MAX,
            None => true,
        },
    ensures
        parse_opt_string(enc_opt_string(o) + rest) == Some((o, rest)),
{
    match o {
        None => {
            lemma_parse_nat(0, rest);
        },
        Some(v) => {
            assert(enc_opt_string(o) + rest =~= enc_nat(1) + (enc_string(v) + rest));
            lemma_parse_nat(1, enc_string(v) + rest);
            lemma_parse_string(v, rest);
        },
    }
}

/// The encoding of one piece of content: a kind tag and the text or
/// locator.
pub open spec fn enc_content(c: ContentModel) -> Seq<u8> {
    match c {
        ContentModel::Text(t) => enc_nat(0) + enc_string(t),
        ContentModel::Image(t) => enc_nat(1) + enc_string(t),
    }
}

pub open spec fn parse_content(b: Seq<u8>) -> Option<(ContentModel, Seq<u8>)> {
    match parse_nat(b) {
        None => None,
        Some((tag, r1)) => if tag <= 1 {
            match parse_string(r1) {
                None => None,
                Some((t, r2)) => if tag == 0 {
                    Some((ContentModel::Text(t), r2))
                } else {
                    Some((ContentModel::Image(t), r2))
                },
            }
        } else {
            None
        },
    }
}

/// A content model whose strings are small enough to encode.
pub open spec fn content_bounded(c: ContentModel) -> bool {
    match c {
        ContentModel::Text(t) => encode_utf8(t).len() <= usize::MAX,
        ContentModel::Image(t) => encode_utf8(t).len() <= usize::MAX,
    }
}

pub proof fn lemma_parse_content(c: ContentModel, rest: Seq<u8>)
    requires
        content_bounded(c),
    ensures
        parse_content(enc_content(c) + rest) == Some((c, rest)),
{
    match c {
        ContentModel::Text(t) => {
            assert(enc_content(c) + rest =~= enc_nat(0) + (enc_string(t) + rest));
            lemma_parse_nat(0, enc_string(t) + rest);
            lemma_parse_string(t, rest);
        },
        ContentModel::Image(t) => {
            assert(enc_content(c) + rest =~= enc_nat(1) + (enc_string(t) + rest));
            lemma_parse_nat(1, enc_string(t) + rest);
            lemma_parse_string(t, rest);
        },
    }
}

/// The encoding of a content list: its count, then each piece.
pub open spec fn enc_contents_items(cs: Seq<ContentModel>) -> Seq<u8>
    decreases cs.len(),
{
    if cs.len() == 0 {
        Seq::empty()
    } else {
        enc_content(cs[0]) + enc_contents_items(cs.drop_first())
    }
}

pub open spec fn enc_contents(cs: Seq<ContentModel>) -> Seq<u8> {
    enc_nat(cs.len() as u128) + enc_contents_items(cs)
}

pub open spec fn parse_contents_items(b: Seq<u8>, n: nat) -> Option<(Seq<ContentModel>, Seq<u8>)>
    decreases n,
{
    if n == 0 {
        Some((Seq::empty(), b))
    } else {
        match parse_content(b) {
            None => None,
            Some((c, r1)) => match parse_contents_items(r1, (n - 1) as nat) {
                None => None,
                Some((cs, r2)) => Some((seq![c] + cs, r2)),
            },
        }
    }
}

pub open spec fn parse_contents(b: Seq<u8>) -> Option<(Seq<ContentModel>, Seq<u8>)> {
    match parse_nat(b) {
        None => None,
        Some((n, r1)) => if n <= usize::MAX as u128 {
            parse_contents_items(r1, n as nat)
        } else {
            None
        },
    }
}

pub open spec fn contents_bounded(cs: Seq<ContentModel>) -> bool {
    cs.len() <= usize::MAX && forall|i: int| 0 <= i < cs.len() ==> content_bounded(#[trigger] cs[i])
}

#[verifier::rlimit(60)]
pub proof fn lemma_parse_contents_items(cs: Seq<ContentModel>, rest: Seq<u8>)
    requires
        forall|i: int| 0 <= i < cs.len() ==> content_bounded(#[trigger] cs[i]),
    ensures
        parse_contents_items(enc_contents_items(cs) + rest, cs.len() as nat) == Some((cs, rest)),
    decreases cs.len(),
{
    if cs.len() == 0 {
        assert(enc_contents_items(cs) + rest =~= rest);
    } else {
        assert(enc_contents_items(cs) + rest =~= enc_content(cs[0]) + (enc_contents_items(
            cs.drop_first(),
        ) + rest));
        lemma_parse_content(cs[0], enc_contents_items(cs.drop_first()) + rest);
        assert(forall|i: int|
            0 <= i < cs.drop_first().len() ==> content_bounded(#[trigger] cs.drop_first()[i]))
            by {
            assert(forall|i: int|
                0 <= i < cs.drop_first().len() ==> cs.drop_first()[i] == #[trigger] cs[i + 1]);
        }
        lemma_parse_contents_items(cs.drop_first(), rest);
        assert(seq![cs[0]] + cs.drop_first() =~= cs);
    }
}

pub proof fn lemma_parse_contents(cs: Seq<ContentModel>, rest: Seq<u8>)
    requires
        contents_bounded(cs),
    ensures
        parse_contents(enc_contents(cs) + rest) == Some((cs, rest)),
{
    assert(enc_contents(cs) + rest =~= enc_nat(cs.len() as u128) + (enc_contents_items(cs)
        + rest));
    lemma_parse_nat(cs.len() as u128, enc_contents_items(cs) + rest);
    lemma_parse_contents_items(cs, rest);
}

/// The encoding of a timestamp: its six fields.
pub open spec fn enc_datetime(t: SimpleDateTime) -> Seq<u8> {
    enc_nat(t.year as u128) + enc_nat(t.month as u128) + enc_nat(t.day as u128) + enc_nat(
        t.hour as u128,
    ) + enc_nat(t.minute as u128) + enc_nat(t.second as u128)
}

pub open spec fn parse_datetime(b: Seq<u8>) -> Option<(SimpleDateTime, Seq<u8>)> {
    match parse_nat(b) {
        None => None,
        Some((y, r1)) => match parse_nat(r1) {
            None => None,
            Some((mo, r2)) => match parse_nat(r2) {
                None => None,
                Some((d, r3)) => match parse_nat(r3) {
                    None => None,
                    Some((h, r4)) => match parse_nat(r4) {
                        None => None,
                        Some((mi, r5)) => match parse_nat(r5) {
                            None => None,
                            Some((sec, r6)) => if y <= u32::MAX as u128 && mo <= u8::MAX as u128
                                && d <= u8::MAX as u128 && h <= u8::MAX as u128 && mi
                                <= u8::MAX as u128 && sec <= u8::MAX as u128 {
                                Some(
                                    (
                                        SimpleDateTime {
                                            year: y as u32,
                                            month: mo as u8,
                                            day: d as u8,
                                            hour: h as u8,
                                            minute: mi as u8,
                                            second: sec as u8,
                                        },
                                        r6,
                                    ),
                                )
                            } else {
                                None
                            },
                        },
                    },
                },
            },
        },
    }
}

pub proof fn lemma_parse_datetime(t: SimpleDateTime, rest: Seq<u8>)
    ensures
        parse_datetime(enc_datetime(t) + rest) == Some((t, rest)),
{
    let b5 = enc_nat(t.second as u128) + rest;
    let b4 = enc_nat(t.minute as u128) + b5;
    let b3 = enc_nat(t.hour as u128) + b4;
    let b2 = enc_nat(t.day as u128) + b3;
    let b1 = enc_nat(t.month as u128) + b2;
    assert(enc_datetime(t) + rest =~= enc_nat(t.year as u128) + b1);
    lemma_parse_nat(t.year as u128, b1);
    lemma_parse_nat(t.month as u128, b2);
    lemma_parse_nat(t.day as u128, b3);
    lemma_parse_nat(t.hour as u128, b4);
    lemma_parse_nat(t.minute as u128, b5);
    lemma_parse_nat(t.second as u128, rest);
}

/// The encoding of one string list: its count, then each string.
pub open spec fn enc_strings_items(ts: Seq<Seq<char>>) -> Seq<u8>
    decreases ts.len(),
{
    if ts.len() == 0 {
        Seq::empty()
    } else {
        enc_string(ts[0]) + enc_strings_items(ts.drop_first())
    }
}

pub open spec fn enc_strings(ts: Seq<Seq<char>>) -> Seq<u8> {
    enc_nat(ts.len() as u128) + enc_strings_items(ts)
}

pub open spec fn parse_strings_items(b: Seq<u8>, n: nat) -> Option<(Seq<Seq<char>>, Seq<u8>)>
    decreases n,
{
    if n == 0 {
        Some((Seq::empty(), b))
    } else {
        match parse_string(b) {
            None => None,
            Some((t, r1)) => match parse_strings_items(r1, (n - 1) as nat) {
                None => None,
                Some((ts, r2)) => Some((seq![t] + ts, r2)),
            },
        }
    }
}

pub open spec fn parse_strings(b: Seq<u8>) -> Option<(Seq<Seq<char>>, Seq<u8>)> {
    match parse_nat(b) {
        None => None,
        Some((n, r1)) => if n <= usize::MAX as u128 {
            parse_strings_items(r1, n as nat)
        } else {
            None
        },
    }
}

pub open spec fn strings_bounded(ts: Seq<Seq<char>>) -> bool {
    ts.len() <= usize::MAX && forall|i: int|
        0 <= i < ts.len() ==> encode_utf8(#[trigger] ts[i]).len() <= usize::MAX
}

pub proof fn lemma_parse_strings_items(ts: Seq<Seq<char>>, rest: Seq<u8>)
    requires
        forall|i: int| 0 <= i < ts.len() ==> encode_utf8(#[trigger] ts[i]).len() <= usize::MAX,
    ensures
        parse_strings_items(enc_strings_items(ts) + rest, ts.len() as nat) == Some((ts, rest)),
    decreases ts.len(),
{
    if ts.len() == 0 {
        assert(enc_strings_items(ts) + rest =~= rest);
    } else {
        assert(enc_strings_items(ts) + rest =~= enc_string(ts[0]) + (enc_strings_items(
            ts.drop_first(),
        ) + rest));
        lemma_parse_string(ts[0], enc_strings_items(ts.drop_first()) + rest);
        assert(forall|i: int|
            0 <= i < ts.drop_first().len() ==> ts.drop_first()[i] == #[trigger] ts[i + 1]);
        lemma_parse_strings_items(ts.drop_first(), rest);
        assert(seq![ts[0]] + ts.drop_first() =~= ts);
    }
}

pub proof fn lemma_parse_strings(ts: Seq<Seq<char>>, rest: Seq<u8>)
    requires
        strings_bounded(ts),
    ensures
        parse_strings(enc_strings(ts) + rest) == Some((ts, rest)),
{
    assert(enc_strings(ts) + rest =~= enc_nat(ts.len() as u128) + (enc_strings_items(ts) + rest));
    lemma_parse_nat(ts.len() as u128, enc_strings_items(ts) + rest);
    lemma_parse_strings_items(ts, rest);
}

/// The model of one paragraph, for the codec.
pub type ParaModel = (Option<Seq<char>>, Seq<ContentModel>);

/// The encoding of one paragraph: its optional heading, then its content.
pub open spec fn enc_paragraph(p: ParaModel) -> Seq<u8> {
    enc_opt_string(p.0) + enc_contents(p.1)
}

pub open spec fn parse_paragraph(b: Seq<u8>) -> Option<(ParaModel, Seq<u8>)> {
    match parse_opt_string(b) {
        None => None,
        Some((t, r1)) => match parse_contents(r1) {
            None => None,
            Some((cs, r2)) => Some(((t, cs), r2)),
        },
    }
}

pub open spec fn paragraph_bounded(p: ParaModel) -> bool {
    &&& match p.0 {
        Some(t) => encode_utf8(t).len() <= usize::MAX,
        None => true,
    }
    &&& contents_bounded(p.1)
}

pub proof fn lemma_parse_paragraph(p: ParaModel, rest: Seq<u8>)
    requires
        paragraph_bounded(p),
    ensures
        parse_paragraph(enc_paragraph(p) + rest) == Some((p, rest)),
{
    assert(enc_paragraph(p) + rest =~= enc_opt_string(p.0) + (enc_contents(p.1) + rest));
    lemma_parse_opt_string(p.0, enc_contents(p.1) + rest);
    lemma_parse_contents(p.1, rest);
}

pub open spec fn enc_paragraphs_items(ps: Seq<ParaModel>) -> Seq<u8>
    decreases ps.len(),
{
    if ps.len() == 0 {
        Seq::empty()
    } else {
        enc_paragraph(ps[0]) + enc_paragraphs_items(ps.drop_first())
    }
}

pub open spec fn enc_paragraphs(ps: Seq<ParaModel>) -> Seq<u8> {
    enc_nat(ps.len() as u128) + enc_paragraphs_items(ps)
}

pub open spec fn parse_paragraphs_items(b: Seq<u8>, n: nat) -> Option<(Seq<ParaModel>, Seq<u8>)>
    decreases n,
{
    if n == 0 {
        Some((Seq::empty(), b))
    } else {
        match parse_paragraph(b) {
            None => None,
            Some((p, r1)) => match parse_paragraphs_items(r1, (n - 1) as nat) {
                None => None,
                Some((ps, r2)) => Some((seq![p] + ps, r2)),
            },
        }
    }
}

pub open spec fn parse_paragraphs(b: Seq<u8>) -> Option<(Seq<ParaModel>, Seq<u8>)> {
    match parse_nat(b) {
        None => None,
        Some((n, r1)) => if n <= usize::MAX as u128 {
            parse_paragraphs_items(r1, n as nat)
        } else {
            None
        },
    }
}

pub open spec fn paragraphs_bounded(ps: Seq<ParaModel>) -> bool {
    ps.len() <= usize::MAX && forall|i: int| 0 <= i < ps.len() ==> paragraph_bounded(#[trigger] ps[i])
}

pub proof fn lemma_parse_paragraphs_items(ps: Seq<ParaModel>, rest: Seq<u8>)
    requires
        forall|i: int| 0 <= i < ps.len() ==> paragraph_bounded(#[trigger] ps[i]),
    ensures
        parse_paragraphs_items(enc_paragraphs_items(ps) + rest, ps.len() as nat) == Some(
            (ps, rest),
        ),
    decreases ps.len(),
{
    if ps.len() == 0 {
        assert(enc_paragraphs_items(ps) + rest =~= rest);
    } else {
        assert(enc_paragraphs_items(ps) + rest =~= enc_paragraph(ps[0]) + (enc_paragraphs_items(
            ps.drop_first(),
        ) + rest));
        lemma_parse_paragraph(ps[0], enc_paragraphs_items(ps.drop_first()) + rest);
        assert(forall|i: int|
            0 <= i < ps.drop_first().len() ==> ps.drop_first()[i] == #[trigger] ps[i + 1]);
        lemma_parse_paragraphs_items(ps.drop_first(), rest);
        assert(seq![ps[0]] + ps.drop_first() =~= ps);
    }
}

pub proof fn lemma_parse_paragraphs(ps: Seq<ParaModel>, rest: Seq<u8>)
    requires
        paragraphs_bounded(ps),
    ensures
        parse_paragraphs(enc_paragraphs(ps) + rest) == Some((ps, rest)),
{
    assert(enc_paragraphs(ps) + rest =~= enc_nat(ps.len() as u128) + (enc_paragraphs_items(ps)
        + rest));
    lemma_parse_nat(ps.len() as u128, enc_paragraphs_items(ps) + rest);
    lemma_parse_paragraphs_items(ps, rest);
}

/// The model of one download entry, for the codec.
pub type FileEntryModel = (Seq<char>, (Seq<char>, Option<u128>));

/// The encoding of one download entry: name, locator, optional size.
pub open spec fn enc_file(f: FileEntryModel) -> Seq<u8> {
    enc_string(f.0) + enc_string(f.1.0) + enc_opt_nat(f.1.1)
}

pub open spec fn parse_file(b: Seq<u8>) -> Option<(FileEntryModel, Seq<u8>)> {
    match parse_string(b) {
        None => None,
        Some((name, r1)) => match parse_string(r1) {
            None => None,
            Some((loc, r2)) => match parse_opt_nat(r2) {
                None => None,
                Some((sz, r3)) => Some(((name, (loc, sz)), r3)),
            },
        },
    }
}

pub open spec fn file_bounded(f: FileEntryModel) -> bool {
    encode_utf8(f.0).len() <= usize::MAX && encode_utf8(f.1.0).len() <= usize::MAX
}

pub proof fn lemma_parse_file(f: FileEntryModel, rest: Seq<u8>)
    requires
        file_bounded(f),
    ensures
        parse_file(enc_file(f) + rest) == Some((f, rest)),
{
    assert(enc_file(f) + rest =~= enc_string(f.0) + (enc_string(f.1.0) + (enc_opt_nat(f.1.1)
        + rest)));
    lemma_parse_string(f.0, enc_string(f.1.0) + (enc_opt_nat(f.1.1) + rest));
    lemma_parse_string(f.1.0, enc_opt_nat(f.1.1) + rest);
    lemma_parse_opt_nat(f.1.1, rest);
}

pub open spec fn enc_files_items(fs: Seq<FileEntryModel>) -> Seq<u8>
    decreases fs.len(),
{
    if fs.len() == 0 {
        Seq::empty()
    } else {
        enc_file(fs[0]) + enc_files_items(fs.drop_first())
    }
}

pub open spec fn enc_files(fs: Seq<FileEntryModel>) -> Seq<u8> {
    enc_nat(fs.len() as u128) + enc_files_items(fs)
}

pub open spec fn parse_files_items(b: Seq<u8>, n: nat) -> Option<(Seq<FileEntryModel>, Seq<u8>)>
    decreases n,
{
    if n == 0 {
        Some((Seq::empty(), b))
    } else {
        match parse_file(b) {
            None => None,
            Some((f, r1)) => match parse_files_items(r1, (n - 1) as nat) {
                None => None,
                Some((fs, r2)) => Some((seq![f] + fs, r2)),
            },
        }
    }
}

pub open spec fn parse_files(b: Seq<u8>) -> Option<(Seq<FileEntryModel>, Seq<u8>)> {
    match parse_nat(b) {
        None => None,
        Some((n, r1)) => if n <= usize::MAX as u128 {
            parse_files_items(r1, n as nat)
        } else {
            None
        },
    }
}

pub open spec fn files_bounded(fs: Seq<FileEntryModel>) -> bool {
    fs.len() <= usize::MAX && forall|i: int| 0 <= i < fs.len() ==> file_bounded(#[trigger] fs[i])
}

pub proof fn lemma_parse_files_items(fs: Seq<FileEntryModel>, rest: Seq<u8>)
    requires
        forall|i: int| 0 <= i < fs.len() ==> file_bounded(#[trigger] fs[i]),
    ensures
        parse_files_items(enc_files_items(fs) + rest, fs.len() as nat) == Some((fs, rest)),
    decreases fs.len(),
{
    if fs.len() == 0 {
        assert(enc_files_items(fs) + rest =~= rest);
    } else {
        assert(enc_files_items(fs) + rest =~= enc_file(fs[0]) + (enc_files_items(fs.drop_first())
            + rest));
        lemma_parse_file(fs[0], enc_files_items(fs.drop_first()) + rest);
        assert(forall|i: int|
            0 <= i < fs.drop_first().len() ==> fs.drop_first()[i] == #[trigger] fs[i + 1]);
        lemma_parse_files_items(fs.drop_first(), rest);
        assert(seq![fs[0]] + fs.drop_first() =~= fs);
    }
}

pub proof fn lemma_parse_files(fs: Seq<FileEntryModel>, rest: Seq<u8>)
    requires
        files_bounded(fs),
    ensures
        parse_files(enc_files(fs) + rest) == Some((fs, rest)),
{
    assert(enc_files(fs) + rest =~= enc_nat(fs.len() as u128) + (enc_files_items(fs) + rest));
    lemma_parse_nat(fs.len() as u128, enc_files_items(fs) + rest);
    lemma_parse_files_items(fs, rest);
}

/// The model of one side-channel entry, for the codec.
pub type MiscModel = (Seq<char>, Seq<char>);

pub open spec fn enc_misc_entry(e: MiscModel) -> Seq<u8> {
    enc_string(e.0) + enc_string(e.1)
}

pub open spec fn parse_misc_entry(b: Seq<u8>) -> Option<(MiscModel, Seq<u8>)> {
    match parse_string(b) {
        None => None,
        Some((k, r1)) => match parse_string(r1) {
            None => None,
            Some((v, r2)) => Some(((k, v), r2)),
        },
    }
}

pub open spec fn misc_entry_bounded(e: MiscModel) -> bool {
    encode_utf8(e.0).len() <= usize::MAX && encode_utf8(e.1).len() <= usize::MAX
}

pub proof fn lemma_parse_misc_entry(e: MiscModel, rest: Seq<u8>)
    requires
        misc_entry_bounded(e),
    ensures
        parse_misc_entry(enc_misc_entry(e) + rest) == Some((e, rest)),
{
    assert(enc_misc_entry(e) + rest =~= enc_string(e.0) + (enc_string(e.1) + rest));
    lemma_parse_string(e.0, enc_string(e.1) + rest);
    lemma_parse_string(e.1, rest);
}

pub open spec fn enc_misc_items(es: Seq<MiscModel>) -> Seq<u8>
    decreases es.len(),
{
    if es.len() == 0 {
        Seq::empty()
    } else {
        enc_misc_entry(es[0]) + enc_misc_items(es.drop_first())
    }
}

pub open spec fn enc_misc(es: Seq<MiscModel>) -> Seq<u8> {
    enc_nat(es.len() as u128) + enc_misc_items(es)
}

pub open spec fn parse_misc_items(b: Seq<u8>, n: nat) -> Option<(Seq<MiscModel>, Seq<u8>)>
    decreases n,
{
    if n == 0 {
        Some((Seq::empty(), b))
    } else {
        match parse_misc_entry(b) {
            None => None,
            Some((e, r1)) => match parse_misc_items(r1, (n - 1) as nat) {
                None => None,
                Some((es, r2)) => Some((seq![e] + es, r2)),
            },
        }
    }
}

pub open spec fn parse_misc(b: Seq<u8>) -> Option<(Seq<MiscModel>, Seq<u8>)> {
    match parse_nat(b) {
        None => None,
        Some((n, r1)) => if n <= usize::MAX as u128 {
            parse_misc_items(r1, n as nat)
        } else {
            None
        },
    }
}

pub open spec fn misc_bounded(es: Seq<MiscModel>) -> bool {
    es.len() <= usize::MAX && forall|i: int|
        0 <= i < es.len() ==> misc_entry_bounded(#[trigger] es[i])
}

pub proof fn lemma_parse_misc_items(es: Seq<MiscModel>, rest: Seq<u8>)
    requires
        forall|i: int| 0 <= i < es.len() ==> misc_entry_bounded(#[trigger] es[i]),
    ensures
        parse_misc_items(enc_misc_items(es) + rest, es.len() as nat) == Some((es, rest)),
    decreases es.len(),
{
    if es.len() == 0 {
        assert(enc_misc_items(es) + rest =~= rest);
    } else {
        assert(enc_misc_items(es) + rest =~= enc_misc_entry(es[0]) + (enc_misc_items(
            es.drop_first(),
        ) + rest));
        lemma_parse_misc_entry(es[0], enc_misc_items(es.drop_first()) + rest);
        assert(forall|i: int|
            0 <= i < es.drop_first().len() ==> es.drop_first()[i] == #[trigger] es[i + 1]);
        lemma_parse_misc_items(es.drop_first(), rest);
        assert(seq![es[0]] + es.drop_first() =~= es);
    }
}

pub proof fn lemma_parse_misc(es: Seq<MiscModel>, rest: Seq<u8>)
    requires
        misc_bounded(es),
    ensures
        parse_misc(enc_misc(es) + rest) == Some((es, rest)),
{
    assert(enc_misc(es) + rest =~= enc_nat(es.len() as u128) + (enc_misc_items(es) + rest));
    lemma_parse_nat(es.len() as u128, enc_misc_items(es) + rest);
    lemma_parse_misc_items(es, rest);
}

/// The encoding of one comment's own data: avatar, author, timestamp,
/// content.
pub open spec fn enc_comment_data(c: CommentModel) -> Seq<u8> {
    enc_string(c.user_avatar) + enc_string(c.author) + enc_datetime(c.date) + enc_contents(
        c.content,
    )
}

pub open spec fn parse_comment_data(b: Seq<u8>) -> Option<(CommentModel, Seq<u8>)> {
    match parse_string(b) {
        None => None,
        Some((av, r1)) => match parse_string(r1) {
            None => None,
            Some((au, r2)) => match parse_datetime(r2) {
                None => None,
                Some((d, r3)) => match parse_contents(r3) {
                    None => None,
                    Some((cs, r4)) => Some(
                        (
                            CommentModel {
                                user_avatar: av,
                                author: au,
                                date: d,
                                content: cs,
                                replies: Seq::empty(),
                            },
                            r4,
                        ),
                    ),
                },
            },
        },
    }
}

pub open spec fn comment_data_bounded(c: CommentModel) -> bool {
    &&& encode_utf8(c.user_avatar).len() <= usize::MAX
    &&& encode_utf8(c.author).len() <= usize::MAX
    &&& contents_bounded(c.content)
}

pub proof fn lemma_parse_comment_data(c: CommentModel, rest: Seq<u8>)
    requires
        comment_data_bounded(c),
        c.replies.len() == 0,
    ensures
        parse_comment_data(enc_comment_data(c) + rest) == Some((c, rest)),
{
    assert(enc_comment_data(c) + rest =~= enc_string(c.user_avatar) + (enc_string(c.author) + (
    enc_datetime(c.date) + (enc_contents(c.content) + rest))));
    lemma_parse_string(
        c.user_avatar,
        enc_string(c.author) + (enc_datetime(c.date) + (enc_contents(c.content) + rest)),
    );
    lemma_parse_string(c.author, enc_datetime(c.date) + (enc_contents(c.content) + rest));
    lemma_parse_datetime(c.date, enc_contents(c.content) + rest);
    lemma_parse_contents(c.content, rest);
    assert(c.replies =~= Seq::<CommentModel>::empty());
}

/// The encoding of one comment event: an item with its data, or the
/// closing marker.
pub open spec fn enc_event(e: CommentEvent) -> Seq<u8> {
    match e {
        CommentEvent::Item(c) => enc_nat(0) + enc_comment_data(c),
        CommentEvent::CloseReply => enc_nat(1),
    }
}

pub open spec fn parse_event(b: Seq<u8>) -> Option<(CommentEvent, Seq<u8>)> {
    match parse_nat(b) {
        None => None,
        Some((tag, r1)) => if tag == 0 {
            match parse_comment_data(r1) {
                None => None,
                Some((c, r2)) => Some((CommentEvent::Item(c), r2)),
            }
        } else if tag == 1 {
            Some((CommentEvent::CloseReply, r1))
        } else {
            None
        },
    }
}

pub open spec fn event_bounded(e: CommentEvent) -> bool {
    match e {
        CommentEvent::Item(c) => comment_data_bounded(c) && c.replies.len() == 0,
        CommentEvent::CloseReply => true,
    }
}

pub proof fn lemma_parse_event(e: CommentEvent, rest: Seq<u8>)
    requires
        event_bounded(e),
    ensures
        parse_event(enc_event(e) + rest) == Some((e, rest)),
{
    match e {
        CommentEvent::Item(c) => {
            assert(enc_event(e) + rest =~= enc_nat(0) + (enc_comment_data(c) + rest));
            lemma_parse_nat(0, enc_comment_data(c) + rest);
            lemma_parse_comment_data(c, rest);
        },
        CommentEvent::CloseReply => {
            lemma_parse_nat(1, rest);
        },
    }
}

/// The flat event stream of one comment tree: the comment itself, its
/// replies' events, the closing marker.
pub open spec fn events_of_tree(c: CommentModel) -> Seq<CommentEvent>
    decreases c,
{
    seq![CommentEvent::Item(crate::extract::strip_replies(c))] + events_of_forest(c.replies)
        + seq![CommentEvent::CloseReply]
}

/// The flat event stream of a comment forest.
pub open spec fn events_of_forest(cs: Seq<CommentModel>) -> Seq<CommentEvent>
    decreases cs,
{
    if cs.len() == 0 {
        Seq::empty()
    } else {
        events_of_forest(cs.drop_last()) + events_of_tree(cs.last())
    }
}

pub open spec fn enc_events_items(es: Seq<CommentEvent>) -> Seq<u8>
    decreases es.len(),
{
    if es.len() == 0 {
        Seq::empty()
    } else {
        enc_event(es[0]) + enc_events_items(es.drop_first())
    }
}

/// The encoding of a comment forest: its event count, then the events.
pub open spec fn enc_comments(cs: Seq<CommentModel>) -> Seq<u8> {
    enc_nat(events_of_forest(cs).len() as u128) + enc_events_items(events_of_forest(cs))
}

/// Reading and rebuilding: each parsed event moves the build state.
pub open spec fn parse_build(
    b: Seq<u8>,
    n: nat,
    roots: Seq<CommentModel>,
    stack: Seq<CommentModel>,
) -> Option<((Seq<CommentModel>, Seq<CommentModel>), Seq<u8>)>
    decreases n,
{
    if n == 0 {
        Some(((roots, stack), b))
    } else {
        match parse_event(b) {
            None => None,
            Some((e, r1)) => {
                let (r2, s2) = build_step(roots, stack, e);
                parse_build(r1, (n - 1) as nat, r2, s2)
            },
        }
    }
}

pub open spec fn parse_comments(b: Seq<u8>) -> Option<(Seq<CommentModel>, Seq<u8>)> {
    match parse_nat(b) {
        None => None,
        Some((n, r1)) => if n <= usize::MAX as u128 {
            match parse_build(r1, n as nat, Seq::empty(), Seq::empty()) {
                None => None,
                Some(((roots, stack), r2)) => Some((flush_model(roots, stack), r2)),
            }
        } else {
            None
        },
    }
}

/// The bounds a comment tree needs to encode.
pub open spec fn comment_bounded(c: CommentModel) -> bool
    decreases c,
{
    comment_data_bounded(c) && comments_bounded(c.replies)
}

pub open spec fn comments_bounded(cs: Seq<CommentModel>) -> bool
    decreases cs,
{
    &&& events_of_forest(cs).len() <= usize::MAX
    &&& forall|i: int| 0 <= i < cs.len() ==> comment_bounded(#[trigger] cs[i])
}

/// Every item in a forest's event stream is a bounded, bare comment.
proof fn lemma_events_bounded(cs: Seq<CommentModel>)
    requires
        forall|i: int| 0 <= i < cs.len() ==> comment_bounded(#[trigger] cs[i]),
    ensures
        forall|i: int|
            0 <= i < events_of_forest(cs).len() ==> event_bounded(
                #[trigger] events_of_forest(cs)[i],
            ),
    decreases cs,
{
    if cs.len() > 0 {
        lemma_events_bounded(cs.drop_last());
        let c = cs.last();
        assert(comment_bounded(c));
        assert(forall|i: int|
            0 <= i < c.replies.len() ==> comment_bounded(#[trigger] c.replies[i]));
        lemma_events_bounded_tree(c);
        let pre = events_of_forest(cs.drop_last());
        let tre = events_of_tree(c);
        assert(forall|i: int|
            0 <= i < events_of_forest(cs).len() ==> events_of_forest(cs)[i] == if i < pre.len() {
                pre[i]
            } else {
                tre[i - pre.len()]
            });
    }
}

proof fn lemma_events_bounded_tree(c: CommentModel)
    requires
        comment_bounded(c),
    ensures
        forall|i: int|
            0 <= i < events_of_tree(c).len() ==> event_bounded(#[trigger] events_of_tree(c)[i]),
    decreases c,
{
    assert(forall|i: int| 0 <= i < c.replies.len() ==> comment_bounded(#[trigger] c.replies[i]));
    lemma_events_bounded_forest_inner(c.replies);
    let head = CommentEvent::Item(crate::extract::strip_replies(c));
    assert(event_bounded(head));
    let mid = events_of_forest(c.replies);
    assert(forall|i: int|
        0 <= i < events_of_tree(c).len() ==> events_of_tree(c)[i] == if i == 0 {
            head
        } else if i <= mid.len() {
            mid[i - 1]
        } else {
            CommentEvent::CloseReply
        });
}

proof fn lemma_events_bounded_forest_inner(cs: Seq<CommentModel>)
    requires
        forall|i: int| 0 <= i < cs.len() ==> comment_bounded(#[trigger] cs[i]),
    ensures
        forall|i: int|
            0 <= i < events_of_forest(cs).len() ==> event_bounded(
                #[trigger] events_of_forest(cs)[i],
            ),
    decreases cs,
{
    if cs.len() > 0 {
        assert(forall|i: int|
            0 <= i < cs.drop_last().len() ==> comment_bounded(#[trigger] cs.drop_last()[i]));
        lemma_events_bounded_forest_inner(cs.drop_last());
        lemma_events_bounded_tree(cs.last());
        let pre = events_of_forest(cs.drop_last());
        let tre = events_of_tree(cs.last());
        assert(forall|i: int|
            0 <= i < events_of_forest(cs).len() ==> events_of_forest(cs)[i] == if i < pre.len() {
                pre[i]
            } else {
                tre[i - pre.len()]
            });
    }
}

/// Parsing the encoding of an event list and rebuilding runs the build
/// over exactly those events.
proof fn lemma_parse_build(
    es: Seq<CommentEvent>,
    rest: Seq<u8>,
    roots: Seq<CommentModel>,
    stack: Seq<CommentModel>,
)
    requires
        forall|i: int| 0 <= i < es.len() ==> event_bounded(#[trigger] es[i]),
    ensures
        parse_build(enc_events_items(es) + rest, es.len() as nat, roots, stack) == Some(
            (build_run(roots, stack, es), rest),
        ),
    decreases es.len(),
{
    if es.len() == 0 {
        assert(enc_events_items(es) + rest =~= rest);
    } else {
        assert(enc_events_items(es) + rest =~= enc_event(es[0]) + (enc_events_items(
            es.drop_first(),
        ) + rest));
        lemma_parse_event(es[0], enc_events_items(es.drop_first()) + rest);
        assert(forall|i: int|
            0 <= i < es.drop_first().len() ==> es.drop_first()[i] == #[trigger] es[i + 1]);
        let (r2, s2) = build_step(roots, stack, es[0]);
        lemma_parse_build(es.drop_first(), rest, r2, s2);
    }
}

/// Where a finished tree lands: a new root when nothing is open, or the
/// newest reply of the deepest open comment.
pub open spec fn place_tree(
    roots: Seq<CommentModel>,
    stack: Seq<CommentModel>,
    c: CommentModel,
) -> (Seq<CommentModel>, Seq<CommentModel>) {
    if stack.len() == 0 {
        (roots.push(c), stack)
    } else {
        (
            roots,
            stack.drop_last().push(
                CommentModel { replies: stack.last().replies.push(c), ..stack.last() },
            ),
        )
    }
}

/// Running the build over one tree's events places the tree.
proof fn lemma_build_tree(roots: Seq<CommentModel>, stack: Seq<CommentModel>, c: CommentModel)
    ensures
        build_run(roots, stack, events_of_tree(c)) == place_tree(roots, stack, c),
    decreases c, 1nat,
{
    let strip = crate::extract::strip_replies(c);
    let es = events_of_tree(c);
    let after_item = stack.push(strip);
    assert(es[0] == CommentEvent::Item(strip));
    assert(es.drop_first() =~= events_of_forest(c.replies) + seq![CommentEvent::CloseReply]);
    lemma_build_run_concat(
        roots,
        after_item,
        events_of_forest(c.replies),
        seq![CommentEvent::CloseReply],
    );
    lemma_build_forest(roots, after_item, c.replies);
    let mid = build_run(roots, after_item, events_of_forest(c.replies));
    assert(mid == (
        roots,
        after_item.drop_last().push(
            CommentModel { replies: strip.replies + c.replies, ..strip },
        ),
    ));
    assert(after_item.drop_last() =~= stack);
    assert(strip.replies + c.replies =~= c.replies);
    assert(mid.1 =~= stack.push(c));
    let closed = crate::extract::attach_model(mid.0, mid.1);
    assert(build_run(mid.0, mid.1, seq![CommentEvent::CloseReply]) == closed) by {
        let one = seq![CommentEvent::CloseReply];
        assert(one.len() == 1);
        assert(one[0] == CommentEvent::CloseReply);
        assert(one.drop_first() =~= Seq::<CommentEvent>::empty());
        assert(build_step(mid.0, mid.1, one[0]) == closed);
        let (r2, s2) = build_step(mid.0, mid.1, one[0]);
        assert(build_run(r2, s2, one.drop_first()) == (r2, s2));
        assert((r2, s2) == closed);
    }
    if stack.len() == 0 {
        assert(closed == (roots.push(c), Seq::<CommentModel>::empty()));
        assert(place_tree(roots, stack, c).1 =~= Seq::<CommentModel>::empty());
    } else {
        let full = stack.push(c);
        let pi = full.len() - 2;
        assert(full.drop_last() =~= stack);
        assert(full[pi] == stack.last());
        assert(closed.1 =~= stack.drop_last().push(
            CommentModel { replies: stack.last().replies.push(c), ..stack.last() },
        )) by {
            assert(closed.1 == full.drop_last().update(
                pi,
                CommentModel { replies: full[pi].replies.push(full.last()), ..full[pi] },
            ));
            assert(full.last() == c);
            assert(stack.update(
                stack.len() - 1,
                CommentModel { replies: stack.last().replies.push(c), ..stack.last() },
            ) =~= stack.drop_last().push(
                CommentModel { replies: stack.last().replies.push(c), ..stack.last() },
            ));
        }
    }
}

/// Running the build over a forest's events appends the forest: to the
/// roots when nothing is open, else to the deepest open comment's replies.
proof fn lemma_build_forest(
    roots: Seq<CommentModel>,
    stack: Seq<CommentModel>,
    cs: Seq<CommentModel>,
)
    ensures
        build_run(roots, stack, events_of_forest(cs)) == if stack.len() == 0 {
            (roots + cs, stack)
        } else {
            (
                roots,
                stack.drop_last().push(
                    CommentModel { replies: stack.last().replies + cs, ..stack.last() },
                ),
            )
        },
    decreases cs, 0nat,
{
    if cs.len() == 0 {
        assert(events_of_forest(cs) =~= Seq::<CommentEvent>::empty());
        if stack.len() == 0 {
            assert(roots + cs =~= roots);
        } else {
            assert(stack.last().replies + cs =~= stack.last().replies);
            assert(stack.drop_last().push(
                CommentModel { replies: stack.last().replies + cs, ..stack.last() },
            ) =~= stack);
        }
    } else {
        let dl = cs.drop_last();
        let c = cs.last();
        lemma_build_run_concat(roots, stack, events_of_forest(dl), events_of_tree(c));
        lemma_build_forest(roots, stack, dl);
        let mid = build_run(roots, stack, events_of_forest(dl));
        lemma_build_tree(mid.0, mid.1, c);
        if stack.len() == 0 {
            assert(mid == (roots + dl, stack));
            assert(place_tree(roots + dl, stack, c) == ((roots + dl).push(c), stack));
            assert((roots + dl).push(c) =~= roots + cs);
        } else {
            let top2 = CommentModel { replies: stack.last().replies + dl, ..stack.last() };
            assert(mid == (roots, stack.drop_last().push(top2)));
            let s2 = stack.drop_last().push(top2);
            assert(s2.len() > 0);
            assert(s2.last() == top2);
            assert(s2.drop_last() =~= stack.drop_last());
            assert(place_tree(roots, s2, c) == (
                roots,
                stack.drop_last().push(
                    CommentModel { replies: top2.replies.push(c), ..top2 },
                ),
            ));
            assert(top2.replies.push(c) =~= stack.last().replies + cs);
        }
    }
}

/// The build over a concatenation is the build over the second part from
/// the state the first part reaches.
proof fn lemma_build_run_concat(
    roots: Seq<CommentModel>,
    stack: Seq<CommentModel>,
    a: Seq<CommentEvent>,
    b: Seq<CommentEvent>,
)
    ensures
        build_run(roots, stack, a + b) == ({
            let (r2, s2) = build_run(roots, stack, a);
            build_run(r2, s2, b)
        }),
    decreases a.len(),
{
    if a.len() == 0 {
        assert(a + b =~= b);
    } else {
        assert((a + b)[0] == a[0]);
        assert((a + b).drop_first() =~= a.drop_first() + b);
        let (r1, s1) = build_step(roots, stack, a[0]);
        lemma_build_run_concat(r1, s1, a.drop_first(), b);
    }
}

/// Reading an encoded comment forest yields the forest and the rest.
pub proof fn lemma_parse_comments(cs: Seq<CommentModel>, rest: Seq<u8>)
    requires
        comments_bounded(cs),
    ensures
        parse_comments(enc_comments(cs) + rest) == Some((cs, rest)),
{
    let es = events_of_forest(cs);
    assert(enc_comments(cs) + rest =~= enc_nat(es.len() as u128) + (enc_events_items(es) + rest));
    lemma_parse_nat(es.len() as u128, enc_events_items(es) + rest);
    lemma_events_bounded_forest_inner(cs);
    lemma_parse_build(es, rest, Seq::empty(), Seq::empty());
    lemma_build_forest(Seq::empty(), Seq::empty(), cs);
    assert(build_run(Seq::empty(), Seq::empty(), es) == (
        Seq::<CommentModel>::empty() + cs,
        Seq::<CommentModel>::empty(),
    ));
    assert(Seq::<CommentModel>::empty() + cs =~= cs);
    assert(flush_model(cs, Seq::<CommentModel>::empty()) == cs);
}

/// The encoding of one record: every field in order.
pub open spec fn enc_record(m: RecordModel) -> Seq<u8> {
    enc_nat(m.id as u128) + enc_string(m.website) + enc_string(m.name) + enc_strings(m.tags)
        + enc_datetime(m.published) + enc_nat(m.viewed) + enc_paragraphs(m.paragraphs) + enc_misc(
        m.miscellaneous,
    ) + enc_files(m.files) + enc_comments(m.comments)
}

/// The leading scalar fields of a record.
pub type RecordHead = (u64, Seq<char>, Seq<char>, Seq<Seq<char>>, SimpleDateTime, u128);

pub open spec fn enc_record_head(m: RecordModel) -> Seq<u8> {
    enc_nat(m.id as u128) + enc_string(m.website) + enc_string(m.name) + enc_strings(m.tags)
        + enc_datetime(m.published) + enc_nat(m.viewed)
}

pub open spec fn parse_record_head(b: Seq<u8>) -> Option<(RecordHead, Seq<u8>)> {
    match parse_nat(b) {
        None => None,
        Some((id, r1)) => if id <= u64::MAX as u128 {
            match parse_string(r1) {
                None => None,
                Some((website, r2)) => match parse_string(r2) {
                    None => None,
                    Some((name, r3)) => match parse_strings(r3) {
                        None => None,
                        Some((tags, r4)) => match parse_datetime(r4) {
                            None => None,
                            Some((published, r5)) => match parse_nat(r5) {
                                None => None,
                                Some((viewed, r6)) => Some(
                                    ((id as u64, website, name, tags, published, viewed), r6),
                                ),
                            },
                        },
                    },
                },
            }
        } else {
            None
        },
    }
}

pub open spec fn enc_record_tail(m: RecordModel) -> Seq<u8> {
    enc_paragraphs(m.paragraphs) + enc_misc(m.miscellaneous) + enc_files(m.files) + enc_comments(
        m.comments,
    )
}

/// The trailing structured fields of a record.
pub type RecordTail = (Seq<ParaModel>, Seq<MiscModel>, Seq<FileEntryModel>, Seq<CommentModel>);

pub open spec fn parse_record_tail(b: Seq<u8>) -> Option<(RecordTail, Seq<u8>)> {
    match parse_paragraphs(b) {
        None => None,
        Some((paragraphs, r7)) => match parse_misc(r7) {
            None => None,
            Some((misc, r8)) => match parse_files(r8) {
                None => None,
                Some((files, r9)) => match parse_comments(r9) {
                    None => None,
                    Some((comments, r10)) => Some(((paragraphs, misc, files, comments), r10)),
                },
            },
        },
    }
}

pub open spec fn parse_record(b: Seq<u8>) -> Option<(RecordModel, Seq<u8>)> {
    match parse_record_head(b) {
        None => None,
        Some((h, r1)) => match parse_record_tail(r1) {
            None => None,
            Some((t, r2)) => Some(
                (
                    RecordModel {
                        id: h.0,
                        website: h.1,
                        name: h.2,
                        tags: h.3,
                        published: h.4,
                        viewed: h.5,
                        paragraphs: t.0,
                        miscellaneous: t.1,
                        files: t.2,
                        comments: t.3,
                    },
                    r2,
                ),
            ),
        },
    }
}

/// The bounds a record needs to encode.
pub open spec fn record_bounded(m: RecordModel) -> bool {
    &&& encode_utf8(m.website).len() <= usize::MAX
    &&& encode_utf8(m.name).len() <= usize::MAX
    &&& strings_bounded(m.tags)
    &&& paragraphs_bounded(m.paragraphs)
    &&& misc_bounded(m.miscellaneous)
    &&& files_bounded(m.files)
    &&& comments_bounded(m.comments)
}

#[verifier::rlimit(100)]
proof fn lemma_parse_record_head(m: RecordModel, rest: Seq<u8>)
    requires
        record_bounded(m),
    ensures
        parse_record_head(enc_record_head(m) + rest) == Some(
            ((m.id, m.website, m.name, m.tags, m.published, m.viewed), rest),
        ),
{
    let b5 = enc_nat(m.viewed) + rest;
    let b4 = enc_datetime(m.published) + b5;
    let b3 = enc_strings(m.tags) + b4;
    let b2 = enc_string(m.name) + b3;
    let b1 = enc_string(m.website) + b2;
    assert(enc_record_head(m) + rest =~= enc_nat(m.id as u128) + b1);
    lemma_parse_nat(m.id as u128, b1);
    lemma_parse_string(m.website, b2);
    lemma_parse_string(m.name, b3);
    lemma_parse_strings(m.tags, b4);
    lemma_parse_datetime(m.published, b5);
    lemma_parse_nat(m.viewed, rest);
}

proof fn lemma_parse_record_tail(m: RecordModel, rest: Seq<u8>)
    requires
        record_bounded(m),
    ensures
        parse_record_tail(enc_record_tail(m) + rest) == Some(
            ((m.paragraphs, m.miscellaneous, m.files, m.comments), rest),
        ),
{
    let b9 = enc_comments(m.comments) + rest;
    let b8 = enc_files(m.files) + b9;
    let b7 = enc_misc(m.miscellaneous) + b8;
    assert(enc_record_tail(m) + rest =~= enc_paragraphs(m.paragraphs) + b7);
    lemma_parse_paragraphs(m.paragraphs, b7);
    lemma_parse_misc(m.miscellaneous, b8);
    lemma_parse_files(m.files, b9);
    lemma_parse_comments(m.comments, rest);
}

pub proof fn lemma_parse_record(m: RecordModel, rest: Seq<u8>)
    requires
        record_bounded(m),
    ensures
        parse_record(enc_record(m) + rest) == Some((m, rest)),
{
    assert(enc_record(m) + rest =~= enc_record_head(m) + (enc_record_tail(m) + rest));
    lemma_parse_record_head(m, enc_record_tail(m) + rest);
    lemma_parse_record_tail(m, rest);
}

/// The encoding of the whole record list: its count, then each record.
pub open spec fn enc_records_items(ms: Seq<RecordModel>) -> Seq<u8>
    decreases ms.len(),
{
    if ms.len() == 0 {
        Seq::empty()
    } else {
        enc_record(ms[0]) + enc_records_items(ms.drop_first())
    }
}

pub open spec fn enc_records(ms: Seq<RecordModel>) -> Seq<u8> {
    enc_nat(ms.len() as u128) + enc_records_items(ms)
}

pub open spec fn parse_records_items(b: Seq<u8>, n: nat) -> Option<(Seq<RecordModel>, Seq<u8>)>
    decreases n,
{
    if n == 0 {
        Some((Seq::empty(), b))
    } else {
        match parse_record(b) {
            None => None,
            Some((m, r1)) => match parse_records_items(r1, (n - 1) as nat) {
                None => None,
                Some((ms, r2)) => Some((seq![m] + ms, r2)),
            },
        }
    }
}

/// Reading the whole record list: it must use the stream exactly.
pub open spec fn parse_records(b: Seq<u8>) -> Option<Seq<RecordModel>> {
    match parse_nat(b) {
        None => None,
        Some((n, r1)) => if n <= usize::MAX as u128 {
            match parse_records_items(r1, n as nat) {
                None => None,
                Some((ms, r2)) => if r2.len() == 0 {
                    Some(ms)
                } else {
                    None
                },
            }
        } else {
            None
        },
    }
}

pub open spec fn records_bounded(ms: Seq<RecordModel>) -> bool {
    ms.len() <= usize::MAX && forall|i: int| 0 <= i < ms.len() ==> record_bounded(#[trigger] ms[i])
}

#[verifier::rlimit(100)]
pub proof fn lemma_parse_records_items(ms: Seq<RecordModel>, rest: Seq<u8>)
    requires
        forall|i: int| 0 <= i < ms.len() ==> record_bounded(#[trigger] ms[i]),
    ensures
        parse_records_items(enc_records_items(ms) + rest, ms.len() as nat) == Some((ms, rest)),
    decreases ms.len(),
{
    if ms.len() == 0 {
        assert(enc_records_items(ms) + rest =~= rest);
    } else {
        assert(enc_records_items(ms) + rest =~= enc_record(ms[0]) + (enc_records_items(
            ms.drop_first(),
        ) + rest));
        lemma_parse_record(ms[0], enc_records_items(ms.drop_first()) + rest);
        assert(forall|i: int|
            0 <= i < ms.drop_first().len() ==> ms.drop_first()[i] == #[trigger] ms[i + 1]);
        lemma_parse_records_items(ms.drop_first(), rest);
        assert(seq![ms[0]] + ms.drop_first() =~= ms);
    }
}

/// The encoding of one blob entry: its locator and its raw bytes.
pub open spec fn enc_blob_entry(e: (Seq<char>, Seq<u8>)) -> Seq<u8> {
    enc_string(e.0) + enc_bytes(e.1)
}

pub open spec fn parse_blob_entry(b: Seq<u8>) -> Option<((Seq<char>, Seq<u8>), Seq<u8>)> {
    match parse_string(b) {
        None => None,
        Some((k, r1)) => match parse_bytes(r1) {
            None => None,
            Some((v, r2)) => Some(((k, v), r2)),
        },
    }
}

pub open spec fn blob_entry_bounded(e: (Seq<char>, Seq<u8>)) -> bool {
    encode_utf8(e.0).len() <= usize::MAX && e.1.len() <= usize::MAX
}

pub proof fn lemma_parse_blob_entry(e: (Seq<char>, Seq<u8>), rest: Seq<u8>)
    requires
        blob_entry_bounded(e),
    ensures
        parse_blob_entry(enc_blob_entry(e) + rest) == Some((e, rest)),
{
    assert(enc_blob_entry(e) + rest =~= enc_string(e.0) + (enc_bytes(e.1) + rest));
    lemma_parse_string(e.0, enc_bytes(e.1) + rest);
    lemma_parse_bytes(e.1, rest);
}

pub open spec fn enc_blobs_items(es: Seq<(Seq<char>, Seq<u8>)>) -> Seq<u8>
    decreases es.len(),
{
    if es.len() == 0 {
        Seq::empty()
    } else {
        enc_blob_entry(es[0]) + enc_blobs_items(es.drop_first())
    }
}

/// The encoding of the whole blob store: its count, then each entry.
pub open spec fn enc_blobs(es: Seq<(Seq<char>, Seq<u8>)>) -> Seq<u8> {
    enc_nat(es.len() as u128) + enc_blobs_items(es)
}

pub open spec fn parse_blobs_items(b: Seq<u8>, n: nat) -> Option<
    (Seq<(Seq<char>, Seq<u8>)>, Seq<u8>),
>
    decreases n,
{
    if n == 0 {
        Some((Seq::empty(), b))
    } else {
        match parse_blob_entry(b) {
            None => None,
            Some((e, r1)) => match parse_blobs_items(r1, (n - 1) as nat) {
                None => None,
                Some((es, r2)) => Some((seq![e] + es, r2)),
            },
        }
    }
}

/// Reading the whole blob store: it must use the stream exactly.
pub open spec fn parse_blobs(b: Seq<u8>) -> Option<Seq<(Seq<char>, Seq<u8>)>> {
    match parse_nat(b) {
        None => None,
        Some((n, r1)) => if n <= usize::MAX as u128 {
            match parse_blobs_items(r1, n as nat) {
                None => None,
                Some((es, r2)) => if r2.len() == 0 {
                    Some(es)
                } else {
                    None
                },
            }
        } else {
            None
        },
    }
}

pub open spec fn blobs_bounded(es: Seq<(Seq<char>, Seq<u8>)>) -> bool {
    es.len() <= usize::MAX && forall|i: int|
        0 <= i < es.len() ==> blob_entry_bounded(#[trigger] es[i])
}

pub proof fn lemma_parse_blobs_items(es: Seq<(Seq<char>, Seq<u8>)>, rest: Seq<u8>)
    requires
        forall|i: int| 0 <= i < es.len() ==> blob_entry_bounded(#[trigger] es[i]),
    ensures
        parse_blobs_items(enc_blobs_items(es) + rest, es.len() as nat) == Some((es, rest)),
    decreases es.len(),
{
    if es.len() == 0 {
        assert(enc_blobs_items(es) + rest =~= rest);
    } else {
        assert(enc_blobs_items(es) + rest =~= enc_blob_entry(es[0]) + (enc_blobs_items(
            es.drop_first(),
        ) + rest));
        lemma_parse_blob_entry(es[0], enc_blobs_items(es.drop_first()) + rest);
        assert(forall|i: int|
            0 <= i < es.drop_first().len() ==> es.drop_first()[i] == #[trigger] es[i + 1]);
        lemma_parse_blobs_items(es.drop_first(), rest);
        assert(seq![es[0]] + es.drop_first() =~= es);
    }
}

/// Law: saving an archive and loading it back yields a record list and a
/// blob store equal to the originals, the blobs byte for byte. The bounds
/// only say that every piece fits the machine's sizes.
pub proof fn lemma_archive_round_trip(ms: Seq<RecordModel>, es: Seq<(Seq<char>, Seq<u8>)>)
    requires
        records_bounded(ms),
        blobs_bounded(es),
    ensures
        parse_records(enc_records(ms)) == Some(ms),
        parse_blobs(enc_blobs(es)) == Some(es),
{
    assert(enc_records(ms) =~= enc_nat(ms.len() as u128) + (enc_records_items(ms)
        + Seq::<u8>::empty()));
    lemma_parse_nat(ms.len() as u128, enc_records_items(ms) + Seq::<u8>::empty());
    assert(enc_records_items(ms) + Seq::<u8>::empty() =~= enc_records_items(ms));
    lemma_parse_records_items(ms, Seq::empty());
    assert(enc_blobs(es) =~= enc_nat(es.len() as u128) + (enc_blobs_items(es)
        + Seq::<u8>::empty()));
    lemma_parse_nat(es.len() as u128, enc_blobs_items(es) + Seq::<u8>::empty());
    assert(enc_blobs_items(es) + Seq::<u8>::empty() =~= enc_blobs_items(es));
    lemma_parse_blobs_items(es, Seq::empty());
}

/// Appends the encoding of a number's digits.
fn emit_digits(out: &mut Vec<u8>, n: u128)
    ensures
        final(out)@ == old(out)@ + nat_digits(n),
    decreases n,
{
    if n < 10 {
        out.push(48 + n as u8);
        proof {
            assert(final(out)@ =~= old(out)@ + nat_digits(n));
        }
    } else {
        emit_digits(out, n / 10);
        out.push(48 + (n % 10) as u8);
        proof {
            assert(final(out)@ =~= old(out)@ + nat_digits(n));
        }
    }
}

/// Appends the encoding of a number.
fn emit_nat(out: &mut Vec<u8>, n: u128)
    ensures
        final(out)@ == old(out)@ + enc_nat(n),
{
    emit_digits(out, n);
    out.push(10);
    proof {
        assert(final(out)@ =~= old(out)@ + enc_nat(n));
    }
}

/// Appends the encoding of raw bytes.
fn emit_bytes(out: &mut Vec<u8>, v: &Vec<u8>)
    ensures
        final(out)@ == old(out)@ + enc_bytes(v@),
{
    emit_nat(out, v.len() as u128);
    let mut k: usize = 0;
    let ghost mid = out@;
    while k < v.len()
        invariant
            k <= v@.len(),
            out@ == mid + v@.take(k as int),
        decreases v.len() - k,
    {
        out.push(v[k]);
        proof {
            assert(out@ =~= mid + v@.take(k as int + 1));
        }
        k += 1;
    }
    out.push(10);
    proof {
        assert(v@.take(v@.len() as int) =~= v@);
        assert(final(out)@ =~= old(out)@ + enc_bytes(v@));
    }
}

/// Appends the encoding of a string.
fn emit_string(out: &mut Vec<u8>, s: &String)
    ensures
        final(out)@ == old(out)@ + enc_string(s@),
{
    let bytes = s.as_str().as_bytes_vec();
    emit_bytes(out, &bytes);
}

/// Appends the encoding of an optional size.
fn emit_opt_nat(out: &mut Vec<u8>, o: &Option<u128>)
    ensures
        final(out)@ == old(out)@ + enc_opt_nat(*o),
{
    match o {
        None => {
            emit_nat(out, 0);
        },
        Some(n) => {
            emit_nat(out, 1);
            emit_nat(out, *n);
            proof {
                assert(final(out)@ =~= old(out)@ + enc_opt_nat(*o));
            }
        },
    }
}

/// Appends the encoding of an optional heading.
fn emit_opt_string(out: &mut Vec<u8>, o: &Option<String>)
    ensures
        final(out)@ == old(out)@ + enc_opt_string(opt_text(*o)),
{
    match o {
        None => {
            emit_nat(out, 0);
        },
        Some(s) => {
            emit_nat(out, 1);
            emit_string(out, s);
            proof {
                assert(final(out)@ =~= old(out)@ + enc_opt_string(opt_text(*o)));
            }
        },
    }
}

/// Appends the encoding of one piece of content.
fn emit_content(out: &mut Vec<u8>, c: &ParagraphContent)
    ensures
        final(out)@ == old(out)@ + enc_content(c@),
{
    match c {
        ParagraphContent::Text(t) => {
            emit_nat(out, 0);
            emit_string(out, t);
        },
        ParagraphContent::Image(t) => {
            emit_nat(out, 1);
            emit_string(out, t);
        },
    }
    proof {
        assert(final(out)@ =~= old(out)@ + enc_content(c@));
    }
}

/// Extending a model list by one element appends that element's encoding.
proof fn lemma_enc_contents_items_snoc(cs: Seq<ContentModel>, c: ContentModel)
    ensures
        enc_contents_items(cs.push(c)) == enc_contents_items(cs) + enc_content(c),
    decreases cs.len(),
{
    if cs.len() == 0 {
        assert(cs.push(c)[0] == c);
        assert(cs.push(c).drop_first() =~= Seq::<ContentModel>::empty());
        assert(enc_contents_items(cs.push(c)) == enc_content(c) + enc_contents_items(
            cs.push(c).drop_first(),
        ));
        assert(enc_contents_items(Seq::<ContentModel>::empty()) == Seq::<u8>::empty());
        assert(cs =~= Seq::<ContentModel>::empty());
        assert(enc_contents_items(cs.push(c)) =~= enc_contents_items(cs) + enc_content(c));
    } else {
        assert(cs.push(c)[0] == cs[0]);
        assert(cs.push(c).drop_first() =~= cs.drop_first().push(c));
        lemma_enc_contents_items_snoc(cs.drop_first(), c);
        assert(enc_content(cs[0]) + (enc_contents_items(cs.drop_first()) + enc_content(c)) =~= (
        enc_content(cs[0]) + enc_contents_items(cs.drop_first())) + enc_content(c));
    }
}

/// Appends the encoding of a content list.
fn emit_contents(out: &mut Vec<u8>, cs: &Vec<ParagraphContent>)
    ensures
        final(out)@ == old(out)@ + enc_contents(cs@.map_values(|c: ParagraphContent| c@)),
{
    let ghost model = cs@.map_values(|c: ParagraphContent| c@);
    emit_nat(out, cs.len() as u128);
    let ghost mid = out@;
    let mut k: usize = 0;
    proof {
        assert(model.take(0) =~= Seq::<ContentModel>::empty());
    }
    while k < cs.len()
        invariant
            model == cs@.map_values(|c: ParagraphContent| c@),
            k <= cs@.len(),
            out@ == mid + enc_contents_items(model.take(k as int)),
        decreases cs.len() - k,
    {
        emit_content(out, &cs[k]);
        proof {
            lemma_enc_contents_items_snoc(model.take(k as int), model[k as int]);
            assert(model.take(k as int).push(model[k as int]) =~= model.take(k as int + 1));
            assert(out@ =~= mid + enc_contents_items(model.take(k as int + 1)));
        }
        k += 1;
    }
    proof {
        assert(model.take(model.len() as int) =~= model);
        assert(final(out)@ =~= old(out)@ + enc_contents(model));
    }
}

/// Appends the encoding of a timestamp.
fn emit_datetime(out: &mut Vec<u8>, t: &SimpleDateTime)
    ensures
        final(out)@ == old(out)@ + enc_datetime(*t),
{
    emit_nat(out, t.year as u128);
    emit_nat(out, t.month as u128);
    emit_nat(out, t.day as u128);
    emit_nat(out, t.hour as u128);
    emit_nat(out, t.minute as u128);
    emit_nat(out, t.second as u128);
    proof {
        assert(final(out)@ =~= old(out)@ + enc_datetime(*t));
    }
}

/// Extending a model list by one element appends that element's encoding.
proof fn lemma_enc_strings_snoc(cs: Seq<Seq<char>>, c: Seq<char>)
    ensures
        enc_strings_items(cs.push(c)) == enc_strings_items(cs) + enc_string(c),
    decreases cs.len(),
{
    if cs.len() == 0 {
        assert(cs.push(c)[0] == c);
        assert(cs.push(c).drop_first() =~= Seq::<Seq<char>>::empty());
        assert(enc_strings_items(cs.push(c)) == enc_string(c) + enc_strings_items(cs.push(c).drop_first()));
        assert(enc_strings_items(Seq::<Seq<char>>::empty()) == Seq::<u8>::empty());
        assert(cs =~= Seq::<Seq<char>>::empty());
        assert(enc_strings_items(cs.push(c)) =~= enc_strings_items(cs) + enc_string(c));
    } else {
        assert(cs.push(c)[0] == cs[0]);
        assert(cs.push(c).drop_first() =~= cs.drop_first().push(c));
        lemma_enc_strings_snoc(cs.drop_first(), c);
        assert(enc_string(cs[0]) + (enc_strings_items(cs.drop_first()) + enc_string(c)) =~= (enc_string(cs[0])
            + enc_strings_items(cs.drop_first())) + enc_string(c));
    }
}

/// Extending a model list by one element appends that element's encoding.
proof fn lemma_enc_paragraphs_snoc(cs: Seq<ParaModel>, c: ParaModel)
    ensures
        enc_paragraphs_items(cs.push(c)) == enc_paragraphs_items(cs) + enc_paragraph(c),
    decreases cs.len(),
{
    if cs.len() == 0 {
        assert(cs.push(c)[0] == c);
        assert(cs.push(c).drop_first() =~= Seq::<ParaModel>::empty());
        assert(enc_paragraphs_items(cs.push(c)) == enc_paragraph(c) + enc_paragraphs_items(cs.push(c).drop_first()));
        assert(enc_paragraphs_items(Seq::<ParaModel>::empty()) == Seq::<u8>::empty());
        assert(cs =~= Seq::<ParaModel>::empty());
        assert(enc_paragraphs_items(cs.push(c)) =~= enc_paragraphs_items(cs) + enc_paragraph(c));
    } else {
        assert(cs.push(c)[0] == cs[0]);
        assert(cs.push(c).drop_first() =~= cs.drop_first().push(c));
        lemma_enc_paragraphs_snoc(cs.drop_first(), c);
        assert(enc_paragraph(cs[0]) + (enc_paragraphs_items(cs.drop_first()) + enc_paragraph(c)) =~= (enc_paragraph(cs[0])
            + enc_paragraphs_items(cs.drop_first())) + enc_paragraph(c));
    }
}

/// Extending a model list by one element appends that element's encoding.
proof fn lemma_enc_files_snoc(cs: Seq<FileEntryModel>, c: FileEntryModel)
    ensures
        enc_files_items(cs.push(c)) == enc_files_items(cs) + enc_file(c),
    decreases cs.len(),
{
    if cs.len() == 0 {
        assert(cs.push(c)[0] == c);
        assert(cs.push(c).drop_first() =~= Seq::<FileEntryModel>::empty());
        assert(enc_files_items(cs.push(c)) == enc_file(c) + enc_files_items(cs.push(c).drop_first()));
        assert(enc_files_items(Seq::<FileEntryModel>::empty()) == Seq::<u8>::empty());
        assert(cs =~= Seq::<FileEntryModel>::empty());
        assert(enc_files_items(cs.push(c)) =~= enc_files_items(cs) + enc_file(c));
    } else {
        assert(cs.push(c)[0] == cs[0]);
        assert(cs.push(c).drop_first() =~= cs.drop_first().push(c));
        lemma_enc_files_snoc(cs.drop_first(), c);
        assert(enc_file(cs[0]) + (enc_files_items(cs.drop_first()) + enc_file(c)) =~= (enc_file(cs[0])
            + enc_files_items(cs.drop_first())) + enc_file(c));
    }
}

/// Extending a model list by one element appends that element's encoding.
proof fn lemma_enc_misc_snoc(cs: Seq<MiscModel>, c: MiscModel)
    ensures
        enc_misc_items(cs.push(c)) == enc_misc_items(cs) + enc_misc_entry(c),
    decreases cs.len(),
{
    if cs.len() == 0 {
        assert(cs.push(c)[0] == c);
        assert(cs.push(c).drop_first() =~= Seq::<MiscModel>::empty());
        assert(enc_misc_items(cs.push(c)) == enc_misc_entry(c) + enc_misc_items(cs.push(c).drop_first()));
        assert(enc_misc_items(Seq::<MiscModel>::empty()) == Seq::<u8>::empty());
        assert(cs =~= Seq::<MiscModel>::empty());
        assert(enc_misc_items(cs.push(c)) =~= enc_misc_items(cs) + enc_misc_entry(c));
    } else {
        assert(cs.push(c)[0] == cs[0]);
        assert(cs.push(c).drop_first() =~= cs.drop_first().push(c));
        lemma_enc_misc_snoc(cs.drop_first(), c);
        assert(enc_misc_entry(cs[0]) + (enc_misc_items(cs.drop_first()) + enc_misc_entry(c)) =~= (enc_misc_entry(cs[0])
            + enc_misc_items(cs.drop_first())) + enc_misc_entry(c));
    }
}

/// Extending a model list by one element appends that element's encoding.
proof fn lemma_enc_events_snoc(cs: Seq<CommentEvent>, c: CommentEvent)
    ensures
        enc_events_items(cs.push(c)) == enc_events_items(cs) + enc_event(c),
    decreases cs.len(),
{
    if cs.len() == 0 {
        assert(cs.push(c)[0] == c);
        assert(cs.push(c).drop_first() =~= Seq::<CommentEvent>::empty());
        assert(enc_events_items(cs.push(c)) == enc_event(c) + enc_events_items(cs.push(c).drop_first()));
        assert(enc_events_items(Seq::<CommentEvent>::empty()) == Seq::<u8>::empty());
        assert(cs =~= Seq::<CommentEvent>::empty());
        assert(enc_events_items(cs.push(c)) =~= enc_events_items(cs) + enc_event(c));
    } else {
        assert(cs.push(c)[0] == cs[0]);
        assert(cs.push(c).drop_first() =~= cs.drop_first().push(c));
        lemma_enc_events_snoc(cs.drop_first(), c);
        assert(enc_event(cs[0]) + (enc_events_items(cs.drop_first()) + enc_event(c)) =~= (enc_event(cs[0])
            + enc_events_items(cs.drop_first())) + enc_event(c));
    }
}

/// Extending a model list by one element appends that element's encoding.
#[verifier::rlimit(100)]
proof fn lemma_enc_records_snoc(cs: Seq<RecordModel>, c: RecordModel)
    ensures
        enc_records_items(cs.push(c)) == enc_records_items(cs) + enc_record(c),
    decreases cs.len(),
{
    if cs.len() == 0 {
        assert(cs.push(c)[0] == c);
        assert(cs.push(c).drop_first() =~= Seq::<RecordModel>::empty());
        assert(enc_records_items(cs.push(c)) == enc_record(c) + enc_records_items(cs.push(c).drop_first()));
        assert(enc_records_items(Seq::<RecordModel>::empty()) == Seq::<u8>::empty());
        assert(cs =~= Seq::<RecordModel>::empty());
        assert(enc_records_items(cs.push(c)) =~= enc_records_items(cs) + enc_record(c));
    } else {
        assert(cs.push(c)[0] == cs[0]);
        assert(cs.push(c).drop_first() =~= cs.drop_first().push(c));
        lemma_enc_records_snoc(cs.drop_first(), c);
        assert(enc_record(cs[0]) + (enc_records_items(cs.drop_first()) + enc_record(c)) =~= (enc_record(cs[0])
            + enc_records_items(cs.drop_first())) + enc_record(c));
    }
}

/// Extending a model list by one element appends that element's encoding.
proof fn lemma_enc_blobs_snoc(cs: Seq<(Seq<char>, Seq<u8>)>, c: (Seq<char>, Seq<u8>))
    ensures
        enc_blobs_items(cs.push(c)) == enc_blobs_items(cs) + enc_blob_entry(c),
    decreases cs.len(),
{
    if cs.len() == 0 {
        assert(cs.push(c)[0] == c);
        assert(cs.push(c).drop_first() =~= Seq::<(Seq<char>, Seq<u8>)>::empty());
        assert(enc_blobs_items(cs.push(c)) == enc_blob_entry(c) + enc_blobs_items(cs.push(c).drop_first()));
        assert(enc_blobs_items(Seq::<(Seq<char>, Seq<u8>)>::empty()) == Seq::<u8>::empty());
        assert(cs =~= Seq::<(Seq<char>, Seq<u8>)>::empty());
        assert(enc_blobs_items(cs.push(c)) =~= enc_blobs_items(cs) + enc_blob_entry(c));
    } else {
        assert(cs.push(c)[0] == cs[0]);
        assert(cs.push(c).drop_first() =~= cs.drop_first().push(c));
        lemma_enc_blobs_snoc(cs.drop_first(), c);
        assert(enc_blob_entry(cs[0]) + (enc_blobs_items(cs.drop_first()) + enc_blob_entry(c)) =~= (enc_blob_entry(cs[0])
            + enc_blobs_items(cs.drop_first())) + enc_blob_entry(c));
    }
}

/// Appends the encoding of a tag list.
fn emit_strings(out: &mut Vec<u8>, ts: &Vec<String>)
    ensures
        final(out)@ == old(out)@ + enc_strings(ts@.map_values(|t: String| t@)),
{
    let ghost model = ts@.map_values(|t: String| t@);
    emit_nat(out, ts.len() as u128);
    let ghost mid = out@;
    let mut k: usize = 0;
    proof {
        assert(model.take(0) =~= Seq::<Seq<char>>::empty());
    }
    while k < ts.len()
        invariant
            model == ts@.map_values(|t: String| t@),
            k <= ts@.len(),
            out@ == mid + enc_strings_items(model.take(k as int)),
        decreases ts.len() - k,
    {
        emit_string(out, &ts[k]);
        proof {
            lemma_enc_strings_snoc(model.take(k as int), model[k as int]);
            assert(model.take(k as int).push(model[k as int]) =~= model.take(k as int + 1));
            assert(out@ =~= mid + enc_strings_items(model.take(k as int + 1)));
        }
        k += 1;
    }
    proof {
        assert(model.take(model.len() as int) =~= model);
        assert(final(out)@ =~= old(out)@ + enc_strings(model));
    }
}

/// Appends the encoding of one paragraph.
fn emit_paragraph(out: &mut Vec<u8>, p: &(Option<String>, Vec<ParagraphContent>))
    ensures
        final(out)@ == old(out)@ + enc_paragraph(paragraph_model(*p)),
{
    emit_opt_string(out, &p.0);
    emit_contents(out, &p.1);
    proof {
        assert(final(out)@ =~= old(out)@ + enc_paragraph(paragraph_model(*p)));
    }
}

/// Appends the encoding of the paragraph list.
fn emit_paragraphs(out: &mut Vec<u8>, ps: &Vec<(Option<String>, Vec<ParagraphContent>)>)
    ensures
        final(out)@ == old(out)@ + enc_paragraphs(
            ps@.map_values(|p: (Option<String>, Vec<ParagraphContent>)| paragraph_model(p)),
        ),
{
    let ghost model = ps@.map_values(
        |p: (Option<String>, Vec<ParagraphContent>)| paragraph_model(p),
    );
    emit_nat(out, ps.len() as u128);
    let ghost mid = out@;
    let mut k: usize = 0;
    proof {
        assert(model.take(0) =~= Seq::<ParaModel>::empty());
    }
    while k < ps.len()
        invariant
            model == ps@.map_values(
                |p: (Option<String>, Vec<ParagraphContent>)| paragraph_model(p),
            ),
            k <= ps@.len(),
            out@ == mid + enc_paragraphs_items(model.take(k as int)),
        decreases ps.len() - k,
    {
        emit_paragraph(out, &ps[k]);
        proof {
            lemma_enc_paragraphs_snoc(model.take(k as int), model[k as int]);
            assert(model.take(k as int).push(model[k as int]) =~= model.take(k as int + 1));
            assert(out@ =~= mid + enc_paragraphs_items(model.take(k as int + 1)));
        }
        k += 1;
    }
    proof {
        assert(model.take(model.len() as int) =~= model);
        assert(final(out)@ =~= old(out)@ + enc_paragraphs(model));
    }
}

/// Appends the encoding of one download entry.
fn emit_file(out: &mut Vec<u8>, f: &(String, (String, Option<u128>)))
    ensures
        final(out)@ == old(out)@ + enc_file(crate::record::file_model(*f)),
{
    emit_string(out, &f.0);
    emit_string(out, &f.1.0);
    emit_opt_nat(out, &f.1.1);
    proof {
        assert(final(out)@ =~= old(out)@ + enc_file(crate::record::file_model(*f)));
    }
}

/// Appends the encoding of the download entry list.
fn emit_files(out: &mut Vec<u8>, fs: &Vec<(String, (String, Option<u128>))>)
    ensures
        final(out)@ == old(out)@ + enc_files(
            fs@.map_values(|f: (String, (String, Option<u128>))| crate::record::file_model(f)),
        ),
{
    let ghost model = fs@.map_values(
        |f: (String, (String, Option<u128>))| crate::record::file_model(f),
    );
    emit_nat(out, fs.len() as u128);
    let ghost mid = out@;
    let mut k: usize = 0;
    proof {
        assert(model.take(0) =~= Seq::<FileEntryModel>::empty());
    }
    while k < fs.len()
        invariant
            model == fs@.map_values(
                |f: (String, (String, Option<u128>))| crate::record::file_model(f),
            ),
            k <= fs@.len(),
            out@ == mid + enc_files_items(model.take(k as int)),
        decreases fs.len() - k,
    {
        emit_file(out, &fs[k]);
        proof {
            lemma_enc_files_snoc(model.take(k as int), model[k as int]);
            assert(model.take(k as int).push(model[k as int]) =~= model.take(k as int + 1));
            assert(out@ =~= mid + enc_files_items(model.take(k as int + 1)));
        }
        k += 1;
    }
    proof {
        assert(model.take(model.len() as int) =~= model);
        assert(final(out)@ =~= old(out)@ + enc_files(model));
    }
}

/// Appends the encoding of the side-channel entries.
fn emit_misc(out: &mut Vec<u8>, es: &Vec<(String, String)>)
    ensures
        final(out)@ == old(out)@ + enc_misc(
            es@.map_values(|e: (String, String)| (e.0@, e.1@)),
        ),
{
    let ghost model = es@.map_values(|e: (String, String)| (e.0@, e.1@));
    emit_nat(out, es.len() as u128);
    let ghost mid = out@;
    let mut k: usize = 0;
    proof {
        assert(model.take(0) =~= Seq::<MiscModel>::empty());
    }
    while k < es.len()
        invariant
            model == es@.map_values(|e: (String, String)| (e.0@, e.1@)),
            k <= es@.len(),
            out@ == mid + enc_misc_items(model.take(k as int)),
        decreases es.len() - k,
    {
        emit_string(out, &es[k].0);
        emit_string(out, &es[k].1);
        proof {
            lemma_enc_misc_snoc(model.take(k as int), model[k as int]);
            assert(model.take(k as int).push(model[k as int]) =~= model.take(k as int + 1));
            assert(out@ =~= mid + enc_misc_items(model.take(k as int + 1)));
        }
        k += 1;
    }
    proof {
        assert(model.take(model.len() as int) =~= model);
        assert(final(out)@ =~= old(out)@ + enc_misc(model));
    }
}

/// Encoding distributes over event-stream concatenation.
proof fn lemma_enc_events_concat(a: Seq<CommentEvent>, b: Seq<CommentEvent>)
    ensures
        enc_events_items(a + b) == enc_events_items(a) + enc_events_items(b),
    decreases a.len(),
{
    if a.len() == 0 {
        assert(a + b =~= b);
        assert(enc_events_items(a) + enc_events_items(b) =~= enc_events_items(b));
    } else {
        assert((a + b)[0] == a[0]);
        assert((a + b).drop_first() =~= a.drop_first() + b);
        lemma_enc_events_concat(a.drop_first(), b);
        assert(enc_event(a[0]) + (enc_events_items(a.drop_first()) + enc_events_items(b)) =~= (
        enc_event(a[0]) + enc_events_items(a.drop_first())) + enc_events_items(b));
    }
}

/// Every event takes at least two bytes to encode.
proof fn lemma_enc_events_len(es: Seq<CommentEvent>)
    ensures
        enc_events_items(es).len() >= 2 * es.len(),
    decreases es.len(),
{
    if es.len() > 0 {
        lemma_enc_events_len(es.drop_first());
        match es[0] {
            CommentEvent::Item(c) => {
                lemma_nat_digits(0);
            },
            CommentEvent::CloseReply => {
                lemma_nat_digits(1);
            },
        }
    }
}

/// Appends the event stream of one comment tree and counts its events.
#[verifier::rlimit(100)]
fn emit_events_tree(buf: &mut Vec<u8>, count: &mut u128, c: &Comment)
    requires
        *old(count) <= old(buf)@.len(),
    ensures
        final(buf)@ == old(buf)@ + enc_events_items(events_of_tree(comment_model(*c))),
        *final(count) == *old(count) + events_of_tree(comment_model(*c)).len(),
        *final(count) <= final(buf)@.len(),
    decreases *c,
{
    let ghost cm = comment_model(*c);
    let ghost b0 = buf@;
    emit_nat(buf, 0);
    emit_string(buf, &c.user_avatar);
    emit_string(buf, &c.author);
    emit_datetime(buf, &c.date);
    emit_contents(buf, &c.content);
    proof {
        assert(buf@ =~= b0 + enc_event(CommentEvent::Item(crate::extract::strip_replies(cm))))
            by {
            assert(crate::extract::strip_replies(cm).user_avatar == c.user_avatar@);
            assert(enc_contents(crate::extract::strip_replies(cm).content) == enc_contents(
                c.content@.map_values(|x: ParagraphContent| x@),
            ));
        }
        lemma_nat_digits(0);
        lemma_nat_digits(1);
    }
    let blen1 = buf.len();
    proof {
        assert(*count <= blen1 as u128);
    }
    *count = *count + 1;
    let ghost bmid = buf@;
    let ghost cmid = *count;
    emit_events_forest_inner(buf, count, &c.replies);
    emit_nat(buf, 1);
    let blen2 = buf.len();
    proof {
        assert(*count <= blen2 as u128) by {
            lemma_enc_events_len(events_of_forest(comments_model(c.replies@)));
            lemma_nat_digits(0);
        }
    }
    *count = *count + 1;
    proof {
        let head = seq![CommentEvent::Item(crate::extract::strip_replies(cm))];
        let mid = events_of_forest(cm.replies);
        let tailv = seq![CommentEvent::CloseReply];
        lemma_enc_events_concat(head, mid);
        lemma_enc_events_concat(head + mid, tailv);
        assert(enc_events_items(head) =~= enc_event(head[0]) + enc_events_items(
            head.drop_first(),
        )) by {
            assert(head.drop_first() =~= Seq::<CommentEvent>::empty());
        }
        assert(enc_events_items(head) =~= enc_event(CommentEvent::Item(
            crate::extract::strip_replies(cm),
        ))) by {
            assert(enc_events_items(Seq::<CommentEvent>::empty()) == Seq::<u8>::empty());
        }
        assert(enc_events_items(tailv) =~= enc_event(CommentEvent::CloseReply)) by {
            assert(tailv.drop_first() =~= Seq::<CommentEvent>::empty());
            assert(enc_events_items(Seq::<CommentEvent>::empty()) == Seq::<u8>::empty());
        }
        assert(events_of_tree(cm) =~= (head + mid) + tailv);
        assert(comments_model(c.replies@) == cm.replies);
        assert(buf@ =~= b0 + enc_events_items(events_of_tree(cm)));
        lemma_enc_events_len(events_of_tree(cm));
    }
}

/// Appends the event stream of a comment forest and counts its events.
fn emit_events_forest_inner(buf: &mut Vec<u8>, count: &mut u128, cs: &Vec<Comment>)
    requires
        *old(count) <= old(buf)@.len(),
    ensures
        final(buf)@ == old(buf)@ + enc_events_items(events_of_forest(comments_model(cs@))),
        *final(count) == *old(count) + events_of_forest(comments_model(cs@)).len(),
        *final(count) <= final(buf)@.len(),
    decreases *cs,
{
    let ghost model = comments_model(cs@);
    proof {
        crate::record::lemma_comments_model_index(cs@);
    }
    let ghost b0 = buf@;
    let ghost c0 = *count;
    let mut k: usize = 0;
    proof {
        assert(model.take(0) =~= Seq::<CommentModel>::empty());
        assert(enc_events_items(events_of_forest(model.take(0))) =~= Seq::<u8>::empty());
        assert(b0 + Seq::<u8>::empty() =~= b0);
    }
    while k < cs.len()
        invariant
            model == comments_model(cs@),
            model.len() == cs@.len(),
            forall|i: int| 0 <= i < cs@.len() ==> model[i] == comment_model(cs@[i]),
            k <= cs@.len(),
            buf@ == b0 + enc_events_items(events_of_forest(model.take(k as int))),
            *count == c0 + events_of_forest(model.take(k as int)).len(),
            *count <= buf@.len(),
        decreases cs@.len() - k,
    {
        emit_events_tree(buf, count, &cs[k]);
        proof {
            assert(model.take(k as int + 1).drop_last() =~= model.take(k as int));
            assert(model.take(k as int + 1).last() == model[k as int]);
            assert(events_of_forest(model.take(k as int + 1)) == events_of_forest(
                model.take(k as int),
            ) + events_of_tree(model[k as int]));
            lemma_enc_events_concat(
                events_of_forest(model.take(k as int)),
                events_of_tree(model[k as int]),
            );
            assert(buf@ =~= b0 + enc_events_items(events_of_forest(model.take(k as int + 1))));
        }
        k += 1;
    }
    proof {
        assert(model.take(model.len() as int) =~= model);
    }
}

/// Appends the encoding of the comment forest.
fn emit_comments(out: &mut Vec<u8>, cs: &Vec<Comment>)
    ensures
        final(out)@ == old(out)@ + enc_comments(comments_model(cs@)),
{
    let mut buf: Vec<u8> = Vec::new();
    let mut count: u128 = 0;
    emit_events_forest_inner(&mut buf, &mut count, cs);
    emit_nat(out, count);
    let mut buf2 = buf;
    out.append(&mut buf2);
    proof {
        assert(final(out)@ =~= old(out)@ + enc_comments(comments_model(cs@)));
    }
}

/// Appends the encoding of one record.
#[verifier::rlimit(100)]
fn emit_record(out: &mut Vec<u8>, m: &GameTextInformation)
    ensures
        final(out)@ == old(out)@ + enc_record(m@),
{
    emit_nat(out, m.id as u128);
    emit_string(out, &m.website);
    emit_string(out, &m.name);
    emit_strings(out, &m.tags);
    emit_datetime(out, &m.published);
    emit_nat(out, m.viewed);
    emit_paragraphs(out, &m.paragraphs);
    emit_misc(out, &m.miscellaneous);
    emit_files(out, &m.files);
    emit_comments(out, &m.comments);
    proof {
        assert(final(out)@ =~= old(out)@ + enc_record(m@));
    }
}

/// The models of a record list.
pub open spec fn records_model(ms: Seq<GameTextInformation>) -> Seq<RecordModel> {
    ms.map_values(|m: GameTextInformation| m@)
}

/// Encodes the whole record list for the archive's text half.
#[verifier::rlimit(100)]
pub fn encode_records(ms: &Vec<GameTextInformation>) -> (r: Vec<u8>)
    ensures
        r@ == enc_records(records_model(ms@)),
{
    let ghost model = records_model(ms@);
    let mut out: Vec<u8> = Vec::new();
    emit_nat(&mut out, ms.len() as u128);
    let ghost mid = out@;
    let mut k: usize = 0;
    proof {
        assert(model.take(0) =~= Seq::<RecordModel>::empty());
        assert(enc_records_items(model.take(0)) == Seq::<u8>::empty());
        assert(out@ =~= mid + enc_records_items(model.take(0)));
    }
    while k < ms.len()
        invariant
            model == records_model(ms@),
            k <= ms@.len(),
            out@ == mid + enc_records_items(model.take(k as int)),
        decreases ms.len() - k,
    {
        emit_record(&mut out, &ms[k]);
        proof {
            lemma_enc_records_snoc(model.take(k as int), model[k as int]);
            assert(model.take(k as int).push(model[k as int]) =~= model.take(k as int + 1));
            assert(out@ =~= mid + enc_records_items(model.take(k as int + 1)));
        }
        k += 1;
    }
    proof {
        assert(model.take(model.len() as int) =~= model);
        assert(out@ =~= enc_records(model));
    }
    out
}

/// Encodes the whole blob store for the archive's binary half.
pub fn encode_blobs(db: &GameBinaryDatabase) -> (r: Vec<u8>)
    ensures
        r@ == enc_blobs(db.entries()),
{
    let ghost model = db.entries();
    let mut out: Vec<u8> = Vec::new();
    emit_nat(&mut out, db.0.len() as u128);
    let ghost mid = out@;
    let mut k: usize = 0;
    proof {
        assert(model.take(0) =~= Seq::<(Seq<char>, Seq<u8>)>::empty());
        assert(enc_blobs_items(model.take(0)) == Seq::<u8>::empty());
        assert(out@ =~= mid + enc_blobs_items(model.take(0)));
    }
    while k < db.0.len()
        invariant
            model == db.entries(),
            k <= db.0@.len(),
            out@ == mid + enc_blobs_items(model.take(k as int)),
        decreases db.0@.len() - k,
    {
        proof {
            assert(model[k as int] == (db.0@[k as int].0@, db.0@[k as int].1@));
        }
        emit_string(&mut out, &db.0[k].0);
        emit_bytes(&mut out, &db.0[k].1);
        proof {
            lemma_enc_blobs_snoc(model.take(k as int), model[k as int]);
            assert(model.take(k as int).push(model[k as int]) =~= model.take(k as int + 1));
            assert(out@ =~= mid + enc_blobs_items(model.take(k as int + 1)));
        }
        k += 1;
    }
    proof {
        assert(model.take(model.len() as int) =~= model);
        assert(out@ =~= enc_blobs(model));
    }
    out
}

/// Reads one number from a position in the stream.
fn dec_nat(b: &Vec<u8>, i: usize) -> (r: Option<(u128, usize)>)
    requires
        i <= b@.len(),
    ensures
        match (r, parse_nat(b@.skip(i as int))) {
            (Some((v, j)), Some((m, rest))) => v == m && i < j <= b@.len() && rest == b@.skip(
                j as int,
            ),
            (None, None) => true,
            _ => false,
        },
{
    let ghost s = b@.skip(i as int);
    let mut k: usize = i;
    let mut acc: u128 = 0;
    while k < b.len() && 48 <= b[k] && b[k] <= 57
        invariant
            i <= k <= b@.len(),
            s == b@.skip(i as int),
            forall|t: int| i <= t < k ==> is_digit_byte(#[trigger] b@[t]),
            acc == bytes_val(b@.subrange(i as int, k as int)),
        decreases b@.len() - k,
    {
        let d: u8 = b[k] - 48;
        if acc > (u128::MAX - d as u128) / 10 {
            proof {
                let run = digits_end(s, 0);
                lemma_digits_end_bounds(s, 0);
                assert(forall|t: int| 0 <= t < run ==> is_digit_byte(#[trigger] s[t]));
                assert(k - i + 1 <= run) by {
                    assert(s[k - i] == b@[k as int]);
                    if run < k - i + 1 {
                        assert(is_digit_byte(s[run]) || run == s.len());
                        assert(run < s.len());
                        assert(s[run] == b@[i + run]);
                        assert(is_digit_byte(b@[i + run]));
                        assert(!is_digit_byte(s[run]));
                    }
                }
                assert(bytes_val(s.subrange(0, k - i + 1)) == acc * 10 + d) by {
                    assert(s.subrange(0, k - i + 1).drop_last() =~= s.subrange(0, k - i));
                    assert(s.subrange(0, k - i) =~= b@.subrange(i as int, k as int));
                    assert(s.subrange(0, k - i + 1).last() == b@[k as int]);
                }
                assert(acc * 10 + d > u128::MAX) by (nonlinear_arith)
                    requires
                        acc > (u128::MAX - d as u128) / 10 && d < 10,
                ;
                assert(s.subrange(0, run).take(k - i + 1) =~= s.subrange(0, k - i + 1));
                lemma_bytes_val_prefix(s.subrange(0, run), k - i + 1);
                assert(bytes_val(s.subrange(0, run)) > u128::MAX);
            }
            return None;
        }
        proof {
            assert(b@.subrange(i as int, k as int + 1).drop_last() =~= b@.subrange(
                i as int,
                k as int,
            ));
            assert(acc * 10 + d <= u128::MAX) by (nonlinear_arith)
                requires
                    acc <= (u128::MAX - d as u128) / 10 && d < 10,
            ;
        }
        acc = acc * 10 + d as u128;
        k += 1;
    }
    proof {
        assert(forall|t: int| 0 <= t < k - i ==> #[trigger] s[t] == b@[i + t]);
        if (k as int) < b@.len() {
            assert(s[k - i] == b@[k as int]);
            assert(!is_digit_byte(b@[k as int]));
        }
        lemma_digits_end(s, 0, k - i);
        assert(s.subrange(0, k - i) =~= b@.subrange(i as int, k as int));
    }
    if k == i {
        return None;
    }
    if k < b.len() && b[k] == 10 {
        proof {
            assert(s[k - i] == b@[k as int]);
            assert(s.skip(k - i + 1) =~= b@.skip(k as int + 1));
        }
        Some((acc, k + 1))
    } else {
        proof {
            if (k as int) < b@.len() {
                assert(s[k - i] == b@[k as int]);
            }
        }
        None
    }
}

/// Reads a length-prefixed byte run from a position in the stream.
fn dec_bytes(b: &Vec<u8>, i: usize) -> (r: Option<(Vec<u8>, usize)>)
    requires
        i <= b@.len(),
    ensures
        match (r, parse_bytes(b@.skip(i as int))) {
            (Some((v, j)), Some((m, rest))) => v@ == m && i < j <= b@.len() && rest == b@.skip(
                j as int,
            ),
            (None, None) => true,
            _ => false,
        },
{
    let ghost s = b@.skip(i as int);
    let (n, j) = match dec_nat(b, i) {
        None => {
            return None;
        },
        Some(p) => p,
    };
    if n > (b.len() - j) as u128 {
        proof {
            let r1 = b@.skip(j as int);
            assert(r1.len() == b@.len() - j);
        }
        return None;
    }
    let nn = n as usize;
    if j + nn >= b.len() {
        proof {
            let r1 = b@.skip(j as int);
            assert(r1.len() == b@.len() - j);
        }
        return None;
    }
    if b[j + nn] != 10 {
        proof {
            let r1 = b@.skip(j as int);
            assert(r1[n as int] == b@[j + nn]);
        }
        return None;
    }
    let mut v: Vec<u8> = Vec::new();
    let mut k: usize = 0;
    let blen = b.len();
    while k < nn
        invariant
            blen == b@.len(),
            j + nn < b@.len(),
            k <= nn,
            v@ =~= b@.subrange(j as int, j + k),
        decreases nn - k,
    {
        v.push(b[j + k]);
        proof {
            assert(v@ =~= b@.subrange(j as int, j + k + 1));
        }
        k += 1;
    }
    proof {
        let r1 = b@.skip(j as int);
        assert(r1[n as int] == b@[j + nn]);
        assert(r1.take(n as int) =~= b@.subrange(j as int, j + nn));
        assert(r1.skip(n as int + 1) =~= b@.skip(j + nn + 1));
    }
    Some((v, j + nn + 1))
}

/// Reads a string from a position in the stream.
fn dec_string(b: &Vec<u8>, i: usize) -> (r: Option<(String, usize)>)
    requires
        i <= b@.len(),
    ensures
        match (r, parse_string(b@.skip(i as int))) {
            (Some((v, j)), Some((m, rest))) => v@ == m && i < j <= b@.len() && rest == b@.skip(
                j as int,
            ),
            (None, None) => true,
            _ => false,
        },
{
    let (bytes, j) = match dec_bytes(b, i) {
        None => {
            return None;
        },
        Some(p) => p,
    };
    match crate::trusted::utf8_to_string(bytes) {
        Some(t) => Some((t, j)),
        None => None,
    }
}

/// Reads an optional size from a position in the stream.
fn dec_opt_nat(b: &Vec<u8>, i: usize) -> (r: Option<(Option<u128>, usize)>)
    requires
        i <= b@.len(),
    ensures
        match (r, parse_opt_nat(b@.skip(i as int))) {
            (Some((v, j)), Some((m, rest))) => v == m && i < j <= b@.len() && rest == b@.skip(
                j as int,
            ),
            (None, None) => true,
            _ => false,
        },
{
    let (tag, j) = match dec_nat(b, i) {
        None => {
            return None;
        },
        Some(p) => p,
    };
    if tag == 0 {
        Some((None, j))
    } else if tag == 1 {
        match dec_nat(b, j) {
            None => None,
            Some((n, j2)) => Some((Some(n), j2)),
        }
    } else {
        None
    }
}

/// Reads an optional heading from a position in the stream.
fn dec_opt_string(b: &Vec<u8>, i: usize) -> (r: Option<(Option<String>, usize)>)
    requires
        i <= b@.len(),
    ensures
        match (r, parse_opt_string(b@.skip(i as int))) {
            (Some((v, j)), Some((m, rest))) => opt_text(v) == m && i < j <= b@.len() && rest
                == b@.skip(j as int),
            (None, None) => true,
            _ => false,
        },
{
    let (tag, j) = match dec_nat(b, i) {
        None => {
            return None;
        },
        Some(p) => p,
    };
    if tag == 0 {
        Some((None, j))
    } else if tag == 1 {
        match dec_string(b, j) {
            None => None,
            Some((t, j2)) => Some((Some(t), j2)),
        }
    } else {
        None
    }
}

/// Reads one piece of content from a position in the stream.
fn dec_content(b: &Vec<u8>, i: usize) -> (r: Option<(ParagraphContent, usize)>)
    requires
        i <= b@.len(),
    ensures
        match (r, parse_content(b@.skip(i as int))) {
            (Some((v, j)), Some((m, rest))) => v@ == m && i < j <= b@.len() && rest == b@.skip(
                j as int,
            ),
            (None, None) => true,
            _ => false,
        },
{
    let (tag, j) = match dec_nat(b, i) {
        None => {
            return None;
        },
        Some(p) => p,
    };
    if tag > 1 {
        return None;
    }
    match dec_string(b, j) {
        None => None,
        Some((t, j2)) => if tag == 0 {
            Some((ParagraphContent::Text(t), j2))
        } else {
            Some((ParagraphContent::Image(t), j2))
        },
    }
}

/// Reads a content list from a position in the stream.
fn dec_contents(b: &Vec<u8>, i: usize) -> (r: Option<(Vec<ParagraphContent>, usize)>)
    requires
        i <= b@.len(),
    ensures
        match (r, parse_contents(b@.skip(i as int))) {
            (Some((v, j)), Some((m, rest))) => v@.map_values(|c: ParagraphContent| c@) == m && i
                < j <= b@.len() && rest == b@.skip(j as int),
            (None, None) => true,
            _ => false,
        },
{
    let (n, j0) = match dec_nat(b, i) {
        None => {
            return None;
        },
        Some(p) => p,
    };
    if n > usize::MAX as u128 {
        return None;
    }
    let nn = n as usize;
    let mut v: Vec<ParagraphContent> = Vec::new();
    let mut j: usize = j0;
    let mut k: usize = 0;
    proof {
        assert(v@.map_values(|c: ParagraphContent| c@) =~= Seq::<ContentModel>::empty());
    }
    while k < nn
        invariant
            k <= nn,
            i < j <= b@.len(),
            i < j0 <= b@.len(),
            parse_nat(b@.skip(i as int)) == Some((nn as u128, b@.skip(j0 as int))),
            match parse_contents_items(b@.skip(j as int), (nn - k) as nat) {
                Some((m, rest)) => parse_contents_items(b@.skip(j0 as int), nn as nat) == Some(
                    (v@.map_values(|c: ParagraphContent| c@) + m, rest),
                ),
                None => parse_contents_items(b@.skip(j0 as int), nn as nat) is None,
            },
        decreases nn - k,
    {
        let ghost vm0 = v@.map_values(|c: ParagraphContent| c@);
        let (c, j2) = match dec_content(b, j) {
            None => {
                return None;
            },
            Some(p) => p,
        };
        let ghost cm = c@;
        v.push(c);
        proof {
            assert(v@.map_values(|c2: ParagraphContent| c2@) =~= vm0.push(cm));
            match parse_contents_items(b@.skip(j2 as int), (nn - k - 1) as nat) {
                Some((m, rest)) => {
                    assert(vm0.push(cm) + m =~= vm0 + (seq![cm] + m));
                },
                None => {},
            }
        }
        j = j2;
        k += 1;
    }
    proof {
        assert(v@.map_values(|c: ParagraphContent| c@) + Seq::<ContentModel>::empty() =~= v@
            .map_values(|c: ParagraphContent| c@));
    }
    Some((v, j))
}

/// Reads a timestamp from a position in the stream.
fn dec_datetime(b: &Vec<u8>, i: usize) -> (r: Option<(SimpleDateTime, usize)>)
    requires
        i <= b@.len(),
    ensures
        match (r, parse_datetime(b@.skip(i as int))) {
            (Some((v, j)), Some((m, rest))) => v == m && i < j <= b@.len() && rest == b@.skip(
                j as int,
            ),
            (None, None) => true,
            _ => false,
        },
{
    let (y, j1) = match dec_nat(b, i) {
        None => {
            return None;
        },
        Some(p) => p,
    };
    let (mo, j2) = match dec_nat(b, j1) {
        None => {
            return None;
        },
        Some(p) => p,
    };
    let (d, j3) = match dec_nat(b, j2) {
        None => {
            return None;
        },
        Some(p) => p,
    };
    let (h, j4) = match dec_nat(b, j3) {
        None => {
            return None;
        },
        Some(p) => p,
    };
    let (mi, j5) = match dec_nat(b, j4) {
        None => {
            return None;
        },
        Some(p) => p,
    };
    let (sec, j6) = match dec_nat(b, j5) {
        None => {
            return None;
        },
        Some(p) => p,
    };
    if y <= u32::MAX as u128 && mo <= u8::MAX as u128 && d <= u8::MAX as u128 && h
        <= u8::MAX as u128 && mi <= u8::MAX as u128 && sec <= u8::MAX as u128 {
        Some(
            (
                SimpleDateTime {
                    year: y as u32,
                    month: mo as u8,
                    day: d as u8,
                    hour: h as u8,
                    minute: mi as u8,
                    second: sec as u8,
                },
                j6,
            ),
        )
    } else {
        None
    }
}

/// Reads one paragraph from a position in the stream.
fn dec_paragraph(b: &Vec<u8>, i: usize) -> (r: Option<
    ((Option<String>, Vec<ParagraphContent>), usize),
>)
    requires
        i <= b@.len(),
    ensures
        match (r, parse_paragraph(b@.skip(i as int))) {
            (Some((v, j)), Some((m, rest))) => paragraph_model(v) == m && i < j <= b@.len()
                && rest == b@.skip(j as int),
            (None, None) => true,
            _ => false,
        },
{
    let (title, j1) = match dec_opt_string(b, i) {
        None => {
            return None;
        },
        Some(p) => p,
    };
    let (cs, j2) = match dec_contents(b, j1) {
        None => {
            return None;
        },
        Some(p) => p,
    };
    Some(((title, cs), j2))
}

/// Reads one download entry from a position in the stream.
fn dec_file(b: &Vec<u8>, i: usize) -> (r: Option<((String, (String, Option<u128>)), usize)>)
    requires
        i <= b@.len(),
    ensures
        match (r, parse_file(b@.skip(i as int))) {
            (Some((v, j)), Some((m, rest))) => crate::record::file_model(v) == m && i < j
                <= b@.len() && rest == b@.skip(j as int),
            (None, None) => true,
            _ => false,
        },
{
    let (name, j1) = match dec_string(b, i) {
        None => {
            return None;
        },
        Some(p) => p,
    };
    let (loc, j2) = match dec_string(b, j1) {
        None => {
            return None;
        },
        Some(p) => p,
    };
    let (sz, j3) = match dec_opt_nat(b, j2) {
        None => {
            return None;
        },
        Some(p) => p,
    };
    Some(((name, (loc, sz)), j3))
}

/// Reads one side-channel entry from a position in the stream.
fn dec_misc_entry(b: &Vec<u8>, i: usize) -> (r: Option<((String, String), usize)>)
    requires
        i <= b@.len(),
    ensures
        match (r, parse_misc_entry(b@.skip(i as int))) {
            (Some((v, j)), Some((m, rest))) => (v.0@, v.1@) == m && i < j <= b@.len() && rest
                == b@.skip(j as int),
            (None, None) => true,
            _ => false,
        },
{
    let (k0, j1) = match dec_string(b, i) {
        None => {
            return None;
        },
        Some(p) => p,
    };
    let (v0, j2) = match dec_string(b, j1) {
        None => {
            return None;
        },
        Some(p) => p,
    };
    Some(((k0, v0), j2))
}

/// Reads a tag list from a position in the stream.
fn dec_strings(b: &Vec<u8>, i: usize) -> (r: Option<(Vec<String>, usize)>)
    requires
        i <= b@.len(),
    ensures
        match (r, parse_strings(b@.skip(i as int))) {
            (Some((v, j)), Some((m, rest))) => v@.map_values(|c: String| c@) == m && i < j <= b@.len() && rest
                == b@.skip(j as int),
            (None, None) => true,
            _ => false,
        },
{
    let (n, j0) = match dec_nat(b, i) {
        None => {
            return None;
        },
        Some(p) => p,
    };
    if n > usize::MAX as u128 {
        return None;
    }
    let nn = n as usize;
    let mut v: Vec<String> = Vec::new();
    let mut j: usize = j0;
    let mut k: usize = 0;
    proof {
        assert(v@.map_values(|c: String| c@) =~= Seq::<Seq<char>>::empty());
    }
    while k < nn
        invariant
            k <= nn,
            i < j <= b@.len(),
            i < j0 <= b@.len(),
            parse_nat(b@.skip(i as int)) == Some((nn as u128, b@.skip(j0 as int))),
            match parse_strings_items(b@.skip(j as int), (nn - k) as nat) {
                Some((m, rest)) => parse_strings_items(b@.skip(j0 as int), nn as nat) == Some(
                    (v@.map_values(|c: String| c@) + m, rest),
                ),
                None => parse_strings_items(b@.skip(j0 as int), nn as nat) is None,
            },
        decreases nn - k,
    {
        let ghost vm0 = v@.map_values(|c: String| c@);
        let (c, j2) = match dec_string(b, j) {
            None => {
                return None;
            },
            Some(p) => p,
        };
        let ghost cm = c@;
        v.push(c);
        proof {
            assert(v@.map_values(|c: String| c@) =~= vm0.push(cm));
            match parse_strings_items(b@.skip(j2 as int), (nn - k - 1) as nat) {
                Some((m, rest)) => {
                    assert(vm0.push(cm) + m =~= vm0 + (seq![cm] + m));
                },
                None => {},
            }
        }
        j = j2;
        k += 1;
    }
    proof {
        assert(v@.map_values(|c: String| c@) + Seq::<Seq<char>>::empty() =~= v@.map_values(|c: String| c@));
    }
    Some((v, j))
}

/// Reads a paragraph list from a position in the stream.
fn dec_paragraphs(b: &Vec<u8>, i: usize) -> (r: Option<(Vec<(Option<String>, Vec<ParagraphContent>)>, usize)>)
    requires
        i <= b@.len(),
    ensures
        match (r, parse_paragraphs(b@.skip(i as int))) {
            (Some((v, j)), Some((m, rest))) => v@.map_values(|c: (Option<String>, Vec<ParagraphContent>)| paragraph_model(c)) == m && i < j <= b@.len() && rest
                == b@.skip(j as int),
            (None, None) => true,
            _ => false,
        },
{
    let (n, j0) = match dec_nat(b, i) {
        None => {
            return None;
        },
        Some(p) => p,
    };
    if n > usize::MAX as u128 {
        return None;
    }
    let nn = n as usize;
    let mut v: Vec<(Option<String>, Vec<ParagraphContent>)> = Vec::new();
    let mut j: usize = j0;
    let mut k: usize = 0;
    proof {
        assert(v@.map_values(|c: (Option<String>, Vec<ParagraphContent>)| paragraph_model(c)) =~= Seq::<ParaModel>::empty());
    }
    while k < nn
        invariant
            k <= nn,
            i < j <= b@.len(),
            i < j0 <= b@.len(),
            parse_nat(b@.skip(i as int)) == Some((nn as u128, b@.skip(j0 as int))),
            match parse_paragraphs_items(b@.skip(j as int), (nn - k) as nat) {
                Some((m, rest)) => parse_paragraphs_items(b@.skip(j0 as int), nn as nat) == Some(
                    (v@.map_values(|c: (Option<String>, Vec<ParagraphContent>)| paragraph_model(c)) + m, rest),
                ),
                None => parse_paragraphs_items(b@.skip(j0 as int), nn as nat) is None,
            },
        decreases nn - k,
    {
        let ghost vm0 = v@.map_values(|c: (Option<String>, Vec<ParagraphContent>)| paragraph_model(c));
        let (c, j2) = match dec_paragraph(b, j) {
            None => {
                return None;
            },
            Some(p) => p,
        };
        let ghost cm = paragraph_model(c);
        v.push(c);
        proof {
            assert(v@.map_values(|c: (Option<String>, Vec<ParagraphContent>)| paragraph_model(c)) =~= vm0.push(cm));
            match parse_paragraphs_items(b@.skip(j2 as int), (nn - k - 1) as nat) {
                Some((m, rest)) => {
                    assert(vm0.push(cm) + m =~= vm0 + (seq![cm] + m));
                },
                None => {},
            }
        }
        j = j2;
        k += 1;
    }
    proof {
        assert(v@.map_values(|c: (Option<String>, Vec<ParagraphContent>)| paragraph_model(c)) + Seq::<ParaModel>::empty() =~= v@.map_values(|c: (Option<String>, Vec<ParagraphContent>)| paragraph_model(c)));
    }
    Some((v, j))
}

/// Reads a download entry list from a position in the stream.
fn dec_files(b: &Vec<u8>, i: usize) -> (r: Option<(Vec<(String, (String, Option<u128>))>, usize)>)
    requires
        i <= b@.len(),
    ensures
        match (r, parse_files(b@.skip(i as int))) {
            (Some((v, j)), Some((m, rest))) => v@.map_values(|c: (String, (String, Option<u128>))| crate::record::file_model(c)) == m && i < j <= b@.len() && rest
                == b@.skip(j as int),
            (None, None) => true,
            _ => false,
        },
{
    let (n, j0) = match dec_nat(b, i) {
        None => {
            return None;
        },
        Some(p) => p,
    };
    if n > usize::MAX as u128 {
        return None;
    }
    let nn = n as usize;
    let mut v: Vec<(String, (String, Option<u128>))> = Vec::new();
    let mut j: usize = j0;
    let mut k: usize = 0;
    proof {
        assert(v@.map_values(|c: (String, (String, Option<u128>))| crate::record::file_model(c)) =~= Seq::<FileEntryModel>::empty());
    }
    while k < nn
        invariant
            k <= nn,
            i < j <= b@.len(),
            i < j0 <= b@.len(),
            parse_nat(b@.skip(i as int)) == Some((nn as u128, b@.skip(j0 as int))),
            match parse_files_items(b@.skip(j as int), (nn - k) as nat) {
                Some((m, rest)) => parse_files_items(b@.skip(j0 as int), nn as nat) == Some(
                    (v@.map_values(|c: (String, (String, Option<u128>))| crate::record::file_model(c)) + m, rest),
                ),
                None => parse_files_items(b@.skip(j0 as int), nn as nat) is None,
            },
        decreases nn - k,
    {
        let ghost vm0 = v@.map_values(|c: (String, (String, Option<u128>))| crate::record::file_model(c));
        let (c, j2) = match dec_file(b, j) {
            None => {
                return None;
            },
            Some(p) => p,
        };
        let ghost cm = crate::record::file_model(c);
        v.push(c);
        proof {
            assert(v@.map_values(|c: (String, (String, Option<u128>))| crate::record::file_model(c)) =~= vm0.push(cm));
            match parse_files_items(b@.skip(j2 as int), (nn - k - 1) as nat) {
                Some((m, rest)) => {
                    assert(vm0.push(cm) + m =~= vm0 + (seq![cm] + m));
                },
                None => {},
            }
        }
        j = j2;
        k += 1;
    }
    proof {
        assert(v@.map_values(|c: (String, (String, Option<u128>))| crate::record::file_model(c)) + Seq::<FileEntryModel>::empty() =~= v@.map_values(|c: (String, (String, Option<u128>))| crate::record::file_model(c)));
    }
    Some((v, j))
}

/// Reads a side-channel list from a position in the stream.
fn dec_misc(b: &Vec<u8>, i: usize) -> (r: Option<(Vec<(String, String)>, usize)>)
    requires
        i <= b@.len(),
    ensures
        match (r, parse_misc(b@.skip(i as int))) {
            (Some((v, j)), Some((m, rest))) => v@.map_values(|c: (String, String)| (c.0@, c.1@)) == m && i < j <= b@.len() && rest
                == b@.skip(j as int),
            (None, None) => true,
            _ => false,
        },
{
    let (n, j0) = match dec_nat(b, i) {
        None => {
            return None;
        },
        Some(p) => p,
    };
    if n > usize::MAX as u128 {
        return None;
    }
    let nn = n as usize;
    let mut v: Vec<(String, String)> = Vec::new();
    let mut j: usize = j0;
    let mut k: usize = 0;
    proof {
        assert(v@.map_values(|c: (String, String)| (c.0@, c.1@)) =~= Seq::<MiscModel>::empty());
    }
    while k < nn
        invariant
            k <= nn,
            i < j <= b@.len(),
            i < j0 <= b@.len(),
            parse_nat(b@.skip(i as int)) == Some((nn as u128, b@.skip(j0 as int))),
            match parse_misc_items(b@.skip(j as int), (nn - k) as nat) {
                Some((m, rest)) => parse_misc_items(b@.skip(j0 as int), nn as nat) == Some(
                    (v@.map_values(|c: (String, String)| (c.0@, c.1@)) + m, rest),
                ),
                None => parse_misc_items(b@.skip(j0 as int), nn as nat) is None,
            },
        decreases nn - k,
    {
        let ghost vm0 = v@.map_values(|c: (String, String)| (c.0@, c.1@));
        let (c, j2) = match dec_misc_entry(b, j) {
            None => {
                return None;
            },
            Some(p) => p,
        };
        let ghost cm = (c.0@, c.1@);
        v.push(c);
        proof {
            assert(v@.map_values(|c: (String, String)| (c.0@, c.1@)) =~= vm0.push(cm));
            match parse_misc_items(b@.skip(j2 as int), (nn - k - 1) as nat) {
                Some((m, rest)) => {
                    assert(vm0.push(cm) + m =~= vm0 + (seq![cm] + m));
                },
                None => {},
            }
        }
        j = j2;
        k += 1;
    }
    proof {
        assert(v@.map_values(|c: (String, String)| (c.0@, c.1@)) + Seq::<MiscModel>::empty() =~= v@.map_values(|c: (String, String)| (c.0@, c.1@)));
    }
    Some((v, j))
}

/// Reads one comment's own data from a position in the stream.
fn dec_comment_data(b: &Vec<u8>, i: usize) -> (r: Option<(Comment, usize)>)
    requires
        i <= b@.len(),
    ensures
        match (r, parse_comment_data(b@.skip(i as int))) {
            (Some((v, j)), Some((m, rest))) => comment_model(v) == m && i < j <= b@.len() && rest
                == b@.skip(j as int),
            (None, None) => true,
            _ => false,
        },
{
    let (av, j1) = match dec_string(b, i) {
        None => {
            return None;
        },
        Some(p) => p,
    };
    let (au, j2) = match dec_string(b, j1) {
        None => {
            return None;
        },
        Some(p) => p,
    };
    let (d, j3) = match dec_datetime(b, j2) {
        None => {
            return None;
        },
        Some(p) => p,
    };
    let (cs, j4) = match dec_contents(b, j3) {
        None => {
            return None;
        },
        Some(p) => p,
    };
    let c = Comment { user_avatar: av, author: au, date: d, content: cs, replies: Vec::new() };
    proof {
        assert(comments_model(c.replies@) =~= Seq::<CommentModel>::empty());
    }
    Some((c, j4))
}

/// Reads a comment forest from a position in the stream, rebuilding the
/// reply tree with the stack discipline as the events arrive.
#[verifier::rlimit(100)]
fn dec_comments(b: &Vec<u8>, i: usize) -> (r: Option<(Vec<Comment>, usize)>)
    requires
        i <= b@.len(),
    ensures
        match (r, parse_comments(b@.skip(i as int))) {
            (Some((v, j)), Some((m, rest))) => comments_model(v@) == m && i < j <= b@.len()
                && rest == b@.skip(j as int),
            (None, None) => true,
            _ => false,
        },
{
    let (n, j0) = match dec_nat(b, i) {
        None => {
            return None;
        },
        Some(p) => p,
    };
    if n > usize::MAX as u128 {
        return None;
    }
    let nn = n as usize;
    let mut roots: Vec<Comment> = Vec::new();
    let mut stack: Vec<Comment> = Vec::new();
    let mut j: usize = j0;
    let mut k: usize = 0;
    proof {
        assert(comments_model(roots@) =~= Seq::<CommentModel>::empty());
        assert(comments_model(stack@) =~= Seq::<CommentModel>::empty());
    }
    while k < nn
        invariant
            k <= nn,
            i < j <= b@.len(),
            i < j0 <= b@.len(),
            parse_nat(b@.skip(i as int)) == Some((nn as u128, b@.skip(j0 as int))),
            match parse_build(
                b@.skip(j as int),
                (nn - k) as nat,
                comments_model(roots@),
                comments_model(stack@),
            ) {
                Some((pair, rest)) => parse_build(
                    b@.skip(j0 as int),
                    nn as nat,
                    Seq::empty(),
                    Seq::empty(),
                ) == Some((pair, rest)),
                None => parse_build(
                    b@.skip(j0 as int),
                    nn as nat,
                    Seq::empty(),
                    Seq::empty(),
                ) is None,
            },
        decreases nn - k,
    {
        let (tag, j1) = match dec_nat(b, j) {
            None => {
                return None;
            },
            Some(p) => p,
        };
        if tag == 0 {
            let (c, j2) = match dec_comment_data(b, j1) {
                None => {
                    return None;
                },
                Some(p) => p,
            };
            let ghost s0 = stack@;
            let ghost cg = c;
            stack.push(c);
            proof {
                crate::extract::lemma_comments_model_push(s0, cg);
            }
            j = j2;
        } else if tag == 1 {
            crate::extract::attach_open(&mut roots, &mut stack);
            j = j1;
        } else {
            return None;
        }
        k += 1;
    }
    let forest = crate::extract::flush_open(roots, stack);
    Some((forest, j))
}

/// Reads one record from a position in the stream.
#[verifier::rlimit(100)]
fn dec_record(b: &Vec<u8>, i: usize) -> (r: Option<(GameTextInformation, usize)>)
    requires
        i <= b@.len(),
    ensures
        match (r, parse_record(b@.skip(i as int))) {
            (Some((v, j)), Some((m, rest))) => v@ == m && i < j <= b@.len() && rest == b@.skip(
                j as int,
            ),
            (None, None) => true,
            _ => false,
        },
{
    let (id, j1) = match dec_nat(b, i) {
        None => {
            return None;
        },
        Some(p) => p,
    };
    if id > u64::MAX as u128 {
        return None;
    }
    let (website, j2) = match dec_string(b, j1) {
        None => {
            return None;
        },
        Some(p) => p,
    };
    let (name, j3) = match dec_string(b, j2) {
        None => {
            return None;
        },
        Some(p) => p,
    };
    let (tags, j4) = match dec_strings(b, j3) {
        None => {
            return None;
        },
        Some(p) => p,
    };
    let (published, j5) = match dec_datetime(b, j4) {
        None => {
            return None;
        },
        Some(p) => p,
    };
    let (viewed, j6) = match dec_nat(b, j5) {
        None => {
            return None;
        },
        Some(p) => p,
    };
    let (paragraphs, j7) = match dec_paragraphs(b, j6) {
        None => {
            return None;
        },
        Some(p) => p,
    };
    let (misc, j8) = match dec_misc(b, j7) {
        None => {
            return None;
        },
        Some(p) => p,
    };
    let (files, j9) = match dec_files(b, j8) {
        None => {
            return None;
        },
        Some(p) => p,
    };
    let (comments, j10) = match dec_comments(b, j9) {
        None => {
            return None;
        },
        Some(p) => p,
    };
    let rec = GameTextInformation {
        id: id as u64,
        website,
        name,
        tags,
        published,
        viewed,
        paragraphs,
        miscellaneous: misc,
        files,
        comments,
    };
    Some((rec, j10))
}

/// Decodes the archive's text half back into its record list. Succeeds
/// exactly when the bytes are one whole well-formed record list.
pub fn decode_records(b: &Vec<u8>) -> (r: Result<Vec<GameTextInformation>, String>)
    ensures
        match (r, parse_records(b@)) {
            (Ok(v), Some(m)) => records_model(v@) == m,
            (Err(_), None) => true,
            _ => false,
        },
{
    proof {
        assert(b@.skip(0) =~= b@);
    }
    let err = "Unable to decode archive records";
    let (n, j0) = match dec_nat(b, 0) {
        None => {
            return Err(err.to_owned());
        },
        Some(p) => p,
    };
    if n > usize::MAX as u128 {
        return Err(err.to_owned());
    }
    let nn = n as usize;
    let mut v: Vec<GameTextInformation> = Vec::new();
    let mut j: usize = j0;
    let mut k: usize = 0;
    proof {
        assert(records_model(v@) =~= Seq::<RecordModel>::empty());
    }
    while k < nn
        invariant
            k <= nn,
            j <= b@.len(),
            j0 <= b@.len(),
            parse_nat(b@) == Some((nn as u128, b@.skip(j0 as int))),
            match parse_records_items(b@.skip(j as int), (nn - k) as nat) {
                Some((m, rest)) => parse_records_items(b@.skip(j0 as int), nn as nat) == Some(
                    (records_model(v@) + m, rest),
                ),
                None => parse_records_items(b@.skip(j0 as int), nn as nat) is None,
            },
        decreases nn - k,
    {
        let ghost vm0 = records_model(v@);
        let (c, j2) = match dec_record(b, j) {
            None => {
                return Err(err.to_owned());
            },
            Some(p) => p,
        };
        let ghost cm = c@;
        v.push(c);
        proof {
            assert(records_model(v@) =~= vm0.push(cm));
            match parse_records_items(b@.skip(j2 as int), (nn - k - 1) as nat) {
                Some((m, rest)) => {
                    assert(vm0.push(cm) + m =~= vm0 + (seq![cm] + m));
                },
                None => {},
            }
        }
        j = j2;
        k += 1;
    }
    if j != b.len() {
        proof {
            match parse_records_items(b@.skip(j as int), 0) {
                Some((m, rest)) => {
                    assert(rest.len() == b@.len() - j);
                },
                None => {},
            }
        }
        return Err(err.to_owned());
    }
    proof {
        assert(records_model(v@) + Seq::<RecordModel>::empty() =~= records_model(v@));
        assert(b@.skip(b@.len() as int).len() == 0);
    }
    Ok(v)
}

/// Whether all entry keys are distinct.
fn blobs_unique(entries: &Vec<(String, Vec<u8>)>) -> (r: bool)
    ensures
        r == forall|a: int, c: int|
            0 <= a < c < entries@.len() ==> (#[trigger] entries@[a]).0@ != (
            #[trigger] entries@[c]).0@,
{
    let mut a: usize = 0;
    while a < entries.len()
        invariant
            a <= entries@.len(),
            forall|x: int, y: int|
                0 <= x < y < entries@.len() && x < a ==> (#[trigger] entries@[x]).0@ != (
                #[trigger] entries@[y]).0@,
        decreases entries@.len() - a,
    {
        let mut c: usize = a + 1;
        while c < entries.len()
            invariant
                a < c || c == a + 1,
                a < entries@.len(),
                c <= entries@.len(),
                a + 1 <= c,
                forall|y: int| a < y < c ==> (#[trigger] entries@[y]).0@ != entries@[a as int].0@,
                forall|x: int, y: int|
                    0 <= x < y < entries@.len() && x < a ==> (#[trigger] entries@[x]).0@ != (
                    #[trigger] entries@[y]).0@,
            decreases entries@.len() - c,
        {
            if crate::text::str_eq(entries[a].0.as_str(), entries[c].0.as_str()) {
                return false;
            }
            c += 1;
        }
        a += 1;
    }
    true
}

/// Decodes the archive's binary half back into its blob store. Succeeds
/// exactly when the bytes are one whole well-formed store with distinct
/// locators.
pub fn decode_blobs(b: &Vec<u8>) -> (r: Result<GameBinaryDatabase, String>)
    ensures
        match (r, parse_blobs(b@)) {
            (Ok(db), Some(m)) => db.entries() == m && db.wf(),
            (Err(_), Some(m)) => exists|a: int, c: int|
                0 <= a < c < m.len() && (#[trigger] m[a]).0 == (#[trigger] m[c]).0,
            (Err(_), None) => true,
            _ => false,
        },
{
    proof {
        assert(b@.skip(0) =~= b@);
    }
    let err = "Unable to decode archive blobs";
    let (n, j0) = match dec_nat(b, 0) {
        None => {
            return Err(err.to_owned());
        },
        Some(p) => p,
    };
    if n > usize::MAX as u128 {
        return Err(err.to_owned());
    }
    let nn = n as usize;
    let mut v: Vec<(String, Vec<u8>)> = Vec::new();
    let mut j: usize = j0;
    let mut k: usize = 0;
    let ghost entries_model = |vv: Seq<(String, Vec<u8>)>|
        vv.map_values(|e: (String, Vec<u8>)| (e.0@, e.1@));
    proof {
        assert(entries_model(v@) =~= Seq::<(Seq<char>, Seq<u8>)>::empty());
    }
    while k < nn
        invariant
            k <= nn,
            j <= b@.len(),
            j0 <= b@.len(),
            entries_model == (|vv: Seq<(String, Vec<u8>)>|
                vv.map_values(|e: (String, Vec<u8>)| (e.0@, e.1@))),
            parse_nat(b@) == Some((nn as u128, b@.skip(j0 as int))),
            match parse_blobs_items(b@.skip(j as int), (nn - k) as nat) {
                Some((m, rest)) => parse_blobs_items(b@.skip(j0 as int), nn as nat) == Some(
                    (entries_model(v@) + m, rest),
                ),
                None => parse_blobs_items(b@.skip(j0 as int), nn as nat) is None,
            },
        decreases nn - k,
    {
        let ghost vm0 = entries_model(v@);
        let (key, j1) = match dec_string(b, j) {
            None => {
                return Err(err.to_owned());
            },
            Some(p) => p,
        };
        let (bytes, j2) = match dec_bytes(b, j1) {
            None => {
                return Err(err.to_owned());
            },
            Some(p) => p,
        };
        let ghost cm = (key@, bytes@);
        v.push((key, bytes));
        proof {
            assert(entries_model(v@) =~= vm0.push(cm));
            match parse_blobs_items(b@.skip(j2 as int), (nn - k - 1) as nat) {
                Some((m, rest)) => {
                    assert(vm0.push(cm) + m =~= vm0 + (seq![cm] + m));
                },
                None => {},
            }
        }
        j = j2;
        k += 1;
    }
    if j != b.len() {
        proof {
            match parse_blobs_items(b@.skip(j as int), 0) {
                Some((m, rest)) => {
                    assert(rest.len() == b@.len() - j);
                },
                None => {},
            }
        }
        return Err(err.to_owned());
    }
    proof {
        assert(entries_model(v@) + Seq::<(Seq<char>, Seq<u8>)>::empty() =~= entries_model(v@));
        assert(b@.skip(b@.len() as int).len() == 0);
    }
    proof {
        assert(parse_blobs(b@) == Some(entries_model(v@)));
    }
    if !blobs_unique(&v) {
        let r = Err("Duplicate blob locator".to_owned());
        proof {
            let m = entries_model(v@);
            assert(exists|a: int, c: int|
                0 <= a < c < v@.len() && (#[trigger] v@[a]).0@ == (#[trigger] v@[c]).0@);
            let (a, c) = choose|a: int, c: int|
                0 <= a < c < v@.len() && (#[trigger] v@[a]).0@ == (#[trigger] v@[c]).0@;
            assert(m[a] == (v@[a].0@, v@[a].1@));
            assert(m[c] == (v@[c].0@, v@[c].1@));
            assert(0 <= a < c < m.len() && m[a].0 == m[c].0);
            let mm = parse_blobs(b@).unwrap();
            assert(mm == m);
            assert(0 <= a < c < mm.len() && (#[trigger] mm[a]).0 == (#[trigger] mm[c]).0);
            assert(exists|a2: int, c2: int|
                0 <= a2 < c2 < mm.len() && (#[trigger] mm[a2]).0 == (#[trigger] mm[c2]).0);
        }
        return r;
    }
    let db = GameBinaryDatabase(v);
    Ok(db)
}

} // verus!
