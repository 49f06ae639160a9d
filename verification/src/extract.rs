//! The extraction engine: a state machine that consumes one markup token
//! at a time and builds a structured record — tags, name, publish date,
//! view count, paragraphs, screenshots, the download link, and the nested
//! comment tree, the last via an explicit stack discipline rather than
//! recursive token consumption.

use vstd::prelude::*;
use crate::datetime::{spec_split_once, split_once, spec_num_field, SimpleDateTime};
use crate::record::{
    comment_model, comments_model, opt_text, paragraph_model, Comment, CommentModel,
    ContentModel, GameTextInformation, ParagraphContent, RecordModel,
};
use crate::text::{parse_dec_u128, parse_dec_u32, remove_char, remove_char_spec, split_all,
    split_all_spec, strip_suffix_all, strip_suffix_all_spec, trim, trim_spec, str_eq};
use crate::token::{attr_model, attr_value, attr_value_spec, attrs_are1, attrs_match1,
    attr_at_is, attr_at_matches, AttrsModel, HtmlToken, TokenModel};

verus! {

/// The catalog site's base address.
pub const WEBSITE_LINK: &'static str = "https://www.kkgal.com";

/// One decimal field of a date, or the two errors a field can raise:
/// a missing piece or an unreadable number.
pub open spec fn spec_date_field(
    piece: Option<Seq<char>>,
    missing: Seq<char>,
    bad: Seq<char>,
) -> Result<u32, Seq<char>> {
    match piece {
        None => Err(missing),
        Some(s) => match spec_num_field(s) {
            Some(v) => Ok(v),
            None => Err(bad),
        },
    }
}

fn date_field(piece: Option<String>, missing: &str, bad: &str) -> (r: Result<u32, String>)
    ensures
        match (r, spec_date_field(opt_text(piece), missing@, bad@)) {
            (Ok(v), Ok(w)) => v == w,
            (Err(e), Err(w)) => e@ == w,
            _ => false,
        },
{
    match piece {
        None => Err(missing.to_owned()),
        Some(s) => match parse_dec_u32(s.as_str()) {
            Some(v) => Ok(v),
            None => Err(bad.to_owned()),
        },
    }
}

/// Reads a `year-month-day` date, as the publish line carries it; the
/// time of day is midnight.
#[verifier::opaque]
pub open spec fn spec_parse_dash_date(s: Seq<char>) -> Result<SimpleDateTime, Seq<char>> {
    let t = trim_spec(s);
    let (y_txt, rest1) = spec_split_once(t, '-');
    let (m_txt, rest2) = match rest1 {
        Some(r1) => spec_split_once(r1, '-'),
        None => (Seq::empty(), None),
    };
    match spec_date_field(Some(y_txt), "Unable to parse year"@, "Error while parsing year"@) {
        Err(e) => Err(e),
        Ok(y) => match spec_date_field(
            match rest1 {
                Some(_) => Some(m_txt),
                None => None,
            },
            "Unable to parse month"@,
            "Error while parsing month"@,
        ) {
            Err(e) => Err(e),
            Ok(m) => match spec_date_field(
                rest2,
                "Unable to parse day"@,
                "Error while parsing day"@,
            ) {
                Err(e) => Err(e),
                Ok(d) => if crate::datetime::spec_fields_valid(
                    y as nat,
                    m as nat,
                    d as nat,
                    0,
                    0,
                    0,
                ) {
                    Ok(
                        SimpleDateTime {
                            year: y,
                            month: m as u8,
                            day: d as u8,
                            hour: 0,
                            minute: 0,
                            second: 0,
                        },
                    )
                } else {
                    Err("Error while parsing date"@)
                },
            },
        },
    }
}

/// Reads a `year-month-day` date.
pub fn parse_dash_date(s: &str) -> (r: Result<SimpleDateTime, String>)
    ensures
        match (r, spec_parse_dash_date(s@)) {
            (Ok(v), Ok(w)) => v == w,
            (Err(e), Err(w)) => e@ == w,
            _ => false,
        },
{
    proof {
        reveal(spec_parse_dash_date);
    }
    let t = trim(s);
    let (y_txt, rest1) = split_once(t.as_str(), '-');
    let (m_txt, rest2) = match &rest1 {
        Some(r1) => {
            let (a, b) = split_once(r1.as_str(), '-');
            (a, b)
        },
        None => (String::new(), None),
    };
    let y = match date_field(Some(y_txt), "Unable to parse year", "Error while parsing year") {
        Ok(v) => v,
        Err(e) => {
            return Err(e);
        },
    };
    let m_piece = match &rest1 {
        Some(_) => Some(m_txt),
        None => None,
    };
    let m = match date_field(m_piece, "Unable to parse month", "Error while parsing month") {
        Ok(v) => v,
        Err(e) => {
            return Err(e);
        },
    };
    let d = match date_field(rest2, "Unable to parse day", "Error while parsing day") {
        Ok(v) => v,
        Err(e) => {
            return Err(e);
        },
    };
    match crate::datetime::try_date_time(y, m, d, 0, 0, 0) {
        Some(t) => Ok(t),
        None => Err("Error while parsing date".to_owned()),
    }
}

/// Reads a view counter: trimmed, a trailing degree mark dropped, commas
/// removed, then a decimal number.
#[verifier::opaque]
pub open spec fn spec_parse_viewed(s: Seq<char>) -> Result<u128, Seq<char>> {
    let t = remove_char_spec(
        trim_spec(strip_suffix_all_spec(trim_spec(s), "\u{2103}"@)),
        ',',
    );
    if t.len() >= 1 && crate::text::all_dec_digits(t) && crate::text::dec_val(t) <= u128::MAX {
        Ok(crate::text::dec_val(t) as u128)
    } else {
        Err("Error while parsing viewed"@)
    }
}

/// Reads a view counter.
pub fn parse_viewed(s: &str) -> (r: Result<u128, String>)
    ensures
        match (r, spec_parse_viewed(s@)) {
            (Ok(v), Ok(w)) => v == w,
            (Err(e), Err(w)) => e@ == w,
            _ => false,
        },
{
    proof {
        reveal(spec_parse_viewed);
        reveal_strlit("\u{2103}");
    }
    let t0 = trim(s);
    let t1 = strip_suffix_all(t0.as_str(), "\u{2103}");
    let t2 = trim(t1.as_str());
    let t = remove_char(t2.as_str(), ',');
    match parse_dec_u128(t.as_str()) {
        Some(v) => Ok(v),
        None => Err("Error while parsing viewed".to_owned()),
    }
}

/// Reads the comment timestamp form `YYYY-MM-DDTHH:MM:SS+00:00`.
#[verifier::opaque]
pub open spec fn spec_parse_iso_time(s: Seq<char>) -> Result<SimpleDateTime, Seq<char>> {
    let (date_txt, time_rest) = spec_split_once(s, 'T');
    match time_rest {
        None => Err("Error while parsing time"@),
        Some(rest) => {
            let (hms_txt, zone) = spec_split_once(rest, '+');
            if zone != Some("00:00"@) {
                Err("Error while parsing time"@)
            } else {
                let (y_txt, drest1) = spec_split_once(date_txt, '-');
                let (h_txt, trest1) = spec_split_once(hms_txt, ':');
                match (drest1, trest1) {
                    (Some(d1), Some(t1)) => {
                        let (m_txt, drest2) = spec_split_once(d1, '-');
                        let (mi_txt, trest2) = spec_split_once(t1, ':');
                        match (drest2, trest2) {
                            (Some(d_txt), Some(s_txt)) => {
                                match (
                                    spec_num_field(y_txt),
                                    spec_num_field(m_txt),
                                    spec_num_field(d_txt),
                                    spec_num_field(h_txt),
                                    spec_num_field(mi_txt),
                                    spec_num_field(s_txt),
                                ) {
                                    (
                                        Some(y),
                                        Some(m),
                                        Some(d),
                                        Some(h),
                                        Some(mi),
                                        Some(sec),
                                    ) => if crate::datetime::spec_fields_valid(
                                        y as nat,
                                        m as nat,
                                        d as nat,
                                        h as nat,
                                        mi as nat,
                                        sec as nat,
                                    ) {
                                        Ok(
                                            SimpleDateTime {
                                                year: y,
                                                month: m as u8,
                                                day: d as u8,
                                                hour: h as u8,
                                                minute: mi as u8,
                                                second: sec as u8,
                                            },
                                        )
                                    } else {
                                        Err("Error while parsing time"@)
                                    },
                                    _ => Err("Error while parsing time"@),
                                }
                            },
                            _ => Err("Error while parsing time"@),
                        }
                    },
                    _ => Err("Error while parsing time"@),
                }
            }
        },
    }
}

/// Reads the comment timestamp form.
#[verifier::rlimit(80)]
pub fn parse_iso_time(s: &str) -> (r: Result<SimpleDateTime, String>)
    ensures
        match (r, spec_parse_iso_time(s@)) {
            (Ok(v), Ok(w)) => v == w,
            (Err(e), Err(w)) => e@ == w,
            _ => false,
        },
{
    proof {
        reveal(spec_parse_iso_time);
    }
    let err = "Error while parsing time";
    let (date_txt, time_rest) = split_once(s, 'T');
    let rest = match time_rest {
        None => {
            return Err(err.to_owned());
        },
        Some(r) => r,
    };
    let (hms_txt, zone) = split_once(rest.as_str(), '+');
    let zone_ok = match &zone {
        Some(z) => str_eq(z.as_str(), "00:00"),
        None => false,
    };
    if !zone_ok {
        proof {
            assert(opt_text(zone) != Some("00:00"@));
        }
        return Err(err.to_owned());
    }
    let (y_txt, drest1) = split_once(date_txt.as_str(), '-');
    let (h_txt, trest1) = split_once(hms_txt.as_str(), ':');
    let (d1, t1) = match (drest1, trest1) {
        (Some(a), Some(b)) => (a, b),
        _ => {
            return Err(err.to_owned());
        },
    };
    let (m_txt, drest2) = split_once(d1.as_str(), '-');
    let (mi_txt, trest2) = split_once(t1.as_str(), ':');
    let (d_txt, s_txt) = match (drest2, trest2) {
        (Some(a), Some(b)) => (a, b),
        _ => {
            return Err(err.to_owned());
        },
    };
    let fields = (
        parse_dec_u32(y_txt.as_str()),
        parse_dec_u32(m_txt.as_str()),
        parse_dec_u32(d_txt.as_str()),
        parse_dec_u32(h_txt.as_str()),
        parse_dec_u32(mi_txt.as_str()),
        parse_dec_u32(s_txt.as_str()),
    );
    match fields {
        (Some(y), Some(m), Some(d), Some(h), Some(mi), Some(sec)) => {
            match crate::datetime::try_date_time(y, m, d, h, mi, sec) {
                Some(t) => Ok(t),
                None => Err(err.to_owned()),
            }
        },
        _ => Err(err.to_owned()),
    }
}

/// The tag list read from the keywords attribute: split on `", "`, the
/// trailing empty entry dropped.
pub open spec fn spec_tags_from_keywords(v: Seq<char>) -> Seq<Seq<char>> {
    split_all_spec(v, ", "@).drop_last()
}

/// Splits a keywords attribute into tags.
pub fn tags_from_keywords(v: &str) -> (r: Vec<String>)
    ensures
        r@.map_values(|t: String| t@) == spec_tags_from_keywords(v@),
{
    proof {
        reveal_strlit(", ");
    }
    let mut parts = split_all(v, ", ");
    proof {
        crate::text::lemma_split_all_len(v@, ", "@);
    }
    let _last = parts.pop();
    proof {
        assert(parts@.map_values(|t: String| t@) =~= spec_tags_from_keywords(v@));
    }
    parts
}

/// The text between the first and the last single quote of a link
/// attribute, as the download button carries it.
#[verifier::opaque]
pub open spec fn spec_link_between_quotes(s: Seq<char>) -> Result<Seq<char>, Seq<char>> {
    match crate::text::find_char_spec(s, '\'') {
        None => Err("Unable to find starting position for download link"@),
        Some(a) => match crate::text::rfind_char_spec(s, '\'') {
            Some(b) => if b <= a {
                Err("Unable to find ending position for download link"@)
            } else {
                Ok(s.subrange(a + 1, b))
            },
            None => Err("Unable to find ending position for download link"@),
        },
    }
}

/// Extracts the text between the first and the last single quote.
pub fn link_between_quotes(s: &str) -> (r: Result<String, String>)
    ensures
        match (r, spec_link_between_quotes(s@)) {
            (Ok(v), Ok(w)) => v@ == w,
            (Err(e), Err(w)) => e@ == w,
            _ => false,
        },
{
    proof {
        reveal(spec_link_between_quotes);
    }
    let a = match crate::text::find_char(s, '\'') {
        None => {
            proof {
                assert(crate::text::find_char_spec(s@, '\'') is None);
            }
            return Err("Unable to find starting position for download link".to_owned());
        },
        Some(a) => a,
    };
    proof {
        crate::text::lemma_find_char_unique(s@, '\'', a as int);
    }
    let b = match crate::text::rfind_char(s, '\'') {
        None => {
            proof {
                assert(false);
            }
            return Err(String::new());
        },
        Some(b) => b,
    };
    proof {
        crate::text::lemma_rfind_char_unique(s@, '\'', b as int);
    }
    if b <= a {
        Err("Unable to find ending position for download link".to_owned())
    } else {
        Ok(s.substring_char(a + 1, b).to_owned())
    }
}

/// Where the extraction cursor stands: the top level, one of the local
/// sub-routines a recognized anchor switched into, or a failure that
/// absorbs the rest of the stream.
pub enum ExtractMode {
    Top,
    WaitName,
    WaitDate,
    WaitViewed,
    WaitSpanTitle,
    InTitledBody(String, String),
    InPlainBody(String),
    WaitItem,
    WaitAvatar,
    WaitAuthorB(String),
    WaitAuthorText(String),
    WaitTime(String, String),
    WaitContentDiv(String, String, SimpleDateTime),
    InCommentContent(String, String, SimpleDateTime, String),
    Failed(String),
}

/// The model of the extraction cursor's position.
pub enum ModeModel {
    Top,
    WaitName,
    WaitDate,
    WaitViewed,
    WaitSpanTitle,
    InTitledBody(Seq<char>, Seq<char>),
    InPlainBody(Seq<char>),
    WaitItem,
    WaitAvatar,
    WaitAuthorB(Seq<char>),
    WaitAuthorText(Seq<char>),
    WaitTime(Seq<char>, Seq<char>),
    WaitContentDiv(Seq<char>, Seq<char>, SimpleDateTime),
    InCommentContent(Seq<char>, Seq<char>, SimpleDateTime, Seq<char>),
    Failed(Seq<char>),
}

impl View for ExtractMode {
    type V = ModeModel;

    open spec fn view(&self) -> ModeModel {
        match self {
            ExtractMode::Top => ModeModel::Top,
            ExtractMode::WaitName => ModeModel::WaitName,
            ExtractMode::WaitDate => ModeModel::WaitDate,
            ExtractMode::WaitViewed => ModeModel::WaitViewed,
            ExtractMode::WaitSpanTitle => ModeModel::WaitSpanTitle,
            ExtractMode::InTitledBody(t, a) => ModeModel::InTitledBody(t@, a@),
            ExtractMode::InPlainBody(a) => ModeModel::InPlainBody(a@),
            ExtractMode::WaitItem => ModeModel::WaitItem,
            ExtractMode::WaitAvatar => ModeModel::WaitAvatar,
            ExtractMode::WaitAuthorB(av) => ModeModel::WaitAuthorB(av@),
            ExtractMode::WaitAuthorText(av) => ModeModel::WaitAuthorText(av@),
            ExtractMode::WaitTime(av, au) => ModeModel::WaitTime(av@, au@),
            ExtractMode::WaitContentDiv(av, au, d) => ModeModel::WaitContentDiv(av@, au@, *d),
            ExtractMode::InCommentContent(av, au, d, a) => ModeModel::InCommentContent(
                av@,
                au@,
                *d,
                a@,
            ),
            ExtractMode::Failed(m) => ModeModel::Failed(m@),
        }
    }
}

/// The extraction engine's full state: the record under construction, the
/// screenshots gathered so far, the comment forest (finished roots and the
/// stack of still-open comments), and the cursor's position.
pub struct ExtractState {
    pub record: GameTextInformation,
    pub screenshots: Vec<ParagraphContent>,
    pub roots: Vec<Comment>,
    pub stack: Vec<Comment>,
    pub mode: ExtractMode,
}

/// The model of the extraction engine's state.
pub struct StateModel {
    pub record: RecordModel,
    pub screenshots: Seq<ContentModel>,
    pub roots: Seq<CommentModel>,
    pub stack: Seq<CommentModel>,
    pub mode: ModeModel,
}

impl View for ExtractState {
    type V = StateModel;

    open spec fn view(&self) -> StateModel {
        StateModel {
            record: self.record@,
            screenshots: self.screenshots@.map_values(|c: ParagraphContent| c@),
            roots: comments_model(self.roots@),
            stack: comments_model(self.stack@),
            mode: self.mode@,
        }
    }
}

/// A failed state: the message is kept and the rest of the stream is
/// ignored.
pub open spec fn fail_state(st: StateModel, m: Seq<char>) -> StateModel {
    StateModel { mode: ModeModel::Failed(m), ..st }
}

/// Closing one open comment: the deepest open comment becomes the last
/// reply of the one above it, or a finished root if none is open above.
/// A stray close with nothing open changes nothing.
pub open spec fn attach_model(roots: Seq<CommentModel>, stack: Seq<CommentModel>) -> (
    Seq<CommentModel>,
    Seq<CommentModel>,
) {
    if stack.len() == 0 {
        (roots, stack)
    } else if stack.len() == 1 {
        (roots.push(stack.last()), Seq::empty())
    } else {
        let pi = stack.len() - 2;
        let parent = stack[pi];
        (
            roots,
            stack.drop_last().update(
                pi,
                CommentModel { replies: parent.replies.push(stack.last()), ..parent },
            ),
        )
    }
}

/// Closing every comment still open, deepest first.
pub open spec fn flush_model(roots: Seq<CommentModel>, stack: Seq<CommentModel>) -> Seq<
    CommentModel,
>
    decreases stack.len(),
{
    if stack.len() == 0 {
        roots
    } else {
        let (r2, s2) = attach_model(roots, stack);
        flush_model(r2, s2)
    }
}

/// The top-level step on a `meta` tag.
pub open spec fn spec_top_meta(st: StateModel, attrs: AttrsModel) -> StateModel {
    if attr_at_is(attrs, 1, "name"@, "keywords"@) {
        match attrs[0].1 {
            Some(v) => StateModel {
                record: RecordModel { tags: spec_tags_from_keywords(v), ..st.record },
                ..st
            },
            None => fail_state(st, "Unable to parse keywords"@),
        }
    } else {
        st
    }
}

/// The top-level step on an `a` tag.
pub open spec fn spec_top_a(st: StateModel, attrs: AttrsModel, url: Seq<char>) -> StateModel {
    if attrs_are1(attrs, "href"@, url) {
        StateModel { mode: ModeModel::WaitName, ..st }
    } else {
        st
    }
}

/// The top-level step on an `i` tag.
pub open spec fn spec_top_i(st: StateModel, attrs: AttrsModel) -> StateModel {
    if attrs_are1(attrs, "class"@, "fa fa-calendar"@) {
        StateModel { mode: ModeModel::WaitDate, ..st }
    } else if attrs_are1(attrs, "class"@, "fa fa-eye"@) {
        StateModel { mode: ModeModel::WaitViewed, ..st }
    } else {
        st
    }
}

/// The top-level step on an `img` tag.
pub open spec fn spec_top_img(st: StateModel, attrs: AttrsModel) -> StateModel {
    if attr_at_is(attrs, 0, "title"@, "\u{70b9}\u{51fb}\u{653e}\u{5927}"@) {
        if attrs.len() >= 2 && attrs[1].1 is Some {
            StateModel {
                screenshots: st.screenshots.push(ContentModel::Image(attrs[1].1.unwrap())),
                ..st
            }
        } else {
            fail_state(st, "Unable to parse image"@)
        }
    } else {
        st
    }
}

/// The top-level step on a `span` tag.
pub open spec fn spec_top_span(st: StateModel, attrs: AttrsModel) -> StateModel {
    if attrs_are1(attrs, "style"@, "font-size: 12pt;COLOR:#3399CC"@) {
        StateModel { mode: ModeModel::WaitSpanTitle, ..st }
    } else if attrs_are1(attrs, "style"@, "font-size: 11pt;"@) {
        StateModel { mode: ModeModel::InPlainBody(Seq::empty()), ..st }
    } else {
        st
    }
}

/// The top-level step on a `button` tag.
pub open spec fn spec_top_button(st: StateModel, attrs: AttrsModel) -> StateModel {
    if attr_at_is(attrs, 0, "type"@, "button"@) && attr_at_is(
        attrs,
        1,
        "class"@,
        "btn btn-danger"@,
    ) {
        if attrs.len() >= 3 && attrs[2].1 is Some {
            match spec_link_between_quotes(attrs[2].1.unwrap()) {
                Ok(link) => StateModel {
                    record: RecordModel {
                        miscellaneous: st.record.miscellaneous.push(("overall_link"@, link)),
                        ..st.record
                    },
                    ..st
                },
                Err(e) => fail_state(st, e),
            }
        } else {
            fail_state(st, "Unable to parse download link"@)
        }
    } else {
        st
    }
}

/// The top-level step on an `ol` tag.
pub open spec fn spec_top_ol(st: StateModel, attrs: AttrsModel) -> StateModel {
    if attrs_are1(attrs, "class"@, "commentlist"@) {
        StateModel { roots: Seq::empty(), stack: Seq::empty(), mode: ModeModel::WaitItem, ..st }
    } else {
        st
    }
}

/// One step of the extraction engine at the top level, on an opening tag.
pub open spec fn step_top_open(
    st: StateModel,
    name: Seq<char>,
    attrs: AttrsModel,
    url: Seq<char>,
) -> StateModel {
    if name == "meta"@ {
        spec_top_meta(st, attrs)
    } else if name == "a"@ {
        spec_top_a(st, attrs, url)
    } else if name == "i"@ {
        spec_top_i(st, attrs)
    } else if name == "img"@ {
        spec_top_img(st, attrs)
    } else if name == "span"@ {
        spec_top_span(st, attrs)
    } else if name == "button"@ {
        spec_top_button(st, attrs)
    } else if name == "ol"@ {
        spec_top_ol(st, attrs)
    } else {
        st
    }
}

/// One step while a paragraph body is accumulated; the closing tag name
/// depends on whether the paragraph is titled.
pub open spec fn spec_step_body(
    st: StateModel,
    t: TokenModel,
    title: Option<Seq<char>>,
    acc: Seq<char>,
) -> StateModel {
    let closer = if title is Some {
        "div"@
    } else {
        "span"@
    };
    let remode = |acc2: Seq<char>| match title {
        Some(ti) => ModeModel::InTitledBody(ti, acc2),
        None => ModeModel::InPlainBody(acc2),
    };
    match t {
        TokenModel::Text(s) => StateModel { mode: remode(acc + s), ..st },
        TokenModel::Open(n, _) => if n == "br"@ {
            StateModel { mode: remode(acc + "\n"@), ..st }
        } else {
            StateModel { mode: remode(acc), ..st }
        },
        TokenModel::Close(n) => if n == closer {
            StateModel {
                record: RecordModel {
                    paragraphs: st.record.paragraphs.push(
                        (title, seq![ContentModel::Text(acc)]),
                    ),
                    ..st.record
                },
                mode: ModeModel::Top,
                ..st
            }
        } else {
            StateModel { mode: remode(acc), ..st }
        },
    }
}

/// One step while the engine waits between comment items.
pub open spec fn spec_step_wait_item(st: StateModel, t: TokenModel) -> StateModel {
    match t {
        TokenModel::Open(n, _) => if n == "li"@ {
            StateModel { mode: ModeModel::WaitAvatar, ..st }
        } else {
            st
        },
        TokenModel::Close(n) => if n == "li"@ {
            let (r2, s2) = attach_model(st.roots, st.stack);
            StateModel { roots: r2, stack: s2, ..st }
        } else if n == "ol"@ {
            StateModel {
                record: RecordModel { comments: flush_model(st.roots, st.stack), ..st.record },
                roots: Seq::empty(),
                stack: Seq::empty(),
                mode: ModeModel::Top,
                ..st
            }
        } else {
            st
        },
        _ => st,
    }
}

/// One step while the engine looks for a comment's avatar.
pub open spec fn spec_step_wait_avatar(st: StateModel, t: TokenModel) -> StateModel {
    match t {
        TokenModel::Open(n, attrs) => if n == "img"@ {
            match attr_value_spec(attrs, "src"@) {
                None => fail_state(st, "Unable to find avatar"@),
                Some(None) => fail_state(st, "Unable to parse avatar"@),
                Some(Some(v)) => StateModel {
                    mode: ModeModel::WaitAuthorB("https://www.kkgal.com"@ + v),
                    ..st
                },
            }
        } else {
            st
        },
        _ => st,
    }
}

/// One step while the engine looks for a comment's timestamp.
pub open spec fn spec_step_wait_time(
    st: StateModel,
    t: TokenModel,
    av: Seq<char>,
    au: Seq<char>,
) -> StateModel {
    match t {
        TokenModel::Open(n, attrs) => if n == "time"@ {
            match attr_value_spec(attrs, "datetime"@) {
                None => fail_state(st, "Unable to parse time"@),
                Some(None) => fail_state(st, "Unable to parse time"@),
                Some(Some(v)) => match spec_parse_iso_time(v) {
                    Ok(d) => StateModel { mode: ModeModel::WaitContentDiv(av, au, d), ..st },
                    Err(e) => fail_state(st, e),
                },
            }
        } else {
            st
        },
        _ => st,
    }
}

/// One step while a comment's content is accumulated.
pub open spec fn spec_step_comment_content(
    st: StateModel,
    t: TokenModel,
    av: Seq<char>,
    au: Seq<char>,
    d: SimpleDateTime,
    acc: Seq<char>,
) -> StateModel {
    match t {
        TokenModel::Text(s) => StateModel {
            mode: ModeModel::InCommentContent(av, au, d, acc + s),
            ..st
        },
        TokenModel::Open(n, _) => if n == "br"@ {
            StateModel { mode: ModeModel::InCommentContent(av, au, d, acc + "\n"@), ..st }
        } else {
            StateModel { mode: ModeModel::InCommentContent(av, au, d, acc), ..st }
        },
        TokenModel::Close(n) => if n == "div"@ {
            StateModel {
                stack: st.stack.push(
                    CommentModel {
                        user_avatar: av,
                        author: au,
                        date: d,
                        content: seq![ContentModel::Text(acc)],
                        replies: Seq::empty(),
                    },
                ),
                mode: ModeModel::WaitItem,
                ..st
            }
        } else {
            StateModel { mode: ModeModel::InCommentContent(av, au, d, acc), ..st }
        },
    }
}

/// One step of the extraction engine: the next token moves the state.
pub open spec fn extract_step(st: StateModel, t: TokenModel, url: Seq<char>) -> StateModel {
    match st.mode {
        ModeModel::Failed(_) => st,
        ModeModel::Top => match t {
            TokenModel::Open(name, attrs) => step_top_open(st, name, attrs, url),
            _ => st,
        },
        ModeModel::WaitName => match t {
            TokenModel::Text(s) => StateModel {
                record: RecordModel { name: s, ..st.record },
                mode: ModeModel::Top,
                ..st
            },
            _ => st,
        },
        ModeModel::WaitDate => match t {
            TokenModel::Text(s) => match spec_parse_dash_date(s) {
                Ok(d) => StateModel {
                    record: RecordModel { published: d, ..st.record },
                    mode: ModeModel::Top,
                    ..st
                },
                Err(e) => fail_state(st, e),
            },
            _ => st,
        },
        ModeModel::WaitViewed => match t {
            TokenModel::Text(s) => match spec_parse_viewed(s) {
                Ok(v) => StateModel {
                    record: RecordModel { viewed: v, ..st.record },
                    mode: ModeModel::Top,
                    ..st
                },
                Err(e) => fail_state(st, e),
            },
            _ => st,
        },
        ModeModel::WaitSpanTitle => match t {
            TokenModel::Text(s) => StateModel {
                mode: ModeModel::InTitledBody(s, Seq::empty()),
                ..st
            },
            _ => st,
        },
        ModeModel::InTitledBody(title, acc) => spec_step_body(st, t, Some(title), acc),
        ModeModel::InPlainBody(acc) => spec_step_body(st, t, None, acc),
        ModeModel::WaitItem => spec_step_wait_item(st, t),
        ModeModel::WaitAvatar => spec_step_wait_avatar(st, t),
        ModeModel::WaitAuthorB(av) => match t {
            TokenModel::Open(n, _) => if n == "b"@ {
                StateModel { mode: ModeModel::WaitAuthorText(av), ..st }
            } else {
                st
            },
            _ => st,
        },
        ModeModel::WaitAuthorText(av) => match t {
            TokenModel::Text(s) => StateModel { mode: ModeModel::WaitTime(av, s), ..st },
            _ => st,
        },
        ModeModel::WaitTime(av, au) => spec_step_wait_time(st, t, av, au),
        ModeModel::WaitContentDiv(av, au, d) => match t {
            TokenModel::Open(n, attrs) => if n == "div"@ && attrs_are1(
                attrs,
                "class"@,
                "comment-content"@,
            ) {
                StateModel { mode: ModeModel::InCommentContent(av, au, d, Seq::empty()), ..st }
            } else {
                st
            },
            _ => st,
        },
        ModeModel::InCommentContent(av, au, d, acc) => spec_step_comment_content(
            st,
            t,
            av,
            au,
            d,
            acc,
        ),
    }
}

/// Running the extraction engine over a whole token stream.
pub open spec fn extract_run(toks: Seq<TokenModel>, st: StateModel, url: Seq<char>) -> StateModel
    decreases toks.len(),
{
    if toks.len() == 0 {
        st
    } else {
        extract_run(toks.drop_first(), extract_step(st, toks[0], url), url)
    }
}

/// Pushing a comment appends its model.
pub proof fn lemma_comments_model_push(s: Seq<Comment>, c: Comment)
    ensures
        comments_model(s.push(c)) == comments_model(s).push(comment_model(c)),
{
    assert(s.push(c).drop_last() =~= s);
    assert(s.push(c).last() == c);
}

/// Pushing content appends its model.
proof fn lemma_content_push(s: Seq<ParagraphContent>, c: ParagraphContent)
    ensures
        (s.push(c)).map_values(|x: ParagraphContent| x@) == s.map_values(
            |x: ParagraphContent| x@,
        ).push(c@),
{
    assert((s.push(c)).map_values(|x: ParagraphContent| x@) =~= s.map_values(
        |x: ParagraphContent| x@,
    ).push(c@));
}

/// Closes the deepest open comment, attaching it to its parent or to the
/// finished roots.
pub(crate) fn attach_open(roots: &mut Vec<Comment>, stack: &mut Vec<Comment>)
    ensures
        comments_model(final(roots)@) == attach_model(
            comments_model(old(roots)@),
            comments_model(old(stack)@),
        ).0,
        comments_model(final(stack)@) == attach_model(
            comments_model(old(roots)@),
            comments_model(old(stack)@),
        ).1,
        final(stack)@.len() == if old(stack)@.len() == 0 {
            0int
        } else {
            old(stack)@.len() - 1
        },
{
    let ghost r0 = comments_model(roots@);
    let ghost s0 = comments_model(stack@);
    proof {
        crate::record::lemma_comments_model_index(stack@);
    }
    if stack.len() == 0 {
        proof {
            assert(s0 =~= Seq::<CommentModel>::empty());
        }
        return;
    }
    let ghost sfull = stack@;
    let top = match stack.pop() {
        Some(c) => c,
        None => {
            proof {
                assert(false);
            }
            return;
        },
    };
    proof {
        assert(comments_model(stack@) == s0.drop_last()) by {
            assert(sfull.drop_last() == stack@);
            assert(comments_model(sfull) == comments_model(sfull.drop_last()).push(
                comment_model(sfull.last()),
            ));
        }
        assert(comment_model(top) == s0.last());
    }
    if stack.len() == 0 {
        roots.push(top);
        proof {
            lemma_comments_model_push(old(roots)@, top);
            assert(comments_model(stack@) =~= Seq::<CommentModel>::empty());
            assert(s0.len() == 1) by {
                crate::record::lemma_comments_model_index(sfull);
            }
        }
    } else {
        let ghost smid = stack@;
        let mut parent = match stack.pop() {
            Some(c) => c,
            None => {
                proof {
                    assert(false);
                }
                return;
            },
        };
        let ghost parent0 = parent;
        parent.replies.push(top);
        let ghost pushed = parent;
        stack.push(parent);
        proof {
            crate::record::lemma_comments_model_index(sfull);
            assert(s0.len() == sfull.len());
            let pi = s0.len() - 2;
            assert(comments_model(smid) == s0.drop_last().drop_last().push(
                comment_model(parent0),
            )) by {
                assert(comments_model(smid) == s0.drop_last());
                assert(smid.drop_last() == stack@.drop_last());
                assert(comments_model(smid) == comments_model(smid.drop_last()).push(
                    comment_model(smid.last()),
                ));
                assert(s0.drop_last().drop_last() =~= comments_model(smid.drop_last()));
            }
            assert(comment_model(parent0) == s0[pi]) by {
                assert(s0.drop_last()[pi] == s0[pi]);
            }
            assert(comment_model(pushed) == (CommentModel {
                replies: comment_model(parent0).replies.push(s0.last()),
                ..comment_model(parent0)
            })) by {
                lemma_comments_model_push(parent0.replies@, top);
            }
            lemma_comments_model_push(stack@.drop_last(), pushed);
            assert(stack@.drop_last() == smid.drop_last());
            let expect = s0.drop_last().update(
                pi,
                CommentModel { replies: s0[pi].replies.push(s0.last()), ..s0[pi] },
            );
            assert(comments_model(stack@) =~= expect) by {
                assert(comments_model(stack@) == comments_model(smid.drop_last()).push(
                    comment_model(pushed),
                ));
                assert(expect =~= s0.drop_last().drop_last().push(
                    CommentModel { replies: s0[pi].replies.push(s0.last()), ..s0[pi] },
                ));
            }
        }
    }
}

/// Closes every open comment and returns the finished forest.
pub(crate) fn flush_open(roots: Vec<Comment>, stack: Vec<Comment>) -> (r: Vec<Comment>)
    ensures
        comments_model(r@) == flush_model(comments_model(roots@), comments_model(stack@)),
{
    let mut roots = roots;
    let mut stack = stack;
    let ghost r0 = comments_model(roots@);
    let ghost s0 = comments_model(stack@);
    proof {
        crate::record::lemma_comments_model_index(stack@);
    }
    while stack.len() > 0
        invariant
            flush_model(comments_model(roots@), comments_model(stack@)) == flush_model(r0, s0),
            comments_model(stack@).len() == stack@.len(),
        decreases stack@.len(),
    {
        attach_open(&mut roots, &mut stack);
        proof {
            crate::record::lemma_comments_model_index(stack@);
        }
    }
    proof {
        assert(comments_model(stack@) =~= Seq::<CommentModel>::empty());
    }
    roots
}

/// One extracted page before its download payload is resolved: the record
/// and the screenshots found for it.
#[derive(Debug)]
pub struct PageExtract {
    pub record: GameTextInformation,
    pub screenshots: Vec<ParagraphContent>,
}

/// The model of an extracted page.
pub struct PageModel {
    pub record: RecordModel,
    pub screenshots: Seq<ContentModel>,
}

impl View for PageExtract {
    type V = PageModel;

    open spec fn view(&self) -> PageModel {
        PageModel {
            record: self.record@,
            screenshots: self.screenshots@.map_values(|c: ParagraphContent| c@),
        }
    }
}

/// The state the engine starts a page in: a fresh record whose identity is
/// the hash of the page's locator.
pub open spec fn initial_state_model(url: Seq<char>) -> StateModel {
    StateModel {
        record: crate::record::default_record_model(crate::trusted::seahash_of(url), "kkgal"@),
        screenshots: Seq::empty(),
        roots: Seq::empty(),
        stack: Seq::empty(),
        mode: ModeModel::Top,
    }
}

/// Builds the engine's starting state for a page.
pub fn initial_state(url: &str) -> (r: ExtractState)
    ensures
        r@ == initial_state_model(url@),
{
    let id = crate::trusted::seahash_str(url);
    let r = ExtractState {
        record: GameTextInformation::default(id, String::from_str("kkgal")),
        screenshots: Vec::new(),
        roots: Vec::new(),
        stack: Vec::new(),
        mode: ExtractMode::Top,
    };
    proof {
        assert(r@.screenshots =~= Seq::<ContentModel>::empty());
        assert(r@.roots =~= Seq::<CommentModel>::empty());
        assert(r@.stack =~= Seq::<CommentModel>::empty());
    }
    r
}

/// What the engine concludes when the stream ends: the page, or a failure
/// naming the anchor whose sub-routine the stream broke off in.
pub open spec fn spec_extract_finish(st: StateModel) -> Result<PageModel, Seq<char>> {
    match st.mode {
        ModeModel::Failed(m) => Err(m),
        ModeModel::Top => Ok(PageModel { record: st.record, screenshots: st.screenshots }),
        ModeModel::WaitName => Err("Unable to find name"@),
        ModeModel::WaitDate => Err("Unable to find publish date"@),
        ModeModel::WaitViewed => Err("Unable to find view count"@),
        ModeModel::WaitSpanTitle => Err("Unable to finish parsing paragraph"@),
        ModeModel::InTitledBody(_, _) => Err("Unable to finish parsing paragraph"@),
        ModeModel::InPlainBody(_) => Err("Unable to finish parsing paragraph"@),
        _ => Err("Unable to finish parsing comments"@),
    }
}

/// The record and screenshots extracted from a whole token stream, or the
/// failure it runs into.
pub open spec fn spec_extract_information(toks: Seq<TokenModel>, url: Seq<char>) -> Result<
    PageModel,
    Seq<char>,
> {
    spec_extract_finish(extract_run(toks, initial_state_model(url), url))
}

/// The top-level step on a `meta` tag: the keywords anchor fills the tags.
fn step_meta(st: ExtractState, attrs: &Vec<(String, Option<String>)>) -> (r: ExtractState)
    ensures
        r@ == spec_top_meta(st@, attrs@.map_values(|a: (String, Option<String>)| attr_model(a))),
{
    let ghost attrs_m = attrs@.map_values(|a: (String, Option<String>)| attr_model(a));
    let ExtractState { mut record, screenshots, roots, stack, mode } = st;
    if attr_at_matches(attrs, 1, "name", "keywords") {
        proof {
            assert(attrs_m.len() == attrs@.len());
            assert(attrs_m[0] == attr_model(attrs@[0]));
        }
        match &attrs[0].1 {
            Some(v) => {
                record.tags = tags_from_keywords(v.as_str());
                ExtractState { record, screenshots, roots, stack, mode }
            },
            None => ExtractState {
                record,
                screenshots,
                roots,
                stack,
                mode: ExtractMode::Failed("Unable to parse keywords".to_owned()),
            },
        }
    } else {
        ExtractState { record, screenshots, roots, stack, mode }
    }
}

/// The top-level step on an `img` tag: the enlargeable-image anchor adds a
/// screenshot.
fn step_img(st: ExtractState, attrs: &Vec<(String, Option<String>)>) -> (r: ExtractState)
    ensures
        r@ == spec_top_img(st@, attrs@.map_values(|a: (String, Option<String>)| attr_model(a))),
{
    let ghost attrs_m = attrs@.map_values(|a: (String, Option<String>)| attr_model(a));
    let ExtractState { record, mut screenshots, roots, stack, mode } = st;
    if attr_at_matches(attrs, 0, "title", "\u{70b9}\u{51fb}\u{653e}\u{5927}") {
        proof {
            assert(attrs_m.len() == attrs@.len());
            if attrs@.len() >= 2 {
                assert(attrs_m[1] == attr_model(attrs@[1]));
            }
        }
        if attrs.len() >= 2 {
            match &attrs[1].1 {
                Some(v) => {
                    let ghost sc0 = screenshots@;
                    screenshots.push(ParagraphContent::Image(v.clone()));
                    proof {
                        lemma_content_push(sc0, ParagraphContent::Image(*v));
                    }
                    ExtractState { record, screenshots, roots, stack, mode }
                },
                None => ExtractState {
                    record,
                    screenshots,
                    roots,
                    stack,
                    mode: ExtractMode::Failed("Unable to parse image".to_owned()),
                },
            }
        } else {
            ExtractState {
                record,
                screenshots,
                roots,
                stack,
                mode: ExtractMode::Failed("Unable to parse image".to_owned()),
            }
        }
    } else {
        ExtractState { record, screenshots, roots, stack, mode }
    }
}

/// The top-level step on a `button` tag: the download button carries the
/// overall link between single quotes.
fn step_button(st: ExtractState, attrs: &Vec<(String, Option<String>)>) -> (r: ExtractState)
    ensures
        r@ == spec_top_button(
            st@,
            attrs@.map_values(|a: (String, Option<String>)| attr_model(a)),
        ),
{
    let ghost attrs_m = attrs@.map_values(|a: (String, Option<String>)| attr_model(a));
    let ExtractState { mut record, screenshots, roots, stack, mode } = st;
    if attr_at_matches(attrs, 0, "type", "button") && attr_at_matches(
        attrs,
        1,
        "class",
        "btn btn-danger",
    ) {
        proof {
            assert(attrs_m.len() == attrs@.len());
            if attrs@.len() >= 3 {
                assert(attrs_m[2] == attr_model(attrs@[2]));
            }
        }
        if attrs.len() >= 3 {
            match &attrs[2].1 {
                Some(link) => match link_between_quotes(link.as_str()) {
                    Ok(l) => {
                        record.misc_set(String::from_str("overall_link"), l);
                        ExtractState { record, screenshots, roots, stack, mode }
                    },
                    Err(e) => ExtractState {
                        record,
                        screenshots,
                        roots,
                        stack,
                        mode: ExtractMode::Failed(e),
                    },
                },
                None => ExtractState {
                    record,
                    screenshots,
                    roots,
                    stack,
                    mode: ExtractMode::Failed("Unable to parse download link".to_owned()),
                },
            }
        } else {
            ExtractState {
                record,
                screenshots,
                roots,
                stack,
                mode: ExtractMode::Failed("Unable to parse download link".to_owned()),
            }
        }
    } else {
        ExtractState { record, screenshots, roots, stack, mode }
    }
}

/// Feeds one token to the engine at the top level, on an opening tag.
fn step_open_at_top(st: ExtractState, name: &String, attrs: &Vec<(String, Option<String>)>, url:
    &str) -> (r: ExtractState)
    ensures
        r@ == step_top_open(
            st@,
            name@,
            attrs@.map_values(|a: (String, Option<String>)| attr_model(a)),
            url@,
        ),
{
    if str_eq(name.as_str(), "meta") {
        step_meta(st, attrs)
    } else if str_eq(name.as_str(), "a") {
        let hit = attrs_match1(attrs, "href", url);
        let ExtractState { record, screenshots, roots, stack, mode } = st;
        if hit {
            ExtractState { record, screenshots, roots, stack, mode: ExtractMode::WaitName }
        } else {
            ExtractState { record, screenshots, roots, stack, mode }
        }
    } else if str_eq(name.as_str(), "i") {
        let cal = attrs_match1(attrs, "class", "fa fa-calendar");
        let eye = attrs_match1(attrs, "class", "fa fa-eye");
        let ExtractState { record, screenshots, roots, stack, mode } = st;
        if cal {
            ExtractState { record, screenshots, roots, stack, mode: ExtractMode::WaitDate }
        } else if eye {
            ExtractState { record, screenshots, roots, stack, mode: ExtractMode::WaitViewed }
        } else {
            ExtractState { record, screenshots, roots, stack, mode }
        }
    } else if str_eq(name.as_str(), "img") {
        step_img(st, attrs)
    } else if str_eq(name.as_str(), "span") {
        let titled = attrs_match1(attrs, "style", "font-size: 12pt;COLOR:#3399CC");
        let plain = attrs_match1(attrs, "style", "font-size: 11pt;");
        let ExtractState { record, screenshots, roots, stack, mode } = st;
        if titled {
            ExtractState { record, screenshots, roots, stack, mode: ExtractMode::WaitSpanTitle }
        } else if plain {
            ExtractState {
                record,
                screenshots,
                roots,
                stack,
                mode: ExtractMode::InPlainBody(String::new()),
            }
        } else {
            ExtractState { record, screenshots, roots, stack, mode }
        }
    } else if str_eq(name.as_str(), "button") {
        step_button(st, attrs)
    } else if str_eq(name.as_str(), "ol") {
        let hit = attrs_match1(attrs, "class", "commentlist");
        let ExtractState { record, screenshots, roots, stack, mode } = st;
        if hit {
            let r = ExtractState {
                record,
                screenshots,
                roots: Vec::new(),
                stack: Vec::new(),
                mode: ExtractMode::WaitItem,
            };
            proof {
                assert(comments_model(r.roots@) =~= Seq::<CommentModel>::empty());
                assert(comments_model(r.stack@) =~= Seq::<CommentModel>::empty());
            }
            r
        } else {
            ExtractState { record, screenshots, roots, stack, mode }
        }
    } else {
        st
    }
}

/// Feeds one token to the engine while a titled or plain paragraph body is
/// being accumulated.
fn step_paragraph_body(st: ExtractState, t: &HtmlToken) -> (r: ExtractState)
    requires
        st@.mode matches ModeModel::InTitledBody(_, _) || st@.mode matches ModeModel::InPlainBody(
            _,
        ),
    ensures
        match st@.mode {
            ModeModel::InTitledBody(tm, am) => r@ == spec_step_body(st@, t@, Some(tm), am),
            ModeModel::InPlainBody(am) => r@ == spec_step_body(st@, t@, None, am),
            _ => true,
        },
{
    let ghost st0 = st@;
    let ExtractState { mut record, screenshots, roots, stack, mode } = st;
    let (title, acc) = match mode {
        ExtractMode::InTitledBody(ti, a) => (Some(ti), a),
        ExtractMode::InPlainBody(a) => (None, a),
        _ => {
            proof {
                assert(false);
            }
            (None, String::new())
        },
    };
    let closer: &str = match &title {
        Some(_) => "div",
        None => "span",
    };
    match t {
        HtmlToken::Text(s) => {
            let mut acc = acc;
            acc.append(s.as_str());
            let mode = match title {
                Some(ti) => ExtractMode::InTitledBody(ti, acc),
                None => ExtractMode::InPlainBody(acc),
            };
            ExtractState { record, screenshots, roots, stack, mode }
        },
        HtmlToken::Open(n, _) => {
            let mut acc = acc;
            if str_eq(n.as_str(), "br") {
                acc.append("\n");
            }
            let mode = match title {
                Some(ti) => ExtractMode::InTitledBody(ti, acc),
                None => ExtractMode::InPlainBody(acc),
            };
            ExtractState { record, screenshots, roots, stack, mode }
        },
        HtmlToken::Close(n) => {
            if str_eq(n.as_str(), closer) {
                let ghost p0 = record.paragraphs@;
                let ghost accm = acc@;
                let ghost tm = opt_text(title);
                record.paragraphs.push((title, vec![ParagraphContent::Text(acc)]));
                proof {
                    lemma_paragraph_push(st0, p0, record.paragraphs@);
                    assert(paragraph_model(record.paragraphs@.last()) == (
                        tm,
                        seq![ContentModel::Text(accm)],
                    )) by {
                        assert(record.paragraphs@.last().1@.map_values(
                            |x: ParagraphContent| x@,
                        ) =~= seq![ContentModel::Text(accm)]);
                    }
                }
                ExtractState { record, screenshots, roots, stack, mode: ExtractMode::Top }
            } else {
                let mode = match title {
                    Some(ti) => ExtractMode::InTitledBody(ti, acc),
                    None => ExtractMode::InPlainBody(acc),
                };
                ExtractState { record, screenshots, roots, stack, mode }
            }
        },
    }
}

/// Feeds one token to the engine while it waits between comment items.
fn step_wait_item(st: ExtractState, t: &HtmlToken) -> (r: ExtractState)
    requires
        st@.mode is WaitItem,
    ensures
        r@ == spec_step_wait_item(st@, t@),
{
    match t {
        HtmlToken::Open(n, _) => if str_eq(n.as_str(), "li") {
            let ExtractState { record, screenshots, roots, stack, mode: _ } = st;
            ExtractState { record, screenshots, roots, stack, mode: ExtractMode::WaitAvatar }
        } else {
            st
        },
        HtmlToken::Close(n) => if str_eq(n.as_str(), "li") {
            let ExtractState { record, screenshots, mut roots, mut stack, mode } = st;
            attach_open(&mut roots, &mut stack);
            ExtractState { record, screenshots, roots, stack, mode }
        } else if str_eq(n.as_str(), "ol") {
            let ExtractState { mut record, screenshots, roots, stack, mode: _ } = st;
            let finished = flush_open(roots, stack);
            record.comments = finished;
            let r = ExtractState {
                record,
                screenshots,
                roots: Vec::new(),
                stack: Vec::new(),
                mode: ExtractMode::Top,
            };
            proof {
                assert(comments_model(r.roots@) =~= Seq::<CommentModel>::empty());
                assert(comments_model(r.stack@) =~= Seq::<CommentModel>::empty());
            }
            r
        } else {
            st
        },
        _ => st,
    }
}

/// Feeds one token to the engine while it looks for a comment's avatar.
fn step_wait_avatar(st: ExtractState, t: &HtmlToken) -> (r: ExtractState)
    requires
        st@.mode is WaitAvatar,
    ensures
        r@ == spec_step_wait_avatar(st@, t@),
{
    match t {
        HtmlToken::Open(n, attrs) => if str_eq(n.as_str(), "img") {
            let ExtractState { record, screenshots, roots, stack, mode: _ } = st;
            match attr_value(attrs, "src") {
                None => ExtractState {
                    record,
                    screenshots,
                    roots,
                    stack,
                    mode: ExtractMode::Failed("Unable to find avatar".to_owned()),
                },
                Some(None) => ExtractState {
                    record,
                    screenshots,
                    roots,
                    stack,
                    mode: ExtractMode::Failed("Unable to parse avatar".to_owned()),
                },
                Some(Some(v)) => {
                    let mut av = String::from_str(WEBSITE_LINK);
                    av.append(v.as_str());
                    ExtractState {
                        record,
                        screenshots,
                        roots,
                        stack,
                        mode: ExtractMode::WaitAuthorB(av),
                    }
                },
            }
        } else {
            st
        },
        _ => st,
    }
}

/// Feeds one token to the engine while it looks for a comment's timestamp.
fn step_wait_time(st: ExtractState, t: &HtmlToken) -> (r: ExtractState)
    requires
        st@.mode matches ModeModel::WaitTime(_, _),
    ensures
        match st@.mode {
            ModeModel::WaitTime(avm, aum) => r@ == spec_step_wait_time(st@, t@, avm, aum),
            _ => true,
        },
{
    let ghost st0 = st@;
    let ExtractState { record, screenshots, roots, stack, mode } = st;
    let (av, au) = match mode {
        ExtractMode::WaitTime(a, b) => (a, b),
        _ => {
            proof {
                assert(false);
            }
            (String::new(), String::new())
        },
    };
    match t {
        HtmlToken::Open(n, attrs) => if str_eq(n.as_str(), "time") {
            match attr_value(attrs, "datetime") {
                None => ExtractState {
                    record,
                    screenshots,
                    roots,
                    stack,
                    mode: ExtractMode::Failed("Unable to parse time".to_owned()),
                },
                Some(None) => ExtractState {
                    record,
                    screenshots,
                    roots,
                    stack,
                    mode: ExtractMode::Failed("Unable to parse time".to_owned()),
                },
                Some(Some(v)) => match parse_iso_time(v.as_str()) {
                    Ok(d) => ExtractState {
                        record,
                        screenshots,
                        roots,
                        stack,
                        mode: ExtractMode::WaitContentDiv(av, au, d),
                    },
                    Err(e) => ExtractState {
                        record,
                        screenshots,
                        roots,
                        stack,
                        mode: ExtractMode::Failed(e),
                    },
                },
            }
        } else {
            ExtractState { record, screenshots, roots, stack, mode: ExtractMode::WaitTime(av, au) }
        },
        _ => ExtractState {
            record,
            screenshots,
            roots,
            stack,
            mode: ExtractMode::WaitTime(av, au),
        },
    }
}

/// Feeds one token to the engine while a comment's content is being
/// accumulated.
fn step_comment_content(st: ExtractState, t: &HtmlToken) -> (r: ExtractState)
    requires
        st@.mode matches ModeModel::InCommentContent(_, _, _, _),
    ensures
        match st@.mode {
            ModeModel::InCommentContent(avm, aum, dm, am) => r@ == spec_step_comment_content(
                st@,
                t@,
                avm,
                aum,
                dm,
                am,
            ),
            _ => true,
        },
{
    let ghost st0 = st@;
    let ExtractState { record, screenshots, roots, mut stack, mode } = st;
    let (av, au, d, acc) = match mode {
        ExtractMode::InCommentContent(a, b, c, e) => (a, b, c, e),
        _ => {
            proof {
                assert(false);
            }
            (
                String::new(),
                String::new(),
                crate::datetime::default_date_time(),
                String::new(),
            )
        },
    };
    match t {
        HtmlToken::Text(s) => {
            let mut acc = acc;
            acc.append(s.as_str());
            ExtractState {
                record,
                screenshots,
                roots,
                stack,
                mode: ExtractMode::InCommentContent(av, au, d, acc),
            }
        },
        HtmlToken::Open(n, _) => {
            let mut acc = acc;
            if str_eq(n.as_str(), "br") {
                acc.append("\n");
            }
            ExtractState {
                record,
                screenshots,
                roots,
                stack,
                mode: ExtractMode::InCommentContent(av, au, d, acc),
            }
        },
        HtmlToken::Close(n) => if str_eq(n.as_str(), "div") {
            let ghost s0 = stack@;
            let c = Comment {
                user_avatar: av,
                author: au,
                date: d,
                content: vec![ParagraphContent::Text(acc)],
                replies: Vec::new(),
            };
            let ghost cg = c;
            stack.push(c);
            proof {
                lemma_comments_model_push(s0, cg);
                assert(cg.content@.map_values(|x: ParagraphContent| x@) =~= seq![
                    ContentModel::Text(cg.content@[0].arrow_Text_0()@),
                ]);
                assert(comments_model(cg.replies@) =~= Seq::<CommentModel>::empty());
            }
            ExtractState { record, screenshots, roots, stack, mode: ExtractMode::WaitItem }
        } else {
            ExtractState {
                record,
                screenshots,
                roots,
                stack,
                mode: ExtractMode::InCommentContent(av, au, d, acc),
            }
        },
    }
}

/// Feeds one token to the engine.
pub fn step_token(st: ExtractState, t: &HtmlToken, url: &str) -> (r: ExtractState)
    ensures
        r@ == extract_step(st@, t@, url@),
{
    let ghost st0 = st@;
    match &st.mode {
        ExtractMode::Failed(_) => st,
        ExtractMode::Top => match t {
            HtmlToken::Open(name, attrs) => step_open_at_top(st, name, attrs, url),
            _ => st,
        },
        ExtractMode::WaitName => match t {
            HtmlToken::Text(s) => {
                let ExtractState { mut record, screenshots, roots, stack, mode: _ } = st;
                record.name = s.clone();
                ExtractState { record, screenshots, roots, stack, mode: ExtractMode::Top }
            },
            _ => st,
        },
        ExtractMode::WaitDate => match t {
            HtmlToken::Text(s) => {
                let ExtractState { mut record, screenshots, roots, stack, mode: _ } = st;
                match parse_dash_date(s.as_str()) {
                    Ok(d) => {
                        record.published = d;
                        ExtractState { record, screenshots, roots, stack, mode: ExtractMode::Top }
                    },
                    Err(e) => ExtractState {
                        record,
                        screenshots,
                        roots,
                        stack,
                        mode: ExtractMode::Failed(e),
                    },
                }
            },
            _ => st,
        },
        ExtractMode::WaitViewed => match t {
            HtmlToken::Text(s) => {
                let ExtractState { mut record, screenshots, roots, stack, mode: _ } = st;
                match parse_viewed(s.as_str()) {
                    Ok(v) => {
                        record.viewed = v;
                        ExtractState { record, screenshots, roots, stack, mode: ExtractMode::Top }
                    },
                    Err(e) => ExtractState {
                        record,
                        screenshots,
                        roots,
                        stack,
                        mode: ExtractMode::Failed(e),
                    },
                }
            },
            _ => st,
        },
        ExtractMode::WaitSpanTitle => match t {
            HtmlToken::Text(s) => {
                let ExtractState { record, screenshots, roots, stack, mode: _ } = st;
                ExtractState {
                    record,
                    screenshots,
                    roots,
                    stack,
                    mode: ExtractMode::InTitledBody(s.clone(), String::new()),
                }
            },
            _ => st,
        },
        ExtractMode::InTitledBody(_, _) => step_paragraph_body(st, t),
        ExtractMode::InPlainBody(_) => step_paragraph_body(st, t),
        ExtractMode::WaitItem => step_wait_item(st, t),
        ExtractMode::WaitAvatar => step_wait_avatar(st, t),
        ExtractMode::WaitAuthorB(_) => match t {
            HtmlToken::Open(n, _) => {
                let hit = str_eq(n.as_str(), "b");
                let ExtractState { record, screenshots, roots, stack, mode } = st;
                let av = match mode {
                    ExtractMode::WaitAuthorB(a) => a,
                    _ => {
                        proof {
                            assert(false);
                        }
                        String::new()
                    },
                };
                if hit {
                    ExtractState {
                        record,
                        screenshots,
                        roots,
                        stack,
                        mode: ExtractMode::WaitAuthorText(av),
                    }
                } else {
                    ExtractState {
                        record,
                        screenshots,
                        roots,
                        stack,
                        mode: ExtractMode::WaitAuthorB(av),
                    }
                }
            },
            _ => st,
        },
        ExtractMode::WaitAuthorText(_) => match t {
            HtmlToken::Text(s) => {
                let ExtractState { record, screenshots, roots, stack, mode } = st;
                let av = match mode {
                    ExtractMode::WaitAuthorText(a) => a,
                    _ => {
                        proof {
                            assert(false);
                        }
                        String::new()
                    },
                };
                ExtractState {
                    record,
                    screenshots,
                    roots,
                    stack,
                    mode: ExtractMode::WaitTime(av, s.clone()),
                }
            },
            _ => st,
        },
        ExtractMode::WaitTime(_, _) => step_wait_time(st, t),
        ExtractMode::WaitContentDiv(_, _, _) => match t {
            HtmlToken::Open(n, attrs) => {
                let hit = str_eq(n.as_str(), "div") && attrs_match1(
                    attrs,
                    "class",
                    "comment-content",
                );
                let ExtractState { record, screenshots, roots, stack, mode } = st;
                let (av, au, d) = match mode {
                    ExtractMode::WaitContentDiv(a, b, c) => (a, b, c),
                    _ => {
                        proof {
                            assert(false);
                        }
                        (String::new(), String::new(), crate::datetime::default_date_time())
                    },
                };
                if hit {
                    ExtractState {
                        record,
                        screenshots,
                        roots,
                        stack,
                        mode: ExtractMode::InCommentContent(av, au, d, String::new()),
                    }
                } else {
                    ExtractState {
                        record,
                        screenshots,
                        roots,
                        stack,
                        mode: ExtractMode::WaitContentDiv(av, au, d),
                    }
                }
            },
            _ => st,
        },
        ExtractMode::InCommentContent(_, _, _, _) => step_comment_content(st, t),
    }
}

/// Runs the extraction engine over a whole token stream and concludes.
pub fn extract_information(toks: &Vec<HtmlToken>, url: &str) -> (r: Result<PageExtract, String>)
    ensures
        match (r, spec_extract_information(toks@.map_values(|t: HtmlToken| t@), url@)) {
            (Ok(p), Ok(pm)) => p@ == pm,
            (Err(e), Err(m)) => e@ == m,
            _ => false,
        },
{
    let ghost models = toks@.map_values(|t: HtmlToken| t@);
    let mut st = initial_state(url);
    let ghost st0 = st@;
    let mut i: usize = 0;
    proof {
        assert(models.skip(0) =~= models);
    }
    while i < toks.len()
        invariant
            models == toks@.map_values(|t: HtmlToken| t@),
            i <= toks.len(),
            extract_run(models.skip(i as int), st@, url@) == extract_run(models, st0, url@),
        decreases toks.len() - i,
    {
        proof {
            assert(models.skip(i as int)[0] == models[i as int]);
            assert(models.skip(i as int).drop_first() =~= models.skip(i as int + 1));
        }
        st = step_token(st, &toks[i], url);
        i += 1;
    }
    proof {
        assert(models.skip(toks@.len() as int) =~= Seq::<TokenModel>::empty());
    }
    let ExtractState { record, screenshots, roots: _, stack: _, mode } = st;
    match mode {
        ExtractMode::Failed(m) => Err(m),
        ExtractMode::Top => Ok(PageExtract { record, screenshots }),
        ExtractMode::WaitName => Err("Unable to find name".to_owned()),
        ExtractMode::WaitDate => Err("Unable to find publish date".to_owned()),
        ExtractMode::WaitViewed => Err("Unable to find view count".to_owned()),
        ExtractMode::WaitSpanTitle => Err("Unable to finish parsing paragraph".to_owned()),
        ExtractMode::InTitledBody(_, _) => Err("Unable to finish parsing paragraph".to_owned()),
        ExtractMode::InPlainBody(_) => Err("Unable to finish parsing paragraph".to_owned()),
        _ => Err("Unable to finish parsing comments".to_owned()),
    }
}

/// Where the index-page scan stands: looking for the article-title block,
/// expecting its heading, or expecting the link inside the heading.
#[derive(PartialEq, Eq, Structural, Clone, Copy)]
pub enum IndexMode {
    Scan,
    ExpectH1,
    ExpectA,
}

/// The index-page scanner's state.
pub struct IndexState {
    pub links: Vec<String>,
    pub mode: IndexMode,
    pub failed: bool,
}

/// The model of the index-page scanner's state.
pub struct IndexModel {
    pub links: Seq<Seq<char>>,
    pub mode: IndexMode,
    pub failed: bool,
}

impl View for IndexState {
    type V = IndexModel;

    open spec fn view(&self) -> IndexModel {
        IndexModel {
            links: self.links@.map_values(|l: String| l@),
            mode: self.mode,
            failed: self.failed,
        }
    }
}

/// One step of the index-page scan: an article-title block, then a
/// heading, then the link; any other token resets the expectation.
pub open spec fn index_step(st: IndexModel, t: TokenModel) -> IndexModel {
    if st.failed {
        st
    } else {
        match st.mode {
            IndexMode::Scan => match t {
                TokenModel::Open(n, attrs) => if n == "div"@ && attrs_are1(
                    attrs,
                    "class"@,
                    "title-article"@,
                ) {
                    IndexModel { mode: IndexMode::ExpectH1, ..st }
                } else {
                    st
                },
                _ => st,
            },
            IndexMode::ExpectH1 => match t {
                TokenModel::Open(n, _) => if n == "h1"@ {
                    IndexModel { mode: IndexMode::ExpectA, ..st }
                } else {
                    IndexModel { mode: IndexMode::Scan, ..st }
                },
                _ => IndexModel { mode: IndexMode::Scan, ..st },
            },
            IndexMode::ExpectA => match t {
                TokenModel::Open(n, attrs) => if n == "a"@ {
                    match attr_value_spec(attrs, "href"@) {
                        Some(Some(v)) => IndexModel {
                            links: st.links.push(v),
                            mode: IndexMode::Scan,
                            ..st
                        },
                        _ => IndexModel { failed: true, ..st },
                    }
                } else {
                    IndexModel { mode: IndexMode::Scan, ..st }
                },
                _ => IndexModel { mode: IndexMode::Scan, ..st },
            },
        }
    }
}

/// Running the index-page scan over a whole token stream.
pub open spec fn index_run(toks: Seq<TokenModel>, st: IndexModel) -> IndexModel
    decreases toks.len(),
{
    if toks.len() == 0 {
        st
    } else {
        index_run(toks.drop_first(), index_step(st, toks[0]))
    }
}

/// The item locators an index page lists, or the failure of a malformed
/// link.
pub open spec fn spec_extract_index_links(toks: Seq<TokenModel>) -> Result<
    Seq<Seq<char>>,
    Seq<char>,
> {
    let st = index_run(
        toks,
        IndexModel { links: Seq::empty(), mode: IndexMode::Scan, failed: false },
    );
    if st.failed {
        Err("Bad link"@)
    } else {
        Ok(st.links)
    }
}

/// Feeds one token to the index-page scanner.
fn index_step_token(st: IndexState, t: &HtmlToken) -> (r: IndexState)
    ensures
        r@ == index_step(st@, t@),
{
    if st.failed {
        return st;
    }
    match st.mode {
        IndexMode::Scan => match t {
            HtmlToken::Open(n, attrs) => if str_eq(n.as_str(), "div") && attrs_match1(
                attrs,
                "class",
                "title-article",
            ) {
                IndexState { mode: IndexMode::ExpectH1, ..st }
            } else {
                st
            },
            _ => st,
        },
        IndexMode::ExpectH1 => match t {
            HtmlToken::Open(n, _) => if str_eq(n.as_str(), "h1") {
                IndexState { mode: IndexMode::ExpectA, ..st }
            } else {
                IndexState { mode: IndexMode::Scan, ..st }
            },
            _ => IndexState { mode: IndexMode::Scan, ..st },
        },
        IndexMode::ExpectA => match t {
            HtmlToken::Open(n, attrs) => if str_eq(n.as_str(), "a") {
                match attr_value(attrs, "href") {
                    Some(Some(v)) => {
                        let IndexState { mut links, mode: _, failed } = st;
                        let ghost l0 = links@;
                        links.push(v);
                        proof {
                            assert(links@.map_values(|l: String| l@) =~= l0.map_values(
                                |l: String| l@,
                            ).push(links@.last()@));
                        }
                        IndexState { links, mode: IndexMode::Scan, failed }
                    },
                    Some(None) => IndexState { failed: true, ..st },
                    None => IndexState { failed: true, ..st },
                }
            } else {
                IndexState { mode: IndexMode::Scan, ..st }
            },
            _ => IndexState { mode: IndexMode::Scan, ..st },
        },
    }
}

/// Scans an index page's token stream for the item locators it lists.
pub fn extract_index_links(toks: &Vec<HtmlToken>) -> (r: Result<Vec<String>, String>)
    ensures
        match (r, spec_extract_index_links(toks@.map_values(|t: HtmlToken| t@))) {
            (Ok(links), Ok(m)) => links@.map_values(|l: String| l@) == m,
            (Err(e), Err(m)) => e@ == m,
            _ => false,
        },
{
    let ghost models = toks@.map_values(|t: HtmlToken| t@);
    let mut st = IndexState { links: Vec::new(), mode: IndexMode::Scan, failed: false };
    let ghost st0 = st@;
    proof {
        assert(st0.links =~= Seq::<Seq<char>>::empty());
        assert(models.skip(0) =~= models);
    }
    let mut i: usize = 0;
    while i < toks.len()
        invariant
            models == toks@.map_values(|t: HtmlToken| t@),
            i <= toks.len(),
            index_run(models.skip(i as int), st@) == index_run(models, st0),
        decreases toks.len() - i,
    {
        proof {
            assert(models.skip(i as int)[0] == models[i as int]);
            assert(models.skip(i as int).drop_first() =~= models.skip(i as int + 1));
        }
        st = index_step_token(st, &toks[i]);
        i += 1;
    }
    proof {
        assert(models.skip(toks@.len() as int) =~= Seq::<TokenModel>::empty());
    }
    if st.failed {
        Err("Bad link".to_owned())
    } else {
        Ok(st.links)
    }
}

/// Whether the stream holds the anti-automation challenge marker.
pub open spec fn spec_has_challenge(toks: Seq<TokenModel>) -> bool {
    exists|i: int|
        0 <= i < toks.len() && toks[i] == TokenModel::Text("I'm Groot"@)
}

/// The attributes of the first link tag, if any.
pub open spec fn spec_first_link_attrs(toks: Seq<TokenModel>) -> Option<AttrsModel>
    decreases toks.len(),
{
    if toks.len() == 0 {
        None
    } else {
        match toks[0] {
            TokenModel::Open(n, attrs) => if n == "a"@ {
                Some(attrs)
            } else {
                spec_first_link_attrs(toks.drop_first())
            },
            _ => spec_first_link_attrs(toks.drop_first()),
        }
    }
}

/// What a challenged page asks for: nothing when the page is clean, the
/// bypass address to request when the marker is present, or the failure
/// when no bypass link can be found.
pub open spec fn spec_challenge_action(toks: Seq<TokenModel>) -> Result<
    Option<Seq<char>>,
    Seq<char>,
> {
    if !spec_has_challenge(toks) {
        Ok(None)
    } else {
        match spec_first_link_attrs(toks) {
            None => Err("Groot detected, but cannot find link"@),
            Some(attrs) => match attr_value_spec(attrs, "href"@) {
                None => Err("Unknown link format when passing groot"@),
                Some(None) => Err("Link without argument when passing groot"@),
                Some(Some(v)) => Ok(Some("https://www.kkgal.com"@ + v)),
            },
        }
    }
}

/// Checks a page for the anti-automation challenge. A clean page yields
/// nothing; a challenged one yields the bypass address to request before
/// refetching, or the failure when the page shows the marker but no link.
pub fn challenge_action(toks: &Vec<HtmlToken>) -> (r: Result<Option<String>, String>)
    ensures
        match (r, spec_challenge_action(toks@.map_values(|t: HtmlToken| t@))) {
            (Ok(a), Ok(m)) => crate::record::opt_text(a) == m,
            (Err(e), Err(m)) => e@ == m,
            _ => false,
        },
{
    let ghost models = toks@.map_values(|t: HtmlToken| t@);
    let mut has_marker = false;
    let mut i: usize = 0;
    while i < toks.len()
        invariant
            models == toks@.map_values(|t: HtmlToken| t@),
            i <= toks.len(),
            has_marker == exists|j: int|
                0 <= j < i && models[j] == TokenModel::Text("I'm Groot"@),
        decreases toks.len() - i,
    {
        match &toks[i] {
            HtmlToken::Text(s) => {
                if str_eq(s.as_str(), "I'm Groot") {
                    has_marker = true;
                }
            },
            _ => {},
        }
        proof {
            if models[i as int] == TokenModel::Text("I'm Groot"@) {
                assert(toks@[i as int]@ == TokenModel::Text("I'm Groot"@));
            }
        }
        i += 1;
    }
    if !has_marker {
        proof {
            assert(!spec_has_challenge(models));
        }
        return Ok(None);
    }
    let mut k: usize = 0;
    proof {
        assert(models.skip(0) =~= models);
    }
    while k < toks.len()
        invariant
            models == toks@.map_values(|t: HtmlToken| t@),
            k <= toks.len(),
            spec_has_challenge(models),
            spec_first_link_attrs(models) == spec_first_link_attrs(models.skip(k as int)),
        decreases toks.len() - k,
    {
        proof {
            assert(models.skip(k as int)[0] == models[k as int]);
            assert(models.skip(k as int).drop_first() =~= models.skip(k as int + 1));
        }
        match &toks[k] {
            HtmlToken::Open(n, attrs) => {
                if str_eq(n.as_str(), "a") {
                    proof {
                        let tm = models[k as int];
                        assert(tm == toks@[k as int]@);
                        assert(tm matches TokenModel::Open(nn, aa) && nn == n@ && aa == attrs@
                            .map_values(|a: (String, Option<String>)| attr_model(a)));
                        assert(spec_first_link_attrs(models.skip(k as int)) == Some(
                            attrs@.map_values(|a: (String, Option<String>)| attr_model(a)),
                        ));
                    }
                    match attr_value(attrs, "href") {
                        None => {
                            return Err("Unknown link format when passing groot".to_owned());
                        },
                        Some(None) => {
                            return Err("Link without argument when passing groot".to_owned());
                        },
                        Some(Some(v)) => {
                            let mut link = String::from_str(WEBSITE_LINK);
                            link.append(v.as_str());
                            return Ok(Some(link));
                        },
                    }
                }
            },
            _ => {},
        }
        k += 1;
    }
    proof {
        assert(models.skip(toks@.len() as int) =~= Seq::<TokenModel>::empty());
    }
    Err("Groot detected, but cannot find link".to_owned())
}

/// The number of times a challenged fetch is retried before the run gives
/// the page up; the challenge loop is bounded on purpose.
pub const MAX_CHALLENGE_ATTEMPTS: usize = 5;

/// One event of the flat comment stream the engine reads: a parsed
/// comment item opening at the current depth, or the closing marker that
/// returns to the depth above. The engine's comment arms perform exactly
/// these two steps: a finished item pushes an open comment, and a closing
/// marker attaches the deepest open comment.
pub enum CommentEvent {
    Item(CommentModel),
    CloseReply,
}

/// One build step of the comment forest.
pub open spec fn build_step(
    roots: Seq<CommentModel>,
    stack: Seq<CommentModel>,
    e: CommentEvent,
) -> (Seq<CommentModel>, Seq<CommentModel>) {
    match e {
        CommentEvent::Item(c) => (roots, stack.push(c)),
        CommentEvent::CloseReply => attach_model(roots, stack),
    }
}

/// Building the forest from a whole event stream.
pub open spec fn build_run(
    roots: Seq<CommentModel>,
    stack: Seq<CommentModel>,
    es: Seq<CommentEvent>,
) -> (Seq<CommentModel>, Seq<CommentModel>)
    decreases es.len(),
{
    if es.len() == 0 {
        (roots, stack)
    } else {
        let (r2, s2) = build_step(roots, stack, es[0]);
        build_run(r2, s2, es.drop_first())
    }
}

/// The forest a whole event stream builds, every comment closed at the
/// end.
pub open spec fn build_forest(es: Seq<CommentEvent>) -> Seq<CommentModel> {
    let (r, s) = build_run(Seq::empty(), Seq::empty(), es);
    flush_model(r, s)
}

/// A comment without its replies.
pub open spec fn strip_replies(c: CommentModel) -> CommentModel {
    CommentModel { replies: Seq::empty(), ..c }
}

/// The depth-first flattening of a comment forest: each comment, without
/// its replies, followed by its flattened replies.
pub open spec fn flatten_all(s: Seq<CommentModel>) -> Seq<CommentModel>
    decreases s,
{
    if s.len() == 0 {
        Seq::empty()
    } else {
        flatten_all(s.drop_last()) + flatten_one(s.last())
    }
}

/// The depth-first flattening of one comment tree.
pub open spec fn flatten_one(c: CommentModel) -> Seq<CommentModel>
    decreases c,
{
    seq![strip_replies(c)] + flatten_all(c.replies)
}

/// The comment items an event stream carries, in order.
pub open spec fn items_of(es: Seq<CommentEvent>) -> Seq<CommentModel>
    decreases es.len(),
{
    if es.len() == 0 {
        Seq::empty()
    } else {
        match es.last() {
            CommentEvent::Item(c) => items_of(es.drop_last()).push(c),
            CommentEvent::CloseReply => items_of(es.drop_last()),
        }
    }
}

/// An event stream whose items are bare comments, with no replies of
/// their own yet.
pub open spec fn events_wf(es: Seq<CommentEvent>) -> bool {
    forall|i: int|
        0 <= i < es.len() ==> match #[trigger] es[i] {
            CommentEvent::Item(c) => c.replies.len() == 0,
            CommentEvent::CloseReply => true,
        }
}

/// Flattening distributes over concatenation.
proof fn lemma_flatten_concat(a: Seq<CommentModel>, b: Seq<CommentModel>)
    ensures
        flatten_all(a + b) == flatten_all(a) + flatten_all(b),
    decreases b.len(),
{
    if b.len() == 0 {
        assert(a + b =~= a);
        assert(flatten_all(a) + flatten_all(b) =~= flatten_all(a));
    } else {
        lemma_flatten_concat(a, b.drop_last());
        assert((a + b).drop_last() =~= a + b.drop_last());
        assert((a + b).last() == b.last());
        assert(flatten_all(a) + flatten_all(b) =~= (flatten_all(a) + flatten_all(b.drop_last()))
            + flatten_one(b.last()));
    }
}

/// One attach step keeps the flattening of the whole working forest.
proof fn lemma_attach_flat(roots: Seq<CommentModel>, stack: Seq<CommentModel>)
    ensures
        ({
            let (r2, s2) = attach_model(roots, stack);
            flatten_all(r2) + flatten_all(s2) == flatten_all(roots) + flatten_all(stack)
        }),
{
    let (r2, s2) = attach_model(roots, stack);
    if stack.len() == 0 {
    } else if stack.len() == 1 {
        assert(flatten_all(stack) == flatten_all(stack.drop_last()) + flatten_one(stack.last()));
        assert(stack.drop_last() =~= Seq::<CommentModel>::empty());
        assert(r2.drop_last() =~= roots);
        assert(flatten_all(r2) == flatten_all(roots) + flatten_one(stack.last()));
        assert(flatten_all(s2) =~= Seq::<CommentModel>::empty());
        assert(flatten_all(r2) + flatten_all(s2) =~= flatten_all(roots) + (flatten_all(
            stack.drop_last(),
        ) + flatten_one(stack.last())));
    } else {
        let top = stack.last();
        let dl = stack.drop_last();
        let pi = stack.len() - 2;
        let parent = stack[pi];
        let parent2 = CommentModel { replies: parent.replies.push(top), ..parent };
        assert(s2 =~= dl.drop_last().push(parent2));
        assert(dl.last() == parent);
        assert(flatten_all(s2) == flatten_all(dl.drop_last()) + flatten_one(parent2)) by {
            assert(s2.drop_last() =~= dl.drop_last());
            assert(s2.last() == parent2);
        }
        assert(flatten_one(parent2) == seq![strip_replies(parent)] + (flatten_all(parent.replies)
            + flatten_one(top))) by {
            assert(strip_replies(parent2) == strip_replies(parent));
            assert(parent2.replies.drop_last() =~= parent.replies);
            assert(flatten_all(parent2.replies) == flatten_all(parent.replies) + flatten_one(
                top,
            ));
        }
        assert(flatten_all(dl) == flatten_all(dl.drop_last()) + flatten_one(parent));
        assert(flatten_all(stack) == flatten_all(dl) + flatten_one(top));
        assert(flatten_all(s2) =~= flatten_all(stack));
    }
}

/// Flushing the open comments keeps the flattening of the whole working
/// forest.
proof fn lemma_flush_flat(roots: Seq<CommentModel>, stack: Seq<CommentModel>)
    ensures
        flatten_all(flush_model(roots, stack)) == flatten_all(roots) + flatten_all(stack),
    decreases stack.len(),
{
    if stack.len() == 0 {
        assert(flatten_all(stack) =~= Seq::<CommentModel>::empty());
        assert(flatten_all(roots) + flatten_all(stack) =~= flatten_all(roots));
    } else {
        let (r2, s2) = attach_model(roots, stack);
        lemma_attach_flat(roots, stack);
        assert(s2.len() < stack.len()) by {
            if stack.len() >= 2 {
                assert(s2 == stack.drop_last().update(
                    stack.len() - 2,
                    CommentModel {
                        replies: stack[stack.len() - 2].replies.push(stack.last()),
                        ..stack[stack.len() - 2]
                    },
                ));
            }
        }
        lemma_flush_flat(r2, s2);
    }
}

/// One build step adds exactly its item, if any, to the flattening.
proof fn lemma_build_step_flat(
    roots: Seq<CommentModel>,
    stack: Seq<CommentModel>,
    e: CommentEvent,
)
    requires
        match e {
            CommentEvent::Item(c) => c.replies.len() == 0,
            CommentEvent::CloseReply => true,
        },
    ensures
        ({
            let (r2, s2) = build_step(roots, stack, e);
            flatten_all(r2) + flatten_all(s2) == match e {
                CommentEvent::Item(c) => (flatten_all(roots) + flatten_all(stack)).push(c),
                CommentEvent::CloseReply => flatten_all(roots) + flatten_all(stack),
            }
        }),
{
    match e {
        CommentEvent::Item(c) => {
            assert(stack.push(c).drop_last() =~= stack);
            assert(c.replies =~= Seq::<CommentModel>::empty());
            assert(strip_replies(c) == c);
            assert(flatten_one(c) =~= seq![c]);
            assert(flatten_all(stack.push(c)) == flatten_all(stack) + seq![c]);
            assert(flatten_all(roots) + (flatten_all(stack) + seq![c]) =~= (flatten_all(roots)
                + flatten_all(stack)).push(c));
        },
        CommentEvent::CloseReply => {
            lemma_attach_flat(roots, stack);
        },
    }
}

/// Running the build over a stream adds exactly its items, in order, to
/// the flattening of the working forest.
proof fn lemma_build_run_flat(
    roots: Seq<CommentModel>,
    stack: Seq<CommentModel>,
    es: Seq<CommentEvent>,
)
    requires
        events_wf(es),
    ensures
        ({
            let (r2, s2) = build_run(roots, stack, es);
            flatten_all(r2) + flatten_all(s2) == (flatten_all(roots) + flatten_all(stack))
                + items_of(es)
        }),
    decreases es.len(),
{
    if es.len() == 0 {
        assert((flatten_all(roots) + flatten_all(stack)) + items_of(es) =~= flatten_all(roots)
            + flatten_all(stack));
    } else {
        let (r1, s1) = build_step(roots, stack, es[0]);
        assert(events_wf(es.drop_first())) by {
            assert(forall|i: int|
                0 <= i < es.drop_first().len() ==> es.drop_first()[i] == #[trigger] es[i + 1]);
        }
        lemma_build_step_flat(roots, stack, es[0]);
        lemma_build_run_flat(r1, s1, es.drop_first());
        lemma_items_first(es);
        let (r2, s2) = build_run(roots, stack, es);
        assert(flatten_all(r2) + flatten_all(s2) == (flatten_all(r1) + flatten_all(s1))
            + items_of(es.drop_first()));
        match es[0] {
            CommentEvent::Item(c) => {
                assert(((flatten_all(roots) + flatten_all(stack)).push(c)) + items_of(
                    es.drop_first(),
                ) =~= (flatten_all(roots) + flatten_all(stack)) + (seq![c] + items_of(
                    es.drop_first(),
                )));
            },
            CommentEvent::CloseReply => {
            },
        }
    }
}

/// The items of a stream are its first item, if the stream starts with
/// one, followed by the items of the rest.
proof fn lemma_items_first(es: Seq<CommentEvent>)
    requires
        es.len() > 0,
    ensures
        items_of(es) == match es[0] {
            CommentEvent::Item(c) => seq![c] + items_of(es.drop_first()),
            CommentEvent::CloseReply => items_of(es.drop_first()),
        },
    decreases es.len(),
{
    if es.len() == 1 {
        assert(es.drop_last() =~= Seq::<CommentEvent>::empty());
        assert(es.drop_first() =~= Seq::<CommentEvent>::empty());
        match es[0] {
            CommentEvent::Item(c) => {
                assert(items_of(es) =~= seq![c] + items_of(es.drop_first()));
            },
            CommentEvent::CloseReply => {
            },
        }
    } else {
        lemma_items_first(es.drop_last());
        assert(es.drop_last()[0] == es[0]);
        assert(es.drop_last().drop_first() =~= es.drop_first().drop_last());
        assert(es.drop_first().last() == es.last());
        match es[0] {
            CommentEvent::Item(c) => {
                match es.last() {
                    CommentEvent::Item(d) => {
                        assert(items_of(es) == items_of(es.drop_last()).push(d));
                        assert(items_of(es.drop_first()) == items_of(
                            es.drop_first().drop_last(),
                        ).push(d));
                        assert(seq![c] + items_of(es.drop_first().drop_last()).push(d) =~= (
                        seq![c] + items_of(es.drop_first().drop_last())).push(d));
                    },
                    CommentEvent::CloseReply => {
                        assert(items_of(es.drop_first()) == items_of(
                            es.drop_first().drop_last(),
                        ));
                    },
                }
            },
            CommentEvent::CloseReply => {
                match es.last() {
                    CommentEvent::Item(d) => {
                        assert(items_of(es.drop_first()) == items_of(
                            es.drop_first().drop_last(),
                        ).push(d));
                    },
                    CommentEvent::CloseReply => {
                    },
                }
            },
        }
    }
}

/// Law: for any flat stream of comment items and closing markers at
/// whatever depths, the depth-first flattening of the reconstructed reply
/// tree recovers exactly the streamed comments, in their original order.
pub proof fn lemma_comment_tree_flatten(es: Seq<CommentEvent>)
    requires
        events_wf(es),
    ensures
        flatten_all(build_forest(es)) == items_of(es),
{
    let (r, s) = build_run(Seq::empty(), Seq::empty(), es);
    lemma_build_run_flat(Seq::empty(), Seq::empty(), es);
    lemma_flush_flat(r, s);
    assert(flatten_all(Seq::<CommentModel>::empty()) =~= Seq::<CommentModel>::empty());
    assert((flatten_all(Seq::<CommentModel>::empty()) + flatten_all(
        Seq::<CommentModel>::empty(),
    )) + items_of(es) =~= items_of(es));
}

/// The raw text of the first script block: the text token right after
/// the first bare script tag.
pub open spec fn spec_first_script_text(toks: Seq<TokenModel>) -> Result<Seq<char>, Seq<char>>
    decreases toks.len(),
{
    if toks.len() == 0 {
        Err("Error while finding script"@)
    } else {
        match toks[0] {
            TokenModel::Open(n, attrs) => if n == "script"@ && attrs.len() == 0 {
                if toks.len() < 2 {
                    Err("Error while reading script"@)
                } else {
                    match toks[1] {
                        TokenModel::Text(t) => Ok(t),
                        _ => Err("Assertion error: script should be a text"@),
                    }
                }
            } else {
                spec_first_script_text(toks.drop_first())
            },
            _ => spec_first_script_text(toks.drop_first()),
        }
    }
}

/// Finds the first script block's raw text.
fn first_script_text(toks: &Vec<HtmlToken>) -> (r: Result<String, String>)
    ensures
        match (r, spec_first_script_text(toks@.map_values(|t: HtmlToken| t@))) {
            (Ok(v), Ok(m)) => v@ == m,
            (Err(e), Err(m)) => e@ == m,
            _ => false,
        },
{
    let ghost models = toks@.map_values(|t: HtmlToken| t@);
    let mut i: usize = 0;
    proof {
        assert(models.skip(0) =~= models);
    }
    while i < toks.len()
        invariant
            models == toks@.map_values(|t: HtmlToken| t@),
            i <= toks.len(),
            spec_first_script_text(models) == spec_first_script_text(models.skip(i as int)),
        decreases toks.len() - i,
    {
        proof {
            assert(models.skip(i as int)[0] == models[i as int]);
            assert(models.skip(i as int).drop_first() =~= models.skip(i as int + 1));
        }
        match &toks[i] {
            HtmlToken::Open(n, attrs) => {
                if str_eq(n.as_str(), "script") && attrs.len() == 0 {
                    proof {
                        assert(models[i as int] matches TokenModel::Open(nn, aa) && nn == n@
                            && aa.len() == 0);
                        assert(models.skip(i as int).len() == models.len() - i);
                        if i + 1 < toks@.len() {
                            assert(models.skip(i as int)[1] == models[i as int + 1]);
                        }
                    }
                    if i + 1 >= toks.len() {
                        return Err("Error while reading script".to_owned());
                    }
                    match &toks[i + 1] {
                        HtmlToken::Text(t) => {
                            return Ok(t.clone());
                        },
                        _ => {
                            return Err("Assertion error: script should be a text".to_owned());
                        },
                    }
                }
            },
            _ => {},
        }
        i += 1;
    }
    proof {
        assert(models.skip(toks@.len() as int) =~= Seq::<TokenModel>::empty());
    }
    Err("Error while finding script".to_owned())
}

/// The quoted payload after the raw-data marker of a script.
#[verifier::opaque]
pub open spec fn spec_rawdata_of(script: Seq<char>) -> Result<Seq<char>, Seq<char>> {
    if !crate::text::contains_seq(script, "rawData"@) {
        Err("Error while finding rawData of the script"@)
    } else {
        let t1 = script.skip(crate::text::first_occurrence(script, "rawData"@));
        match crate::text::find_char_spec(t1, '"') {
            None => Err("Error while finding start position of the script"@),
            Some(q1) => {
                let t2 = t1.skip(q1 + 1);
                match crate::text::find_char_spec(t2, '"') {
                    None => Err("Error while finding end position of the script"@),
                    Some(q2) => Ok(t2.take(q2)),
                }
            },
        }
    }
}

/// Extracts the quoted payload after the raw-data marker.
fn rawdata_of(script: &str) -> (r: Result<String, String>)
    ensures
        match (r, spec_rawdata_of(script@)) {
            (Ok(v), Ok(m)) => v@ == m,
            (Err(e), Err(m)) => e@ == m,
            _ => false,
        },
{
    proof {
        reveal(spec_rawdata_of);
        reveal_strlit("rawData");
    }
    let start = match crate::text::find_sub(script, "rawData") {
        None => {
            return Err("Error while finding rawData of the script".to_owned());
        },
        Some(i) => i,
    };
    proof {
        let j = crate::text::first_occurrence(script@, "rawData"@);
        assert(crate::text::occurs_at(script@, "rawData"@, j) && forall|k: int|
            0 <= k < j ==> !crate::text::occurs_at(script@, "rawData"@, k)) by {
            assert(crate::text::occurs_at(script@, "rawData"@, start as int));
        }
        if j < start as int {
            assert(!crate::text::occurs_at(script@, "rawData"@, j));
        } else if (start as int) < j {
            assert(!crate::text::occurs_at(script@, "rawData"@, start as int));
        }
        assert(j == start as int);
    }
    let slen = script.unicode_len();
    let t1 = script.substring_char(start, slen);
    let q1 = match crate::text::find_char(t1, '"') {
        None => {
            proof {
                assert(crate::text::find_char_spec(script@.skip(start as int), '"') is None);
            }
            return Err("Error while finding start position of the script".to_owned());
        },
        Some(q) => {
            proof {
                crate::text::lemma_find_char_unique(script@.skip(start as int), '"', q as int);
            }
            q
        },
    };
    let t1len = t1.unicode_len();
    let t2 = t1.substring_char(q1 + 1, t1len);
    let q2 = match crate::text::find_char(t2, '"') {
        None => {
            proof {
                assert(crate::text::find_char_spec(
                    script@.skip(start as int).skip(q1 + 1),
                    '"',
                ) is None) by {
                    assert(t2@ =~= script@.skip(start as int).skip(q1 + 1));
                }
            }
            return Err("Error while finding end position of the script".to_owned());
        },
        Some(q) => {
            proof {
                crate::text::lemma_find_char_unique(t2@, '"', q as int);
                assert(t2@ =~= script@.skip(start as int).skip(q1 + 1));
            }
            q
        },
    };
    let out = t2.substring_char(0, q2).to_owned();
    proof {
        assert(out@ =~= script@.skip(start as int).skip(q1 + 1).take(q2 as int));
    }
    Ok(out)
}

/// A download entry of the decoded listing.
pub type FileEntry = (String, (String, Option<u128>));

/// One field of a listing date: a missing piece or an unreadable number
/// raises the field's own failure; fields the original held in one byte
/// reject larger values the same way.
pub open spec fn spec_listing_field(
    piece: Option<Seq<char>>,
    byte_sized: bool,
    missing: Seq<char>,
    bad: Seq<char>,
) -> Result<u32, Seq<char>> {
    match piece {
        None => Err(missing),
        Some(s) => match spec_num_field(s) {
            None => Err(bad),
            Some(v) => if byte_sized && v > 255 {
                Err(bad)
            } else {
                Ok(v)
            },
        },
    }
}

fn listing_field(piece: Option<String>, byte_sized: bool, missing: &str, bad: &str) -> (r: Result<
    u32,
    String,
>)
    ensures
        match (r, spec_listing_field(opt_text(piece), byte_sized, missing@, bad@)) {
            (Ok(v), Ok(w)) => v == w,
            (Err(e), Err(w)) => e@ == w,
            _ => false,
        },
{
    match piece {
        None => Err(missing.to_owned()),
        Some(s) => match parse_dec_u32(s.as_str()) {
            None => Err(bad.to_owned()),
            Some(v) => if byte_sized && v > 255 {
                Err(bad.to_owned())
            } else {
                Ok(v)
            },
        },
    }
}

/// The date form the listing carries: `Y/M/D H:M:S`. Checking it can fail
/// on a missing half, on each unreadable field — named as the year, month,
/// day, hour, minute or second — or on an invalid calendar date or time of
/// day.
#[verifier::opaque]
pub open spec fn spec_check_listing_date(s: Seq<char>) -> Option<Seq<char>> {
    let t = trim_spec(s);
    if t.len() == 0 {
        Some("Error while parsing date from file detail"@)
    } else {
        let (date_txt, rest) = spec_split_once(t, ' ');
        match rest {
            None => Some("Error while parsing time from file detail"@),
            Some(time_txt) => {
                let (y_txt, d1) = spec_split_once(date_txt, '/');
                let (m_txt, d2) = match d1 {
                    Some(v) => spec_split_once(v, '/'),
                    None => (Seq::empty(), None),
                };
                let d_txt = match d2 {
                    Some(v) => Some(spec_split_once(v, '/').0),
                    None => None,
                };
                let (h_txt, t1) = spec_split_once(time_txt, ':');
                let (mi_txt, t2) = match t1 {
                    Some(v) => spec_split_once(v, ':'),
                    None => (Seq::empty(), None),
                };
                let s_txt = match t2 {
                    Some(v) => Some(spec_split_once(v, ':').0),
                    None => None,
                };
                match spec_listing_field(
                    Some(y_txt),
                    false,
                    "Bad date"@,
                    "Error while parsing year"@,
                ) {
                    Err(e) => Some(e),
                    Ok(y) => match spec_listing_field(
                        match d1 {
                            Some(_) => Some(m_txt),
                            None => None,
                        },
                        true,
                        "Bad date"@,
                        "Error while parsing month"@,
                    ) {
                        Err(e) => Some(e),
                        Ok(m) => match spec_listing_field(
                            d_txt,
                            true,
                            "Bad date"@,
                            "Error while parsing day"@,
                        ) {
                            Err(e) => Some(e),
                            Ok(d) => if !(y <= 9999 && 1 <= m <= 12 && 1 <= d
                                <= crate::datetime::spec_days_in_month(y as nat, m as nat)) {
                                Some("Error while parsing date from file detail"@)
                            } else {
                                match spec_listing_field(
                                    Some(h_txt),
                                    true,
                                    "Bad time"@,
                                    "Error while parsing hour"@,
                                ) {
                                    Err(e) => Some(e),
                                    Ok(h) => match spec_listing_field(
                                        match t1 {
                                            Some(_) => Some(mi_txt),
                                            None => None,
                                        },
                                        true,
                                        "Bad time"@,
                                        "Error while parsing minute"@,
                                    ) {
                                        Err(e) => Some(e),
                                        Ok(mi) => match spec_listing_field(
                                            s_txt,
                                            true,
                                            "Bad time"@,
                                            "Error while parsing second"@,
                                        ) {
                                            Err(e) => Some(e),
                                            Ok(sec) => if h <= 23 && mi <= 59 && sec <= 59 {
                                                None
                                            } else {
                                                Some(
                                                    "Error while parsing time from file detail"@,
                                                )
                                            },
                                        },
                                    },
                                }
                            },
                        },
                    },
                }
            },
        }
    }
}

/// Checks one listing date, yielding the failure it raises, if any.
#[verifier::rlimit(100)]
fn check_listing_date(s: &str) -> (r: Option<String>)
    ensures
        match (r, spec_check_listing_date(s@)) {
            (Some(e), Some(m)) => e@ == m,
            (None, None) => true,
            _ => false,
        },
{
    proof {
        reveal(spec_check_listing_date);
    }
    let t = trim(s);
    if t.as_str().unicode_len() == 0 {
        return Some("Error while parsing date from file detail".to_owned());
    }
    let (date_txt, rest) = split_once(t.as_str(), ' ');
    let time_txt = match rest {
        None => {
            return Some("Error while parsing time from file detail".to_owned());
        },
        Some(v) => v,
    };
    let (y_txt, d1) = split_once(date_txt.as_str(), '/');
    let (m_txt, d2) = match &d1 {
        Some(v) => split_once(v.as_str(), '/'),
        None => (String::new(), None),
    };
    let d_txt = match d2 {
        Some(v) => {
            let (piece, _tail) = split_once(v.as_str(), '/');
            Some(piece)
        },
        None => None,
    };
    let (h_txt, t1) = split_once(time_txt.as_str(), ':');
    let (mi_txt, t2) = match &t1 {
        Some(v) => split_once(v.as_str(), ':'),
        None => (String::new(), None),
    };
    let s_txt = match t2 {
        Some(v) => {
            let (piece, _tail) = split_once(v.as_str(), ':');
            Some(piece)
        },
        None => None,
    };
    let y = match listing_field(Some(y_txt), false, "Bad date", "Error while parsing year") {
        Err(e) => {
            return Some(e);
        },
        Ok(v) => v,
    };
    let m_piece = match &d1 {
        Some(_) => Some(m_txt),
        None => None,
    };
    let m = match listing_field(m_piece, true, "Bad date", "Error while parsing month") {
        Err(e) => {
            return Some(e);
        },
        Ok(v) => v,
    };
    let d = match listing_field(d_txt, true, "Bad date", "Error while parsing day") {
        Err(e) => {
            return Some(e);
        },
        Ok(v) => v,
    };
    let date_ok = y <= 9999 && 1 <= m && m <= 12 && 1 <= d && d <= crate::datetime::days_in_month(
        y,
        m as u8,
    ) as u32;
    if !date_ok {
        return Some("Error while parsing date from file detail".to_owned());
    }
    let h = match listing_field(Some(h_txt), true, "Bad time", "Error while parsing hour") {
        Err(e) => {
            return Some(e);
        },
        Ok(v) => v,
    };
    let mi_piece = match &t1 {
        Some(_) => Some(mi_txt),
        None => None,
    };
    let mi = match listing_field(mi_piece, true, "Bad time", "Error while parsing minute") {
        Err(e) => {
            return Some(e);
        },
        Ok(v) => v,
    };
    let sec = match listing_field(s_txt, true, "Bad time", "Error while parsing second") {
        Err(e) => {
            return Some(e);
        },
        Ok(v) => v,
    };
    if h <= 23 && mi <= 59 && sec <= 59 {
        None
    } else {
        Some("Error while parsing time from file detail".to_owned())
    }
}

/// The value of the first pair with the given key.
pub open spec fn obj_lookup(pairs: crate::json::PairsModel, k: Seq<char>) -> Option<Seq<char>>
    decreases pairs.len(),
{
    if pairs.len() == 0 {
        None
    } else if pairs[0].0 == k {
        Some(pairs[0].1)
    } else {
        obj_lookup(pairs.drop_first(), k)
    }
}

/// Finds the first pair with the given key.
fn obj_get(pairs: &Vec<(String, String)>, k: &str) -> (r: Option<String>)
    ensures
        crate::record::opt_text(r) == obj_lookup(crate::json::pairs_model(pairs@), k@),
{
    let ghost pm = crate::json::pairs_model(pairs@);
    let mut i: usize = 0;
    proof {
        assert(pm.skip(0) =~= pm);
    }
    while i < pairs.len()
        invariant
            pm == crate::json::pairs_model(pairs@),
            i <= pairs@.len(),
            obj_lookup(pm, k@) == obj_lookup(pm.skip(i as int), k@),
        decreases pairs@.len() - i,
    {
        proof {
            assert(pm.skip(i as int)[0] == pm[i as int]);
            assert(pm.skip(i as int).drop_first() =~= pm.skip(i as int + 1));
        }
        if str_eq(pairs[i].0.as_str(), k) {
            return Some(pairs[i].1.clone());
        }
        i += 1;
    }
    proof {
        assert(pm.skip(pairs@.len() as int) =~= Seq::<(Seq<char>, Seq<char>)>::empty());
    }
    None
}

/// One listing object turned into a download entry: the locator is the
/// page address and the raw name; the stored name is percent-decoded;
/// the size reads through the size parser; the date must check out.
pub open spec fn spec_entry_of_obj(
    pairs: crate::json::PairsModel,
    url: Seq<char>,
) -> Result<(Seq<char>, (Seq<char>, Option<u128>)), Seq<char>> {
    match (obj_lookup(pairs, "name"@), obj_lookup(pairs, "size"@), obj_lookup(pairs, "date"@)) {
        (Some(name), Some(size), Some(date)) => match spec_check_listing_date(date) {
            Some(e) => Err(e),
            None => Ok(
                (
                    crate::trusted::percent_decoded_of(name),
                    (url + "/"@ + name, crate::trusted::parsed_size_of(size)),
                ),
            ),
        },
        _ => Err("Error while deserializing script"@),
    }
}

/// Turns one listing object into a download entry.
fn entry_of_obj(pairs: &Vec<(String, String)>, url: &str) -> (r: Result<FileEntry, String>)
    ensures
        match (r, spec_entry_of_obj(crate::json::pairs_model(pairs@), url@)) {
            (Ok(v), Ok(m)) => crate::record::file_model(v) == m,
            (Err(e), Err(m)) => e@ == m,
            _ => false,
        },
{
    let name = obj_get(pairs, "name");
    let size = obj_get(pairs, "size");
    let date = obj_get(pairs, "date");
    match (name, size, date) {
        (Some(name), Some(size), Some(date)) => {
            match check_listing_date(date.as_str()) {
                Some(e) => Err(e),
                None => {
                    let mut link = url.to_owned();
                    link.append("/");
                    link.append(name.as_str());
                    let decoded = crate::trusted::percent_decode_text(name.as_str());
                    let sz = crate::trusted::parse_size_text(size.as_str());
                    Ok((decoded, (link, sz)))
                },
            }
        },
        _ => Err("Error while deserializing script".to_owned()),
    }
}

/// The decoded download listing of a page's script: the quoted payload,
/// unescaped, base64-decoded, read as UTF-8, parsed as a flat object
/// array, and each object turned into a download entry.
pub open spec fn spec_parse_file_information(toks: Seq<TokenModel>, url: Seq<char>) -> Result<
    Seq<(Seq<char>, (Seq<char>, Option<u128>))>,
    Seq<char>,
> {
    match spec_first_script_text(toks) {
        Err(e) => Err(e),
        Ok(script) => match spec_rawdata_of(script) {
            Err(e) => Err(e),
            Ok(raw) => match crate::trusted::unescaped_of(raw) {
                None => Err("Error while unescaping quote"@),
                Some(u) => match crate::trusted::base64_decoded_of(u) {
                    None => Err("Error while parsing script"@),
                    Some(bytes) => if !vstd::utf8::valid_utf8(bytes) {
                        Err("Error while deserializing script"@)
                    } else {
                        match crate::json::spec_parse_flat_objects(
                            vstd::utf8::decode_utf8(bytes),
                        ) {
                            None => Err("Error while deserializing script"@),
                            Some(objs) => spec_entries_of_objs(objs, url),
                        }
                    },
                },
            },
        },
    }
}

/// Each listing object turned into an entry; the first failure wins.
pub open spec fn spec_entries_of_objs(
    objs: Seq<crate::json::PairsModel>,
    url: Seq<char>,
) -> Result<Seq<(Seq<char>, (Seq<char>, Option<u128>))>, Seq<char>>
    decreases objs.len(),
{
    if objs.len() == 0 {
        Ok(Seq::empty())
    } else {
        match spec_entries_of_objs(objs.drop_last(), url) {
            Err(e) => Err(e),
            Ok(es) => match spec_entry_of_obj(objs.last(), url) {
                Err(e) => Err(e),
                Ok(v) => Ok(es.push(v)),
            },
        }
    }
}

/// Decodes the download listing a page's script embeds.
pub fn parse_file_information(toks: &Vec<HtmlToken>, url: &str) -> (r: Result<
    Vec<FileEntry>,
    String,
>)
    ensures
        match (r, spec_parse_file_information(toks@.map_values(|t: HtmlToken| t@), url@)) {
            (Ok(v), Ok(m)) => v@.map_values(
                |f: (String, (String, Option<u128>))| crate::record::file_model(f),
            ) == m,
            (Err(e), Err(m)) => e@ == m,
            _ => false,
        },
{
    let script = match first_script_text(toks) {
        Err(e) => {
            return Err(e);
        },
        Ok(s) => s,
    };
    let raw = match rawdata_of(script.as_str()) {
        Err(e) => {
            return Err(e);
        },
        Ok(s) => s,
    };
    let unescaped = match crate::trusted::unescape_text(raw.as_str()) {
        None => {
            return Err("Error while unescaping quote".to_owned());
        },
        Some(u) => u,
    };
    let bytes = match crate::trusted::base64_decode(unescaped.as_str()) {
        None => {
            return Err("Error while parsing script".to_owned());
        },
        Some(b) => b,
    };
    let text = match crate::trusted::utf8_to_string(bytes) {
        None => {
            return Err("Error while deserializing script".to_owned());
        },
        Some(t) => t,
    };
    let objs = match crate::json::parse_flat_objects(text.as_str()) {
        None => {
            return Err("Error while deserializing script".to_owned());
        },
        Some(o) => o,
    };
    let ghost om = objs@.map_values(
        |o: Vec<(String, String)>| crate::json::pairs_model(o@),
    );
    let ghost models = toks@.map_values(|t: HtmlToken| t@);
    proof {
        assert(spec_parse_file_information(models, url@) == spec_entries_of_objs(om, url@));
    }
    let mut out: Vec<FileEntry> = Vec::new();
    let mut i: usize = 0;
    proof {
        assert(om.take(0) =~= Seq::<crate::json::PairsModel>::empty());
        assert(out@.map_values(
            |f: (String, (String, Option<u128>))| crate::record::file_model(f),
        ) =~= Seq::<(Seq<char>, (Seq<char>, Option<u128>))>::empty());
    }
    while i < objs.len()
        invariant
            om == objs@.map_values(|o: Vec<(String, String)>| crate::json::pairs_model(o@)),
            i <= objs@.len(),
            spec_parse_file_information(toks@.map_values(|t: HtmlToken| t@), url@)
                == spec_entries_of_objs(om, url@),
            spec_entries_of_objs(om.take(i as int), url@) == Ok::<_, Seq<char>>(
                out@.map_values(
                    |f: (String, (String, Option<u128>))| crate::record::file_model(f),
                ),
            ),
        decreases objs@.len() - i,
    {
        proof {
            assert(om.take(i as int + 1).drop_last() =~= om.take(i as int));
            assert(om.take(i as int + 1).last() == om[i as int]);
        }
        match entry_of_obj(&objs[i], url) {
            Err(e) => {
                proof {
                    lemma_entries_prefix_err(om, url@, i as int);
                }
                return Err(e);
            },
            Ok(v) => {
                let ghost o0 = out@;
                out.push(v);
                proof {
                    assert(out@.map_values(
                        |f: (String, (String, Option<u128>))| crate::record::file_model(f),
                    ) =~= o0.map_values(
                        |f: (String, (String, Option<u128>))| crate::record::file_model(f),
                    ).push(crate::record::file_model(out@.last())));
                }
            },
        }
        i += 1;
    }
    proof {
        assert(om.take(om.len() as int) =~= om);
    }
    Ok(out)
}

/// A failure on one object fails the whole listing.
proof fn lemma_entries_prefix_err(objs: Seq<crate::json::PairsModel>, url: Seq<char>, i: int)
    requires
        0 <= i < objs.len(),
        spec_entries_of_objs(objs.take(i), url) is Ok,
        spec_entry_of_obj(objs[i], url) is Err,
    ensures
        spec_entries_of_objs(objs, url) == Err::<
            Seq<(Seq<char>, (Seq<char>, Option<u128>))>,
            _,
        >(spec_entry_of_obj(objs[i], url)->Err_0),
    decreases objs.len(),
{
    if objs.len() - 1 > i {
        assert(objs.drop_last().take(i) =~= objs.take(i));
        assert(objs.drop_last()[i] == objs[i]);
        lemma_entries_prefix_err(objs.drop_last(), url, i);
    } else {
        assert(objs.take(i) =~= objs.drop_last());
        assert(objs.last() == objs[i]);
    }
}

/// The listing address a page's record asks to fetch, if any: its overall
/// link, unless that link points at the excluded mirror host.
pub open spec fn spec_file_fetch_target(m: RecordModel) -> Option<Seq<char>> {
    match crate::record::misc_lookup(m.miscellaneous, "overall_link"@) {
        None => None,
        Some(link) => if crate::text::contains_seq(link, "pan.baidu.com"@) {
            None
        } else {
            Some(link)
        },
    }
}

/// The listing address to fetch for an extracted page, if any.
pub fn file_fetch_target(x: &PageExtract) -> (r: Option<String>)
    ensures
        crate::record::opt_text(r) == spec_file_fetch_target(x.record@),
{
    let link = match x.record.misc_get("overall_link") {
        None => {
            return None;
        },
        Some(l) => l,
    };
    if crate::text::contains_sub(link.as_str(), "pan.baidu.com") {
        None
    } else {
        Some(link)
    }
}

/// The warning logged when a download listing cannot be read and the raw
/// link is kept as text instead.
pub open spec fn spec_listing_warning(e: Seq<char>) -> Seq<char> {
    "Error while parsing download url: "@ + e + ", storing it as pure text."@
}

/// The finished record of an extracted page: the listing outcome resolves
/// the download entries or degrades to a plain download-link paragraph,
/// and the screenshots close the paragraphs.
pub open spec fn spec_finalize_record(
    pm: PageModel,
    outcome: Option<Result<Seq<(Seq<char>, (Seq<char>, Option<u128>))>, Seq<char>>>,
) -> (RecordModel, Option<Seq<char>>) {
    let shots_para = (Some("Screenshots"@), pm.screenshots);
    match crate::record::misc_lookup(pm.record.miscellaneous, "overall_link"@) {
        None => (
            RecordModel { paragraphs: pm.record.paragraphs.push(shots_para), ..pm.record },
            None,
        ),
        Some(link) => {
            let link_para = (Some("Download link"@), seq![ContentModel::Text(link)]);
            match outcome {
                Some(Ok(files)) => (
                    RecordModel {
                        files: files,
                        paragraphs: pm.record.paragraphs.push(shots_para),
                        ..pm.record
                    },
                    None,
                ),
                Some(Err(e)) => (
                    RecordModel {
                        paragraphs: pm.record.paragraphs.push(link_para).push(shots_para),
                        ..pm.record
                    },
                    Some(spec_listing_warning(e)),
                ),
                None => (
                    RecordModel {
                        paragraphs: pm.record.paragraphs.push(link_para).push(shots_para),
                        ..pm.record
                    },
                    None,
                ),
            }
        },
    }
}

/// The model of a listing outcome.
pub open spec fn outcome_model(o: Option<Result<Vec<FileEntry>, String>>) -> Option<
    Result<Seq<(Seq<char>, (Seq<char>, Option<u128>))>, Seq<char>>,
> {
    match o {
        None => None,
        Some(Ok(v)) => Some(
            Ok(
                v@.map_values(
                    |f: (String, (String, Option<u128>))| crate::record::file_model(f),
                ),
            ),
        ),
        Some(Err(e)) => Some(Err(e@)),
    }
}

/// Finishes an extracted page with its listing outcome; the caller passes
/// an outcome exactly when the page asked for a listing fetch. Returns
/// the finished record and the degradation warning to log, if any.
#[verifier::rlimit(100)]
pub fn finalize_record(x: PageExtract, outcome: Option<Result<Vec<FileEntry>, String>>) -> (r: (
    GameTextInformation,
    Option<String>,
))
    requires
        (outcome is Some) == (spec_file_fetch_target(x.record@) is Some),
    ensures
        (r.0@, crate::record::opt_text(r.1)) == spec_finalize_record(
            x@,
            outcome_model(outcome),
        ),
{
    let ghost pm = x@;
    let PageExtract { mut record, screenshots } = x;
    let link = record.misc_get("overall_link");
    let mut warning: Option<String> = None;
    match link {
        None => {},
        Some(link) => {
            match outcome {
                Some(Ok(files)) => {
                    record.files = files;
                },
                Some(Err(e)) => {
                    let mut w = String::from_str("Error while parsing download url: ");
                    w.append(e.as_str());
                    w.append(", storing it as pure text.");
                    warning = Some(w);
                    let ghost p0 = record.paragraphs@;
                    record.paragraphs.push(
                        (
                            Some(String::from_str("Download link")),
                            vec![ParagraphContent::Text(link)],
                        ),
                    );
                    proof {
                        lemma_paragraph_push(pm_to_state(pm), p0, record.paragraphs@);
                        assert(record.paragraphs@.last().1@.map_values(
                            |c: ParagraphContent| c@,
                        ) =~= seq![
                            ContentModel::Text(record.paragraphs@.last().1@[0].arrow_Text_0()@),
                        ]);
                    }
                },
                None => {
                    let ghost p0 = record.paragraphs@;
                    record.paragraphs.push(
                        (
                            Some(String::from_str("Download link")),
                            vec![ParagraphContent::Text(link)],
                        ),
                    );
                    proof {
                        lemma_paragraph_push(pm_to_state(pm), p0, record.paragraphs@);
                        assert(record.paragraphs@.last().1@.map_values(
                            |c: ParagraphContent| c@,
                        ) =~= seq![
                            ContentModel::Text(record.paragraphs@.last().1@[0].arrow_Text_0()@),
                        ]);
                    }
                },
            }
        },
    }
    let ghost p1 = record.paragraphs@;
    record.paragraphs.push((Some(String::from_str("Screenshots")), screenshots));
    proof {
        lemma_paragraph_push(pm_to_state(pm), p1, record.paragraphs@);
    }
    (record, warning)
}

/// A page model restated as an engine state, for proof reuse.
pub open spec fn pm_to_state(pm: PageModel) -> StateModel {
    StateModel {
        record: pm.record,
        screenshots: pm.screenshots,
        roots: Seq::empty(),
        stack: Seq::empty(),
        mode: ModeModel::Top,
    }
}

/// Tokenizes raw markup and runs the extraction engine over it. A page
/// outside the tokenizer's input subset is rejected with a failure of its
/// own; within it, the result is exactly the engine's verdict on the
/// page's token stream.
pub fn extract_information_from_page(html: &str, url: &str) -> (r: Result<PageExtract, String>)
    ensures
        crate::token::spec_page_tokenizable(html@) ==> match (
            r,
            spec_extract_information(crate::trusted::tokens_of(html@), url@),
        ) {
            (Ok(p), Ok(pm)) => p@ == pm,
            (Err(e), Err(m)) => e@ == m,
            _ => false,
        },
        !crate::token::spec_page_tokenizable(html@) ==> (r matches Err(e) && e@
            == "Unsupported markup in page"@),
{
    if !crate::token::page_tokenizable(html) {
        return Err("Unsupported markup in page".to_owned());
    }
    let toks = crate::trusted::tokenize_html(html);
    extract_information(&toks, url)
}

/// Tokenizes raw markup and scans it for the item locators it lists; the
/// result is exactly the scan of the page's token stream, and a page
/// outside the tokenizer's input subset is rejected.
pub fn extract_index_links_from_page(html: &str) -> (r: Result<Vec<String>, String>)
    ensures
        crate::token::spec_page_tokenizable(html@) ==> match (
            r,
            spec_extract_index_links(crate::trusted::tokens_of(html@)),
        ) {
            (Ok(links), Ok(m)) => links@.map_values(|l: String| l@) == m,
            (Err(e), Err(m)) => e@ == m,
            _ => false,
        },
        !crate::token::spec_page_tokenizable(html@) ==> (r matches Err(e) && e@
            == "Unsupported markup in page"@),
{
    if !crate::token::page_tokenizable(html) {
        return Err("Unsupported markup in page".to_owned());
    }
    let toks = crate::trusted::tokenize_html(html);
    extract_index_links(&toks)
}

/// Tokenizes raw markup and checks it for the anti-automation challenge;
/// the result is exactly the check of the page's token stream, and a page
/// outside the tokenizer's input subset is rejected.
pub fn challenge_action_on_page(html: &str) -> (r: Result<Option<String>, String>)
    ensures
        crate::token::spec_page_tokenizable(html@) ==> match (
            r,
            spec_challenge_action(crate::trusted::tokens_of(html@)),
        ) {
            (Ok(a), Ok(m)) => crate::record::opt_text(a) == m,
            (Err(e), Err(m)) => e@ == m,
            _ => false,
        },
        !crate::token::spec_page_tokenizable(html@) ==> (r matches Err(e) && e@
            == "Unsupported markup in page"@),
{
    if !crate::token::page_tokenizable(html) {
        return Err("Unsupported markup in page".to_owned());
    }
    let toks = crate::trusted::tokenize_html(html);
    challenge_action(&toks)
}

/// Tokenizes raw markup and decodes the download listing it embeds; the
/// result is exactly the decode of the page's token stream, and a page
/// outside the tokenizer's input subset is rejected.
pub fn parse_file_information_from_page(html: &str, url: &str) -> (r: Result<
    Vec<FileEntry>,
    String,
>)
    ensures
        crate::token::spec_page_tokenizable(html@) ==> match (
            r,
            spec_parse_file_information(crate::trusted::tokens_of(html@), url@),
        ) {
            (Ok(v), Ok(m)) => v@.map_values(
                |f: (String, (String, Option<u128>))| crate::record::file_model(f),
            ) == m,
            (Err(e), Err(m)) => e@ == m,
            _ => false,
        },
        !crate::token::spec_page_tokenizable(html@) ==> (r matches Err(e) && e@
            == "Unsupported markup in page"@),
{
    if !crate::token::page_tokenizable(html) {
        return Err("Unsupported markup in page".to_owned());
    }
    let toks = crate::trusted::tokenize_html(html);
    parse_file_information(&toks, url)
}

/// Pushing one paragraph onto a record appends its model./// Pushing one paragraph onto a record appends its model.
proof fn lemma_paragraph_push(
    st0: StateModel,
    before: Seq<(Option<String>, Vec<ParagraphContent>)>,
    after: Seq<(Option<String>, Vec<ParagraphContent>)>,
)
    requires
        after.len() == before.len() + 1,
        forall|i: int| 0 <= i < before.len() ==> after[i] == before[i],
    ensures
        after.map_values(|p: (Option<String>, Vec<ParagraphContent>)| paragraph_model(p))
            == before.map_values(
            |p: (Option<String>, Vec<ParagraphContent>)| paragraph_model(p),
        ).push(paragraph_model(after.last())),
{
    assert(after.map_values(|p: (Option<String>, Vec<ParagraphContent>)| paragraph_model(p))
        =~= before.map_values(
        |p: (Option<String>, Vec<ParagraphContent>)| paragraph_model(p),
    ).push(paragraph_model(after.last())));
}

} // verus!
