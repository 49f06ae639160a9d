//! The export renderer: one flat document per archived record, with every
//! referenced image resolved to a cached local file when the blob store
//! holds it, or left at its remote locator otherwise.

use vstd::prelude::*;
use crate::datetime::date_time_text;
use crate::record::{
    blob_lookup, Comment, ContentModel, CommentModel, GameBinaryDatabase, GameTextInformation,
    ParagraphContent, RecordModel,
};
use crate::text::{dec_str, u128_to_string, u64_to_string};
use crate::trusted::{base64_url, base64_url_of, human_size, human_size_of};

verus! {

/// A locator truncated to its trailing characters before hashing, so that
/// overlong names stay filesystem safe.
pub open spec fn trunc_tail_spec(s: Seq<char>) -> Seq<char> {
    if s.len() > 64 {
        s.subrange(s.len() - 64, s.len() as int)
    } else {
        s
    }
}

/// The short, collision-resistant name a locator is cached under.
pub open spec fn hash_for_filename_spec(s: Seq<char>) -> Seq<char> {
    base64_url_of(trunc_tail_spec(s))
}

/// Derives the short cache name of a locator: its trailing characters,
/// base64-encoded with the URL-safe alphabet, so the name is filesystem
/// safe.
pub fn hash_for_filename(text: &str) -> (r: String)
    ensures
        r@ == hash_for_filename_spec(text@),
        forall|i: int|
            0 <= i < r@.len() ==> crate::trusted::base64_url_char(#[trigger] r@[i]),
{
    let len = text.unicode_len();
    let tail: &str = if len > 64 {
        text.substring_char(len - 64, len)
    } else {
        text
    };
    base64_url(tail)
}

/// Where the final dot splits a locator into stem and extension; a
/// locator without a dot keeps its last character as the split.
pub open spec fn dot_split_spec(s: Seq<char>) -> int {
    match crate::text::rfind_char_spec(s, '.') {
        Some(i) => i,
        None => s.len() - 1,
    }
}

/// The local path a cached locator renders as.
pub open spec fn local_path_spec(x: Seq<char>) -> Seq<char> {
    let dot = dot_split_spec(x);
    "imgs/"@ + hash_for_filename_spec(x.subrange(0, if dot < 0 {
        0
    } else {
        dot
    })) + "."@ + x.subrange(if dot + 1 > x.len() {
        x.len() as int
    } else {
        dot + 1
    }, x.len() as int)
}

/// The form a referenced locator renders as: the local cached path when
/// an offline store is supplied and holds it, the remote locator
/// unchanged otherwise.
pub open spec fn resolve_spec(x: Seq<char>, offline: Option<Seq<(Seq<char>, Seq<u8>)>>) -> Seq<
    char,
> {
    match offline {
        Some(es) => if blob_lookup(es, x) is Some {
            local_path_spec(x)
        } else {
            x
        },
        None => x,
    }
}

/// Resolves one referenced locator against the optional offline store.
pub fn find_offline_data_or_use_remove(x: String, offline_data: Option<&GameBinaryDatabase>) -> (r:
    String)
    ensures
        r@ == resolve_spec(x@, match offline_data {
            Some(db) => Some(db.entries()),
            None => None,
        }),
{
    let db = match offline_data {
        None => {
            return x;
        },
        Some(db) => db,
    };
    if !db.contains(x.as_str()) {
        return x;
    }
    let len = x.as_str().unicode_len();
    let dot = match crate::text::rfind_char(x.as_str(), '.') {
        Some(i) => {
            proof {
                crate::text::lemma_rfind_char_unique(x@, '.', i as int);
            }
            i
        },
        None => {
            proof {
                assert(crate::text::rfind_char_spec(x@, '.') is None);
            }
            if len == 0 {
                0
            } else {
                len - 1
            }
        },
    };
    let stem_end = if len == 0 {
        0
    } else {
        dot
    };
    let mut r = String::from_str("imgs/");
    r.append(hash_for_filename(x.as_str().substring_char(0, stem_end)).as_str());
    r.append(".");
    let ext_start = if dot + 1 > len {
        len
    } else {
        dot + 1
    };
    r.append(x.as_str().substring_char(ext_start, len));
    proof {
        assert(r@ =~= local_path_spec(x@));
    }
    r
}

/// A name with path-hostile characters replaced.
pub open spec fn sanitize_spec(s: Seq<char>) -> Seq<char> {
    s.map_values(
        |c: char|
            if c == '/' || c == '\u{0000}' {
                '_'
            } else {
                c
            },
    )
}

/// Replaces path separators and the null character with underscores.
pub fn sanitize_name(s: &str) -> (r: String)
    ensures
        r@ == sanitize_spec(s@),
{
    let len = s.unicode_len();
    let mut r = String::new();
    let mut start: usize = 0;
    let mut i: usize = 0;
    proof {
        assert(r@ =~= sanitize_spec(s@.take(0)));
    }
    while i < len
        invariant
            len == s@.len(),
            start <= i <= len,
            forall|j: int| start <= j < i ==> s@[j] != '/' && s@[j] != '\u{0000}',
            r@ == sanitize_spec(s@.take(start as int)),
        decreases len - i,
    {
        let c = s.get_char(i);
        if c == '/' || c == '\u{0000}' {
            r.append(s.substring_char(start, i));
            r.append("_");
            proof {
                reveal_strlit("_");
                assert(sanitize_spec(s@.take(i as int + 1)) =~= sanitize_spec(
                    s@.take(start as int),
                ) + s@.subrange(start as int, i as int) + "_"@);
                assert(r@ =~= sanitize_spec(s@.take(i as int + 1)));
            }
            start = i + 1;
        }
        i += 1;
    }
    r.append(s.substring_char(start, len));
    proof {
        assert(sanitize_spec(s@) =~= sanitize_spec(s@.take(start as int)) + s@.subrange(
            start as int,
            len as int,
        ));
        assert(r@ =~= sanitize_spec(s@));
    }
    r
}

/// The filesystem-safe document name of a record: its sanitized display
/// name and its identity.
pub open spec fn legal_name_spec(name: Seq<char>, id: u64) -> Seq<char> {
    sanitize_spec(name) + "_"@ + dec_str(id as nat)
}

/// Builds the filesystem-safe document name of a record.
pub fn to_legal_name(name: &str, id: u64) -> (r: String)
    ensures
        r@ == legal_name_spec(name@, id),
{
    let mut r = sanitize_name(name);
    r.append("_");
    r.append(u64_to_string(id).as_str());
    r
}

/// Items joined with a separator.
pub open spec fn join_sep(items: Seq<Seq<char>>, sep: Seq<char>) -> Seq<char>
    decreases items.len(),
{
    if items.len() == 0 {
        Seq::empty()
    } else if items.len() == 1 {
        items[0]
    } else {
        join_sep(items.drop_last(), sep) + sep + items.last()
    }
}

/// The human-readable size column of a download entry: the rendered size,
/// or nothing when none was recorded.
pub open spec fn size_text_spec(sz: Option<u128>) -> Seq<char> {
    match sz {
        Some(n) => human_size_of(n),
        None => Seq::empty(),
    }
}

/// A string with every newline turned into a newline and a quote marker,
/// as comment replies are nested under their parents.
pub open spec fn quote_newlines_spec(s: Seq<char>) -> Seq<char>
    decreases s.len(),
{
    if s.len() == 0 {
        Seq::empty()
    } else if s.last() == '\n' {
        quote_newlines_spec(s.drop_last()) + "\n> "@
    } else {
        quote_newlines_spec(s.drop_last()).push(s.last())
    }
}

/// Quotes every line after a newline.
pub fn quote_newlines(s: &str) -> (r: String)
    ensures
        r@ == quote_newlines_spec(s@),
{
    let len = s.unicode_len();
    let mut r = String::new();
    let mut start: usize = 0;
    let mut i: usize = 0;
    proof {
        reveal_strlit("\n> ");
        assert(r@ =~= quote_newlines_spec(s@.take(0)));
    }
    while i < len
        invariant
            len == s@.len(),
            start <= i <= len,
            forall|j: int| start <= j < i ==> s@[j] != '\n',
            r@ == quote_newlines_spec(s@.take(start as int)),
        decreases len - i,
    {
        let c = s.get_char(i);
        if c == '\n' {
            r.append(s.substring_char(start, i));
            r.append("\n> ");
            proof {
                reveal_strlit("\n> ");
                lemma_quote_clean(s@.take(i as int), start as int);
                assert(s@.take(i as int).take(start as int) =~= s@.take(start as int));
                assert(s@.take(i as int).subrange(start as int, i as int) =~= s@.subrange(
                    start as int,
                    i as int,
                ));
                assert(s@.take(i as int + 1).drop_last() =~= s@.take(i as int));
                assert(s@.take(i as int + 1).last() == s@[i as int]);
                assert(r@ =~= quote_newlines_spec(s@.take(i as int + 1)));
            }
            start = i + 1;
        }
        i += 1;
    }
    r.append(s.substring_char(start, len));
    proof {
        lemma_quote_clean(s@, start as int);
        assert(s@.take(len as int) =~= s@);
        assert(r@ =~= quote_newlines_spec(s@));
    }
    r
}

/// Quoting passes a newline-free tail through unchanged.
proof fn lemma_quote_clean(s: Seq<char>, start: int)
    requires
        0 <= start <= s.len(),
        forall|j: int| start <= j < s.len() ==> s[j] != '\n',
    ensures
        quote_newlines_spec(s) == quote_newlines_spec(s.take(start)) + s.subrange(
            start,
            s.len() as int,
        ),
    decreases s.len() - start,
{
    if start == s.len() {
        assert(s.take(start) =~= s);
        assert(quote_newlines_spec(s.take(start)) + s.subrange(start, s.len() as int)
            =~= quote_newlines_spec(s));
    } else {
        lemma_quote_clean(s.drop_last(), start);
        assert(s.drop_last().take(start) =~= s.take(start));
        assert(quote_newlines_spec(s.take(start)) + s.subrange(start, s.len() as int) =~= (
        quote_newlines_spec(s.take(start)) + s.drop_last().subrange(
            start,
            s.len() - 1,
        )).push(s.last()));
    }
}

/// One piece of content rendered for a flat document, with its line
/// break.
pub open spec fn md_content_spec(
    c: ContentModel,
    off: Option<Seq<(Seq<char>, Seq<u8>)>>,
) -> Seq<char> {
    match c {
        ContentModel::Text(t) => t + "\n"@,
        ContentModel::Image(l) => "![image]("@ + resolve_spec(l, off) + ")\n"@,
    }
}

/// A content list rendered in order.
pub open spec fn md_contents_spec(
    cs: Seq<ContentModel>,
    off: Option<Seq<(Seq<char>, Seq<u8>)>>,
) -> Seq<char>
    decreases cs.len(),
{
    if cs.len() == 0 {
        Seq::empty()
    } else {
        md_contents_spec(cs.drop_last(), off) + md_content_spec(cs.last(), off)
    }
}

/// One paragraph rendered: its heading line, or a rule when untitled,
/// then its content.
pub open spec fn md_paragraph_spec(
    p: (Option<Seq<char>>, Seq<ContentModel>),
    off: Option<Seq<(Seq<char>, Seq<u8>)>>,
) -> Seq<char> {
    (match p.0 {
        Some(t) => "## "@ + t,
        None => "---"@,
    }) + "\n"@ + md_contents_spec(p.1, off) + "\n\n"@
}

pub open spec fn md_paragraphs_spec(
    ps: Seq<(Option<Seq<char>>, Seq<ContentModel>)>,
    off: Option<Seq<(Seq<char>, Seq<u8>)>>,
) -> Seq<char>
    decreases ps.len(),
{
    if ps.len() == 0 {
        Seq::empty()
    } else {
        md_paragraphs_spec(ps.drop_last(), off) + md_paragraph_spec(ps.last(), off)
    }
}

/// One download entry rendered: its display name, locator and size.
pub open spec fn md_file_spec(f: (Seq<char>, (Seq<char>, Option<u128>))) -> Seq<char> {
    "- "@ + f.0 + "\n  "@ + f.1.0 + " "@ + size_text_spec(f.1.1)
}

pub open spec fn md_files_spec(fs: Seq<(Seq<char>, (Seq<char>, Option<u128>))>) -> Seq<char>
    decreases fs.len(),
{
    if fs.len() == 0 {
        Seq::empty()
    } else if fs.len() == 1 {
        md_file_spec(fs[0])
    } else {
        md_files_spec(fs.drop_last()) + "\n"@ + md_file_spec(fs.last())
    }
}

/// One comment rendered, depth first, each level quoted under its parent.
pub open spec fn md_comment_spec(
    c: CommentModel,
    off: Option<Seq<(Seq<char>, Seq<u8>)>>,
) -> Seq<char>
    decreases c,
{
    quote_newlines_spec(
        "\n![avatar]("@ + resolve_spec(c.user_avatar, off) + ") "@ + c.author + " said on "@
            + date_time_text(c.date) + ":\n"@ + md_contents_spec(c.content, off) + "\n"@
            + md_comments_spec(c.replies, off),
    )
}

pub open spec fn md_comments_spec(
    cs: Seq<CommentModel>,
    off: Option<Seq<(Seq<char>, Seq<u8>)>>,
) -> Seq<char>
    decreases cs,
{
    if cs.len() == 0 {
        Seq::empty()
    } else if cs.len() == 1 {
        md_comment_spec(cs[0], off)
    } else {
        md_comments_spec(cs.drop_last(), off) + "\n"@ + md_comment_spec(cs.last(), off)
    }
}

/// The whole flat document of one record.
pub open spec fn md_doc_spec(m: RecordModel, off: Option<Seq<(Seq<char>, Seq<u8>)>>) -> Seq<
    char,
> {
    "# "@ + m.name + "\n\n"@ + "> id: "@ + dec_str(m.id as nat) + "@"@ + m.website
        + " | published at "@ + date_time_text(m.published) + " | "@ + dec_str(m.viewed as nat)
        + " viewed\n\n"@ + "Tags: "@ + join_sep(m.tags, ", "@) + "\n\n"@ + md_paragraphs_spec(
        m.paragraphs,
        off,
    ) + "## Downloads\n"@ + md_files_spec(m.files) + "\n\n"@ + "## Comments\n"@
        + md_comments_spec(m.comments, off) + "\n\n"@
}

/// Renders one piece of content with its line break.
fn md_content(out: &mut String, c: &ParagraphContent, off: Option<&GameBinaryDatabase>)
    ensures
        final(out)@ == old(out)@ + md_content_spec(c@, offline_model(off)),
{
    match c {
        ParagraphContent::Text(t) => {
            out.append(t.as_str());
            out.append("\n");
        },
        ParagraphContent::Image(l) => {
            out.append("![image](");
            out.append(find_offline_data_or_use_remove(l.clone(), off).as_str());
            out.append(")\n");
        },
    }
    proof {
        assert(final(out)@ =~= old(out)@ + md_content_spec(c@, offline_model(off)));
    }
}

/// The model of an optional offline store.
pub open spec fn offline_model(off: Option<&GameBinaryDatabase>) -> Option<
    Seq<(Seq<char>, Seq<u8>)>,
> {
    match off {
        Some(db) => Some(db.entries()),
        None => None,
    }
}

/// Renders a content list.
fn md_contents(out: &mut String, cs: &Vec<ParagraphContent>, off: Option<&GameBinaryDatabase>)
    ensures
        final(out)@ == old(out)@ + md_contents_spec(
            cs@.map_values(|c: ParagraphContent| c@),
            offline_model(off),
        ),
{
    let ghost cm = cs@.map_values(|c: ParagraphContent| c@);
    let mut k: usize = 0;
    proof {
        assert(cm.take(0) =~= Seq::<ContentModel>::empty());
        assert(old(out)@ + md_contents_spec(cm.take(0), offline_model(off)) =~= old(out)@);
    }
    while k < cs.len()
        invariant
            cm == cs@.map_values(|c: ParagraphContent| c@),
            k <= cs@.len(),
            out@ == old(out)@ + md_contents_spec(cm.take(k as int), offline_model(off)),
        decreases cs@.len() - k,
    {
        md_content(out, &cs[k], off);
        proof {
            assert(cm.take(k as int + 1).drop_last() =~= cm.take(k as int));
            assert(cm.take(k as int + 1).last() == cm[k as int]);
            assert(out@ =~= old(out)@ + md_contents_spec(
                cm.take(k as int + 1),
                offline_model(off),
            ));
        }
        k += 1;
    }
    proof {
        assert(cm.take(cm.len() as int) =~= cm);
    }
}

/// Renders one comment and, quoted beneath it, its replies.
fn md_comment(c: &Comment, off: Option<&GameBinaryDatabase>) -> (r: String)
    ensures
        r@ == md_comment_spec(crate::record::comment_model(*c), offline_model(off)),
    decreases *c,
{
    let mut body = String::from_str("\n![avatar](");
    body.append(find_offline_data_or_use_remove(c.user_avatar.clone(), off).as_str());
    body.append(") ");
    body.append(c.author.as_str());
    body.append(" said on ");
    body.append(c.date.to_text().as_str());
    body.append(":\n");
    md_contents(&mut body, &c.content, off);
    body.append("\n");
    let replies = md_comments(&c.replies, off);
    body.append(replies.as_str());
    let r = quote_newlines(body.as_str());
    proof {
        assert(body@ =~= "\n![avatar]("@ + resolve_spec(
            c.user_avatar@,
            offline_model(off),
        ) + ") "@ + c.author@ + " said on "@ + date_time_text(c.date) + ":\n"@
            + md_contents_spec(
            c.content@.map_values(|x: ParagraphContent| x@),
            offline_model(off),
        ) + "\n"@ + md_comments_spec(
            crate::record::comments_model(c.replies@),
            offline_model(off),
        ));
    }
    r
}

/// Renders a comment forest, one comment per line at each level.
fn md_comments(cs: &Vec<Comment>, off: Option<&GameBinaryDatabase>) -> (r: String)
    ensures
        r@ == md_comments_spec(crate::record::comments_model(cs@), offline_model(off)),
    decreases *cs,
{
    let ghost cm = crate::record::comments_model(cs@);
    proof {
        crate::record::lemma_comments_model_index(cs@);
    }
    let mut r = String::new();
    let mut k: usize = 0;
    proof {
        assert(cm.take(0) =~= Seq::<CommentModel>::empty());
        assert(r@ =~= md_comments_spec(cm.take(0), offline_model(off)));
    }
    while k < cs.len()
        invariant
            cm == crate::record::comments_model(cs@),
            cm.len() == cs@.len(),
            forall|j: int|
                0 <= j < cs@.len() ==> cm[j] == crate::record::comment_model(cs@[j]),
            k <= cs@.len(),
            r@ == md_comments_spec(cm.take(k as int), offline_model(off)),
        decreases cs@.len() - k,
    {
        if k > 0 {
            r.append("\n");
        }
        let one = md_comment(&cs[k], off);
        r.append(one.as_str());
        proof {
            assert(cm.take(k as int + 1).drop_last() =~= cm.take(k as int));
            assert(cm.take(k as int + 1).last() == cm[k as int]);
            if k == 0 {
                assert(cm.take(1)[0] == cm[0]);
                assert(r@ =~= md_comments_spec(cm.take(1), offline_model(off)));
            } else {
                assert(r@ =~= md_comments_spec(cm.take(k as int + 1), offline_model(off)));
            }
        }
        k += 1;
    }
    proof {
        assert(cm.take(cm.len() as int) =~= cm);
    }
    r
}

/// Renders the whole flat document of one record.
#[verifier::rlimit(100)]
fn md_doc(m: &GameTextInformation, off: Option<&GameBinaryDatabase>) -> (r: String)
    ensures
        r@ == md_doc_spec(m@, offline_model(off)),
{
    let mut r = String::from_str("# ");
    r.append(m.name.as_str());
    r.append("\n\n");
    r.append("> id: ");
    r.append(u64_to_string(m.id).as_str());
    r.append("@");
    r.append(m.website.as_str());
    r.append(" | published at ");
    r.append(m.published.to_text().as_str());
    r.append(" | ");
    r.append(u128_to_string(m.viewed).as_str());
    r.append(" viewed\n\n");
    r.append("Tags: ");
    let ghost tm = m.tags@.map_values(|t: String| t@);
    let mut k: usize = 0;
    let ghost pre = r@;
    proof {
        assert(tm.take(0) =~= Seq::<Seq<char>>::empty());
        assert(r@ =~= pre + join_sep(tm.take(0), ", "@));
    }
    while k < m.tags.len()
        invariant
            tm == m.tags@.map_values(|t: String| t@),
            k <= m.tags@.len(),
            r@ == pre + join_sep(tm.take(k as int), ", "@),
        decreases m.tags@.len() - k,
    {
        if k > 0 {
            r.append(", ");
        }
        r.append(m.tags[k].as_str());
        proof {
            assert(tm.take(k as int + 1).drop_last() =~= tm.take(k as int));
            assert(tm.take(k as int + 1).last() == tm[k as int]);
            if k == 0 {
                assert(tm.take(1)[0] == tm[0]);
            }
            assert(r@ =~= pre + join_sep(tm.take(k as int + 1), ", "@));
        }
        k += 1;
    }
    proof {
        assert(tm.take(tm.len() as int) =~= tm);
        assert(tm == m@.tags);
    }
    r.append("\n\n");
    let ghost pm = m@.paragraphs;
    let mut k2: usize = 0;
    let ghost pre2 = r@;
    proof {
        assert(pm.take(0) =~= Seq::<(Option<Seq<char>>, Seq<ContentModel>)>::empty());
        assert(r@ =~= pre2 + md_paragraphs_spec(pm.take(0), offline_model(off)));
    }
    while k2 < m.paragraphs.len()
        invariant
            pm == m@.paragraphs,
            pm.len() == m.paragraphs@.len(),
            k2 <= m.paragraphs@.len(),
            r@ == pre2 + md_paragraphs_spec(pm.take(k2 as int), offline_model(off)),
        decreases m.paragraphs@.len() - k2,
    {
        let p = &m.paragraphs[k2];
        match &p.0 {
            Some(t) => {
                r.append("## ");
                r.append(t.as_str());
            },
            None => {
                r.append("---");
            },
        }
        r.append("\n");
        md_contents(&mut r, &p.1, off);
        r.append("\n\n");
        proof {
            assert(pm.take(k2 as int + 1).drop_last() =~= pm.take(k2 as int));
            assert(pm.take(k2 as int + 1).last() == pm[k2 as int]);
            assert(pm[k2 as int] == crate::record::paragraph_model(m.paragraphs@[k2 as int]));
            assert(r@ =~= pre2 + md_paragraphs_spec(pm.take(k2 as int + 1), offline_model(off)));
        }
        k2 += 1;
    }
    proof {
        assert(pm.take(pm.len() as int) =~= pm);
    }
    r.append("## Downloads\n");
    let ghost fm = m@.files;
    let mut k3: usize = 0;
    let ghost pre3 = r@;
    proof {
        assert(fm.take(0) =~= Seq::<(Seq<char>, (Seq<char>, Option<u128>))>::empty());
        assert(r@ =~= pre3 + md_files_spec(fm.take(0)));
    }
    while k3 < m.files.len()
        invariant
            fm == m@.files,
            fm.len() == m.files@.len(),
            k3 <= m.files@.len(),
            r@ == pre3 + md_files_spec(fm.take(k3 as int)),
        decreases m.files@.len() - k3,
    {
        if k3 > 0 {
            r.append("\n");
        }
        let f = &m.files[k3];
        r.append("- ");
        r.append(f.0.as_str());
        r.append("\n  ");
        r.append(f.1.0.as_str());
        r.append(" ");
        match &f.1.1 {
            Some(n) => {
                r.append(human_size(*n).as_str());
            },
            None => {},
        }
        proof {
            assert(fm.take(k3 as int + 1).drop_last() =~= fm.take(k3 as int));
            assert(fm.take(k3 as int + 1).last() == fm[k3 as int]);
            assert(fm[k3 as int] == crate::record::file_model(m.files@[k3 as int]));
            if k3 == 0 {
                assert(fm.take(1)[0] == fm[0]);
            }
            assert(r@ =~= pre3 + md_files_spec(fm.take(k3 as int + 1)));
        }
        k3 += 1;
    }
    proof {
        assert(fm.take(fm.len() as int) =~= fm);
    }
    r.append("\n\n");
    r.append("## Comments\n");
    let cstr = md_comments(&m.comments, off);
    r.append(cstr.as_str());
    r.append("\n\n");
    proof {
        assert(r@ =~= md_doc_spec(m@, offline_model(off)));
    }
    r
}

/// Renders one flat document per record, each named by its sanitized
/// display name and identity; supplied blobs resolve image references to
/// local cached paths, their absence keeps the remote locators.
pub fn markdown_generator(
    database: &Vec<GameTextInformation>,
    offline_data: Option<&GameBinaryDatabase>,
) -> (r: Vec<(String, String)>)
    ensures
        r@.len() == database@.len(),
        forall|i: int|
            0 <= i < database@.len() ==> (#[trigger] r@[i]).0@ == legal_name_spec(
                database@[i].name@,
                database@[i].id,
            ) && r@[i].1@ == md_doc_spec(database@[i]@, offline_model(offline_data)),
{
    let mut r: Vec<(String, String)> = Vec::new();
    let mut i: usize = 0;
    while i < database.len()
        invariant
            i <= database@.len(),
            r@.len() == i,
            forall|j: int|
                0 <= j < i ==> (#[trigger] r@[j]).0@ == legal_name_spec(
                    database@[j].name@,
                    database@[j].id,
                ) && r@[j].1@ == md_doc_spec(database@[j]@, offline_model(offline_data)),
        decreases database@.len() - i,
    {
        let g = &database[i];
        let name = to_legal_name(g.name.as_str(), g.id);
        let doc = md_doc(g, offline_data);
        r.push((name, doc));
        i += 1;
    }
    r
}

/// One piece of content rendered for a web document, with its line
/// break.
pub open spec fn html_content_spec(
    c: ContentModel,
    off: Option<Seq<(Seq<char>, Seq<u8>)>>,
) -> Seq<char> {
    match c {
        ContentModel::Text(t) => "<p>"@ + t + "</p>\n"@,
        ContentModel::Image(l) => "<img src=\""@ + resolve_spec(l, off) + "\" width=\"50%\">\n"@,
    }
}

pub open spec fn html_contents_spec(
    cs: Seq<ContentModel>,
    off: Option<Seq<(Seq<char>, Seq<u8>)>>,
) -> Seq<char>
    decreases cs.len(),
{
    if cs.len() == 0 {
        Seq::empty()
    } else {
        html_contents_spec(cs.drop_last(), off) + html_content_spec(cs.last(), off)
    }
}

pub open spec fn html_paragraph_spec(
    p: (Option<Seq<char>>, Seq<ContentModel>),
    off: Option<Seq<(Seq<char>, Seq<u8>)>>,
) -> Seq<char> {
    (match p.0 {
        Some(t) => "<h3>"@ + t + "</h3>\n"@,
        None => Seq::empty(),
    }) + html_contents_spec(p.1, off) + "<br>\n"@
}

pub open spec fn html_paragraphs_spec(
    ps: Seq<(Option<Seq<char>>, Seq<ContentModel>)>,
    off: Option<Seq<(Seq<char>, Seq<u8>)>>,
) -> Seq<char>
    decreases ps.len(),
{
    if ps.len() == 0 {
        Seq::empty()
    } else {
        html_paragraphs_spec(ps.drop_last(), off) + html_paragraph_spec(ps.last(), off)
    }
}

pub open spec fn html_file_spec(f: (Seq<char>, (Seq<char>, Option<u128>))) -> Seq<char> {
    "<li><a href=\""@ + f.1.0 + "\" download=\""@ + f.0 + "\">"@ + f.0 + "</a> "@
        + size_text_spec(f.1.1) + "</li>\n"@
}

pub open spec fn html_files_spec(fs: Seq<(Seq<char>, (Seq<char>, Option<u128>))>) -> Seq<char>
    decreases fs.len(),
{
    if fs.len() == 0 {
        Seq::empty()
    } else {
        html_files_spec(fs.drop_last()) + html_file_spec(fs.last())
    }
}

/// One comment rendered as an article, its replies nested inside it.
pub open spec fn html_comment_spec(
    c: CommentModel,
    off: Option<Seq<(Seq<char>, Seq<u8>)>>,
) -> Seq<char>
    decreases c,
{
    "<article><img src=\""@ + resolve_spec(c.user_avatar, off) + "\" width=\"10%\"> "@ + c.author
        + " said on "@ + date_time_text(c.date) + ":\n"@ + html_contents_spec(c.content, off)
        + html_comments_spec(c.replies, off) + "</article>\n"@
}

pub open spec fn html_comments_spec(
    cs: Seq<CommentModel>,
    off: Option<Seq<(Seq<char>, Seq<u8>)>>,
) -> Seq<char>
    decreases cs,
{
    if cs.len() == 0 {
        Seq::empty()
    } else {
        html_comments_spec(cs.drop_last(), off) + html_comment_spec(cs.last(), off)
    }
}

/// The whole web document of one record.
pub open spec fn html_doc_spec(m: RecordModel, off: Option<Seq<(Seq<char>, Seq<u8>)>>) -> Seq<
    char,
> {
    "<!DOCTYPE html>\n<html>\n<head><meta charset=\"utf-8\"><title>"@ + m.name
        + "</title></head>\n<body>\n<h1>"@ + m.name + "</h1>\n<p><small>id: "@ + dec_str(
        m.id as nat,
    ) + "@"@ + m.website + " | published at "@ + date_time_text(m.published) + " | "@ + dec_str(
        m.viewed as nat,
    ) + " viewed</small></p>\n<p>Tags: "@ + join_sep(m.tags, ", "@) + "</p>\n"@
        + html_paragraphs_spec(m.paragraphs, off) + "<h3>Downloads</h3>\n<ul>\n"@
        + html_files_spec(m.files) + "</ul>\n<h3>Comments</h3>\n"@ + html_comments_spec(
        m.comments,
        off,
    ) + "</body>\n</html>\n"@
}

/// Renders one piece of content for a web document.
fn html_content(out: &mut String, c: &ParagraphContent, off: Option<&GameBinaryDatabase>)
    ensures
        final(out)@ == old(out)@ + html_content_spec(c@, offline_model(off)),
{
    match c {
        ParagraphContent::Text(t) => {
            out.append("<p>");
            out.append(t.as_str());
            out.append("</p>\n");
        },
        ParagraphContent::Image(l) => {
            out.append("<img src=\"");
            out.append(find_offline_data_or_use_remove(l.clone(), off).as_str());
            out.append("\" width=\"50%\">\n");
        },
    }
    proof {
        assert(final(out)@ =~= old(out)@ + html_content_spec(c@, offline_model(off)));
    }
}

/// Renders a content list for a web document.
fn html_contents(out: &mut String, cs: &Vec<ParagraphContent>, off: Option<&GameBinaryDatabase>)
    ensures
        final(out)@ == old(out)@ + html_contents_spec(
            cs@.map_values(|c: ParagraphContent| c@),
            offline_model(off),
        ),
{
    let ghost cm = cs@.map_values(|c: ParagraphContent| c@);
    let mut k: usize = 0;
    proof {
        assert(cm.take(0) =~= Seq::<ContentModel>::empty());
        assert(old(out)@ + html_contents_spec(cm.take(0), offline_model(off)) =~= old(out)@);
    }
    while k < cs.len()
        invariant
            cm == cs@.map_values(|c: ParagraphContent| c@),
            k <= cs@.len(),
            out@ == old(out)@ + html_contents_spec(cm.take(k as int), offline_model(off)),
        decreases cs@.len() - k,
    {
        html_content(out, &cs[k], off);
        proof {
            assert(cm.take(k as int + 1).drop_last() =~= cm.take(k as int));
            assert(cm.take(k as int + 1).last() == cm[k as int]);
            assert(out@ =~= old(out)@ + html_contents_spec(
                cm.take(k as int + 1),
                offline_model(off),
            ));
        }
        k += 1;
    }
    proof {
        assert(cm.take(cm.len() as int) =~= cm);
    }
}

/// Renders one comment as an article with its nested replies.
fn html_comment(out: &mut String, c: &Comment, off: Option<&GameBinaryDatabase>)
    ensures
        final(out)@ == old(out)@ + html_comment_spec(
            crate::record::comment_model(*c),
            offline_model(off),
        ),
    decreases *c,
{
    out.append("<article><img src=\"");
    out.append(find_offline_data_or_use_remove(c.user_avatar.clone(), off).as_str());
    out.append("\" width=\"10%\"> ");
    out.append(c.author.as_str());
    out.append(" said on ");
    out.append(c.date.to_text().as_str());
    out.append(":\n");
    html_contents(out, &c.content, off);
    html_comments(out, &c.replies, off);
    out.append("</article>\n");
    proof {
        assert(final(out)@ =~= old(out)@ + html_comment_spec(
            crate::record::comment_model(*c),
            offline_model(off),
        ));
    }
}

/// Renders a comment forest for a web document.
fn html_comments(out: &mut String, cs: &Vec<Comment>, off: Option<&GameBinaryDatabase>)
    ensures
        final(out)@ == old(out)@ + html_comments_spec(
            crate::record::comments_model(cs@),
            offline_model(off),
        ),
    decreases *cs,
{
    let ghost cm = crate::record::comments_model(cs@);
    proof {
        crate::record::lemma_comments_model_index(cs@);
    }
    let mut k: usize = 0;
    proof {
        assert(cm.take(0) =~= Seq::<CommentModel>::empty());
        assert(old(out)@ + html_comments_spec(cm.take(0), offline_model(off)) =~= old(out)@);
    }
    while k < cs.len()
        invariant
            cm == crate::record::comments_model(cs@),
            cm.len() == cs@.len(),
            forall|j: int|
                0 <= j < cs@.len() ==> cm[j] == crate::record::comment_model(cs@[j]),
            k <= cs@.len(),
            out@ == old(out)@ + html_comments_spec(cm.take(k as int), offline_model(off)),
        decreases cs@.len() - k,
    {
        html_comment(out, &cs[k], off);
        proof {
            assert(cm.take(k as int + 1).drop_last() =~= cm.take(k as int));
            assert(cm.take(k as int + 1).last() == cm[k as int]);
            assert(out@ =~= old(out)@ + html_comments_spec(
                cm.take(k as int + 1),
                offline_model(off),
            ));
        }
        k += 1;
    }
    proof {
        assert(cm.take(cm.len() as int) =~= cm);
    }
}

/// Renders the whole web document of one record.
#[verifier::rlimit(100)]
fn html_doc(m: &GameTextInformation, off: Option<&GameBinaryDatabase>) -> (r: String)
    ensures
        r@ == html_doc_spec(m@, offline_model(off)),
{
    let mut r = String::from_str("<!DOCTYPE html>\n<html>\n<head><meta charset=\"utf-8\"><title>");
    r.append(m.name.as_str());
    r.append("</title></head>\n<body>\n<h1>");
    r.append(m.name.as_str());
    r.append("</h1>\n<p><small>id: ");
    r.append(u64_to_string(m.id).as_str());
    r.append("@");
    r.append(m.website.as_str());
    r.append(" | published at ");
    r.append(m.published.to_text().as_str());
    r.append(" | ");
    r.append(u128_to_string(m.viewed).as_str());
    r.append(" viewed</small></p>\n<p>Tags: ");
    let ghost tm = m.tags@.map_values(|t: String| t@);
    let mut k: usize = 0;
    let ghost pre = r@;
    proof {
        assert(tm.take(0) =~= Seq::<Seq<char>>::empty());
        assert(r@ =~= pre + join_sep(tm.take(0), ", "@));
    }
    while k < m.tags.len()
        invariant
            tm == m.tags@.map_values(|t: String| t@),
            k <= m.tags@.len(),
            r@ == pre + join_sep(tm.take(k as int), ", "@),
        decreases m.tags@.len() - k,
    {
        if k > 0 {
            r.append(", ");
        }
        r.append(m.tags[k].as_str());
        proof {
            assert(tm.take(k as int + 1).drop_last() =~= tm.take(k as int));
            assert(tm.take(k as int + 1).last() == tm[k as int]);
            if k == 0 {
                assert(tm.take(1)[0] == tm[0]);
            }
            assert(r@ =~= pre + join_sep(tm.take(k as int + 1), ", "@));
        }
        k += 1;
    }
    proof {
        assert(tm.take(tm.len() as int) =~= tm);
        assert(tm == m@.tags);
    }
    r.append("</p>\n");
    let ghost pm = m@.paragraphs;
    let mut k2: usize = 0;
    let ghost pre2 = r@;
    proof {
        assert(pm.take(0) =~= Seq::<(Option<Seq<char>>, Seq<ContentModel>)>::empty());
        assert(r@ =~= pre2 + html_paragraphs_spec(pm.take(0), offline_model(off)));
    }
    while k2 < m.paragraphs.len()
        invariant
            pm == m@.paragraphs,
            pm.len() == m.paragraphs@.len(),
            k2 <= m.paragraphs@.len(),
            r@ == pre2 + html_paragraphs_spec(pm.take(k2 as int), offline_model(off)),
        decreases m.paragraphs@.len() - k2,
    {
        let p = &m.paragraphs[k2];
        match &p.0 {
            Some(t) => {
                r.append("<h3>");
                r.append(t.as_str());
                r.append("</h3>\n");
            },
            None => {},
        }
        html_contents(&mut r, &p.1, off);
        r.append("<br>\n");
        proof {
            assert(pm.take(k2 as int + 1).drop_last() =~= pm.take(k2 as int));
            assert(pm.take(k2 as int + 1).last() == pm[k2 as int]);
            assert(pm[k2 as int] == crate::record::paragraph_model(m.paragraphs@[k2 as int]));
            assert(r@ =~= pre2 + html_paragraphs_spec(
                pm.take(k2 as int + 1),
                offline_model(off),
            ));
        }
        k2 += 1;
    }
    proof {
        assert(pm.take(pm.len() as int) =~= pm);
    }
    r.append("<h3>Downloads</h3>\n<ul>\n");
    let ghost fm = m@.files;
    let mut k3: usize = 0;
    let ghost pre3 = r@;
    proof {
        assert(fm.take(0) =~= Seq::<(Seq<char>, (Seq<char>, Option<u128>))>::empty());
        assert(r@ =~= pre3 + html_files_spec(fm.take(0)));
    }
    while k3 < m.files.len()
        invariant
            fm == m@.files,
            fm.len() == m.files@.len(),
            k3 <= m.files@.len(),
            r@ == pre3 + html_files_spec(fm.take(k3 as int)),
        decreases m.files@.len() - k3,
    {
        let f = &m.files[k3];
        r.append("<li><a href=\"");
        r.append(f.1.0.as_str());
        r.append("\" download=\"");
        r.append(f.0.as_str());
        r.append("\">");
        r.append(f.0.as_str());
        r.append("</a> ");
        match &f.1.1 {
            Some(n) => {
                r.append(human_size(*n).as_str());
            },
            None => {},
        }
        r.append("</li>\n");
        proof {
            assert(fm.take(k3 as int + 1).drop_last() =~= fm.take(k3 as int));
            assert(fm.take(k3 as int + 1).last() == fm[k3 as int]);
            assert(fm[k3 as int] == crate::record::file_model(m.files@[k3 as int]));
            assert(r@ =~= pre3 + html_files_spec(fm.take(k3 as int + 1)));
        }
        k3 += 1;
    }
    proof {
        assert(fm.take(fm.len() as int) =~= fm);
    }
    r.append("</ul>\n<h3>Comments</h3>\n");
    html_comments(&mut r, &m.comments, off);
    r.append("</body>\n</html>\n");
    proof {
        assert(r@ =~= html_doc_spec(m@, offline_model(off)));
    }
    r
}

/// Renders one web document per record, named like the flat documents;
/// supplied blobs resolve image references to local cached paths.
pub fn html_generator(
    database: &Vec<GameTextInformation>,
    offline_data: Option<&GameBinaryDatabase>,
) -> (r: Vec<(String, String)>)
    ensures
        r@.len() == database@.len(),
        forall|i: int|
            0 <= i < database@.len() ==> (#[trigger] r@[i]).0@ == legal_name_spec(
                database@[i].name@,
                database@[i].id,
            ) && r@[i].1@ == html_doc_spec(database@[i]@, offline_model(offline_data)),
{
    let mut r: Vec<(String, String)> = Vec::new();
    let mut i: usize = 0;
    while i < database.len()
        invariant
            i <= database@.len(),
            r@.len() == i,
            forall|j: int|
                0 <= j < i ==> (#[trigger] r@[j]).0@ == legal_name_spec(
                    database@[j].name@,
                    database@[j].id,
                ) && r@[j].1@ == html_doc_spec(database@[j]@, offline_model(offline_data)),
        decreases database@.len() - i,
    {
        let g = &database[i];
        let name = to_legal_name(g.name.as_str(), g.id);
        let doc = html_doc(g, offline_data);
        r.push((name, doc));
        i += 1;
    }
    r
}

} // verus!
