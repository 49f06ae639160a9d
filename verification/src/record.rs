//! The archive's data model: catalog records with ordered paragraphs,
//! download entries and nested comment trees, and the content-addressed
//! blob store. Each executable type has a mathematical model that the
//! contracts speak of.

use vstd::prelude::*;
use crate::datetime::SimpleDateTime;
use crate::text::str_eq;

verus! {

/// One piece of paragraph content: prose or an image locator.
#[derive(Debug)]
pub enum ParagraphContent {
    Text(String),
    Image(String),
}

/// The model of a piece of paragraph content.
pub enum ContentModel {
    Text(Seq<char>),
    Image(Seq<char>),
}

impl View for ParagraphContent {
    type V = ContentModel;

    open spec fn view(&self) -> ContentModel {
        match self {
            ParagraphContent::Text(s) => ContentModel::Text(s@),
            ParagraphContent::Image(s) => ContentModel::Image(s@),
        }
    }
}

/// One comment, owning its replies.
#[derive(Debug)]
pub struct Comment {
    pub user_avatar: String,
    pub author: String,
    pub date: SimpleDateTime,
    pub content: Vec<ParagraphContent>,
    pub replies: Vec<Comment>,
}

/// The model of a comment tree node.
pub struct CommentModel {
    pub user_avatar: Seq<char>,
    pub author: Seq<char>,
    pub date: SimpleDateTime,
    pub content: Seq<ContentModel>,
    pub replies: Seq<CommentModel>,
}

/// The model of a comment.
pub open spec fn comment_model(c: Comment) -> CommentModel
    decreases c,
{
    CommentModel {
        user_avatar: c.user_avatar@,
        author: c.author@,
        date: c.date,
        content: c.content@.map_values(|p: ParagraphContent| p@),
        replies: comments_model(c.replies@),
    }
}

/// The model of a sequence of comments.
pub open spec fn comments_model(s: Seq<Comment>) -> Seq<CommentModel>
    decreases s,
{
    if s.len() == 0 {
        Seq::empty()
    } else {
        comments_model(s.drop_last()).push(comment_model(s.last()))
    }
}

impl View for Comment {
    type V = CommentModel;

    open spec fn view(&self) -> CommentModel {
        comment_model(*self)
    }
}

/// The length of a comment-model sequence equals the length it models, and
/// each element is the model of the corresponding comment.
pub proof fn lemma_comments_model_index(s: Seq<Comment>)
    ensures
        comments_model(s).len() == s.len(),
        forall|i: int| 0 <= i < s.len() ==> comments_model(s)[i] == comment_model(s[i]),
    decreases s.len(),
{
    if s.len() > 0 {
        lemma_comments_model_index(s.drop_last());
    }
}

/// The model of an optional string.
pub open spec fn opt_text(o: Option<String>) -> Option<Seq<char>> {
    match o {
        Some(s) => Some(s@),
        None => None,
    }
}

/// The model of one paragraph: an optional heading and ordered content.
pub open spec fn paragraph_model(p: (Option<String>, Vec<ParagraphContent>)) -> (
    Option<Seq<char>>,
    Seq<ContentModel>,
) {
    (opt_text(p.0), p.1@.map_values(|c: ParagraphContent| c@))
}

/// The model of one download entry: display name, locator, optional size.
pub open spec fn file_model(f: (String, (String, Option<u128>))) -> (
    Seq<char>,
    (Seq<char>, Option<u128>),
) {
    (f.0@, (f.1.0@, f.1.1))
}

/// The full metadata of one archived item.
#[derive(Debug)]
pub struct GameTextInformation {
    pub id: u64,
    pub website: String,
    pub name: String,
    pub tags: Vec<String>,
    pub published: SimpleDateTime,
    pub viewed: u128,
    pub paragraphs: Vec<(Option<String>, Vec<ParagraphContent>)>,
    pub miscellaneous: Vec<(String, String)>,
    pub files: Vec<(String, (String, Option<u128>))>,
    pub comments: Vec<Comment>,
}

/// The model of one archived item's metadata.
pub struct RecordModel {
    pub id: u64,
    pub website: Seq<char>,
    pub name: Seq<char>,
    pub tags: Seq<Seq<char>>,
    pub published: SimpleDateTime,
    pub viewed: u128,
    pub paragraphs: Seq<(Option<Seq<char>>, Seq<ContentModel>)>,
    pub miscellaneous: Seq<(Seq<char>, Seq<char>)>,
    pub files: Seq<(Seq<char>, (Seq<char>, Option<u128>))>,
    pub comments: Seq<CommentModel>,
}

impl View for GameTextInformation {
    type V = RecordModel;

    open spec fn view(&self) -> RecordModel {
        RecordModel {
            id: self.id,
            website: self.website@,
            name: self.name@,
            tags: self.tags@.map_values(|t: String| t@),
            published: self.published,
            viewed: self.viewed,
            paragraphs: self.paragraphs@.map_values(
                |p: (Option<String>, Vec<ParagraphContent>)| paragraph_model(p),
            ),
            miscellaneous: self.miscellaneous@.map_values(|e: (String, String)| (e.0@, e.1@)),
            files: self.files@.map_values(|f: (String, (String, Option<u128>))| file_model(f)),
            comments: comments_model(self.comments@),
        }
    }
}

/// The ordered record list of the archive.
pub type GameTextDatabase = Vec<GameTextInformation>;

/// The model of a freshly created record: the given identity, everything
/// else empty, the default timestamp.
pub open spec fn default_record_model(id: u64, website: Seq<char>) -> RecordModel {
    RecordModel {
        id: id,
        website: website,
        name: Seq::empty(),
        tags: Seq::empty(),
        published: SimpleDateTime { year: 2019, month: 1, day: 1, hour: 0, minute: 0, second: 0 },
        viewed: 0,
        paragraphs: Seq::empty(),
        miscellaneous: Seq::empty(),
        files: Seq::empty(),
        comments: Seq::empty(),
    }
}

impl GameTextInformation {
    /// A fresh record carrying only its identity.
    pub fn default(id: u64, website: String) -> (r: Self)
        ensures
            r@ == default_record_model(id, website@),
    {
        let r = GameTextInformation {
            id,
            website,
            name: String::new(),
            tags: Vec::new(),
            published: crate::datetime::default_date_time(),
            viewed: 0,
            paragraphs: Vec::new(),
            miscellaneous: Vec::new(),
            files: Vec::new(),
            comments: Vec::new(),
        };
        proof {
            assert(comments_model(r.comments@) =~= Seq::<CommentModel>::empty());
            assert(r@.tags =~= Seq::<Seq<char>>::empty());
            assert(r@.paragraphs =~= Seq::<(Option<Seq<char>>, Seq<ContentModel>)>::empty());
            assert(r@.miscellaneous =~= Seq::<(Seq<char>, Seq<char>)>::empty());
            assert(r@.files =~= Seq::<(Seq<char>, (Seq<char>, Option<u128>))>::empty());
        }
        r
    }

    /// The value stored under a key of the free-form side channel; the most
    /// recently stored one wins.
    pub fn misc_get(&self, key: &str) -> (r: Option<String>)
        ensures
            opt_text(r) == misc_lookup(self@.miscellaneous, key@),
    {
        misc_get_entries(&self.miscellaneous, key)
    }

    /// Stores a value in the free-form side channel.
    pub fn misc_set(&mut self, key: String, value: String)
        ensures
            final(self)@.miscellaneous == old(self)@.miscellaneous.push((key@, value@)),
            final(self)@ == (RecordModel { miscellaneous: final(self)@.miscellaneous, ..old(self)@ }),
    {
        self.miscellaneous.push((key, value));
        proof {
            assert(self@.miscellaneous =~= old(self)@.miscellaneous.push((key@, value@)));
            assert(comments_model(self.comments@) == comments_model(old(self).comments@));
        }
    }
}

/// The value stored under a key, scanning newest entries first.
pub open spec fn misc_lookup(s: Seq<(Seq<char>, Seq<char>)>, k: Seq<char>) -> Option<Seq<char>>
    decreases s.len(),
{
    if s.len() == 0 {
        None
    } else if s.last().0 == k {
        Some(s.last().1)
    } else {
        misc_lookup(s.drop_last(), k)
    }
}

fn misc_get_entries(entries: &Vec<(String, String)>, key: &str) -> (r: Option<String>)
    ensures
        opt_text(r) == misc_lookup(
            entries@.map_values(|e: (String, String)| (e.0@, e.1@)),
            key@,
        ),
{
    let ghost model = entries@.map_values(|e: (String, String)| (e.0@, e.1@));
    let mut i: usize = entries.len();
    proof {
        assert(model.take(i as int) =~= model);
    }
    while i > 0
        invariant
            model == entries@.map_values(|e: (String, String)| (e.0@, e.1@)),
            i <= entries.len(),
            misc_lookup(model, key@) == misc_lookup(model.take(i as int), key@),
        decreases i,
    {
        i -= 1;
        let e = &entries[i];
        proof {
            assert(model.take(i as int + 1).last() == model[i as int]);
            assert(model.take(i as int + 1).drop_last() =~= model.take(i as int));
        }
        if str_eq(e.0.as_str(), key) {
            return Some(e.1.clone());
        }
    }
    proof {
        assert(model.take(0) =~= Seq::<(Seq<char>, Seq<char>)>::empty());
    }
    None
}

/// Copies one piece of content.
pub fn duplicate_content(c: &ParagraphContent) -> (r: ParagraphContent)
    ensures
        r@ == c@,
{
    match c {
        ParagraphContent::Text(t) => ParagraphContent::Text(t.clone()),
        ParagraphContent::Image(t) => ParagraphContent::Image(t.clone()),
    }
}

/// Copies a content list.
pub fn duplicate_contents(cs: &Vec<ParagraphContent>) -> (r: Vec<ParagraphContent>)
    ensures
        r@.map_values(|c: ParagraphContent| c@) == cs@.map_values(|c: ParagraphContent| c@),
{
    let mut r: Vec<ParagraphContent> = Vec::new();
    let mut i: usize = 0;
    while i < cs.len()
        invariant
            i <= cs@.len(),
            r@.map_values(|c: ParagraphContent| c@) =~= cs@.map_values(
                |c: ParagraphContent| c@,
            ).take(i as int),
        decreases cs@.len() - i,
    {
        let item = duplicate_content(&cs[i]);
        let ghost itemg = item;
        let ghost pre = r@;
        r.push(item);
        proof {
            assert(r@ =~= pre.push(itemg));
            assert(r@.map_values(|c: ParagraphContent| c@) =~= pre.map_values(
                |c: ParagraphContent| c@,
            ).push(itemg@));
            assert(cs@.map_values(|c: ParagraphContent| c@).take(i as int + 1) =~= cs@
                .map_values(|c: ParagraphContent| c@).take(i as int).push(
                cs@.map_values(|c: ParagraphContent| c@)[i as int],
            ));
            assert(cs@.map_values(|c: ParagraphContent| c@)[i as int] == itemg@);
        }
        i += 1;
    }
    proof {
        assert(cs@.map_values(|c: ParagraphContent| c@).take(cs@.len() as int) =~= cs@
            .map_values(|c: ParagraphContent| c@));
    }
    r
}

impl Comment {
    /// Copies the comment and its whole reply tree.
    pub fn duplicate(&self) -> (r: Comment)
        ensures
            r@ == self@,
        decreases *self,
    {
        let mut replies: Vec<Comment> = Vec::new();
        let mut i: usize = 0;
        proof {
            lemma_comments_model_index(self.replies@);
            assert(comments_model(replies@) =~= comments_model(self.replies@).take(0));
        }
        while i < self.replies.len()
            invariant
                i <= self.replies@.len(),
                comments_model(self.replies@).len() == self.replies@.len(),
                forall|j: int|
                    0 <= j < self.replies@.len() ==> comments_model(self.replies@)[j]
                        == comment_model(self.replies@[j]),
                comments_model(replies@) == comments_model(self.replies@).take(i as int),
            decreases self.replies@.len() - i,
        {
            let ghost pre = replies@;
            let child = self.replies[i].duplicate();
            let ghost childg = child;
            replies.push(child);
            proof {
                assert(replies@.drop_last() =~= pre);
                assert(comments_model(replies@) == comments_model(pre).push(
                    comment_model(childg),
                ));
                assert(comments_model(self.replies@).take(i as int + 1).drop_last()
                    =~= comments_model(self.replies@).take(i as int));
                assert(comments_model(self.replies@).take(i as int + 1).last()
                    == comments_model(self.replies@)[i as int]);
                assert(comments_model(replies@) =~= comments_model(self.replies@).take(
                    i as int + 1,
                ));
            }
            i += 1;
        }
        proof {
            assert(comments_model(self.replies@).take(self.replies@.len() as int)
                =~= comments_model(self.replies@));
        }
        Comment {
            user_avatar: self.user_avatar.clone(),
            author: self.author.clone(),
            date: self.date,
            content: duplicate_contents(&self.content),
            replies,
        }
    }
}

impl GameTextInformation {
    /// Copies the whole record, for the read-only snapshots concurrent
    /// jobs work from.
    pub fn duplicate(&self) -> (r: Self)
        ensures
            r@ == self@,
    {
        let mut tags: Vec<String> = Vec::new();
        let mut i: usize = 0;
        while i < self.tags.len()
            invariant
                i <= self.tags@.len(),
                tags@.map_values(|t: String| t@) =~= self.tags@.map_values(|t: String| t@).take(
                    i as int,
                ),
            decreases self.tags@.len() - i,
        {
            let item = self.tags[i].clone();
            let ghost itemg = item;
            let ghost pre = tags@;
            tags.push(item);
            proof {
                assert(tags@ =~= pre.push(itemg));
                assert(tags@.map_values(|t: String| t@) =~= pre.map_values(|t: String| t@).push(
                    itemg@,
                ));
                assert(self.tags@.map_values(|t: String| t@).take(i as int + 1) =~= self.tags@
                    .map_values(|t: String| t@).take(i as int).push(
                    self.tags@.map_values(|t: String| t@)[i as int],
                ));
                assert(self.tags@.map_values(|t: String| t@)[i as int] == itemg@);
            }
            i += 1;
        }
        let mut paragraphs: Vec<(Option<String>, Vec<ParagraphContent>)> = Vec::new();
        let mut k: usize = 0;
        while k < self.paragraphs.len()
            invariant
                k <= self.paragraphs@.len(),
                paragraphs@.map_values(
                    |p: (Option<String>, Vec<ParagraphContent>)| paragraph_model(p),
                ) =~= self.paragraphs@.map_values(
                    |p: (Option<String>, Vec<ParagraphContent>)| paragraph_model(p),
                ).take(k as int),
            decreases self.paragraphs@.len() - k,
        {
            let title = match &self.paragraphs[k].0 {
                Some(t) => Some(t.clone()),
                None => None,
            };
            let item = (title, duplicate_contents(&self.paragraphs[k].1));
            let ghost itemg = item;
            let ghost pre = paragraphs@;
            paragraphs.push(item);
            proof {
                assert(paragraphs@ =~= pre.push(itemg));
                assert(paragraph_model(itemg) == paragraph_model(self.paragraphs@[k as int]));
                assert(paragraphs@.map_values(
                    |p: (Option<String>, Vec<ParagraphContent>)| paragraph_model(p),
                ) =~= pre.map_values(
                    |p: (Option<String>, Vec<ParagraphContent>)| paragraph_model(p),
                ).push(paragraph_model(itemg)));
                assert(self.paragraphs@.map_values(
                    |p: (Option<String>, Vec<ParagraphContent>)| paragraph_model(p),
                ).take(k as int + 1) =~= self.paragraphs@.map_values(
                    |p: (Option<String>, Vec<ParagraphContent>)| paragraph_model(p),
                ).take(k as int).push(
                    self.paragraphs@.map_values(
                        |p: (Option<String>, Vec<ParagraphContent>)| paragraph_model(p),
                    )[k as int],
                ));
                assert(self.paragraphs@.map_values(
                    |p: (Option<String>, Vec<ParagraphContent>)| paragraph_model(p),
                )[k as int] == paragraph_model(itemg));
            }
            k += 1;
        }
        let mut miscellaneous: Vec<(String, String)> = Vec::new();
        let mut m: usize = 0;
        while m < self.miscellaneous.len()
            invariant
                m <= self.miscellaneous@.len(),
                miscellaneous@.map_values(|e: (String, String)| (e.0@, e.1@)) =~= self
                    .miscellaneous@.map_values(|e: (String, String)| (e.0@, e.1@)).take(m as int),
            decreases self.miscellaneous@.len() - m,
        {
            let item = (self.miscellaneous[m].0.clone(), self.miscellaneous[m].1.clone());
            let ghost itemg = item;
            let ghost pre = miscellaneous@;
            miscellaneous.push(item);
            proof {
                assert(miscellaneous@ =~= pre.push(itemg));
                assert(miscellaneous@.map_values(|e: (String, String)| (e.0@, e.1@)) =~= pre
                    .map_values(|e: (String, String)| (e.0@, e.1@)).push((itemg.0@, itemg.1@)));
                assert(self.miscellaneous@.map_values(|e: (String, String)| (e.0@, e.1@)).take(
                    m as int + 1,
                ) =~= self.miscellaneous@.map_values(|e: (String, String)| (e.0@, e.1@)).take(
                    m as int,
                ).push(
                    self.miscellaneous@.map_values(|e: (String, String)| (e.0@, e.1@))[m as int],
                ));
                assert(self.miscellaneous@.map_values(
                    |e: (String, String)| (e.0@, e.1@),
                )[m as int] == (itemg.0@, itemg.1@));
            }
            m += 1;
        }
        let mut files: Vec<(String, (String, Option<u128>))> = Vec::new();
        let mut f: usize = 0;
        while f < self.files.len()
            invariant
                f <= self.files@.len(),
                files@.map_values(
                    |e: (String, (String, Option<u128>))| file_model(e),
                ) =~= self.files@.map_values(
                    |e: (String, (String, Option<u128>))| file_model(e),
                ).take(f as int),
            decreases self.files@.len() - f,
        {
            let item = (
                self.files[f].0.clone(),
                (self.files[f].1.0.clone(), self.files[f].1.1),
            );
            let ghost itemg = item;
            let ghost pre = files@;
            files.push(item);
            proof {
                assert(files@ =~= pre.push(itemg));
                assert(file_model(itemg) == file_model(self.files@[f as int]));
                assert(files@.map_values(
                    |e: (String, (String, Option<u128>))| file_model(e),
                ) =~= pre.map_values(
                    |e: (String, (String, Option<u128>))| file_model(e),
                ).push(file_model(itemg)));
                assert(self.files@.map_values(
                    |e: (String, (String, Option<u128>))| file_model(e),
                ).take(f as int + 1) =~= self.files@.map_values(
                    |e: (String, (String, Option<u128>))| file_model(e),
                ).take(f as int).push(
                    self.files@.map_values(
                        |e: (String, (String, Option<u128>))| file_model(e),
                    )[f as int],
                ));
                assert(self.files@.map_values(
                    |e: (String, (String, Option<u128>))| file_model(e),
                )[f as int] == file_model(itemg));
            }
            f += 1;
        }
        let mut comments: Vec<Comment> = Vec::new();
        let mut c: usize = 0;
        proof {
            lemma_comments_model_index(self.comments@);
            assert(comments_model(comments@) =~= comments_model(self.comments@).take(0));
        }
        while c < self.comments.len()
            invariant
                c <= self.comments@.len(),
                comments_model(self.comments@).len() == self.comments@.len(),
                forall|j: int|
                    0 <= j < self.comments@.len() ==> comments_model(self.comments@)[j]
                        == comment_model(self.comments@[j]),
                comments_model(comments@) == comments_model(self.comments@).take(c as int),
            decreases self.comments@.len() - c,
        {
            let ghost pre = comments@;
            let child = self.comments[c].duplicate();
            let ghost childg = child;
            comments.push(child);
            proof {
                assert(comments@.drop_last() =~= pre);
                assert(comments_model(comments@) == comments_model(pre).push(
                    comment_model(childg),
                ));
                assert(comments_model(self.comments@).take(c as int + 1).drop_last()
                    =~= comments_model(self.comments@).take(c as int));
                assert(comments_model(self.comments@).take(c as int + 1).last()
                    == comments_model(self.comments@)[c as int]);
                assert(comments_model(comments@) =~= comments_model(self.comments@).take(
                    c as int + 1,
                ));
            }
            c += 1;
        }
        proof {
            assert(comments_model(self.comments@).take(self.comments@.len() as int)
                =~= comments_model(self.comments@));
            assert(self.tags@.map_values(|t: String| t@).take(self.tags@.len() as int)
                =~= self.tags@.map_values(|t: String| t@));
            assert(self.paragraphs@.map_values(
                |p: (Option<String>, Vec<ParagraphContent>)| paragraph_model(p),
            ).take(self.paragraphs@.len() as int) =~= self.paragraphs@.map_values(
                |p: (Option<String>, Vec<ParagraphContent>)| paragraph_model(p),
            ));
            assert(self.miscellaneous@.map_values(|e: (String, String)| (e.0@, e.1@)).take(
                self.miscellaneous@.len() as int,
            ) =~= self.miscellaneous@.map_values(|e: (String, String)| (e.0@, e.1@)));
            assert(self.files@.map_values(
                |e: (String, (String, Option<u128>))| file_model(e),
            ).take(self.files@.len() as int) =~= self.files@.map_values(
                |e: (String, (String, Option<u128>))| file_model(e),
            ));
        }
        GameTextInformation {
            id: self.id,
            website: self.website.clone(),
            name: self.name.clone(),
            tags,
            published: self.published,
            viewed: self.viewed,
            paragraphs,
            miscellaneous,
            files,
            comments,
        }
    }
}

/// The avatars of a comment and, depth first, of all its replies.
pub open spec fn avatars_of(c: CommentModel) -> Seq<Seq<char>>
    decreases c,
{
    seq![c.user_avatar] + avatars_of_all(c.replies)
}

/// The avatars of a forest of comments, depth first.
pub open spec fn avatars_of_all(s: Seq<CommentModel>) -> Seq<Seq<char>>
    decreases s,
{
    if s.len() == 0 {
        Seq::empty()
    } else {
        avatars_of(s[0]) + avatars_of_all(s.drop_first())
    }
}

/// The models of a vector of strings.
pub open spec fn strings_model(v: Seq<String>) -> Seq<Seq<char>> {
    v.map_values(|s: String| s@)
}

impl Comment {
    /// Collects the avatar locator of this comment and of every reply,
    /// depth first.
    pub fn get_avatars(&self) -> (r: Vec<String>)
        ensures
            strings_model(r@) == avatars_of(self@),
        decreases *self,
    {
        let mut avatars: Vec<String> = Vec::new();
        avatars.push(self.user_avatar.clone());
        let mut i: usize = 0;
        proof {
            lemma_comments_model_index(self.replies@);
        }
        while i < self.replies.len()
            invariant
                i <= self.replies.len(),
                comments_model(self.replies@).len() == self.replies@.len(),
                forall|j: int|
                    0 <= j < self.replies@.len() ==> comments_model(self.replies@)[j]
                        == comment_model(self.replies@[j]),
                strings_model(avatars@) =~= seq![self.user_avatar@] + avatars_of_all(
                    comments_model(self.replies@).take(i as int),
                ),
            decreases self.replies.len() - i,
        {
            let mut sub = self.replies[i].get_avatars();
            let ghost pre = avatars@;
            let mut k: usize = 0;
            while k < sub.len()
                invariant
                    k <= sub.len(),
                    avatars@ =~= pre + sub@.take(k as int),
                decreases sub.len() - k,
            {
                avatars.push(sub[k].clone());
                k += 1;
            }
            proof {
                assert(avatars@ =~= pre + sub@);
                assert(strings_model(pre + sub@) =~= strings_model(pre) + strings_model(sub@));
                lemma_avatars_take_step(comments_model(self.replies@), i as int);
            }
            i += 1;
        }
        proof {
            assert(comments_model(self.replies@).take(self.replies@.len() as int)
                =~= comments_model(self.replies@));
            assert(avatars_of(self@) == seq![self.user_avatar@] + avatars_of_all(
                comments_model(self.replies@),
            ));
        }
        avatars
    }
}

/// Extending the prefix of a forest by one tree appends that tree's
/// avatars.
pub proof fn lemma_avatars_take_step(s: Seq<CommentModel>, i: int)
    requires
        0 <= i < s.len(),
    ensures
        avatars_of_all(s.take(i + 1)) == avatars_of_all(s.take(i)) + avatars_of(s[i]),
    decreases i,
{
    if i == 0 {
        assert(s.take(1).drop_first() =~= Seq::<CommentModel>::empty());
        assert(s.take(1)[0] == s[0]);
        assert(s.take(0) =~= Seq::<CommentModel>::empty());
        assert(avatars_of_all(s.take(1)) =~= avatars_of_all(s.take(0)) + avatars_of(s[0]));
    } else {
        lemma_avatars_take_step(s.drop_first(), i - 1);
        assert(s.take(i + 1).drop_first() =~= s.drop_first().take(i));
        assert(s.take(i).drop_first() =~= s.drop_first().take(i - 1));
        assert(s.take(i + 1)[0] == s[0]);
        assert(s.take(i)[0] == s[0]);
        assert(s.drop_first()[i - 1] == s[i]);
        assert(avatars_of_all(s.take(i + 1)) == avatars_of(s[0]) + avatars_of_all(
            s.drop_first().take(i),
        ));
        assert(avatars_of_all(s.take(i)) == avatars_of(s[0]) + avatars_of_all(
            s.drop_first().take(i - 1),
        ));
        assert(avatars_of(s[0]) + (avatars_of_all(s.drop_first().take(i - 1)) + avatars_of(s[i]))
            =~= (avatars_of(s[0]) + avatars_of_all(s.drop_first().take(i - 1))) + avatars_of(
            s[i],
        ));
    }
}

/// The content-addressed blob store: raw bytes keyed by their original
/// remote locator, each key held once.
#[derive(Debug)]
pub struct GameBinaryDatabase(pub Vec<(String, Vec<u8>)>);

/// The bytes stored under a key, scanning newest entries first.
pub open spec fn blob_lookup(s: Seq<(Seq<char>, Seq<u8>)>, k: Seq<char>) -> Option<Seq<u8>>
    decreases s.len(),
{
    if s.len() == 0 {
        None
    } else if s.last().0 == k {
        Some(s.last().1)
    } else {
        blob_lookup(s.drop_last(), k)
    }
}

impl GameBinaryDatabase {
    /// The model: the ordered key/bytes entries.
    pub open spec fn entries(&self) -> Seq<(Seq<char>, Seq<u8>)> {
        self.0@.map_values(|e: (String, Vec<u8>)| (e.0@, e.1@))
    }

    /// Every key is held at most once.
    pub open spec fn wf(&self) -> bool {
        forall|i: int, j: int|
            0 <= i < j < self.entries().len() ==> (#[trigger] self.entries()[i]).0 != (
            #[trigger] self.entries()[j]).0
    }

    /// An empty store.
    pub fn new() -> (r: Self)
        ensures
            r.entries() == Seq::<(Seq<char>, Seq<u8>)>::empty(),
            r.wf(),
    {
        let r = GameBinaryDatabase(Vec::new());
        proof {
            assert(r.entries() =~= Seq::<(Seq<char>, Seq<u8>)>::empty());
        }
        r
    }

    /// The number of blobs held.
    pub fn len(&self) -> (r: usize)
        ensures
            r == self.entries().len(),
    {
        self.0.len()
    }

    /// Whether a key is present.
    pub fn contains(&self, key: &str) -> (r: bool)
        ensures
            r == (blob_lookup(self.entries(), key@) is Some),
    {
        match self.position(key) {
            Some(_) => true,
            None => false,
        }
    }

    /// The bytes stored under a key, if any.
    pub fn get(&self, key: &str) -> (r: Option<&Vec<u8>>)
        ensures
            match r {
                Some(v) => blob_lookup(self.entries(), key@) == Some(v@),
                None => blob_lookup(self.entries(), key@) is None,
            },
    {
        match self.position(key) {
            Some(i) => Some(&self.0[i].1),
            None => None,
        }
    }

    /// The index of the entry holding a key, scanning newest first.
    fn position(&self, key: &str) -> (r: Option<usize>)
        ensures
            match r {
                Some(i) => i < self.entries().len() && self.entries()[i as int].0 == key@
                    && blob_lookup(self.entries(), key@) == Some(self.entries()[i as int].1),
                None => blob_lookup(self.entries(), key@) is None,
            },
    {
        let ghost model = self.entries();
        let mut i: usize = self.0.len();
        proof {
            assert(model.take(i as int) =~= model);
        }
        while i > 0
            invariant
                model == self.entries(),
                i <= self.0.len(),
                blob_lookup(model, key@) == blob_lookup(model.take(i as int), key@),
            decreases i,
        {
            i -= 1;
            proof {
                assert(model.take(i as int + 1).last() == model[i as int]);
                assert(model.take(i as int + 1).drop_last() =~= model.take(i as int));
            }
            if str_eq(self.0[i].0.as_str(), key) {
                return Some(i);
            }
        }
        proof {
            assert(model.take(0) =~= Seq::<(Seq<char>, Seq<u8>)>::empty());
        }
        None
    }

    /// Stores bytes under a key, replacing what the key held before.
    /// A write is all-or-nothing: the entry holds the whole value.
    pub fn insert(&mut self, key: String, value: Vec<u8>)
        requires
            old(self).wf(),
        ensures
            final(self).wf(),
            blob_lookup(final(self).entries(), key@) == Some(value@),
            forall|k2: Seq<char>|
                k2 != key@ ==> #[trigger] blob_lookup(final(self).entries(), k2) == blob_lookup(
                    old(self).entries(),
                    k2,
                ),
            final(self).entries() == match blob_position_spec(old(self).entries(), key@) {
                Some(i) => old(self).entries().update(i, (key@, value@)),
                None => old(self).entries().push((key@, value@)),
            },
    {
        let ghost oldm = self.entries();
        match self.position(&key.as_str()) {
            Some(i) => {
                proof {
                    lemma_blob_position(oldm, key@);
                    let j = blob_position_spec(oldm, key@).unwrap();
                    assert(oldm[j].0 == key@ && oldm[i as int].0 == key@);
                    assert(i as int == j);
                }
                self.0.set(i, (key, value));
                proof {
                    assert(self.entries() =~= oldm.update(i as int, (key@, value@)));
                    lemma_blob_lookup_update(oldm, i as int, key@, value@);
                }
            },
            None => {
                proof {
                    lemma_blob_position(oldm, key@);
                }
                self.0.push((key, value));
                proof {
                    assert(self.entries() =~= oldm.push((key@, value@)));
                    assert(self.entries().drop_last() =~= oldm);
                    lemma_blob_lookup_none_absent(oldm, key@);
                    assert forall|i: int, j: int|
                        0 <= i < j < self.entries().len() implies (
                    #[trigger] self.entries()[i]).0 != (#[trigger] self.entries()[j]).0 by {
                        if j == self.entries().len() - 1 {
                            assert(self.entries()[i] == oldm[i]);
                        }
                    }
                }
            },
        }
    }
}

/// The index of the entry holding a key, if any, scanning newest first.
pub open spec fn blob_position_spec(s: Seq<(Seq<char>, Seq<u8>)>, k: Seq<char>) -> Option<int>
    decreases s.len(),
{
    if s.len() == 0 {
        None
    } else if s.last().0 == k {
        Some(s.len() - 1)
    } else {
        blob_position_spec(s.drop_last(), k)
    }
}

/// The position and the lookup agree: a found position holds the key and
/// its bytes are the lookup's result; no position means no match at all.
pub proof fn lemma_blob_position(s: Seq<(Seq<char>, Seq<u8>)>, k: Seq<char>)
    ensures
        match blob_position_spec(s, k) {
            Some(i) => 0 <= i < s.len() && s[i].0 == k && blob_lookup(s, k) == Some(s[i].1),
            None => blob_lookup(s, k) is None && forall|i: int| 0 <= i < s.len() ==> (#[trigger] s[i]).0 != k,
        },
    decreases s.len(),
{
    if s.len() > 0 {
        lemma_blob_position(s.drop_last(), k);
        if s.last().0 != k {
            assert(forall|i: int|
                0 <= i < s.len() - 1 ==> s.drop_last()[i] == #[trigger] s[i]);
        }
    }
}

/// No match anywhere means the lookup finds nothing.
proof fn lemma_blob_lookup_none_absent(s: Seq<(Seq<char>, Seq<u8>)>, k: Seq<char>)
    requires
        blob_lookup(s, k) is None,
    ensures
        forall|i: int| 0 <= i < s.len() ==> (#[trigger] s[i]).0 != k,
    decreases s.len(),
{
    if s.len() > 0 {
        lemma_blob_lookup_none_absent(s.drop_last(), k);
        assert(forall|i: int| 0 <= i < s.len() - 1 ==> s.drop_last()[i] == #[trigger] s[i]);
    }
}

/// Replacing the entry at a position that holds a key changes only that
/// key's lookup.
proof fn lemma_blob_lookup_update(
    s: Seq<(Seq<char>, Seq<u8>)>,
    i: int,
    k: Seq<char>,
    v: Seq<u8>,
)
    requires
        0 <= i < s.len(),
        s[i].0 == k,
        forall|a: int, b: int| 0 <= a < b < s.len() ==> (#[trigger] s[a]).0 != (#[trigger] s[b]).0,
    ensures
        blob_lookup(s.update(i, (k, v)), k) == Some(v),
        forall|k2: Seq<char>|
            k2 != k ==> #[trigger] blob_lookup(s.update(i, (k, v)), k2) == blob_lookup(s, k2),
        forall|a: int, b: int|
            0 <= a < b < s.update(i, (k, v)).len() ==> (#[trigger] s.update(i, (k, v))[a]).0 != (
            #[trigger] s.update(i, (k, v))[b]).0,
    decreases s.len(),
{
    let t = s.update(i, (k, v));
    if i == s.len() - 1 {
        assert(t.last() == (k, v));
        assert(t.drop_last() =~= s.drop_last());
        assert forall|k2: Seq<char>| k2 != k implies #[trigger] blob_lookup(t, k2) == blob_lookup(
            s,
            k2,
        ) by {
            assert(blob_lookup(t, k2) == blob_lookup(t.drop_last(), k2));
            assert(s.last().0 == k);
        }
    } else {
        assert(t.last() == s.last());
        assert(t.drop_last() =~= s.drop_last().update(i, (k, v)));
        assert(s.last().0 != k) by {
            assert(s[i].0 == k);
        }
        lemma_blob_lookup_update(s.drop_last(), i, k, v);
        assert forall|k2: Seq<char>| k2 != k implies #[trigger] blob_lookup(t, k2) == blob_lookup(
            s,
            k2,
        ) by {
            if s.last().0 == k2 {
            } else {
                assert(blob_lookup(t, k2) == blob_lookup(t.drop_last(), k2));
            }
        }
    }
    assert forall|a: int, b: int| 0 <= a < b < t.len() implies (#[trigger] t[a]).0 != (
    #[trigger] t[b]).0 by {
        assert(t[a] == if a == i {
            (k, v)
        } else {
            s[a]
        });
        assert(t[b] == if b == i {
            (k, v)
        } else {
            s[b]
        });
    }
}

} // verus!
