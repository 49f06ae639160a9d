//! The crawl orchestrator's decisions: which discovered locators to fetch,
//! how fetched records fold into the archive, and which avatars, images
//! and game files still need downloading. All of it works on read-only
//! snapshots; the archive itself changes only through the fold.

use vstd::prelude::*;
use crate::config::AvailableWebsite;
use crate::record::{
    avatars_of_all, blob_lookup, ContentModel, GameBinaryDatabase, GameTextInformation,
    RecordModel,
};
use crate::text::dec_str;
use crate::trusted::seahash_of;

verus! {

/// Whether the archive already holds a record with the given identity.
pub open spec fn contains_id(db: Seq<RecordModel>, id: u64) -> bool {
    exists|i: int| 0 <= i < db.len() && (#[trigger] db[i]).id == id
}

/// Whether the archive holds a record with the given identity.
pub fn archive_contains_id(db: &Vec<GameTextInformation>, id: u64) -> (r: bool)
    ensures
        r == contains_id(db@.map_values(|m: GameTextInformation| m@), id),
{
    let ghost model = db@.map_values(|m: GameTextInformation| m@);
    let mut i: usize = 0;
    while i < db.len()
        invariant
            model == db@.map_values(|m: GameTextInformation| m@),
            i <= db@.len(),
            forall|j: int| 0 <= j < i ==> (#[trigger] model[j]).id != id,
        decreases db@.len() - i,
    {
        if db[i].id == id {
            proof {
                assert(model[i as int].id == id);
            }
            return true;
        }
        i += 1;
    }
    false
}

/// The locators of a page worth fetching: all of them under overwrite,
/// otherwise only those whose identity the archive does not hold yet.
pub open spec fn plan_fetch_spec(
    links: Seq<Seq<char>>,
    db: Seq<RecordModel>,
    overwrite: bool,
) -> Seq<Seq<char>>
    decreases links.len(),
{
    if links.len() == 0 {
        Seq::empty()
    } else {
        plan_fetch_spec(links.drop_last(), db, overwrite) + (if overwrite || !contains_id(
            db,
            seahash_of(links.last()),
        ) {
            seq![links.last()]
        } else {
            Seq::empty()
        })
    }
}

/// Filters a page's discovered locators against the archive.
pub fn plan_fetch(links: &Vec<String>, db: &Vec<GameTextInformation>, overwrite: bool) -> (r: Vec<
    String,
>)
    ensures
        r@.map_values(|l: String| l@) == plan_fetch_spec(
            links@.map_values(|l: String| l@),
            db@.map_values(|m: GameTextInformation| m@),
            overwrite,
        ),
{
    let ghost lm = links@.map_values(|l: String| l@);
    let ghost dm = db@.map_values(|m: GameTextInformation| m@);
    let mut r: Vec<String> = Vec::new();
    let mut i: usize = 0;
    proof {
        assert(lm.take(0) =~= Seq::<Seq<char>>::empty());
        assert(r@.map_values(|l: String| l@) =~= plan_fetch_spec(lm.take(0), dm, overwrite));
    }
    while i < links.len()
        invariant
            lm == links@.map_values(|l: String| l@),
            dm == db@.map_values(|m: GameTextInformation| m@),
            i <= links@.len(),
            r@.map_values(|l: String| l@) == plan_fetch_spec(lm.take(i as int), dm, overwrite),
        decreases links@.len() - i,
    {
        proof {
            assert(lm.take(i as int + 1).drop_last() =~= lm.take(i as int));
            assert(lm.take(i as int + 1).last() == lm[i as int]);
        }
        let id = crate::trusted::seahash_str(links[i].as_str());
        let keep = overwrite || !archive_contains_id(db, id);
        if keep {
            let ghost r0 = r@;
            r.push(links[i].clone());
            proof {
                assert(r@.map_values(|l: String| l@) =~= r0.map_values(|l: String| l@)
                    + seq![lm[i as int]]);
            }
        } else {
            proof {
                assert(r@.map_values(|l: String| l@) + Seq::<Seq<char>>::empty() =~= r@
                    .map_values(|l: String| l@));
            }
        }
        i += 1;
    }
    proof {
        assert(lm.take(lm.len() as int) =~= lm);
    }
    r
}

/// The status line logged for one record folded from a page.
pub open spec fn downloaded_line_spec(page: u32, name: Seq<char>) -> Seq<char> {
    "Downloaded metadata from page "@ + dec_str(page as nat) + ": "@ + name
}

/// Folds one page's fetched records into the archive, strictly after the
/// producing job returned: the archive only grows, and one status line
/// reports each appended record.
pub fn fold_fetched(
    database: &mut Vec<GameTextInformation>,
    fetched: Vec<GameTextInformation>,
    page: u32,
) -> (logs: Vec<String>)
    ensures
        final(database)@.map_values(|m: GameTextInformation| m@) == old(database)@.map_values(
            |m: GameTextInformation| m@,
        ) + fetched@.map_values(|m: GameTextInformation| m@),
        logs@.len() == fetched@.len(),
        forall|i: int|
            0 <= i < fetched@.len() ==> (#[trigger] logs@[i])@ == downloaded_line_spec(
                page,
                fetched@[i].name@,
            ),
{
    let ghost d0 = database@.map_values(|m: GameTextInformation| m@);
    let ghost fm = fetched@.map_values(|m: GameTextInformation| m@);
    let ghost forig = fetched@;
    let mut logs: Vec<String> = Vec::new();
    let mut fetched = fetched;
    proof {
        assert(database@.map_values(|m: GameTextInformation| m@) =~= d0 + fm.take(0));
        assert(fetched@ =~= forig.skip(0));
    }
    while fetched.len() > 0
        invariant
            fm == forig.map_values(|m: GameTextInformation| m@),
            logs@.len() <= forig.len(),
            fetched@ == forig.skip(logs@.len() as int),
            database@.map_values(|m: GameTextInformation| m@) == d0 + fm.take(
                logs@.len() as int,
            ),
            forall|j: int|
                0 <= j < logs@.len() ==> (#[trigger] logs@[j])@ == downloaded_line_spec(
                    page,
                    forig[j].name@,
                ),
        decreases fetched@.len(),
    {
        let ghost i = logs@.len() as int;
        let rec = fetched.remove(0);
        proof {
            assert(forig.skip(i)[0] == forig[i]);
            assert(rec == forig[i]);
            assert(fetched@ =~= forig.skip(i + 1));
        }
        let mut line = String::from_str("Downloaded metadata from page ");
        line.append(crate::text::u32_to_string(page).as_str());
        line.append(": ");
        line.append(rec.name.as_str());
        logs.push(line);
        database.push(rec);
        proof {
            assert(fm.take(i + 1).drop_last() =~= fm.take(i));
            assert(fm.take(i + 1).last() == fm[i]);
            assert(fm[i] == forig[i]@);
            assert(database@.map_values(|m: GameTextInformation| m@) =~= (d0 + fm.take(i)).push(
                fm[i],
            ));
            assert((d0 + fm.take(i)).push(fm[i]) =~= d0 + fm.take(i + 1));
        }
    }
    proof {
        assert(logs@.len() == forig.len()) by {
            assert(fetched@.len() == 0);
            assert(forig.skip(logs@.len() as int).len() == forig.len() - logs@.len());
        }
        assert(fm.take(fm.len() as int) =~= fm);
    }
    logs
}

/// Law: re-running a metadata fetch with overwrite off against an archive
/// that already holds a record never duplicates or mutates that record.
/// Every locator the plan keeps hashes to an identity the archive lacks —
/// in particular not the held record's — and folding results only appends,
/// leaving every archived record in place.
pub proof fn lemma_fetch_metadata_idempotent(
    links: Seq<Seq<char>>,
    db: Seq<RecordModel>,
    k: int,
)
    requires
        0 <= k < db.len(),
    ensures
        forall|i: int|
            0 <= i < plan_fetch_spec(links, db, false).len() ==> seahash_of(
                #[trigger] plan_fetch_spec(links, db, false)[i],
            ) != db[k].id,
    decreases links.len(),
{
    if links.len() > 0 {
        lemma_fetch_metadata_idempotent(links.drop_last(), db, k);
        let plan = plan_fetch_spec(links, db, false);
        let prev = plan_fetch_spec(links.drop_last(), db, false);
        if !contains_id(db, seahash_of(links.last())) {
            assert(seahash_of(links.last()) != db[k].id) by {
                if seahash_of(links.last()) == db[k].id {
                    assert(contains_id(db, seahash_of(links.last())));
                }
            }
            assert(forall|i: int|
                0 <= i < plan.len() ==> plan[i] == if i < prev.len() {
                    prev[i]
                } else {
                    links.last()
                });
        } else {
            assert(plan =~= prev);
        }
    }
}

/// Whether a record matches the chosen site, when one is chosen.
pub open spec fn site_matches(r: RecordModel, site: Option<AvailableWebsite>) -> bool {
    match site {
        None => true,
        Some(s) => crate::config::parse_website_spec(r.website) == Some(s),
    }
}

/// The comment avatars of every matching record, in record order.
pub open spec fn all_avatars_spec(
    db: Seq<RecordModel>,
    site: Option<AvailableWebsite>,
) -> Seq<Seq<char>>
    decreases db.len(),
{
    if db.len() == 0 {
        Seq::empty()
    } else {
        all_avatars_spec(db.drop_last(), site) + (if site_matches(db.last(), site) {
            avatars_of_all(db.last().comments)
        } else {
            Seq::empty()
        })
    }
}

/// The locators among the given ones that still need fetching: all of
/// them under overwrite, else only those the blob store lacks.
pub open spec fn missing_blobs_spec(
    avs: Seq<Seq<char>>,
    blobs: Seq<(Seq<char>, Seq<u8>)>,
    overwrite: bool,
) -> Seq<Seq<char>>
    decreases avs.len(),
{
    if avs.len() == 0 {
        Seq::empty()
    } else {
        missing_blobs_spec(avs.drop_last(), blobs, overwrite) + (if overwrite || blob_lookup(
            blobs,
            avs.last(),
        ) is None {
            seq![avs.last()]
        } else {
            Seq::empty()
        })
    }
}

/// The avatar locators a run must download: the matching records'
/// avatars, minus those the blob store already holds unless overwrite is
/// on.
pub fn avatars_to_download(
    db: &Vec<GameTextInformation>,
    site: Option<AvailableWebsite>,
    blobs: &GameBinaryDatabase,
    overwrite: bool,
) -> (r: Vec<String>)
    ensures
        r@.map_values(|l: String| l@) == missing_blobs_spec(
            all_avatars_spec(db@.map_values(|m: GameTextInformation| m@), site),
            blobs.entries(),
            overwrite,
        ),
{
    let ghost dm = db@.map_values(|m: GameTextInformation| m@);
    let mut avatars: Vec<String> = Vec::new();
    let mut i: usize = 0;
    proof {
        assert(dm.take(0) =~= Seq::<RecordModel>::empty());
        assert(avatars@.map_values(|l: String| l@) =~= all_avatars_spec(dm.take(0), site));
    }
    while i < db.len()
        invariant
            dm == db@.map_values(|m: GameTextInformation| m@),
            i <= db@.len(),
            avatars@.map_values(|l: String| l@) == all_avatars_spec(dm.take(i as int), site),
        decreases db@.len() - i,
    {
        proof {
            assert(dm.take(i as int + 1).drop_last() =~= dm.take(i as int));
            assert(dm.take(i as int + 1).last() == dm[i as int]);
        }
        let matches = match site {
            None => true,
            Some(s) => {
                let parsed = crate::config::parse_website(db[i].website.as_str());
                match parsed {
                    Some(p) => p == s,
                    None => false,
                }
            },
        };
        if matches {
            let ghost a0 = avatars@;
            let mut k: usize = 0;
            let recs = &db[i].comments;
            let ghost cm = crate::record::comments_model(recs@);
            proof {
                crate::record::lemma_comments_model_index(recs@);
                assert(avatars@.map_values(|l: String| l@) =~= a0.map_values(|l: String| l@)
                    + avatars_of_all(cm.take(0)));
            }
            while k < recs.len()
                invariant
                    cm == crate::record::comments_model(recs@),
                    cm.len() == recs@.len(),
                    forall|j: int|
                        0 <= j < recs@.len() ==> cm[j] == crate::record::comment_model(
                            recs@[j],
                        ),
                    k <= recs@.len(),
                    avatars@.map_values(|l: String| l@) == a0.map_values(|l: String| l@)
                        + avatars_of_all(cm.take(k as int)),
                decreases recs@.len() - k,
            {
                let mut sub = recs[k].get_avatars();
                let ghost pre = avatars@;
                let mut t: usize = 0;
                while t < sub.len()
                    invariant
                        t <= sub@.len(),
                        avatars@ =~= pre + sub@.take(t as int),
                    decreases sub@.len() - t,
                {
                    avatars.push(sub[t].clone());
                    t += 1;
                }
                proof {
                    assert(avatars@ =~= pre + sub@);
                    assert(avatars@.map_values(|l: String| l@) =~= pre.map_values(
                        |l: String| l@,
                    ) + crate::record::strings_model(sub@));
                    crate::record::lemma_avatars_take_step(cm, k as int);
                }
                k += 1;
            }
            proof {
                assert(cm.take(cm.len() as int) =~= cm);
                assert(cm == dm[i as int].comments);
                assert(site_matches(dm[i as int], site));
            }
        } else {
            proof {
                assert(!site_matches(dm[i as int], site));
                assert(avatars@.map_values(|l: String| l@) + Seq::<Seq<char>>::empty() =~= avatars@
                    .map_values(|l: String| l@));
            }
        }
        i += 1;
    }
    proof {
        assert(dm.take(dm.len() as int) =~= dm);
    }
    filter_missing(avatars, blobs, overwrite)
}

/// Keeps the locators the blob store lacks, or all under overwrite.
fn filter_missing(avs: Vec<String>, blobs: &GameBinaryDatabase, overwrite: bool) -> (r: Vec<
    String,
>)
    ensures
        r@.map_values(|l: String| l@) == missing_blobs_spec(
            avs@.map_values(|l: String| l@),
            blobs.entries(),
            overwrite,
        ),
{
    let ghost am = avs@.map_values(|l: String| l@);
    let mut r: Vec<String> = Vec::new();
    let mut i: usize = 0;
    let avs = avs;
    proof {
        assert(am.take(0) =~= Seq::<Seq<char>>::empty());
        assert(r@.map_values(|l: String| l@) =~= missing_blobs_spec(
            am.take(0),
            blobs.entries(),
            overwrite,
        ));
    }
    while i < avs.len()
        invariant
            am == avs@.map_values(|l: String| l@),
            i <= avs@.len(),
            r@.map_values(|l: String| l@) == missing_blobs_spec(
                am.take(i as int),
                blobs.entries(),
                overwrite,
            ),
        decreases avs@.len() - i,
    {
        proof {
            assert(am.take(i as int + 1).drop_last() =~= am.take(i as int));
            assert(am.take(i as int + 1).last() == am[i as int]);
        }
        let keep = overwrite || !blobs.contains(avs[i].as_str());
        if keep {
            let ghost r0 = r@;
            r.push(avs[i].clone());
            proof {
                assert(r@.map_values(|l: String| l@) =~= r0.map_values(|l: String| l@)
                    + seq![am[i as int]]);
            }
        } else {
            proof {
                assert(r@.map_values(|l: String| l@) + Seq::<Seq<char>>::empty() =~= r@
                    .map_values(|l: String| l@));
            }
        }
        i += 1;
    }
    proof {
        assert(am.take(am.len() as int) =~= am);
    }
    r
}

/// The image locators a record's paragraphs reference, in order.
pub open spec fn record_images_spec(r: RecordModel) -> Seq<Seq<char>> {
    flat_images(flat_contents(r.paragraphs))
}

/// All content pieces of a paragraph list, in order.
pub open spec fn flat_contents(
    ps: Seq<(Option<Seq<char>>, Seq<ContentModel>)>,
) -> Seq<ContentModel>
    decreases ps.len(),
{
    if ps.len() == 0 {
        Seq::empty()
    } else {
        flat_contents(ps.drop_last()) + ps.last().1
    }
}

/// The image locators among content pieces, in order.
pub open spec fn flat_images(cs: Seq<ContentModel>) -> Seq<Seq<char>>
    decreases cs.len(),
{
    if cs.len() == 0 {
        Seq::empty()
    } else {
        flat_images(cs.drop_last()) + (match cs.last() {
            ContentModel::Image(l) => seq![l],
            ContentModel::Text(_) => Seq::empty(),
        })
    }
}

/// Whether a record is selected by an id list; an empty list selects all.
pub open spec fn id_selected(ids: Seq<u64>, id: u64) -> bool {
    ids.len() == 0 || ids.contains(id)
}

/// The screenshot locators of the selected records, in order.
pub open spec fn all_images_spec(db: Seq<RecordModel>, ids: Seq<u64>) -> Seq<Seq<char>>
    decreases db.len(),
{
    if db.len() == 0 {
        Seq::empty()
    } else {
        all_images_spec(db.drop_last(), ids) + (if id_selected(ids, db.last().id) {
            record_images_spec(db.last())
        } else {
            Seq::empty()
        })
    }
}

/// The screenshot locators a run must download: the selected records'
/// image references, minus those the blob store already holds unless
/// overwrite is on.
pub fn screenshots_to_download(
    db: &Vec<GameTextInformation>,
    ids: &Vec<u64>,
    blobs: &GameBinaryDatabase,
    overwrite: bool,
) -> (r: Vec<String>)
    ensures
        r@.map_values(|l: String| l@) == missing_blobs_spec(
            all_images_spec(db@.map_values(|m: GameTextInformation| m@), ids@),
            blobs.entries(),
            overwrite,
        ),
{
    let ghost dm = db@.map_values(|m: GameTextInformation| m@);
    let mut images: Vec<String> = Vec::new();
    let mut i: usize = 0;
    proof {
        assert(dm.take(0) =~= Seq::<RecordModel>::empty());
        assert(images@.map_values(|l: String| l@) =~= all_images_spec(dm.take(0), ids@));
    }
    while i < db.len()
        invariant
            dm == db@.map_values(|m: GameTextInformation| m@),
            i <= db@.len(),
            images@.map_values(|l: String| l@) == all_images_spec(dm.take(i as int), ids@),
        decreases db@.len() - i,
    {
        proof {
            assert(dm.take(i as int + 1).drop_last() =~= dm.take(i as int));
            assert(dm.take(i as int + 1).last() == dm[i as int]);
        }
        let selected = if ids.len() == 0 {
            true
        } else {
            contains_u64(ids, db[i].id)
        };
        if selected {
            let ghost a0 = images@;
            push_record_images(&mut images, &db[i]);
            proof {
                assert(id_selected(ids@, dm[i as int].id));
            }
        } else {
            proof {
                assert(!id_selected(ids@, dm[i as int].id));
                assert(images@.map_values(|l: String| l@) + Seq::<Seq<char>>::empty() =~= images@
                    .map_values(|l: String| l@));
            }
        }
        i += 1;
    }
    proof {
        assert(dm.take(dm.len() as int) =~= dm);
    }
    filter_missing(images, blobs, overwrite)
}

/// Whether a number occurs in a list.
fn contains_u64(ids: &Vec<u64>, id: u64) -> (r: bool)
    ensures
        r == ids@.contains(id),
{
    let mut i: usize = 0;
    while i < ids.len()
        invariant
            i <= ids@.len(),
            forall|j: int| 0 <= j < i ==> ids@[j] != id,
        decreases ids@.len() - i,
    {
        if ids[i] == id {
            return true;
        }
        i += 1;
    }
    proof {
        if ids@.contains(id) {
            let j = choose|j: int| 0 <= j < ids@.len() && ids@[j] == id;
            assert(ids@[j] != id);
        }
    }
    false
}

/// Appends one record's image locators.
fn push_record_images(images: &mut Vec<String>, rec: &GameTextInformation)
    ensures
        final(images)@.map_values(|l: String| l@) == old(images)@.map_values(|l: String| l@)
            + record_images_spec(rec@),
{
    let ghost pm = rec@.paragraphs;
    let ghost base = images@.map_values(|l: String| l@);
    let mut k: usize = 0;
    let ghost flat0 = flat_contents(pm);
    proof {
        assert(pm.take(0) =~= Seq::<(Option<Seq<char>>, Seq<ContentModel>)>::empty());
        assert(images@.map_values(|l: String| l@) =~= base + flat_images(
            flat_contents(pm.take(0)),
        ));
    }
    while k < rec.paragraphs.len()
        invariant
            pm == rec@.paragraphs,
            k <= rec.paragraphs@.len(),
            pm.len() == rec.paragraphs@.len(),
            images@.map_values(|l: String| l@) == base + flat_images(
                flat_contents(pm.take(k as int)),
            ),
        decreases rec.paragraphs@.len() - k,
    {
        let contents = &rec.paragraphs[k].1;
        let ghost cm = contents@.map_values(|c: crate::record::ParagraphContent| c@);
        let ghost before = flat_contents(pm.take(k as int));
        proof {
            assert(pm.take(k as int + 1).drop_last() =~= pm.take(k as int));
            assert(pm.take(k as int + 1).last() == pm[k as int]);
            assert(pm[k as int] == crate::record::paragraph_model(rec.paragraphs@[k as int]));
            assert(flat_contents(pm.take(k as int + 1)) == before + cm);
        }
        let mut t: usize = 0;
        proof {
            assert(cm.take(0) =~= Seq::<ContentModel>::empty());
            lemma_flat_images_concat(before, cm.take(0));
            assert(before + cm.take(0) =~= before);
        }
        while t < contents.len()
            invariant
                cm == contents@.map_values(|c: crate::record::ParagraphContent| c@),
                t <= contents@.len(),
                cm.len() == contents@.len(),
                images@.map_values(|l: String| l@) == base + flat_images(before + cm.take(
                    t as int,
                )),
            decreases contents@.len() - t,
        {
            proof {
                assert((before + cm.take(t as int + 1)).drop_last() =~= before + cm.take(
                    t as int,
                ));
                assert((before + cm.take(t as int + 1)).last() == cm[t as int]);
            }
            match &contents[t] {
                crate::record::ParagraphContent::Image(l) => {
                    let ghost r0 = images@;
                    images.push(l.clone());
                    proof {
                        assert(images@.map_values(|x: String| x@) =~= r0.map_values(
                            |x: String| x@,
                        ) + seq![cm[t as int].arrow_Image_0()]);
                    }
                },
                crate::record::ParagraphContent::Text(_) => {
                    proof {
                        assert(images@.map_values(|x: String| x@) + Seq::<Seq<char>>::empty()
                            =~= images@.map_values(|x: String| x@));
                    }
                },
            }
            t += 1;
        }
        proof {
            assert(before + cm.take(cm.len() as int) =~= before + cm);
        }
        k += 1;
    }
    proof {
        assert(pm.take(pm.len() as int) =~= pm);
    }
}

/// Whether a locator carries the marker of an entry the extractor could
/// not parse.
pub open spec fn is_unparsable_spec(loc: Seq<char>) -> bool {
    loc.len() >= 11 && loc.subrange(0, 11) == "Unparsable:"@
}

/// Splits one record's download entries into the fetchable ones and the
/// unparsable markers, the marker prefix stripped from the latter.
pub open spec fn spec_split_unparsable(
    fs: Seq<(Seq<char>, (Seq<char>, Option<u128>))>,
) -> (Seq<(Seq<char>, (Seq<char>, Option<u128>))>, Seq<Seq<char>>)
    decreases fs.len(),
{
    if fs.len() == 0 {
        (Seq::empty(), Seq::empty())
    } else {
        let (good, bad) = spec_split_unparsable(fs.drop_last());
        if is_unparsable_spec(fs.last().1.0) {
            (good, bad.push(fs.last().1.0.skip(11)))
        } else {
            (good.push(fs.last()), bad)
        }
    }
}

/// Splits a record's download entries into fetchable entries and stripped
/// unparsable markers.
pub fn split_unparsable(fs: &Vec<(String, (String, Option<u128>))>) -> (r: (
    Vec<(String, (String, Option<u128>))>,
    Vec<String>,
))
    ensures
        ({
            let (good, bad) = spec_split_unparsable(
                fs@.map_values(
                    |f: (String, (String, Option<u128>))| crate::record::file_model(f),
                ),
            );
            r.0@.map_values(
                |f: (String, (String, Option<u128>))| crate::record::file_model(f),
            ) == good && r.1@.map_values(|s: String| s@) == bad
        }),
{
    let ghost fm = fs@.map_values(
        |f: (String, (String, Option<u128>))| crate::record::file_model(f),
    );
    let mut good: Vec<(String, (String, Option<u128>))> = Vec::new();
    let mut bad: Vec<String> = Vec::new();
    let mut i: usize = 0;
    proof {
        reveal_strlit("Unparsable:");
        assert(fm.take(0) =~= Seq::<(Seq<char>, (Seq<char>, Option<u128>))>::empty());
        assert(good@.map_values(
            |f: (String, (String, Option<u128>))| crate::record::file_model(f),
        ) =~= Seq::<(Seq<char>, (Seq<char>, Option<u128>))>::empty());
        assert(bad@.map_values(|s: String| s@) =~= Seq::<Seq<char>>::empty());
    }
    while i < fs.len()
        invariant
            fm == fs@.map_values(
                |f: (String, (String, Option<u128>))| crate::record::file_model(f),
            ),
            i <= fs@.len(),
            (
                good@.map_values(
                    |f: (String, (String, Option<u128>))| crate::record::file_model(f),
                ),
                bad@.map_values(|s: String| s@),
            ) == spec_split_unparsable(fm.take(i as int)),
        decreases fs@.len() - i,
    {
        proof {
            assert(fm.take(i as int + 1).drop_last() =~= fm.take(i as int));
            assert(fm.take(i as int + 1).last() == fm[i as int]);
        }
        let loc = &fs[i].1.0;
        let loclen = loc.as_str().unicode_len();
        let marked = loclen >= 11 && {
            let head = loc.as_str().substring_char(0, 11);
            crate::text::str_eq(head, "Unparsable:")
        };
        proof {
            reveal_strlit("Unparsable:");
        }
        if marked {
            let ghost b0 = bad@;
            bad.push(loc.as_str().substring_char(11, loclen).to_owned());
            proof {
                assert(bad@.map_values(|s: String| s@) =~= b0.map_values(|s: String| s@).push(
                    fm[i as int].1.0.skip(11),
                )) by {
                    assert(bad@.last()@ =~= fm[i as int].1.0.skip(11));
                }
            }
        } else {
            let ghost g0 = good@;
            good.push((fs[i].0.clone(), (fs[i].1.0.clone(), fs[i].1.1)));
            proof {
                assert(good@.map_values(
                    |f: (String, (String, Option<u128>))| crate::record::file_model(f),
                ) =~= g0.map_values(
                    |f: (String, (String, Option<u128>))| crate::record::file_model(f),
                ).push(fm[i as int]));
            }
        }
        i += 1;
    }
    proof {
        assert(fm.take(fm.len() as int) =~= fm);
    }
    (good, bad)
}

/// Splitting the image scan at a boundary splits its results.
proof fn lemma_flat_images_concat(a: Seq<ContentModel>, b: Seq<ContentModel>)
    ensures
        flat_images(a + b) == flat_images(a) + flat_images(b),
    decreases b.len(),
{
    if b.len() == 0 {
        assert(a + b =~= a);
        assert(flat_images(a) + flat_images(b) =~= flat_images(a));
    } else {
        lemma_flat_images_concat(a, b.drop_last());
        assert((a + b).drop_last() =~= a + b.drop_last());
        assert((a + b).last() == b.last());
        match b.last() {
            ContentModel::Image(l) => {
                assert(flat_images(a) + flat_images(b) =~= (flat_images(a) + flat_images(
                    b.drop_last(),
                )) + seq![l]);
            },
            ContentModel::Text(_) => {
                assert(flat_images(a) + flat_images(b) =~= flat_images(a) + flat_images(
                    b.drop_last(),
                ));
            },
        }
    }
}

} // verus!
