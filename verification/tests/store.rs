//! Tests of the archive store codec, the retry coordinator, the bounded
//! pool, the crawl planning rules, and the export renderers.

use galarchive::codec::{decode_blobs, decode_records, encode_blobs, encode_records};
use galarchive::config::AvailableWebsite;
use galarchive::datetime::{try_date_time, SimpleDateTime};
use galarchive::export::{
    find_offline_data_or_use_remove, hash_for_filename, html_generator, markdown_generator,
    to_legal_name,
};
use galarchive::extract::extract_information;
use galarchive::logging::{progress_report, LoggingClient, LoggingLevel};
use galarchive::orchestrate::{fold_fetched, plan_fetch, split_unparsable};
use galarchive::pool::BoundedPool;
use galarchive::record::{
    Comment, GameBinaryDatabase, GameTextInformation, ParagraphContent,
};
use galarchive::retry::{aggregate_errors, RetryCoordinator, RetryDecision};
use galarchive::text::{parse_dec_u128, split_all, str_eq, trim, u64_to_string};

fn sample_record() -> GameTextInformation {
    let mut rec = GameTextInformation::default(42, "kkgal".to_string());
    rec.name = "A Game".to_string();
    rec.tags = vec!["tag1".to_string(), "tag2".to_string()];
    rec.published = try_date_time(2021, 3, 4, 5, 6, 7).unwrap();
    rec.viewed = 1234;
    rec.paragraphs = vec![
        (
            Some("Intro".to_string()),
            vec![
                ParagraphContent::Text("hello\nworld".to_string()),
                ParagraphContent::Image("http://x/pic.png".to_string()),
            ],
        ),
        (None, vec![ParagraphContent::Text("plain".to_string())]),
    ];
    rec.miscellaneous = vec![("overall_link".to_string(), "http://dl/x".to_string())];
    rec.files = vec![
        ("a.zip".to_string(), ("http://dl/a.zip".to_string(), Some(1000))),
        ("b.zip".to_string(), ("http://dl/b.zip".to_string(), None)),
    ];
    rec.comments = vec![Comment {
        user_avatar: "http://x/u1.png".to_string(),
        author: "alice".to_string(),
        date: try_date_time(2021, 1, 2, 3, 4, 5).unwrap(),
        content: vec![ParagraphContent::Text("hi".to_string())],
        replies: vec![Comment {
            user_avatar: "http://x/u2.png".to_string(),
            author: "bob".to_string(),
            date: try_date_time(2021, 1, 3, 4, 5, 6).unwrap(),
            content: vec![ParagraphContent::Text("re".to_string())],
            replies: vec![],
        }],
    }];
    rec
}

fn assert_records_equal(a: &GameTextInformation, b: &GameTextInformation) {
    assert_eq!(a.id, b.id);
    assert_eq!(a.website, b.website);
    assert_eq!(a.name, b.name);
    assert_eq!(a.tags, b.tags);
    assert_eq!(a.published, b.published);
    assert_eq!(a.viewed, b.viewed);
    assert_eq!(a.miscellaneous, b.miscellaneous);
    assert_eq!(a.files, b.files);
    assert_eq!(a.paragraphs.len(), b.paragraphs.len());
    for (pa, pb) in a.paragraphs.iter().zip(b.paragraphs.iter()) {
        assert_eq!(pa.0, pb.0);
        assert_eq!(pa.1.len(), pb.1.len());
        for (ca, cb) in pa.1.iter().zip(pb.1.iter()) {
            assert_content_equal(ca, cb);
        }
    }
    assert_eq!(a.comments.len(), b.comments.len());
    for (ca, cb) in a.comments.iter().zip(b.comments.iter()) {
        assert_comments_equal(ca, cb);
    }
}

fn assert_content_equal(a: &ParagraphContent, b: &ParagraphContent) {
    match (a, b) {
        (ParagraphContent::Text(x), ParagraphContent::Text(y)) => assert_eq!(x, y),
        (ParagraphContent::Image(x), ParagraphContent::Image(y)) => assert_eq!(x, y),
        _ => panic!("content kinds differ"),
    }
}

fn assert_comments_equal(a: &Comment, b: &Comment) {
    assert_eq!(a.user_avatar, b.user_avatar);
    assert_eq!(a.author, b.author);
    assert_eq!(a.date, b.date);
    assert_eq!(a.content.len(), b.content.len());
    for (ca, cb) in a.content.iter().zip(b.content.iter()) {
        assert_content_equal(ca, cb);
    }
    assert_eq!(a.replies.len(), b.replies.len());
    for (ra, rb) in a.replies.iter().zip(b.replies.iter()) {
        assert_comments_equal(ra, rb);
    }
}

#[test]
fn archive_round_trips_records_and_blobs() {
    let records = vec![sample_record(), GameTextInformation::default(7, "kkgal".to_string())];
    let bytes = encode_records(&records);
    let decoded = decode_records(&bytes).expect("decode should succeed");
    assert_eq!(decoded.len(), records.len());
    for (a, b) in records.iter().zip(decoded.iter()) {
        assert_records_equal(a, b);
    }
    let mut blobs = GameBinaryDatabase::new();
    blobs.insert("http://x/pic.png".to_string(), vec![0, 1, 2, 255]);
    blobs.insert("http://x/u1.png".to_string(), vec![]);
    let bytes = encode_blobs(&blobs);
    let decoded = decode_blobs(&bytes).expect("decode should succeed");
    assert_eq!(decoded.0.len(), 2);
    assert_eq!(decoded.get("http://x/pic.png"), Some(&vec![0, 1, 2, 255]));
    assert_eq!(decoded.get("http://x/u1.png"), Some(&vec![]));
    // Corrupt bytes are rejected, never half-read.
    let mut bad = bytes.clone();
    bad.pop();
    assert!(decode_blobs(&bad).is_err());
    assert!(decode_records(&vec![b'x']).is_err());
}

#[test]
fn empty_archive_round_trips() {
    let bytes = encode_records(&Vec::new());
    assert_eq!(decode_records(&bytes).unwrap().len(), 0);
    let bytes = encode_blobs(&GameBinaryDatabase::new());
    assert_eq!(decode_blobs(&bytes).unwrap().len(), 0);
}

#[test]
fn record_copies_are_deep_and_equal() {
    let rec = sample_record();
    let copy = rec.duplicate();
    assert_records_equal(&rec, &copy);
}

#[test]
fn blob_store_replaces_on_insert() {
    let mut blobs = GameBinaryDatabase::new();
    blobs.insert("k".to_string(), vec![1]);
    blobs.insert("k".to_string(), vec![2, 3]);
    assert_eq!(blobs.len(), 1);
    assert_eq!(blobs.get("k"), Some(&vec![2, 3]));
    assert!(!blobs.contains("other"));
}

#[test]
fn repeated_failures_aggregate_to_one_message() {
    let msgs = vec!["E".to_string(), "E".to_string(), "E".to_string()];
    let agg = aggregate_errors(&msgs);
    assert_eq!(agg, "E");
    assert_eq!(agg.matches('E').count(), 1);
    // Every duplicate goes, not only adjacent ones; first occurrences
    // keep their order.
    let mixed = vec!["a".to_string(), "b".to_string(), "a".to_string()];
    assert_eq!(aggregate_errors(&mixed), "a, b");
    let runs = vec!["E1".to_string(), "E2".to_string(), "E2".to_string(), "E1".to_string()];
    assert_eq!(aggregate_errors(&runs), "E1, E2");
    assert_eq!(aggregate_errors(&Vec::new()), "");
}

#[test]
fn first_success_stops_the_attempts() {
    // Attempts [E1, success]: the coordinator asks for a second attempt
    // after the first failure, and the caller stops on its success
    // without consulting the coordinator again.
    let mut co = RetryCoordinator::new(2);
    let mut attempts_run = 0;
    let mut outcome: Option<&str> = None;
    loop {
        match co.decide() {
            RetryDecision::GiveUp(_) => break,
            RetryDecision::Attempt => {
                attempts_run += 1;
                // The first attempt fails with E1; the second succeeds.
                if attempts_run == 1 {
                    co.record_failure("E1".to_string());
                } else {
                    outcome = Some("success");
                    break;
                }
            }
        }
    }
    assert_eq!(attempts_run, 2);
    assert_eq!(outcome, Some("success"));
    // All attempts failing yields the aggregate.
    let mut co = RetryCoordinator::new(2);
    loop {
        match co.decide() {
            RetryDecision::GiveUp(m) => {
                assert_eq!(m, "E");
                break;
            }
            RetryDecision::Attempt => co.record_failure("E".to_string()),
        }
    }
}

#[test]
fn pool_honours_ceiling_and_returns_every_job_once() {
    let total = 10;
    let mut pool = BoundedPool::new(total, 3);
    let mut max_in_flight = 0;
    // Drive to completion, finishing the oldest of every three started.
    while !pool.finished() {
        while pool.can_start() {
            pool.start();
            if pool.in_flight.len() > max_in_flight {
                max_in_flight = pool.in_flight.len();
            }
            assert!(pool.in_flight.len() <= 3);
        }
        pool.complete(0);
    }
    assert_eq!(max_in_flight, 3);
    assert_eq!(pool.completed.len(), total);
    let mut seen = vec![false; total];
    for j in &pool.completed {
        assert!(!seen[*j], "a job completed twice");
        seen[*j] = true;
    }
    assert!(seen.iter().all(|s| *s));
}

#[test]
fn refetch_without_overwrite_skips_archived_records() {
    let url1 = "https://www.kkgal.com/archives/1.html";
    let url2 = "https://www.kkgal.com/archives/2.html";
    let url3 = "https://www.kkgal.com/archives/3.html";
    // An archive already holding the record of url2.
    let existing = extract_information(&vec![], url2).unwrap().record;
    let existing_id = existing.id;
    let mut db = vec![existing];
    let links = vec![url1.to_string(), url2.to_string(), url3.to_string()];
    let planned = plan_fetch(&links, &db, false);
    assert_eq!(planned, vec![url1.to_string(), url3.to_string()]);
    // With overwrite, everything is fetched again.
    assert_eq!(plan_fetch(&links, &db, true).len(), 3);
    // Re-running the fetch never duplicates or mutates the held record.
    let fetched: Vec<GameTextInformation> = planned
        .iter()
        .map(|l| extract_information(&vec![], l).unwrap().record)
        .collect();
    let logs = fold_fetched(&mut db, fetched, 1);
    assert_eq!(db.len(), 3);
    assert_eq!(db[0].id, existing_id);
    assert_eq!(db.iter().filter(|r| r.id == existing_id).count(), 1);
    // One status line per appended record: exactly two for page one.
    assert_eq!(logs.len(), 2);
    for line in &logs {
        assert!(line.starts_with("Downloaded metadata from page 1: "));
    }
    // The same identity comes from the same locator every run.
    let again = extract_information(&vec![], url2).unwrap().record;
    assert_eq!(again.id, existing_id);
}

#[test]
fn export_resolves_cached_images_and_keeps_remote_ones() {
    let mut rec = GameTextInformation::default(5, "kkgal".to_string());
    rec.name = "pic game".to_string();
    rec.paragraphs = vec![(
        None,
        vec![ParagraphContent::Image("http://x/pic.png".to_string())],
    )];
    let mut blobs = GameBinaryDatabase::new();
    blobs.insert("http://x/pic.png".to_string(), vec![9, 9]);
    let hash = hash_for_filename("http://x/pic");
    let local = format!("imgs/{}.png", hash);
    assert_eq!(
        find_offline_data_or_use_remove("http://x/pic.png".to_string(), Some(&blobs)),
        local,
    );
    assert_eq!(
        find_offline_data_or_use_remove("http://x/pic.png".to_string(), None),
        "http://x/pic.png".to_string(),
    );
    let offline = markdown_generator(&vec![rec], Some(&blobs));
    assert_eq!(offline.len(), 1);
    assert_eq!(offline[0].0, "pic game_5");
    assert!(offline[0].1.contains(&format!("![image]({})", local)));
    // The same record exported without the blob store keeps the URL.
    let mut rec = GameTextInformation::default(5, "kkgal".to_string());
    rec.name = "pic game".to_string();
    rec.paragraphs = vec![(
        None,
        vec![ParagraphContent::Image("http://x/pic.png".to_string())],
    )];
    let online = markdown_generator(&vec![rec], None);
    assert!(online[0].1.contains("![image](http://x/pic.png)"));
}

#[test]
fn renderers_cover_every_section() {
    let rec = sample_record();
    let blobs = GameBinaryDatabase::new();
    let md = markdown_generator(&vec![sample_record()], Some(&blobs));
    assert_eq!(md[0].0, "A Game_42");
    let doc = &md[0].1;
    assert!(doc.starts_with("# A Game\n\n"));
    assert!(doc.contains("> id: 42@kkgal | published at 2021-03-04 05:06:07 | 1234 viewed"));
    assert!(doc.contains("Tags: tag1, tag2"));
    assert!(doc.contains("## Intro"));
    assert!(doc.contains("## Downloads\n- a.zip\n  http://dl/a.zip "));
    // The nested reply renders quoted one level deeper than its parent.
    assert!(doc.contains("\n> ![avatar](http://x/u1.png) alice said on 2021-01-02 03:04:05:"));
    assert!(doc.contains("\n> > ![avatar](http://x/u2.png) bob said on"));
    let html = html_generator(&vec![rec], None);
    let hdoc = &html[0].1;
    assert!(hdoc.contains("<title>A Game</title>"));
    assert!(hdoc.contains("<h3>Intro</h3>"));
    assert!(hdoc.contains("<li><a href=\"http://dl/a.zip\" download=\"a.zip\">a.zip</a>"));
    assert!(hdoc.contains("alice said on 2021-01-02 03:04:05"));
}

#[test]
fn legal_names_replace_path_hostile_characters() {
    assert_eq!(to_legal_name("a/b", 3), "a_b_3");
    assert_eq!(to_legal_name("plain", 0), "plain_0");
    assert_eq!(hash_for_filename("abc"), "YWJj");
    // Overlong locators hash only their trailing characters.
    let long = "x".repeat(100);
    let tail = "x".repeat(64);
    assert_eq!(hash_for_filename(&long), hash_for_filename(&tail));
}

#[test]
fn unparsable_markers_split_out_of_download_plans() {
    let files = vec![
        ("a.zip".to_string(), ("http://dl/a.zip".to_string(), Some(7))),
        ("b".to_string(), ("Unparsable:http://odd/b".to_string(), None)),
    ];
    let (good, bad) = split_unparsable(&files);
    assert_eq!(good.len(), 1);
    assert_eq!(good[0].0, "a.zip");
    assert_eq!(bad, vec!["http://odd/b".to_string()]);
}

#[test]
fn text_utilities_read_and_render_numbers() {
    assert_eq!(u64_to_string(0), "0");
    assert_eq!(u64_to_string(90210), "90210");
    assert_eq!(parse_dec_u128("1234"), Some(1234));
    assert_eq!(parse_dec_u128(""), None);
    assert_eq!(parse_dec_u128("12a"), None);
    assert_eq!(trim("  x y\t\n"), "x y");
    assert_eq!(split_all("a, b, ", ", "), vec!["a", "b", ""]);
    assert!(str_eq("", ""));
    assert!(!str_eq("a", "b"));
    assert_eq!(AvailableWebsite::KKGal, AvailableWebsite::KKGal);
}

#[test]
fn dates_validate_calendars() {
    assert!(try_date_time(2020, 2, 29, 0, 0, 0).is_some());
    assert!(try_date_time(2021, 2, 29, 0, 0, 0).is_none());
    assert!(try_date_time(2021, 0, 1, 0, 0, 0).is_none());
    assert!(try_date_time(2021, 4, 31, 23, 59, 59).is_none());
    let t = SimpleDateTime { year: 2021, month: 1, day: 2, hour: 3, minute: 4, second: 5 };
    assert_eq!(t.to_text(), "2021-01-02 03:04:05");
}

#[test]
fn progress_reports_use_whole_number_arithmetic() {
    let r = progress_report(512, Some(1024), 0, 1000);
    assert_eq!(r.percent, Some(50));
    assert_eq!(r.bytes_per_second, 512);
    let r = progress_report(100, None, 40, 2000);
    assert_eq!(r.percent, None);
    assert_eq!(r.bytes_per_second, 30);
    let r = progress_report(100, Some(0), 200, 0);
    assert_eq!(r.percent, None);
    assert_eq!(r.bytes_per_second, 0);
    let client = LoggingClient::new();
    let line = client.render_line(LoggingLevel::Warning, "Database synced.");
    assert!(line.starts_with("["));
    assert!(line.ends_with("] W: Database synced."));
}
