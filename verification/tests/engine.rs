//! Tests of the extraction engine: anchors, comment trees, the challenge
//! check, index scanning, and the embedded download listing.

use base64::Engine;
use galarchive::extract::{
    challenge_action, extract_index_links, extract_information, file_fetch_target,
    finalize_record, parse_file_information, MAX_CHALLENGE_ATTEMPTS,
};
use galarchive::record::ParagraphContent;
use galarchive::token::HtmlToken;

fn open(name: &str, attrs: Vec<(&str, Option<&str>)>) -> HtmlToken {
    HtmlToken::Open(
        name.to_string(),
        attrs.into_iter().map(|(k, v)| (k.to_string(), v.map(|s| s.to_string()))).collect(),
    )
}

fn close(name: &str) -> HtmlToken {
    HtmlToken::Close(name.to_string())
}

fn text(t: &str) -> HtmlToken {
    HtmlToken::Text(t.to_string())
}

fn comment_item(avatar: &str, author: &str, when: &str, body: &str) -> Vec<HtmlToken> {
    vec![
        open("li", vec![]),
        open("img", vec![("src", Some(avatar))]),
        open("b", vec![]),
        text(author),
        open("time", vec![("datetime", Some(when))]),
        open("div", vec![("class", Some("comment-content"))]),
        text(body),
        close("div"),
    ]
}

#[test]
fn extracts_fields_and_nested_comments() {
    let url = "https://www.kkgal.com/archives/1.html";
    let mut toks = vec![
        open("meta", vec![("content", Some("tag1, tag2, ")), ("name", Some("keywords"))]),
        open("a", vec![("href", Some(url))]),
        text("A Fine Game"),
        open("i", vec![("class", Some("fa fa-calendar"))]),
        text(" 2021-03-04 "),
        open("i", vec![("class", Some("fa fa-eye"))]),
        text(" 1,234\u{2103} "),
        open("img", vec![("title", Some("\u{70b9}\u{51fb}\u{653e}\u{5927}")), ("src", Some("http://x/shot1.png"))]),
        open("span", vec![("style", Some("font-size: 12pt;COLOR:#3399CC"))]),
        text("Intro"),
        text("line one"),
        open("br", vec![]),
        text("line two"),
        close("div"),
        open("ol", vec![("class", Some("commentlist"))]),
    ];
    toks.extend(comment_item("/a1.png", "alice", "2021-01-02T03:04:05+00:00", "hello"));
    toks.extend(comment_item("/a2.png", "bob", "2021-01-03T04:05:06+00:00", "reply"));
    toks.push(close("li"));
    toks.push(close("li"));
    toks.push(close("ol"));
    let page = extract_information(&toks, url).expect("extraction should succeed");
    let rec = &page.record;
    assert_eq!(rec.website, "kkgal");
    assert_eq!(rec.name, "A Fine Game");
    assert_eq!(rec.tags, vec!["tag1".to_string(), "tag2".to_string()]);
    assert_eq!(rec.published.year, 2021);
    assert_eq!(rec.published.month, 3);
    assert_eq!(rec.published.day, 4);
    assert_eq!(rec.viewed, 1234);
    assert_eq!(rec.paragraphs.len(), 1);
    assert_eq!(rec.paragraphs[0].0, Some("Intro".to_string()));
    match &rec.paragraphs[0].1[0] {
        ParagraphContent::Text(t) => assert_eq!(t, "line one\nline two"),
        _ => panic!("expected text"),
    }
    assert_eq!(page.screenshots.len(), 1);
    // The nested reply tree: bob sits under alice, and the depth-first
    // flattening recovers both comments in their original order.
    assert_eq!(rec.comments.len(), 1);
    let alice = &rec.comments[0];
    assert_eq!(alice.author, "alice");
    assert_eq!(alice.user_avatar, "https://www.kkgal.com/a1.png");
    assert_eq!(alice.date.year, 2021);
    assert_eq!(alice.replies.len(), 1);
    let bob = &alice.replies[0];
    assert_eq!(bob.author, "bob");
    assert_eq!(bob.replies.len(), 0);
    let flattened: Vec<String> = flatten_authors(&rec.comments);
    assert_eq!(flattened, vec!["alice".to_string(), "bob".to_string()]);
}

fn flatten_authors(cs: &Vec<galarchive::record::Comment>) -> Vec<String> {
    let mut out = Vec::new();
    for c in cs {
        out.push(c.author.clone());
        out.extend(flatten_authors(&c.replies));
    }
    out
}

#[test]
fn deep_nesting_flattens_in_original_order() {
    let url = "https://www.kkgal.com/archives/2.html";
    let mut toks = vec![open("ol", vec![("class", Some("commentlist"))])];
    // Five comments at depths 0,1,2,1,0: a tree with two roots.
    toks.extend(comment_item("/u1.png", "c1", "2021-01-01T00:00:00+00:00", "m1"));
    toks.extend(comment_item("/u2.png", "c2", "2021-01-01T00:00:01+00:00", "m2"));
    toks.extend(comment_item("/u3.png", "c3", "2021-01-01T00:00:02+00:00", "m3"));
    toks.push(close("li"));
    toks.push(close("li"));
    toks.extend(comment_item("/u4.png", "c4", "2021-01-01T00:00:03+00:00", "m4"));
    toks.push(close("li"));
    toks.push(close("li"));
    toks.extend(comment_item("/u5.png", "c5", "2021-01-01T00:00:04+00:00", "m5"));
    toks.push(close("li"));
    toks.push(close("ol"));
    let page = extract_information(&toks, url).expect("extraction should succeed");
    let rec = &page.record;
    assert_eq!(rec.comments.len(), 2);
    assert_eq!(rec.comments[0].author, "c1");
    assert_eq!(rec.comments[0].replies.len(), 2);
    assert_eq!(rec.comments[0].replies[0].author, "c2");
    assert_eq!(rec.comments[0].replies[0].replies[0].author, "c3");
    assert_eq!(rec.comments[0].replies[1].author, "c4");
    assert_eq!(rec.comments[1].author, "c5");
    let flattened = flatten_authors(&rec.comments);
    assert_eq!(flattened, vec!["c1", "c2", "c3", "c4", "c5"]);
}

#[test]
fn extraction_failures_name_the_anchor() {
    let url = "https://www.kkgal.com/archives/3.html";
    // A date that is not a calendar date.
    let toks = vec![
        open("i", vec![("class", Some("fa fa-calendar"))]),
        text("2021-13-01"),
    ];
    assert_eq!(
        extract_information(&toks, url).unwrap_err(),
        "Error while parsing date".to_string(),
    );
    // A view counter that is not a number.
    let toks = vec![open("i", vec![("class", Some("fa fa-eye"))]), text("many")];
    assert_eq!(
        extract_information(&toks, url).unwrap_err(),
        "Error while parsing viewed".to_string(),
    );
    // An enlargeable image without a locator attribute.
    let toks = vec![open("img", vec![("title", Some("\u{70b9}\u{51fb}\u{653e}\u{5927}"))])];
    assert_eq!(
        extract_information(&toks, url).unwrap_err(),
        "Unable to parse image".to_string(),
    );
    // A download button whose link has only one quote.
    let toks = vec![open(
        "button",
        vec![
            ("type", Some("button")),
            ("class", Some("btn btn-danger")),
            ("onclick", Some("open('http://x/d")),
        ],
    )];
    assert_eq!(
        extract_information(&toks, url).unwrap_err(),
        "Unable to find ending position for download link".to_string(),
    );
}

#[test]
fn download_button_stores_overall_link() {
    let url = "https://www.kkgal.com/archives/4.html";
    let toks = vec![open(
        "button",
        vec![
            ("type", Some("button")),
            ("class", Some("btn btn-danger")),
            ("onclick", Some("window.open('http://dl.example/x')")),
        ],
    )];
    let page = extract_information(&toks, url).expect("extraction should succeed");
    assert_eq!(
        page.record.misc_get("overall_link"),
        Some("http://dl.example/x".to_string()),
    );
    assert_eq!(file_fetch_target(&page), Some("http://dl.example/x".to_string()));
    // The excluded mirror host is never fetched.
    let toks = vec![open(
        "button",
        vec![
            ("type", Some("button")),
            ("class", Some("btn btn-danger")),
            ("onclick", Some("window.open('http://pan.baidu.com/x')")),
        ],
    )];
    let page = extract_information(&toks, url).expect("extraction should succeed");
    assert_eq!(file_fetch_target(&page), None);
    let (rec, warning) = finalize_record(page, None);
    assert!(warning.is_none());
    // The link degrades to a plain paragraph, before the screenshots.
    let n = rec.paragraphs.len();
    assert_eq!(rec.paragraphs[n - 2].0, Some("Download link".to_string()));
    assert_eq!(rec.paragraphs[n - 1].0, Some("Screenshots".to_string()));
}

#[test]
fn listing_failure_degrades_to_text_with_warning() {
    let url = "https://www.kkgal.com/archives/5.html";
    let toks = vec![open(
        "button",
        vec![
            ("type", Some("button")),
            ("class", Some("btn btn-danger")),
            ("onclick", Some("window.open('http://dl.example/x')")),
        ],
    )];
    let page = extract_information(&toks, url).expect("extraction should succeed");
    let (rec, warning) = finalize_record(page, Some(Err("boom".to_string())));
    assert_eq!(
        warning,
        Some("Error while parsing download url: boom, storing it as pure text.".to_string()),
    );
    assert!(rec.files.is_empty());
    let n = rec.paragraphs.len();
    assert_eq!(rec.paragraphs[n - 2].0, Some("Download link".to_string()));
}

#[test]
fn index_scan_finds_titled_article_links() {
    let toks = vec![
        open("div", vec![("class", Some("title-article"))]),
        open("h1", vec![]),
        open("a", vec![("href", Some("/archives/10.html"))]),
        open("div", vec![("class", Some("title-article"))]),
        open("p", vec![]),
        open("a", vec![("href", Some("/ignored.html"))]),
        open("div", vec![("class", Some("title-article"))]),
        open("h1", vec![]),
        open("a", vec![("href", Some("/archives/11.html"))]),
    ];
    let links = extract_index_links(&toks).expect("index scan should succeed");
    assert_eq!(links, vec!["/archives/10.html".to_string(), "/archives/11.html".to_string()]);
    // A link tag without a locator is a typed failure, never skipped.
    let toks = vec![
        open("div", vec![("class", Some("title-article"))]),
        open("h1", vec![]),
        open("a", vec![("rel", Some("nofollow"))]),
    ];
    assert_eq!(extract_index_links(&toks).unwrap_err(), "Bad link".to_string());
}

#[test]
fn challenge_check_is_clean_or_names_the_bypass() {
    let clean = vec![open("p", vec![]), text("ordinary page")];
    assert_eq!(challenge_action(&clean), Ok(None));
    let challenged = vec![
        text("I'm Groot"),
        open("a", vec![("href", Some("/bypass?token=1"))]),
    ];
    assert_eq!(
        challenge_action(&challenged),
        Ok(Some("https://www.kkgal.com/bypass?token=1".to_string())),
    );
    let no_link = vec![text("I'm Groot")];
    assert_eq!(
        challenge_action(&no_link).unwrap_err(),
        "Groot detected, but cannot find link".to_string(),
    );
    assert!(MAX_CHALLENGE_ATTEMPTS >= 1);
}

#[test]
fn listing_decodes_names_sizes_and_dates() {
    let url = "https://dl.example/game";
    let json = r#"[{"name":"a%20game.zip","size":"1 KB","date":"2020/01/02 03:04:05"}]"#;
    let b64 = base64::engine::general_purpose::STANDARD.encode(json);
    // The script carries the payload as an escaped string literal; the
    // escape resolution must run before the base64 decode.
    assert!(b64.contains('m'));
    let escaped = b64.replace('m', "\\u006d");
    let script = format!("var x = 1; var rawData = \"{}\"; run(x);", escaped);
    let toks = vec![open("script", vec![]), text(&script)];
    let entries = parse_file_information(&toks, url).expect("listing should decode");
    assert_eq!(entries.len(), 1);
    assert_eq!(entries[0].0, "a game.zip");
    assert_eq!(entries[0].1 .0, "https://dl.example/game/a%20game.zip");
    assert_eq!(entries[0].1 .1, Some(1000));
}

fn listing_error_for_date(date: &str) -> String {
    let url = "https://dl.example/game";
    let json = format!(
        "[{}\"name\":\"a.zip\",\"size\":\"1 KB\",\"date\":\"{}\"{}]",
        "{", date, "}",
    );
    let b64 = base64::engine::general_purpose::STANDARD.encode(&json);
    let script = format!("rawData = \"{}\"", b64.replace('m', "\\u006d"));
    let toks = vec![open("script", vec![]), text(&script)];
    parse_file_information(&toks, url).unwrap_err()
}

#[test]
fn listing_date_failures_name_the_component() {
    // An invalid calendar date fails as a whole.
    assert_eq!(listing_error_for_date("2020/13/02 03:04:05"), "Error while parsing date from file detail");
    // An unreadable field names the field.
    assert_eq!(listing_error_for_date("20x0/01/02 03:04:05"), "Error while parsing year");
    assert_eq!(listing_error_for_date("2020/ab/02 03:04:05"), "Error while parsing month");
    assert_eq!(listing_error_for_date("2020/01/xx 03:04:05"), "Error while parsing day");
    assert_eq!(listing_error_for_date("2020/01/02 2x:04:05"), "Error while parsing hour");
    assert_eq!(listing_error_for_date("2020/01/02 03:p4:05"), "Error while parsing minute");
    assert_eq!(listing_error_for_date("2020/01/02 03:04:5z"), "Error while parsing second");
    // Missing halves and pieces fail the same way the fields came in.
    assert_eq!(listing_error_for_date("2020/01/02"), "Error while parsing time from file detail");
    assert_eq!(listing_error_for_date("2020/01 03:04:05"), "Bad date");
    assert_eq!(listing_error_for_date("2020/01/02 03:04"), "Bad time");
    // An invalid time of day fails as a whole.
    assert_eq!(listing_error_for_date("2020/01/02 25:04:05"), "Error while parsing time from file detail");
    // A stream without a script block names that anchor.
    let toks = vec![open("p", vec![])];
    assert_eq!(
        parse_file_information(&toks, "https://dl.example/game").unwrap_err(),
        "Error while finding script".to_string(),
    );
}

#[test]
fn page_level_scans_tokenize_real_markup() {
    // The whole path from raw markup: tokenize, then scan.
    let html = "<div class=\"title-article\"><h1><a href=\"/archives/10.html\">A</a></h1></div>\
                <div class=\"title-article\"><h1><a href=\"/archives/11.html\">B</a></h1></div>";
    let links = galarchive::extract::extract_index_links_from_page(html)
        .expect("index scan should succeed");
    assert_eq!(links, vec!["/archives/10.html".to_string(), "/archives/11.html".to_string()]);
    let challenged = "<p>I'm Groot</p><a href=\"/bypass-check\">go</a>";
    assert_eq!(
        galarchive::extract::challenge_action_on_page(challenged),
        Ok(Some("https://www.kkgal.com/bypass-check".to_string())),
    );
    // A page outside the tokenizer's input subset is rejected, never fed
    // to the outside parser.
    assert_eq!(
        galarchive::extract::challenge_action_on_page(">< broken"),
        Err("Unsupported markup in page".to_string()),
    );
    let non_ascii_tag = "<img title=\u{70b9}\u{51fb}\u{653e}\u{5927}>";
    assert_eq!(
        galarchive::extract::extract_information_from_page(non_ascii_tag, "u").unwrap_err(),
        "Unsupported markup in page".to_string(),
    );
}
