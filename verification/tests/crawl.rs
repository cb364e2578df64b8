use webcrawl::fetch::{check_response, fetch_from_table, FetchWebPageError, PageResponse};
use webcrawl::generators::{crawl_all, GenIter};
use webcrawl::page::{get_web_page_info, GetWebPageInfoError};

fn html_page(title: &str, links: &[&str]) -> String {
    let mut body = String::new();
    body.push_str("<html><head><title>");
    body.push_str(title);
    body.push_str("</title></head><body>");
    for l in links {
        body.push_str("<a href=\"");
        body.push_str(l);
        body.push_str("\">link</a>");
    }
    body.push_str("</body></html>");
    body
}

fn ok_response(html: &str) -> PageResponse {
    PageResponse {
        status: 200,
        content_type: Some("text/html; charset=utf-8".to_string()),
        body: Some(html.to_string()),
    }
}

fn titles(out: &[(String, webcrawl::page::WebPageInfo)]) -> Vec<(String, String)> {
    out.iter().map(|(u, p)| (u.clone(), p.title.clone())).collect()
}

#[test]
fn crawl_cycle_yields_each_page_once_in_bfs_order() {
    let table = vec![
        (
            "http://a.example/".to_string(),
            ok_response(&html_page("A", &["http://b.example/", "http://c.example/"])),
        ),
        ("http://b.example/".to_string(), ok_response(&html_page("B", &[]))),
        (
            "http://c.example/".to_string(),
            ok_response(&html_page("C", &["http://a.example/"])),
        ),
    ];
    let out = crawl_all("http://a.example/", table);
    assert_eq!(
        titles(&out),
        vec![
            ("http://a.example/".to_string(), "A".to_string()),
            ("http://b.example/".to_string(), "B".to_string()),
            ("http://c.example/".to_string(), "C".to_string()),
        ]
    );
}

#[test]
fn duplicate_frontier_entries_are_processed_once() {
    // C is discovered from both A and B before it is processed, and A links
    // to B twice: each page still comes out exactly once.
    let table = vec![
        (
            "http://a.example/".to_string(),
            ok_response(&html_page(
                "A",
                &["http://b.example/", "http://b.example/", "http://c.example/"],
            )),
        ),
        (
            "http://b.example/".to_string(),
            ok_response(&html_page("B", &["http://c.example/"])),
        ),
        ("http://c.example/".to_string(), ok_response(&html_page("C", &[]))),
    ];
    let out = crawl_all("http://a.example/", table);
    assert_eq!(
        titles(&out),
        vec![
            ("http://a.example/".to_string(), "A".to_string()),
            ("http://b.example/".to_string(), "B".to_string()),
            ("http://c.example/".to_string(), "C".to_string()),
        ]
    );
}

#[test]
fn bad_status_yields_error_at_fetch_boundary() {
    let table = vec![(
        "http://gone.example/".to_string(),
        PageResponse {
            status: 404,
            content_type: Some("text/html".to_string()),
            body: Some(html_page("Gone", &[]).to_string()),
        },
    )];
    let r = fetch_from_table(&table, &"http://gone.example/".to_string());
    assert!(matches!(r, Err(FetchWebPageError::BadHttpStatus(404))));
}

#[test]
fn failed_pages_are_skipped_without_halting_siblings() {
    // B answers 404 and D has no title; both are skipped, while A, C and E
    // still come out.
    let table = vec![
        (
            "http://a.example/".to_string(),
            ok_response(&html_page(
                "A",
                &["http://b.example/", "http://c.example/", "http://d.example/", "http://e.example/"],
            )),
        ),
        (
            "http://b.example/".to_string(),
            PageResponse {
                status: 404,
                content_type: Some("text/html".to_string()),
                body: Some(html_page("B", &[]).to_string()),
            },
        ),
        ("http://c.example/".to_string(), ok_response(&html_page("C", &[]))),
        (
            "http://d.example/".to_string(),
            ok_response("<html><body>untitled</body></html>"),
        ),
        ("http://e.example/".to_string(), ok_response(&html_page("E", &[]))),
    ];
    let out = crawl_all("http://a.example/", table);
    assert_eq!(
        titles(&out),
        vec![
            ("http://a.example/".to_string(), "A".to_string()),
            ("http://c.example/".to_string(), "C".to_string()),
            ("http://e.example/".to_string(), "E".to_string()),
        ]
    );
}

#[test]
fn undecodable_body_yields_decode_error_and_is_skipped() {
    let table = vec![
        (
            "http://a.example/".to_string(),
            ok_response(&html_page("A", &["http://raw.example/"])),
        ),
        (
            "http://raw.example/".to_string(),
            PageResponse {
                status: 200,
                content_type: Some("text/html".to_string()),
                body: None,
            },
        ),
    ];
    let r = fetch_from_table(&table, &"http://raw.example/".to_string());
    assert!(matches!(r, Err(FetchWebPageError::TextDecodeError(_))));
    let out = crawl_all("http://a.example/", table);
    assert_eq!(titles(&out), vec![("http://a.example/".to_string(), "A".to_string())]);
}

#[test]
fn unknown_url_yields_http_error() {
    let table = vec![("http://a.example/".to_string(), ok_response(&html_page("A", &[])))];
    let r = fetch_from_table(&table, &"http://nowhere.example/".to_string());
    assert!(matches!(r, Err(FetchWebPageError::HttpError(_))));
}

#[test]
fn missing_title_yields_no_title_error() {
    let r = get_web_page_info("<html><body>plain</body></html>");
    assert_eq!(r.unwrap_err(), GetWebPageInfoError::NoTitle);
}

#[test]
fn title_text_is_trimmed() {
    let info = get_web_page_info("<html><head><title>  Hi there \n</title></head></html>")
        .unwrap();
    assert_eq!(info.title, "Hi there");
}

#[test]
fn malformed_hrefs_are_excluded_from_links() {
    let html = "<html><head><title>T</title></head><body>\
                <a href=\"not a url\">bad</a>\
                <a>none</a>\
                <a href=\"http://x/\">good</a>\
                </body></html>";
    let info = get_web_page_info(html).unwrap();
    assert_eq!(info.links, vec!["http://x/".to_string()]);
}

#[test]
fn urls_are_normalized_before_comparison() {
    // The seed and the discovered href are written unnormalized; the crawl
    // still matches them against the table's normalized keys.
    let table = vec![
        (
            "http://a.example/".to_string(),
            ok_response(&html_page("A", &["http://B.EXAMPLE"])),
        ),
        ("http://b.example/".to_string(), ok_response(&html_page("B", &[]))),
    ];
    let out = crawl_all("HTTP://A.EXAMPLE", table);
    assert_eq!(
        titles(&out),
        vec![
            ("http://a.example/".to_string(), "A".to_string()),
            ("http://b.example/".to_string(), "B".to_string()),
        ]
    );
}

#[test]
fn unparseable_seed_yields_empty_sequence() {
    let table = vec![("http://a.example/".to_string(), ok_response(&html_page("A", &[])))];
    let out = crawl_all("", table);
    assert!(out.is_empty());
}

#[test]
fn exhaustion_is_idempotent() {
    let table = vec![("http://a.example/".to_string(), ok_response(&html_page("A", &[])))];
    let mut it = GenIter::new("http://a.example/", table);
    assert!(it.next().is_some());
    assert!(it.next().is_none());
    assert!(it.next().is_none());
    assert!(it.next().is_none());
}

#[test]
fn unparseable_seed_generator_stays_exhausted() {
    let table = vec![("http://a.example/".to_string(), ok_response(&html_page("A", &[])))];
    let mut it = GenIter::new("", table);
    assert!(it.next().is_none());
    assert!(it.next().is_none());
}

#[test]
fn content_type_policy_accepts_html_only() {
    let html = Some("text/html".to_string());
    let html_charset = Some("text/html; charset=utf-8".to_string());
    let json = Some("application/json".to_string());
    let almost = Some("text/htmlx".to_string());
    assert!(check_response(200, &html).is_ok());
    assert!(check_response(200, &html_charset).is_ok());
    assert!(matches!(
        check_response(200, &json),
        Err(FetchWebPageError::BadContentType(v)) if v == "application/json"
    ));
    assert!(matches!(
        check_response(200, &almost),
        Err(FetchWebPageError::BadContentType(_))
    ));
    assert!(matches!(
        check_response(200, &None),
        Err(FetchWebPageError::MissingContentType)
    ));
    assert!(matches!(
        check_response(301, &html),
        Err(FetchWebPageError::BadHttpStatus(301))
    ));
}

#[test]
fn first_table_entry_wins_for_duplicate_urls() {
    let table = vec![
        ("http://a.example/".to_string(), ok_response(&html_page("First", &[]))),
        ("http://a.example/".to_string(), ok_response(&html_page("Second", &[]))),
    ];
    let out = crawl_all("http://a.example/", table);
    assert_eq!(titles(&out), vec![("http://a.example/".to_string(), "First".to_string())]);
}

#[test]
fn status_success_range_is_2xx() {
    let html = Some("text/html".to_string());
    assert!(matches!(
        check_response(199, &html),
        Err(FetchWebPageError::BadHttpStatus(199))
    ));
    assert!(check_response(200, &html).is_ok());
    assert!(check_response(299, &html).is_ok());
    assert!(matches!(
        check_response(300, &html),
        Err(FetchWebPageError::BadHttpStatus(300))
    ));
}
