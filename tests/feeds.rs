use chyron::feeds::{
    age_cutoff, char_is_space, feed_headlines, parse_feed_urls, select_headlines, FeedEntry,
    ParsedFeed,
};

#[test]
fn test_parse_feeds_file() {
    let content = "https://example.com/feed.xml\n\
                   https://example.org/rss \"tag1\" \"tag2\"\n\
                   # comment\n\
                   \n\
                   https://example.net/atom.xml\n";
    let urls = parse_feed_urls(content);
    assert_eq!(urls.len(), 3);
    assert_eq!(urls[0], "https://example.com/feed.xml");
    assert_eq!(urls[1], "https://example.org/rss");
    assert_eq!(urls[2], "https://example.net/atom.xml");
}

#[test]
fn feed_urls_skip_other_schemes_and_trim() {
    let urls = parse_feed_urls("  \thttp://a.b/c  x\r\nftp://no\nhttps://last");
    assert_eq!(urls, vec!["http://a.b/c".to_string(), "https://last".to_string()]);
    assert!(parse_feed_urls("").is_empty());
    assert!(parse_feed_urls("#https://commented\n   \n").is_empty());
}

#[test]
fn whitespace_matches_std() {
    for c in ['\t', '\n', '\r', ' ', '\u{85}', '\u{a0}', '\u{2003}', '\u{3000}', 'a', '#', '\u{200b}'] {
        assert_eq!(char_is_space(c), c.is_whitespace());
    }
}

fn entry(title: Option<&str>, published: Option<i64>, link: Option<&str>) -> FeedEntry {
    FeedEntry {
        title: title.map(|t| t.to_string()),
        published,
        updated: None,
        links: link.map(|l| vec![l.to_string()]).unwrap_or_default(),
    }
}

#[test]
fn selection_filters_entries() {
    let feed = ParsedFeed {
        title: Some("News".to_string()),
        entries: vec![
            entry(Some("kept"), Some(100), Some("http://1")),
            entry(None, Some(100), Some("http://2")),
            entry(Some("   "), Some(100), None),
            entry(Some("old"), Some(10), Some("http://3")),
            entry(Some("seen"), None, Some("http://4")),
            entry(Some("undated"), None, None),
            entry(Some("overflow"), None, None),
        ],
    };
    let shown = vec!["http://4".to_string()];
    let (source, heads) = select_headlines(&feed, "http://feed", 2, 50, &shown);
    assert_eq!(source, "News");
    assert_eq!(heads.len(), 2);
    assert_eq!(heads[0].title, "kept");
    assert_eq!(heads[0].url, Some("http://1".to_string()));
    assert_eq!(heads[0].source, "News");
    assert_eq!(heads[0].published, Some(100));
    assert_eq!(heads[1].title, "undated");
    assert_eq!(heads[1].url, None);
}

#[test]
fn selection_uses_update_time_and_feed_address() {
    let mut e = entry(Some("t"), None, None);
    e.updated = Some(5);
    let feed = ParsedFeed { title: None, entries: vec![e] };
    let (source, heads) = select_headlines(&feed, "http://feed", 10, 0, &Vec::new());
    assert_eq!(source, "http://feed");
    assert_eq!(heads[0].published, Some(5));
    let (_, none) = select_headlines(&feed, "http://feed", 10, 6, &Vec::new());
    assert!(none.is_empty());
}

#[test]
fn age_cutoff_saturates() {
    assert_eq!(age_cutoff(1000, 100), 900);
    assert_eq!(age_cutoff(i64::MIN + 5, 100), i64::MIN);
}

#[test]
fn feed_headlines_apply_age_from_now() {
    let feed = ParsedFeed {
        title: Some("Example".to_string()),
        entries: vec![
            entry(Some("First"), None, Some("http://e/1")),
            entry(Some("Ancient"), Some(0), None),
            entry(Some("Second"), Some(i64::MAX), None),
        ],
    };
    let (source, heads) = feed_headlines(&feed, "http://e", 10, 86400, &Vec::new());
    assert_eq!(source, "Example");
    assert_eq!(heads.len(), 2);
    assert_eq!(heads[0].title, "First");
    assert_eq!(heads[0].url, Some("http://e/1".to_string()));
    assert_eq!(heads[1].title, "Second");
    let (_, one) = feed_headlines(&feed, "http://e", 1, 86400, &vec!["http://e/1".to_string()]);
    assert_eq!(one.len(), 1);
    assert_eq!(one[0].title, "Second");
}

#[test]
fn feed_summary_reports_title_and_count() {
    let feed = ParsedFeed {
        title: None,
        entries: vec![entry(Some("One"), None, None), entry(Some(" "), None, None)],
    };
    assert_eq!(chyron::feeds::feed_summary(&feed), ("Untitled".to_string(), 2));
    let named = ParsedFeed { title: Some("N".to_string()), entries: Vec::new() };
    assert_eq!(chyron::feeds::feed_summary(&named), ("N".to_string(), 0));
}
