use chyron::config::{ClickModifier, Config, PauseMode, RotationMode, SortMode};
use chyron::feeds::Headline;
use chyron::ticker::Ticker;

fn test_config() -> Config {
    Config {
        feeds_path: String::new(),
        delimiter: " | ".to_string(),
        speed: 10,
        sort: SortMode::ByDate,
        pause_mode: PauseMode::Hover,
        refresh_interval_secs: 300,
        max_age_secs: 86400,
        max_per_feed: 10,
        max_total: 100,
        show_source: false,
        validate_only: false,
        show_status_bar: false,
        click_modifier: ClickModifier::Plain,
        rotation: RotationMode::Continuous,
        config_path: None,
    }
}

fn headline(title: &str, url: Option<&str>) -> Headline {
    Headline {
        title: title.to_string(),
        url: url.map(|u| u.to_string()),
        source: "Test".to_string(),
        published: None,
    }
}

fn two_headlines() -> Vec<Headline> {
    vec![headline("A", None), headline("B", Some("http://x"))]
}

fn fair_config() -> Config {
    let mut c = test_config();
    c.rotation = RotationMode::Fair;
    c
}

#[test]
fn test_ticker_basic() {
    let config = test_config();
    let mut ticker = Ticker::new(&config);

    let headlines = vec![
        Headline {
            title: "Hello".to_string(),
            url: Some("https://example.com".to_string()),
            source: "Test".to_string(),
            published: None,
        },
        Headline {
            title: "World".to_string(),
            url: None,
            source: "Test".to_string(),
            published: None,
        },
    ];

    ticker.set_headlines(headlines, SortMode::ByDate);
    assert_eq!(ticker.headline_count(), 2);

    let visible = ticker.get_visible_text(5);
    // Returns width+1 chars for smooth scrolling
    assert_eq!(visible.chars().count(), 6);
}

#[test]
fn test_ticker_pause() {
    let config = test_config();
    let mut ticker = Ticker::new(&config);
    assert!(!ticker.is_paused());

    ticker.pause();
    assert!(ticker.is_paused());

    ticker.resume();
    assert!(!ticker.is_paused());
}

#[test]
fn scenario_buffer_segments_and_links() {
    let mut t = Ticker::new(&test_config());
    t.set_headlines(two_headlines(), SortMode::ByDate);
    assert_eq!(t.get_visible_text(7), "A | B | ");
    assert_eq!(t.get_visible_text(3), "A | ");
    let segs = t.get_visible_segments(8);
    assert_eq!(segs.len(), 2);
    assert_eq!((segs[0].start, segs[0].end, segs[0].url.clone()), (0, 1, None));
    assert_eq!(
        (segs[1].start, segs[1].end, segs[1].url.clone()),
        (4, 5, Some("http://x".to_string()))
    );
    assert_eq!(t.get_url_at_position(4, 8), Some("http://x".to_string()));
    assert_eq!(t.get_url_at_position(2, 8), None);
    assert_eq!(t.get_url_at_position(0, 8), None);
    assert_eq!(t.get_url_at_position(6, 8), None);
}

#[test]
fn window_length_is_width_plus_one() {
    let mut t = Ticker::new(&test_config());
    t.set_headlines(two_headlines(), SortMode::ByDate);
    for w in 1..20 {
        assert_eq!(t.get_visible_text(w).chars().count(), w + 1);
    }
    // wraps around the buffer
    assert_eq!(t.get_visible_text(11), "A | B | A | ");
}

#[test]
fn buffer_length_counts_every_separator() {
    let mut t = Ticker::new(&test_config());
    t.set_headlines(
        vec![headline("one", None), headline("two", None), headline("three", None)],
        SortMode::ByDate,
    );
    // 3 + 5 + 3 + 3 * 3 = 20 characters; a window of 19 shows exactly one pass.
    assert_eq!(t.get_visible_text(19), "one | two | three | ");
    assert_eq!(t.get_visible_text(20), "one | two | three | o");
}

#[test]
fn source_prefix_is_bracketed() {
    let mut c = test_config();
    c.show_source = true;
    let mut t = Ticker::new(&c);
    t.set_headlines(vec![headline("A", Some("u"))], SortMode::ByDate);
    assert_eq!(t.get_visible_text(10), "[Test] A | ");
    let segs = t.get_visible_segments(11);
    assert_eq!((segs[0].start, segs[0].end), (0, 8));
}

#[test]
fn split_advances_equal_one_advance() {
    let mut a = Ticker::new(&test_config());
    a.set_headlines(two_headlines(), SortMode::ByDate);
    let mut b = Ticker::new(&test_config());
    b.set_headlines(two_headlines(), SortMode::ByDate);
    a.tick(250_000);
    a.tick(320_000);
    b.tick(570_000);
    assert_eq!(a.get_fractional_offset(), b.get_fractional_offset());
    assert_eq!(a.get_fractional_offset(), 700_000);
    assert_eq!(a.get_visible_text(4), b.get_visible_text(4));
    assert_eq!(a.get_visible_text(4), " | A ");
}

#[test]
fn visible_text_is_idempotent() {
    let mut t = Ticker::new(&test_config());
    t.set_headlines(two_headlines(), SortMode::ByDate);
    t.tick(330_000);
    let first = t.get_visible_text(6);
    let second = t.get_visible_text(6);
    assert_eq!(first, second);
}

#[test]
fn long_advance_wraps_modulo_buffer() {
    let mut a = Ticker::new(&test_config());
    a.set_headlines(two_headlines(), SortMode::ByDate);
    let mut b = Ticker::new(&test_config());
    b.set_headlines(two_headlines(), SortMode::ByDate);
    // 10 chars/s for 1.0 s is 10 characters over a buffer of 8: lands on 2.
    a.tick(1_000_000);
    b.tick(200_000);
    assert_eq!(a.get_visible_text(7), "| B | A ");
    assert_eq!(a.get_visible_text(7), b.get_visible_text(7));
    // many full passes at once
    a.tick(8_000_000_000);
    assert_eq!(a.get_visible_text(7), b.get_visible_text(7));
}

#[test]
fn paused_and_zero_speed_hold_still() {
    let mut t = Ticker::new(&test_config());
    t.set_headlines(two_headlines(), SortMode::ByDate);
    t.toggle_pause();
    assert!(t.is_paused());
    t.tick(300_000);
    assert_eq!(t.get_fractional_offset(), 0);
    t.toggle_pause();
    t.set_speed(0);
    assert_eq!(t.speed(), 0);
    assert!(!t.is_paused());
    t.tick(300_000);
    assert_eq!(t.get_visible_text(2), "A |");
}

#[test]
fn empty_list_shows_placeholder() {
    let mut t = Ticker::new(&test_config());
    assert_eq!(t.get_visible_text(5), "");
    t.set_headlines(Vec::new(), SortMode::ByDate);
    assert_eq!(t.headline_count(), 0);
    assert_eq!(t.get_visible_text(5), "No hea");
    assert!(t.get_visible_segments(5).is_empty());
    assert_eq!(t.get_url_at_position(1, 5), None);
    t.tick(500_000);
    assert_eq!(t.get_visible_text(4), "adlin");
}

#[test]
fn zero_width_queries_are_empty() {
    let mut t = Ticker::new(&test_config());
    t.set_headlines(two_headlines(), SortMode::ByDate);
    assert_eq!(t.get_visible_text(0), "");
    assert!(t.get_visible_segments(0).is_empty());
    assert_eq!(t.get_url_at_position(0, 0), None);
}

#[test]
fn offset_resets_when_buffer_shrinks() {
    let mut t = Ticker::new(&test_config());
    t.set_headlines(
        vec![headline("a long headline", None), headline("another", None)],
        SortMode::ByDate,
    );
    t.tick(2_000_000);
    assert_eq!(t.get_visible_text(0), "");
    t.set_headlines(vec![headline("A", None)], SortMode::ByDate);
    assert_eq!(t.get_visible_text(3), "A | ");
}

#[test]
fn wrapped_segment_is_seen_in_both_places() {
    let mut t = Ticker::new(&test_config());
    t.set_headlines(two_headlines(), SortMode::ByDate);
    // offset 4: the viewport starts at "B"
    t.tick(400_000);
    let segs = t.get_visible_segments(6);
    let got: Vec<(usize, usize, Option<String>)> =
        segs.iter().map(|s| (s.start, s.end, s.url.clone())).collect();
    assert_eq!(got, vec![(4, 5, None), (0, 1, Some("http://x".to_string()))]);
    assert_eq!(t.get_url_at_position(0, 6), Some("http://x".to_string()));
    assert_eq!(t.get_url_at_position(4, 6), None);
}

#[test]
fn fair_rotation_marks_every_headline_then_restarts() {
    let mut t = Ticker::new(&fair_config());
    t.set_headlines(two_headlines(), SortMode::ByDate);
    assert!(t.shown_urls().is_empty());
    t.tick(150_000);
    assert_eq!(t.shown_urls(), vec!["A".to_string()]);
    t.tick(450_000);
    let mut shown = t.shown_urls();
    shown.sort();
    assert_eq!(shown, vec!["A".to_string(), "http://x".to_string()]);
    t.set_headlines(two_headlines(), SortMode::ByDate);
    assert!(t.shown_urls().is_empty());
    assert_eq!(t.headline_count(), 2);
    assert_eq!(t.get_visible_text(3), "| A ");
}

#[test]
fn fair_rotation_puts_unshown_first() {
    let mut t = Ticker::new(&fair_config());
    t.set_headlines(two_headlines(), SortMode::ByDate);
    t.tick(150_000);
    t.set_headlines(two_headlines(), SortMode::ByDate);
    assert_eq!(t.shown_urls(), vec!["A".to_string()]);
    t.tick(600_000);
    assert_eq!(t.get_visible_text(7), " B | A |");
}

#[test]
fn stale_keys_leave_the_shown_set() {
    let mut t = Ticker::new(&fair_config());
    t.set_headlines(two_headlines(), SortMode::ByDate);
    t.tick(150_000);
    assert_eq!(t.shown_urls(), vec!["A".to_string()]);
    t.set_headlines(vec![headline("B", Some("http://x")), headline("C", None)], SortMode::ByDate);
    assert!(t.shown_urls().is_empty());
}

#[test]
fn continuous_rotation_keeps_no_record() {
    let mut t = Ticker::new(&test_config());
    t.set_headlines(two_headlines(), SortMode::ByDate);
    t.tick(700_000);
    t.tick(700_000);
    assert!(t.shown_urls().is_empty());
}

#[test]
fn sort_by_source_and_date() {
    let mut t = Ticker::new(&test_config());
    let mut items = vec![
        Headline { title: "x".to_string(), url: None, source: "b".to_string(), published: Some(5) },
        Headline { title: "y".to_string(), url: None, source: "a".to_string(), published: Some(9) },
        Headline { title: "z".to_string(), url: None, source: "b".to_string(), published: Some(1) },
    ];
    t.set_headlines(items.clone(), SortMode::BySource);
    assert_eq!(t.get_visible_text(8), "y | x | z");
    t.set_headlines(items.clone(), SortMode::ByDate);
    assert_eq!(t.get_visible_text(8), "y | x | z");
    t.set_headlines(items.clone(), SortMode::ByDateAsc);
    assert_eq!(t.get_visible_text(8), "z | x | y");
    items[0].published = None;
    t.set_headlines(items, SortMode::ByDate);
    assert_eq!(t.get_visible_text(8), "x | y | z");
}

#[test]
fn random_order_keeps_the_headlines() {
    let mut t = Ticker::new(&test_config());
    let items: Vec<Headline> = (0..20).map(|i| headline(&format!("{}", i % 10), None)).collect();
    t.set_headlines(items, SortMode::Random);
    assert_eq!(t.headline_count(), 20);
    let text = t.get_visible_text(79);
    let mut titles: Vec<&str> = text.split(" | ").filter(|s| !s.is_empty()).collect();
    titles.sort();
    let mut expected: Vec<String> = (0..20).map(|i| format!("{}", i % 10)).collect();
    expected.sort();
    assert_eq!(titles, expected);
}

#[test]
fn small_ticks_mark_each_headline_once() {
    let mut t = Ticker::new(&fair_config());
    t.set_headlines(
        vec![headline("one", None), headline("two", Some("u2")), headline("three", None)],
        SortMode::ByDate,
    );
    // 0.9 characters per tick; the last headline ends at 17 of a 20-character buffer
    for _ in 0..20 {
        t.tick(90_000);
    }
    let mut shown = t.shown_urls();
    shown.sort();
    assert_eq!(shown, vec!["one".to_string(), "three".to_string(), "u2".to_string()]);
}
