use chyron::config::{ClickModifier, Config, PauseMode, RotationMode, SortMode};
use chyron::control::{auto_paused, speed_down, speed_up, ticker_row};
use chyron::feeds::Headline;
use chyron::ticker::Ticker;
use chyron::ui::{frame_chars, CellStyle, HyperlinkRenderer, StatusBar, TickerWidget};

fn ticker() -> Ticker {
    let config = Config {
        feeds_path: String::new(),
        delimiter: " | ".to_string(),
        speed: 10,
        sort: SortMode::ByDate,
        pause_mode: PauseMode::Hover,
        refresh_interval_secs: 300,
        max_age_secs: 86400,
        max_per_feed: 10,
        max_total: 100,
        show_source: false,
        validate_only: false,
        show_status_bar: false,
        click_modifier: ClickModifier::Plain,
        rotation: RotationMode::Continuous,
        config_path: None,
    };
    let mut t = Ticker::new(&config);
    t.set_headlines(
        vec![
            Headline { title: "A".to_string(), url: None, source: "s".to_string(), published: None },
            Headline {
                title: "B".to_string(),
                url: Some("http://x".to_string()),
                source: "s".to_string(),
                published: None,
            },
        ],
        SortMode::ByDate,
    );
    t
}

#[test]
fn frame_switches_past_half_a_character() {
    let mut t = ticker();
    t.tick(40_000);
    assert_eq!(frame_chars(&t, 4).iter().collect::<String>(), "A | ");
    t.tick(20_000);
    assert_eq!(frame_chars(&t, 4).iter().collect::<String>(), " | B");
}

#[test]
fn hyperlink_line_wraps_links() {
    let t = ticker();
    let mut r = HyperlinkRenderer::new();
    assert_eq!(r.output(), "");
    r.render_ticker_line(&t, 8, 0);
    assert_eq!(r.output(), "\x1b[1;1HA | \x1b]8;;http://x\x07B\x1b]8;;\x07 | ");
    r.render_ticker_line(&t, 3, 41);
    assert_eq!(r.output(), "\x1b[42;1HA |");
}

#[test]
fn cells_mark_links_and_hover() {
    let t = ticker();
    let w = TickerWidget::new(&t).hovered(Some(14));
    let cells = w.cells(10, 6);
    let styles: Vec<CellStyle> = cells.iter().map(|c| c.style).collect();
    assert_eq!(
        styles,
        vec![
            CellStyle::Plain,
            CellStyle::Plain,
            CellStyle::Plain,
            CellStyle::Plain,
            CellStyle::HoveredLink,
            CellStyle::Plain
        ]
    );
    assert_eq!(cells[4].ch, 'B');
    let plain = TickerWidget::new(&t).cells(0, 6);
    assert_eq!(plain[4].style, CellStyle::Link);
}

#[test]
fn status_bar_text() {
    let mut t = ticker();
    assert_eq!(
        StatusBar::new(&t).text(),
        " ▶ PLAYING | 2 headlines | speed: 10 | q=quit space=pause ±=speed "
    );
    t.pause();
    t.set_speed(105);
    assert_eq!(
        StatusBar::new(&t).with_message("Loading feeds...").text(),
        " ⏸ PAUSED | 2 headlines | speed: 105 | Loading feeds... "
    );
}

#[test]
fn speed_keys_are_bounded() {
    assert_eq!(speed_up(8), 10);
    assert_eq!(speed_up(99), 100);
    assert_eq!(speed_up(u32::MAX), 100);
    assert_eq!(speed_down(8), 6);
    assert_eq!(speed_down(2), 1);
    assert_eq!(speed_down(0), 1);
}

#[test]
fn auto_pause_follows_mode() {
    assert!(auto_paused(PauseMode::Hover, true, Some(3), 3));
    assert!(!auto_paused(PauseMode::Hover, true, Some(2), 3));
    assert!(!auto_paused(PauseMode::Hover, false, Some(3), 3));
    assert!(auto_paused(PauseMode::Focus, true, None, 3));
    assert!(!auto_paused(PauseMode::Never, true, Some(3), 3));
}

#[test]
fn ticker_row_is_centred() {
    assert_eq!(ticker_row(24, false), 11);
    assert_eq!(ticker_row(24, true), 11);
    assert_eq!(ticker_row(1, true), 0);
}
