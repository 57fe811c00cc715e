use chyron::config::{
    example_config, feeds_path_choice, CliArgs, ClickModifier, Config, FileConfig, PauseMode,
    RotationMode, SortMode,
};

fn no_args() -> CliArgs {
    CliArgs {
        config: None,
        feeds: None,
        delimiter: None,
        speed: None,
        sort: None,
        pause: None,
        rotation: None,
        click_modifier: None,
        refresh_minutes: None,
        max_age_hours: None,
        max_per_feed: None,
        max_total: None,
        hide_source: false,
        show_source: false,
        validate: false,
        status_bar: false,
        no_status_bar: false,
    }
}

#[test]
fn test_default_sort_mode() {
    assert_eq!(SortMode::default(), SortMode::ByDate);
}

#[test]
fn test_default_pause_mode() {
    assert_eq!(PauseMode::default(), PauseMode::Hover);
}

#[test]
fn defaults_apply_when_nothing_is_set() {
    let c = Config::resolve(no_args(), FileConfig::default(), "/f".to_string());
    assert_eq!(c.feeds_path, "/f");
    assert_eq!(c.delimiter, " ••• ");
    assert_eq!(c.speed, 8);
    assert_eq!(c.sort, SortMode::ByDate);
    assert_eq!(c.pause_mode, PauseMode::Hover);
    assert_eq!(c.rotation, RotationMode::Fair);
    assert_eq!(c.click_modifier, ClickModifier::Plain);
    assert_eq!(c.refresh_interval_secs, 300);
    assert_eq!(c.max_age_secs, 86400);
    assert_eq!(c.max_per_feed, 10);
    assert_eq!(c.max_total, 100);
    assert!(c.show_source);
    assert!(!c.show_status_bar);
    assert!(!c.validate_only);
    assert_eq!(c.config_path, None);
}

#[test]
fn command_line_overrides_file() {
    let mut args = no_args();
    args.speed = Some(3);
    args.hide_source = true;
    args.status_bar = true;
    args.config = Some("/c.toml".to_string());
    let mut file = FileConfig::default();
    file.speed = Some(12);
    file.delimiter = Some(" | ".to_string());
    file.sort = Some(SortMode::Random);
    file.pause = Some(PauseMode::Focus);
    file.show_source = Some(true);
    file.status_bar = Some(false);
    file.refresh_minutes = Some(2);
    file.max_age_hours = Some(u64::MAX);
    let c = Config::resolve(args, file, "/f".to_string());
    assert_eq!(c.speed, 3);
    assert_eq!(c.delimiter, " | ");
    assert_eq!(c.sort, SortMode::Random);
    assert_eq!(c.pause_mode, PauseMode::Focus);
    assert!(!c.show_source);
    assert!(c.show_status_bar);
    assert_eq!(c.refresh_interval_secs, 120);
    assert_eq!(c.max_age_secs, u64::MAX);
    assert_eq!(c.config_path, Some("/c.toml".to_string()));
}

#[test]
fn feeds_path_prefers_command_line() {
    let mut args = no_args();
    let mut file = FileConfig::default();
    assert_eq!(feeds_path_choice(&args, &file), None);
    file.feeds = Some("/file".to_string());
    assert_eq!(feeds_path_choice(&args, &file), Some("/file".to_string()));
    args.feeds = Some("/cli".to_string());
    assert_eq!(feeds_path_choice(&args, &file), Some("/cli".to_string()));
}

#[test]
fn example_config_spells_out_defaults() {
    let text = example_config();
    assert!(text.contains("speed = 8"));
    assert!(text.contains("sort = \"by_date\""));
    assert!(text.contains("max_total = 100"));
}
