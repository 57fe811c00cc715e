//! Settings of the ticker: the enumerations, the command-line and file
//! layers, and the rules by which they are merged into one configuration.
use vstd::prelude::*;

verus! {

/// The delimiter placed between headlines when none is configured.
pub const DEFAULT_DELIMITER: &'static str = " ••• ";

/// Scroll speed, in characters per second, when none is configured.
pub const DEFAULT_SPEED: u32 = 8;

/// Minutes between feed refreshes when none is configured.
pub const DEFAULT_REFRESH_MINUTES: u64 = 5;

/// Maximum headline age, in hours, when none is configured.
pub const DEFAULT_MAX_AGE_HOURS: u64 = 24;

/// Headlines taken from one feed when no limit is configured.
pub const DEFAULT_MAX_PER_FEED: usize = 10;

/// Headlines kept in rotation when no limit is configured.
pub const DEFAULT_MAX_TOTAL: usize = 100;

/// How a new set of headlines is ordered before display.
#[derive(Debug, Clone, Copy, PartialEq, Eq, Structural)]
pub enum SortMode {
    /// Shuffle headlines randomly
    Random,
    /// Group headlines by source/publication
    BySource,
    /// Newest headlines first (default)
    ByDate,
    /// Oldest headlines first
    ByDateAsc,
}

impl Default for SortMode {
    fn default() -> (r: SortMode)
        ensures
            r == SortMode::ByDate,
    {
        SortMode::ByDate
    }
}

/// When the ticker stops scrolling on its own.
#[derive(Debug, Clone, Copy, PartialEq, Eq, Structural)]
pub enum PauseMode {
    /// Pause when mouse hovers over ticker
    Hover,
    /// Pause when terminal window is focused
    Focus,
    /// Never auto-pause
    Never,
}

impl Default for PauseMode {
    fn default() -> (r: PauseMode)
        ensures
            r == PauseMode::Hover,
    {
        PauseMode::Hover
    }
}

/// Whether headlines that were already shown give way to unshown ones.
#[derive(Debug, Clone, Copy, PartialEq, Eq, Structural)]
pub enum RotationMode {
    /// Repeat the headlines in the same order indefinitely
    Continuous,
    /// Show every headline once before any repeats
    Fair,
}

impl Default for RotationMode {
    fn default() -> (r: RotationMode)
        ensures
            r == RotationMode::Fair,
    {
        RotationMode::Fair
    }
}

/// The key that must be held for a click to open a link.
#[derive(Debug, Clone, Copy, PartialEq, Eq, Structural)]
pub enum ClickModifier {
    /// Any click opens the link
    Plain,
    Ctrl,
    Shift,
    Alt,
}

impl Default for ClickModifier {
    fn default() -> (r: ClickModifier)
        ensures
            r == ClickModifier::Plain,
    {
        ClickModifier::Plain
    }
}

/// Command-line arguments; every setting is optional and overrides the file.
#[derive(Debug, Clone)]
pub struct CliArgs {
    /// Path to config file
    pub config: Option<String>,
    /// Path to feeds file
    pub feeds: Option<String>,
    /// Delimiter between headlines
    pub delimiter: Option<String>,
    /// Scroll speed in characters per second
    pub speed: Option<u32>,
    pub sort: Option<SortMode>,
    pub pause: Option<PauseMode>,
    pub rotation: Option<RotationMode>,
    pub click_modifier: Option<ClickModifier>,
    /// Feed refresh interval in minutes
    pub refresh_minutes: Option<u64>,
    /// Maximum age of headlines in hours
    pub max_age_hours: Option<u64>,
    pub max_per_feed: Option<usize>,
    pub max_total: Option<usize>,
    pub hide_source: bool,
    pub show_source: bool,
    /// Validate feeds and exit
    pub validate: bool,
    pub status_bar: bool,
    pub no_status_bar: bool,
}

/// Settings read from the configuration file.
#[derive(Debug, Clone)]
pub struct FileConfig {
    pub feeds: Option<String>,
    pub delimiter: Option<String>,
    pub speed: Option<u32>,
    pub sort: Option<SortMode>,
    pub pause: Option<PauseMode>,
    pub rotation: Option<RotationMode>,
    pub click_modifier: Option<ClickModifier>,
    pub refresh_minutes: Option<u64>,
    pub max_age_hours: Option<u64>,
    pub max_per_feed: Option<usize>,
    pub max_total: Option<usize>,
    pub show_source: Option<bool>,
    pub status_bar: Option<bool>,
}

impl Default for FileConfig {
    fn default() -> (r: FileConfig)
        ensures
            r.feeds is None,
            r.delimiter is None,
            r.speed is None,
            r.sort is None,
            r.pause is None,
            r.rotation is None,
            r.click_modifier is None,
            r.refresh_minutes is None,
            r.max_age_hours is None,
            r.max_per_feed is None,
            r.max_total is None,
            r.show_source is None,
            r.status_bar is None,
    {
        FileConfig {
            feeds: None,
            delimiter: None,
            speed: None,
            sort: None,
            pause: None,
            rotation: None,
            click_modifier: None,
            refresh_minutes: None,
            max_age_hours: None,
            max_per_feed: None,
            max_total: None,
            show_source: None,
            status_bar: None,
        }
    }
}

/// The effective configuration.
#[derive(Debug, Clone)]
pub struct Config {
    pub feeds_path: String,
    pub delimiter: String,
    pub speed: u32,
    pub sort: SortMode,
    pub pause_mode: PauseMode,
    /// Seconds between feed refreshes
    pub refresh_interval_secs: u64,
    /// Maximum headline age, in seconds
    pub max_age_secs: u64,
    pub max_per_feed: usize,
    pub max_total: usize,
    pub show_source: bool,
    pub validate_only: bool,
    pub show_status_bar: bool,
    pub click_modifier: ClickModifier,
    pub rotation: RotationMode,
    pub config_path: Option<String>,
}

/// The first of `a` and `b` that is present, else `d`.
pub open spec fn layered<T>(a: Option<T>, b: Option<T>, d: T) -> T {
    match a {
        Some(x) => x,
        None => match b {
            Some(y) => y,
            None => d,
        },
    }
}

/// `n * k`, or `u64::MAX` where the product does not fit.
pub open spec fn saturating_product(n: u64, k: u64) -> u64 {
    if n * k > u64::MAX {
        u64::MAX
    } else {
        (n * k) as u64
    }
}

/// A flag pair on the command line over an optional file setting: the
/// negative flag wins, then the positive one, then the file, then `d`.
pub open spec fn flag_choice(off: bool, on: bool, file: Option<bool>, d: bool) -> bool {
    if off {
        false
    } else if on {
        true
    } else {
        match file {
            Some(b) => b,
            None => d,
        }
    }
}

fn layered_copy<T: Copy>(a: Option<T>, b: Option<T>, d: T) -> (r: T)
    ensures
        r == layered(a, b, d),
{
    match a {
        Some(x) => x,
        None => match b {
            Some(y) => y,
            None => d,
        },
    }
}

fn saturating_mul_u64(n: u64, k: u64) -> (r: u64)
    requires
        k > 0,
    ensures
        r == saturating_product(n, k),
{
    if n > u64::MAX / k {
        assert(n * k > u64::MAX) by (nonlinear_arith)
            requires
                n > u64::MAX / k,
                k > 0,
        ;
        u64::MAX
    } else {
        assert(n * k <= u64::MAX) by (nonlinear_arith)
            requires
                n <= u64::MAX / k,
                k > 0,
        ;
        n * k
    }
}

fn bool_flag(off: bool, on: bool, file: Option<bool>, d: bool) -> (r: bool)
    ensures
        r == flag_choice(off, on, file, d),
{
    if off {
        false
    } else if on {
        true
    } else {
        match file {
            Some(b) => b,
            None => d,
        }
    }
}

/// The feeds file named on the command line, else in the file; `None` when
/// neither names one and the file must be discovered on disk.
pub fn feeds_path_choice(args: &CliArgs, file: &FileConfig) -> (r: Option<String>)
    ensures
        r == (match args.feeds {
            Some(p) => Some(p),
            None => file.feeds,
        }),
{
    match &args.feeds {
        Some(p) => Some(p.clone()),
        None => match &file.feeds {
            Some(p) => Some(p.clone()),
            None => None,
        },
    }
}

impl Config {
    /// Merges the command line over the file over the defaults; `feeds_path`
    /// is the feeds file already chosen (see `feeds_path_choice`).
    pub fn resolve(args: CliArgs, file: FileConfig, feeds_path: String) -> (r: Config)
        ensures
            r.feeds_path == feeds_path,
            r.delimiter@ == (match args.delimiter {
                Some(d) => d@,
                None => match file.delimiter {
                    Some(d) => d@,
                    None => DEFAULT_DELIMITER@,
                },
            }),
            r.speed == layered(args.speed, file.speed, DEFAULT_SPEED),
            r.sort == layered(args.sort, file.sort, SortMode::ByDate),
            r.pause_mode == layered(args.pause, file.pause, PauseMode::Hover),
            r.rotation == layered(args.rotation, file.rotation, RotationMode::Fair),
            r.click_modifier == layered(
                args.click_modifier,
                file.click_modifier,
                ClickModifier::Plain,
            ),
            r.refresh_interval_secs == saturating_product(
                layered(args.refresh_minutes, file.refresh_minutes, DEFAULT_REFRESH_MINUTES),
                60,
            ),
            r.max_age_secs == saturating_product(
                layered(args.max_age_hours, file.max_age_hours, DEFAULT_MAX_AGE_HOURS),
                3600,
            ),
            r.max_per_feed == layered(args.max_per_feed, file.max_per_feed, DEFAULT_MAX_PER_FEED),
            r.max_total == layered(args.max_total, file.max_total, DEFAULT_MAX_TOTAL),
            r.show_source == flag_choice(args.hide_source, args.show_source, file.show_source, true),
            r.show_status_bar == flag_choice(
                args.no_status_bar,
                args.status_bar,
                file.status_bar,
                false,
            ),
            r.validate_only == args.validate,
            r.config_path == args.config,
    {
        let delimiter = match args.delimiter {
            Some(d) => d,
            None => match file.delimiter {
                Some(d) => d,
                None => String::from_str(DEFAULT_DELIMITER),
            },
        };
        let refresh_minutes = layered_copy(
            args.refresh_minutes,
            file.refresh_minutes,
            DEFAULT_REFRESH_MINUTES,
        );
        let max_age_hours = layered_copy(args.max_age_hours, file.max_age_hours, DEFAULT_MAX_AGE_HOURS);
        Config {
            feeds_path,
            delimiter,
            speed: layered_copy(args.speed, file.speed, DEFAULT_SPEED),
            sort: layered_copy(args.sort, file.sort, SortMode::ByDate),
            pause_mode: layered_copy(args.pause, file.pause, PauseMode::Hover),
            refresh_interval_secs: saturating_mul_u64(refresh_minutes, 60),
            max_age_secs: saturating_mul_u64(max_age_hours, 3600),
            max_per_feed: layered_copy(args.max_per_feed, file.max_per_feed, DEFAULT_MAX_PER_FEED),
            max_total: layered_copy(args.max_total, file.max_total, DEFAULT_MAX_TOTAL),
            show_source: bool_flag(args.hide_source, args.show_source, file.show_source, true),
            validate_only: args.validate,
            show_status_bar: bool_flag(args.no_status_bar, args.status_bar, file.status_bar, false),
            click_modifier: layered_copy(args.click_modifier, file.click_modifier, ClickModifier::Plain),
            rotation: layered_copy(args.rotation, file.rotation, RotationMode::Fair),
            config_path: args.config,
        }
    }
}

/// The text of a commented example configuration file.
pub fn example_config() -> (r: &'static str)
    ensures
        r@ == EXAMPLE_CONFIG@,
{
    EXAMPLE_CONFIG
}

/// A commented configuration file that spells out every default.
pub const EXAMPLE_CONFIG: &'static str = "# Chyron configuration

# Path to feeds file (default: ~/.newsboat/urls or ~/.config/chyron/urls)
# feeds = \"~/.config/chyron/urls\"

# Delimiter between headlines
delimiter = \" ••• \"

# Scroll speed in characters per second
speed = 8

# Sort mode: random, by_source, by_date, by_date_asc
sort = \"by_date\"

# Pause mode: hover (pause on mouse hover), focus (pause when window focused), never
pause = \"hover\"

# Rotation mode: fair (show every headline once before repeating), continuous
rotation = \"fair\"

# Feed refresh interval in minutes
refresh_minutes = 5

# Maximum age of headlines in hours
max_age_hours = 24

# Maximum headlines per feed
max_per_feed = 10

# Maximum total headlines in rotation
max_total = 100

# Show source prefix on headlines [Source Name]
show_source = true

# Show status bar at bottom
status_bar = false
";

} // verus!
