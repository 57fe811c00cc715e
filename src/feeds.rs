//! Headlines and the feed-level data around them.
use vstd::prelude::*;

verus! {

/// A single headline from an RSS/Atom feed.
#[derive(Debug, Clone)]
pub struct Headline {
    pub title: String,
    /// The link of the entry, if it has one
    pub url: Option<String>,
    /// The feed's title, or its address when the feed has none
    pub source: String,
    /// Publication time, in seconds since the Unix epoch
    pub published: Option<i64>,
}

impl Headline {
    /// An identical copy.
    pub fn duplicate(&self) -> (r: Headline)
        ensures
            r == *self,
    {
        Headline {
            title: self.title.clone(),
            url: crate::text::clone_opt_string(&self.url),
            source: self.source.clone(),
            published: self.published,
        }
    }
}

/// Result of validating/fetching a single feed.
#[derive(Debug)]
pub struct FeedResult {
    pub status: FeedStatus,
}

/// Whether a feed could be fetched and read, and what it held.
#[derive(Debug)]
pub enum FeedStatus {
    Valid { title: String, item_count: usize },
    Error(String),
}

/// One entry of a parsed feed, reduced to what headline selection reads.
#[derive(Debug, Clone)]
pub struct FeedEntry {
    pub title: Option<String>,
    /// Publication time, in seconds since the Unix epoch
    pub published: Option<i64>,
    /// Last update time, in seconds since the Unix epoch
    pub updated: Option<i64>,
    /// The targets of the entry's links, in order
    pub links: Vec<String>,
}

/// A parsed feed, reduced to what headline selection reads.
#[derive(Debug, Clone)]
pub struct ParsedFeed {
    pub title: Option<String>,
    pub entries: Vec<FeedEntry>,
}

/// Unicode white space, as `char::is_whitespace` defines it.
pub open spec fn is_space(c: char) -> bool {
    ||| ('\t' as int <= c as int <= '\r' as int)
    ||| c == ' '
    ||| c == '\u{85}'
    ||| c == '\u{a0}'
    ||| c == '\u{1680}'
    ||| ('\u{2000}' as int <= c as int <= '\u{200a}' as int)
    ||| c == '\u{2028}'
    ||| c == '\u{2029}'
    ||| c == '\u{202f}'
    ||| c == '\u{205f}'
    ||| c == '\u{3000}'
}

/// Whether `c` is white space.
pub fn char_is_space(c: char) -> (r: bool)
    ensures
        r == is_space(c),
{
    (c >= '\t' && c <= '\r') || c == ' ' || c == '\u{85}' || c == '\u{a0}' || c == '\u{1680}'
        || (c >= '\u{2000}' && c <= '\u{200a}') || c == '\u{2028}' || c == '\u{2029}' || c
        == '\u{202f}' || c == '\u{205f}' || c == '\u{3000}'
}

/// Every character of `s` is white space (so `s` trims to nothing).
pub open spec fn all_space(s: Seq<char>) -> bool {
    forall|i: int| 0 <= i < s.len() ==> is_space(#[trigger] s[i])
}

fn blank(s: &String) -> (r: bool)
    ensures
        r == all_space(s@),
{
    let n = s.as_str().unicode_len();
    let mut i: usize = 0;
    while i < n
        invariant
            n == s@.len(),
            i <= n,
            forall|j: int| 0 <= j < i ==> is_space(#[trigger] s@[j]),
        decreases n - i,
    {
        if !char_is_space(s.as_str().get_char(i)) {
            return false;
        }
        i += 1;
    }
    true
}

/// The pieces of `s` between newlines; there is always at least one.
pub open spec fn pieces(s: Seq<char>) -> Seq<Seq<char>>
    decreases s.len(),
{
    if s.len() == 0 {
        seq![Seq::empty()]
    } else {
        let p = pieces(s.drop_last());
        if s.last() == '\n' {
            p.push(Seq::empty())
        } else {
            p.update(p.len() - 1, p.last().push(s.last()))
        }
    }
}

/// The first run of non-space characters of `l`, and whether a space
/// already followed it.
pub open spec fn token_scan(l: Seq<char>) -> (Seq<char>, bool)
    decreases l.len(),
{
    if l.len() == 0 {
        (Seq::empty(), false)
    } else {
        let (t, ended) = token_scan(l.drop_last());
        let c = l.last();
        if ended {
            (t, true)
        } else if is_space(c) {
            (t, t.len() > 0)
        } else {
            (t.push(c), false)
        }
    }
}

pub open spec fn starts_with(s: Seq<char>, p: Seq<char>) -> bool {
    p.len() <= s.len() && s.take(p.len() as int) == p
}

/// The feed address a line of a feeds file names: its first word, unless
/// the line is blank or a comment, or the word is not an http(s) address.
pub open spec fn url_of_line(l: Seq<char>) -> Option<Seq<char>> {
    let t = token_scan(l).0;
    if t.len() == 0 || t[0] == '#' {
        None
    } else if starts_with(t, "http://"@) || starts_with(t, "https://"@) {
        Some(t)
    } else {
        None
    }
}

/// The addresses named by `lines`, in order.
pub open spec fn urls_of(lines: Seq<Seq<char>>) -> Seq<Seq<char>>
    decreases lines.len(),
{
    if lines.len() == 0 {
        Seq::empty()
    } else {
        match url_of_line(lines.last()) {
            Some(u) => urls_of(lines.drop_last()).push(u),
            None => urls_of(lines.drop_last()),
        }
    }
}

fn starts_with_vec(s: &Vec<char>, p: &str) -> (r: bool)
    ensures
        r == starts_with(s@, p@),
{
    let n = p.unicode_len();
    if n > s.len() {
        return false;
    }
    let mut i: usize = 0;
    while i < n
        invariant
            n == p@.len(),
            n <= s@.len(),
            i <= n,
            forall|j: int| 0 <= j < i ==> s@[j] == p@[j],
        decreases n - i,
    {
        if s[i] != p.get_char(i) {
            assert(s@.take(n as int)[i as int] != p@[i as int]);
            return false;
        }
        i += 1;
    }
    assert(s@.take(n as int) =~= p@);
    true
}

fn line_url(t: &Vec<char>) -> (r: Option<String>)
    ensures
        (match r {
            Some(u) => Some(u@),
            None => None,
        }) == url_of_line_token(t@),
{
    if t.len() == 0 || t[0] == '#' {
        return None;
    }
    let http = starts_with_vec(t, "http://");
    let https = starts_with_vec(t, "https://");
    if http || https {
        Some(crate::text::string_of_chars(t))
    } else {
        None
    }
}

/// `url_of_line`, given the first word of the line.
pub open spec fn url_of_line_token(t: Seq<char>) -> Option<Seq<char>> {
    if t.len() == 0 || t[0] == '#' {
        None
    } else if starts_with(t, "http://"@) || starts_with(t, "https://"@) {
        Some(t)
    } else {
        None
    }
}

/// Parse a newsboat-style URLs file: one URL per line, optional tags after
/// whitespace (ignored), blank lines and `#` comments skipped, and only
/// http(s) addresses kept.
pub fn parse_feed_urls(content: &str) -> (r: Vec<String>)
    ensures
        r@.len() == urls_of(pieces(content@)).len(),
        forall|i: int| 0 <= i < r@.len() ==> (#[trigger] r@[i])@ == urls_of(pieces(content@))[i],
{
    let n = content.unicode_len();
    let mut out: Vec<String> = Vec::new();
    let mut tok: Vec<char> = Vec::new();
    let mut ended = false;
    let mut i: usize = 0;
    while i < n
        invariant
            n == content@.len(),
            i <= n,
            (tok@, ended) == token_scan(pieces(content@.take(i as int)).last()),
            pieces(content@.take(i as int)).len() >= 1,
            out@.len() == urls_of(pieces(content@.take(i as int)).drop_last()).len(),
            forall|j: int|
                0 <= j < out@.len() ==> (#[trigger] out@[j])@ == urls_of(
                    pieces(content@.take(i as int)).drop_last(),
                )[j],
        decreases n - i,
    {
        let c = content.get_char(i);
        let ghost pre = content@.take(i as int);
        let ghost p = pieces(pre);
        proof {
            assert(content@.take(i + 1).drop_last() =~= pre);
            assert(content@.take(i + 1).last() == c);
        }
        if c == '\n' {
            let u = line_url(&tok);
            proof {
                let np = pieces(content@.take(i + 1));
                assert(np == p.push(Seq::empty()));
                assert(np.drop_last() =~= p);
                assert(p =~= p.drop_last().push(p.last()));
                assert(token_scan(p.last()).0 == tok@);
                assert(url_of_line(p.last()) == url_of_line_token(tok@));
            }
            match u {
                Some(s) => {
                    out.push(s);
                },
                None => {},
            }
            tok = Vec::new();
            ended = false;
        } else {
            let sp = char_is_space(c);
            proof {
                let np = pieces(content@.take(i + 1));
                assert(np == p.update(p.len() - 1, p.last().push(c)));
                assert(np.drop_last() =~= p.drop_last());
                assert(np.last() == p.last().push(c));
                assert(p.last().push(c).drop_last() =~= p.last());
            }
            if ended {
            } else if sp {
                ended = tok.len() > 0;
            } else {
                tok.push(c);
            }
        }
        i += 1;
    }
    let u = line_url(&tok);
    proof {
        let p = pieces(content@.take(n as int));
        assert(content@.take(n as int) =~= content@);
        assert(p =~= p.drop_last().push(p.last()));
        assert(url_of_line(p.last()) == url_of_line_token(tok@));
    }
    match u {
        Some(s) => {
            out.push(s);
        },
        None => {},
    }
    out
}

/// The headlines that a feed's entries yield, all of them: each entry with
/// a title that is not blank, published (or else updated) no earlier than
/// `cutoff` if it has a date, whose identity key (first link, else title)
/// is not in `shown`.
pub open spec fn kept_entries(
    entries: Seq<FeedEntry>,
    source: Seq<char>,
    cutoff: i64,
    shown: Set<Seq<char>>,
) -> Seq<(Seq<char>, Option<Seq<char>>, Option<i64>)>
    decreases entries.len(),
{
    if entries.len() == 0 {
        Seq::empty()
    } else {
        let rest = kept_entries(entries.drop_last(), source, cutoff, shown);
        let e = entries.last();
        match entry_headline(e, cutoff, shown) {
            Some(h) => rest.push(h),
            None => rest,
        }
    }
}

/// The title, link and date of the headline that entry `e` yields, if any.
pub open spec fn entry_headline(e: FeedEntry, cutoff: i64, shown: Set<Seq<char>>) -> Option<
    (Seq<char>, Option<Seq<char>>, Option<i64>),
> {
    match e.title {
        None => None,
        Some(title) => {
            let date = match e.published {
                Some(d) => Some(d),
                None => e.updated,
            };
            let link = if e.links.len() > 0 {
                Some(e.links[0]@)
            } else {
                None
            };
            let key = match link {
                Some(l) => l,
                None => title@,
            };
            if all_space(title@) {
                None
            } else if date is Some && date.unwrap() < cutoff {
                None
            } else if shown.contains(key) {
                None
            } else {
                Some((title@, link, date))
            }
        },
    }
}

/// `h` is the headline described by `d` from a feed titled `source`.
pub open spec fn headline_is(
    h: Headline,
    d: (Seq<char>, Option<Seq<char>>, Option<i64>),
    source: Seq<char>,
) -> bool {
    &&& h.title@ == d.0
    &&& (match h.url {
        Some(u) => d.1 == Some(u@),
        None => d.1 is None,
    })
    &&& h.source@ == source
    &&& h.published == d.2
}

/// The name a feed's headlines carry: its title, else its address.
pub open spec fn source_name(feed: ParsedFeed, url: Seq<char>) -> Seq<char> {
    match feed.title {
        Some(t) => t@,
        None => url,
    }
}

/// `r` is the name of `feed` and its first `max_items` headlines that pass
/// `entry_headline`, in feed order.
pub open spec fn selected(
    r: (String, Vec<Headline>),
    feed: ParsedFeed,
    url: Seq<char>,
    max_items: usize,
    cutoff: i64,
    shown: Set<Seq<char>>,
) -> bool {
    let all = kept_entries(feed.entries@, r.0@, cutoff, shown);
    let n = if all.len() < max_items {
        all.len() as int
    } else {
        max_items as int
    };
    &&& r.0@ == source_name(feed, url)
    &&& r.1@.len() == n
    &&& forall|i: int| 0 <= i < n ==> headline_is(#[trigger] r.1@[i], all[i], r.0@)
}

/// The feed's name and its first `max_items` headlines that pass
/// `entry_headline`, in feed order.
pub fn select_headlines(
    feed: &ParsedFeed,
    url: &str,
    max_items: usize,
    cutoff: i64,
    shown: &Vec<String>,
) -> (r: (String, Vec<Headline>))
    ensures
        selected(r, *feed, url@, max_items, cutoff, crate::ticker::string_set(shown@)),
{
    let source = match &feed.title {
        Some(t) => t.clone(),
        None => String::from_str(url),
    };
    let ghost set = crate::ticker::string_set(shown@);
    let mut out: Vec<Headline> = Vec::new();
    let mut i: usize = 0;
    while i < feed.entries.len() && out.len() < max_items
        invariant
            i <= feed.entries@.len(),
            set == crate::ticker::string_set(shown@),
            out@.len() <= max_items,
            out@.len() == kept_entries(feed.entries@.take(i as int), source@, cutoff, set).len(),
            forall|j: int|
                0 <= j < out@.len() ==> headline_is(
                    #[trigger] out@[j],
                    kept_entries(feed.entries@.take(i as int), source@, cutoff, set)[j],
                    source@,
                ),
        decreases feed.entries.len() - i,
    {
        let e = &feed.entries[i];
        proof {
            assert(feed.entries@.take(i + 1).drop_last() =~= feed.entries@.take(i as int));
            assert(feed.entries@.take(i + 1).last() == feed.entries@[i as int]);
        }
        match &e.title {
            None => {},
            Some(title) => {
                let date = match e.published {
                    Some(d) => Some(d),
                    None => e.updated,
                };
                let link = if e.links.len() > 0 {
                    Some(e.links[0].clone())
                } else {
                    None
                };
                let key = match &link {
                    Some(l) => l.clone(),
                    None => title.clone(),
                };
                let stale = match date {
                    Some(d) => d < cutoff,
                    None => false,
                };
                if !blank(title) && !stale && !crate::ticker::contains_key(shown, &key) {
                    out.push(
                        Headline {
                            title: title.clone(),
                            url: link,
                            source: source.clone(),
                            published: date,
                        },
                    );
                }
            },
        }
        i += 1;
    }
    proof {
        let all = kept_entries(feed.entries@, source@, cutoff, set);
        lemma_kept_prefix(feed.entries@, source@, cutoff, set, i as int);
        if i == feed.entries@.len() {
            assert(feed.entries@.take(i as int) =~= feed.entries@);
        }
    }
    (source, out)
}

/// The headlines kept from a prefix of the entries begin the headlines kept
/// from all of them.
proof fn lemma_kept_prefix(
    entries: Seq<FeedEntry>,
    source: Seq<char>,
    cutoff: i64,
    shown: Set<Seq<char>>,
    i: int,
)
    requires
        0 <= i <= entries.len(),
    ensures
        kept_entries(entries.take(i), source, cutoff, shown).len() <= kept_entries(
            entries,
            source,
            cutoff,
            shown,
        ).len(),
        forall|j: int|
            0 <= j < kept_entries(entries.take(i), source, cutoff, shown).len() ==> #[trigger] kept_entries(
                entries.take(i),
                source,
                cutoff,
                shown,
            )[j] == kept_entries(entries, source, cutoff, shown)[j],
    decreases entries.len() - i,
{
    if i < entries.len() {
        lemma_kept_prefix(entries, source, cutoff, shown, i + 1);
        assert(entries.take(i + 1).drop_last() =~= entries.take(i));
        let short = kept_entries(entries.take(i), source, cutoff, shown);
        let longer = kept_entries(entries.take(i + 1), source, cutoff, shown);
        assert forall|j: int| 0 <= j < short.len() implies #[trigger] short[j] == kept_entries(
            entries,
            source,
            cutoff,
            shown,
        )[j] by {
            assert(short[j] == longer[j]);
        }
    } else {
        assert(entries.take(i) =~= entries);
    }
}

/// The name a validation report gives a feed.
pub open spec fn report_title(feed: ParsedFeed) -> Seq<char> {
    match feed.title {
        Some(t) => t@,
        None => UNTITLED@,
    }
}

/// The name a validation gives a feed without a title.
pub const UNTITLED: &'static str = "Untitled";

/// A feed's title (or `UNTITLED`) and its number of entries.
pub fn feed_summary(feed: &ParsedFeed) -> (r: (String, usize))
    ensures
        r.0@ == report_title(*feed),
        r.1 == feed.entries@.len(),
{
    let title = match &feed.title {
        Some(t) => t.clone(),
        None => String::from_str(UNTITLED),
    };
    (title, feed.entries.len())
}

/// `a - b`, or `i64::MIN` where that does not fit.
pub open spec fn saturating_diff(a: i64, b: u64) -> i64 {
    if a - b < i64::MIN {
        i64::MIN
    } else {
        (a - b) as i64
    }
}

/// The earliest publication time a headline may have, `max_age_secs`
/// before `now`.
pub fn age_cutoff(now: i64, max_age_secs: u64) -> (r: i64)
    ensures
        r == saturating_diff(now, max_age_secs),
{
    let lowest: i128 = i64::MIN as i128;
    let d: i128 = now as i128 - max_age_secs as i128;
    if d < lowest {
        i64::MIN
    } else {
        d as i64
    }
}

/// `selected`, with the cutoff `max_age_secs` before `now`.
pub open spec fn selected_at(
    r: (String, Vec<Headline>),
    feed: ParsedFeed,
    url: Seq<char>,
    max_items: usize,
    now: i64,
    max_age_secs: u64,
    shown: Set<Seq<char>>,
) -> bool {
    selected(r, feed, url, max_items, saturating_diff(now, max_age_secs), shown)
}

/// Select the headlines of `feed`, fetched from `url`, as
/// `select_headlines` does, with the age cutoff `max_age_secs` before the
/// current time.
pub fn feed_headlines(
    feed: &ParsedFeed,
    url: &str,
    max_items: usize,
    max_age_secs: u64,
    shown: &Vec<String>,
) -> (r: (String, Vec<Headline>))
    ensures
        r.1@.len() <= max_items,
        exists|now: i64|
            #[trigger] selected_at(
                r,
                *feed,
                url@,
                max_items,
                now,
                max_age_secs,
                crate::ticker::string_set(shown@),
            ),
{
    let now = crate::order::now_timestamp();
    let cutoff = age_cutoff(now, max_age_secs);
    let r = select_headlines(feed, url, max_items, cutoff, shown);
    assert(selected_at(
        r,
        *feed,
        url@,
        max_items,
        now,
        max_age_secs,
        crate::ticker::string_set(shown@),
    ));
    r
}

} // verus!
