//! The ticker engine: the character buffer and its segment map, the scroll
//! clock, the queries that rendering makes, and fair rotation.
use crate::config::{Config, RotationMode, SortMode};
use crate::order::{arranged, is_sort_order, order_headlines};
use crate::feeds::Headline;
use crate::text::{append_chars, append_vec, chars_of, clone_opt_string, string_of_chars};
use vstd::prelude::*;

verus! {

/// Offset units per character: the scroll offset is kept in millionths of a character.
pub const SUBCHAR: u64 = 1000000;

/// Half a character in offset units; past it the next character is drawn.
pub const HALF_CHAR: u64 = 500000;

/// The buffer shown while there are no headlines.
pub const EMPTY_TEXT: &'static str = "No headlines available. Check your feed configuration.";

/// A range of the buffer, `[start, end)`, that one headline occupies.
#[derive(Debug, Clone)]
pub struct TickerSegment {
    pub start: usize,
    pub end: usize,
    pub url: Option<String>,
}

/// A segment visible on screen, in columns `[start, end)` of the viewport.
#[derive(Debug, Clone)]
pub struct VisibleSegment {
    pub start: usize,
    pub end: usize,
    pub url: Option<String>,
}

/// The identity of a headline for fair rotation: its link, else its title.
pub open spec fn key_of(h: Headline) -> Seq<char> {
    match h.url {
        Some(u) => u@,
        None => h.title@,
    }
}

/// The text a headline contributes to the buffer.
pub open spec fn display_of(h: Headline, show_source: bool) -> Seq<char> {
    if show_source {
        seq!['['] + h.source@ + seq![']', ' '] + h.title@
    } else {
        h.title@
    }
}

/// Every headline's text followed by the separator, in order.
pub open spec fn composed(items: Seq<Headline>, sep: Seq<char>, show_source: bool) -> Seq<char>
    decreases items.len(),
{
    if items.len() == 0 {
        Seq::empty()
    } else {
        composed(items.drop_last(), sep, show_source) + display_of(items.last(), show_source) + sep
    }
}

/// The buffer for a list of headlines: the placeholder text when there are none.
pub open spec fn buffer_for(items: Seq<Headline>, sep: Seq<char>, show_source: bool) -> Seq<char> {
    if items.len() == 0 {
        EMPTY_TEXT@
    } else {
        composed(items, sep, show_source)
    }
}

/// Where headline `i` starts in the buffer.
pub open spec fn segment_start(items: Seq<Headline>, sep: Seq<char>, show_source: bool, i: int) -> int {
    composed(items.take(i), sep, show_source).len() as int
}

/// `s` is the segment of headline `i`.
pub open spec fn segment_of(
    s: TickerSegment,
    items: Seq<Headline>,
    sep: Seq<char>,
    show_source: bool,
    i: int,
) -> bool {
    &&& s.start == segment_start(items, sep, show_source, i)
    &&& s.end == s.start + display_of(items[i], show_source).len()
    &&& s.url == items[i].url
}

/// The sum of the display lengths of all headlines.
pub open spec fn total_display(items: Seq<Headline>, show_source: bool) -> int
    decreases items.len(),
{
    if items.len() == 0 {
        0
    } else {
        total_display(items.drop_last(), show_source) + display_of(items.last(), show_source).len()
    }
}

/// Builds the buffer and the segment map of a non-empty list of headlines.
fn compose(items: &Vec<Headline>, sep: &Vec<char>, show_source: bool) -> (r: (
    Vec<char>,
    Vec<TickerSegment>,
))
    ensures
        r.0@ == composed(items@, sep@, show_source),
        r.1@.len() == items@.len(),
        forall|i: int|
            0 <= i < items@.len() ==> segment_of(#[trigger] r.1@[i], items@, sep@, show_source, i),
{
    let mut text: Vec<char> = Vec::new();
    let mut segs: Vec<TickerSegment> = Vec::new();
    let mut idx: usize = 0;
    while idx < items.len()
        invariant
            idx <= items@.len(),
            text@ == composed(items@.take(idx as int), sep@, show_source),
            segs@.len() == idx,
            forall|i: int|
                0 <= i < idx ==> segment_of(#[trigger] segs@[i], items@, sep@, show_source, i),
        decreases items.len() - idx,
    {
        let h = &items[idx];
        let start = text.len();
        if show_source {
            text.push('[');
            append_chars(&mut text, h.source.as_str());
            text.push(']');
            text.push(' ');
        }
        append_chars(&mut text, h.title.as_str());
        let end = text.len();
        proof {
            assert(text@ == composed(items@.take(idx as int), sep@, show_source) + display_of(
                items@[idx as int],
                show_source,
            ));
        }
        segs.push(TickerSegment { start, end, url: clone_opt_string(&h.url) });
        append_vec(&mut text, sep);
        proof {
            assert(items@.take(idx + 1).drop_last() =~= items@.take(idx as int));
            assert(items@.take(idx + 1).last() == items@[idx as int]);
            assert forall|i: int| 0 <= i < idx + 1 implies segment_of(
                #[trigger] segs@[i],
                items@,
                sep@,
                show_source,
                i,
            ) by {
                if i == idx {
                    assert(start == composed(items@.take(idx as int), sep@, show_source).len());
                }
            }
        }
        idx += 1;
    }
    assert(items@.take(items@.len() as int) =~= items@);
    (text, segs)
}

/// The characters `[base, base + width]` of the buffer, read cyclically;
/// empty for an empty buffer or a zero width.
pub open spec fn window_of(buf: Seq<char>, base: int, width: int) -> Seq<char> {
    if buf.len() == 0 || width == 0 {
        Seq::empty()
    } else {
        Seq::new((width + 1) as nat, |i: int| buf[(base + i) % (buf.len() as int)])
    }
}

/// The offset, in units, after scrolling `speed` characters per second for
/// `micros` microseconds over a buffer of `len` characters.
pub open spec fn advanced(offset: int, speed: int, micros: int, len: int) -> int {
    (offset + speed * micros) % (len * SUBCHAR)
}

/// The part of the range `[s_start, s_end)` of the buffer that falls in the
/// viewport `[base, base + width)`, in viewport columns; none if it is empty.
pub open spec fn piece(
    s_start: int,
    s_end: int,
    url: Option<String>,
    base: int,
    width: int,
) -> Seq<VisibleSegment> {
    if s_start < base + width && s_end > base {
        let sv = if s_start > base {
            s_start - base
        } else {
            0
        };
        let ev = if s_end - base < width {
            s_end - base
        } else {
            width
        };
        if sv < width && ev > sv {
            seq![VisibleSegment { start: sv as usize, end: ev as usize, url }]
        } else {
            Seq::empty()
        }
    } else {
        Seq::empty()
    }
}

/// The visible parts of the segments, in order, each at its own position and
/// then shifted by the buffer length `len`.
pub open spec fn visible_of(segs: Seq<TickerSegment>, base: int, len: int, width: int) -> Seq<
    VisibleSegment,
>
    decreases segs.len(),
{
    if segs.len() == 0 {
        Seq::empty()
    } else {
        let s = segs.last();
        visible_of(segs.drop_last(), base, len, width) + piece(
            s.start as int,
            s.end as int,
            s.url,
            base,
            width,
        ) + piece(s.start + len, s.end + len, s.url, base, width)
    }
}

/// Column `x` lies in `v`.
pub open spec fn covers(v: VisibleSegment, x: int) -> bool {
    v.start <= x < v.end
}

/// The link of the first of `vs` that covers column `x`.
pub open spec fn url_at(vs: Seq<VisibleSegment>, x: int) -> Option<String>
    decreases vs.len(),
{
    if vs.len() == 0 {
        None
    } else if covers(vs[0], x) {
        vs[0].url
    } else {
        url_at(vs.drop_first(), x)
    }
}

/// The headlines whose keys are not in `shown`, in order.
pub open spec fn unshown_of(items: Seq<Headline>, shown: Set<Seq<char>>) -> Seq<Headline>
    decreases items.len(),
{
    if items.len() == 0 {
        Seq::empty()
    } else if shown.contains(key_of(items.last())) {
        unshown_of(items.drop_last(), shown)
    } else {
        unshown_of(items.drop_last(), shown).push(items.last())
    }
}

/// The headlines whose keys are in `shown`, in order.
pub open spec fn shown_of(items: Seq<Headline>, shown: Set<Seq<char>>) -> Seq<Headline>
    decreases items.len(),
{
    if items.len() == 0 {
        Seq::empty()
    } else if shown.contains(key_of(items.last())) {
        shown_of(items.drop_last(), shown).push(items.last())
    } else {
        shown_of(items.drop_last(), shown)
    }
}

/// Every headline of a non-empty list has been shown: a new cycle begins.
pub open spec fn cycle_done(items: Seq<Headline>, shown: Set<Seq<char>>) -> bool {
    unshown_of(items, shown).len() == 0 && shown_of(items, shown).len() > 0
}

/// The display order under fair rotation: unshown headlines first.
pub open spec fn rotation_order(items: Seq<Headline>, shown: Set<Seq<char>>) -> Seq<Headline> {
    if cycle_done(items, shown) {
        shown_of(items, shown)
    } else {
        unshown_of(items, shown) + shown_of(items, shown)
    }
}

/// The shown-set after reconciliation: stale keys dropped, and emptied when
/// the cycle is done.
pub open spec fn rotation_shown(items: Seq<Headline>, shown: Set<Seq<char>>) -> Set<Seq<char>> {
    if cycle_done(items, shown) {
        Set::empty()
    } else {
        shown.intersect(keys_of(items))
    }
}

/// The bookkeeping of fair rotation across one advance of the clock, from
/// `old` to `new`: the headline being displayed is marked shown when its end
/// scrolls past, and the pointer goes back to the first headline on a wrap.
pub open spec fn rotation_step(old: Ticker, new: Ticker) -> bool {
    let ob = old.base();
    let nb = new.base();
    let n = old.items().len();
    let c = old.cursor();
    let kept = new.shown_set() == old.shown_set() && new.cursor() == c && new.cursor_end()
        == old.cursor_end();
    if old.rotation() == RotationMode::Fair && n > 0 {
        if nb > ob {
            if c < n && ob < old.cursor_end() && old.cursor_end() <= nb {
                &&& new.shown_set() == old.shown_set().insert(key_of(old.items()[c]))
                &&& new.cursor() == c + 1
                &&& new.cursor_end() == (if c + 1 < n {
                    old.segment_map()[c + 1].end as int
                } else {
                    old.cursor_end()
                })
            } else {
                kept
            }
        } else if nb < ob {
            &&& new.shown_set() == (if c < n {
                old.shown_set().insert(key_of(old.items()[c]))
            } else {
                old.shown_set()
            })
            &&& new.cursor() == 0
            &&& new.cursor_end() == old.segment_map()[0].end
        } else {
            kept
        }
    } else {
        kept
    }
}

/// `a` and `b` agree on everything but the pause flag and the speed.
pub open spec fn same_scroll_state(a: Ticker, b: Ticker) -> bool {
    &&& b.items() == a.items()
    &&& b.buffer() == a.buffer()
    &&& b.segment_map() == a.segment_map()
    &&& b.offset_units() == a.offset_units()
    &&& b.separator() == a.separator()
    &&& b.shows_source() == a.shows_source()
    &&& b.rotation() == a.rotation()
    &&& b.shown_set() == a.shown_set()
    &&& b.cursor() == a.cursor()
    &&& b.cursor_end() == a.cursor_end()
}

/// `new` is `old` after starting a generation with the sorted headlines
/// `ordered`.
pub open spec fn installed(old: Ticker, new: Ticker, ordered: Seq<Headline>) -> bool {
    &&& new.laid_out()
    &&& new.offset_in_range()
    &&& old.rotation() == RotationMode::Fair ==> {
        &&& new.items() == rotation_order(ordered, old.shown_set())
        &&& new.shown_set() == rotation_shown(ordered, old.shown_set())
    }
    &&& old.rotation() == RotationMode::Continuous ==> {
        &&& new.items() == ordered
        &&& new.shown_set() == old.shown_set()
    }
    &&& new.offset_units() == (if old.offset_units() >= new.buffer().len() * SUBCHAR {
        0
    } else {
        old.offset_units()
    })
    &&& new.cursor() == 0
    &&& new.cursor_end() == (if new.items().len() > 0 {
        new.segment_map()[0].end as int
    } else {
        0
    })
    &&& new.speed_view() == old.speed_view()
    &&& new.paused_view() == old.paused_view()
    &&& new.separator() == old.separator()
    &&& new.shows_source() == old.shows_source()
    &&& new.rotation() == old.rotation()
}

/// Manages the scrolling ticker state and headline rotation.
pub struct Ticker {
    /// All headlines currently in rotation, in display order
    headlines: Vec<Headline>,
    /// The buffer: every headline followed by the delimiter
    ticker_chars: Vec<char>,
    /// Segments mapping character ranges to URLs for click detection
    segments: Vec<TickerSegment>,
    /// Scroll offset, in millionths of a character
    offset: u128,
    /// Characters per second
    speed: u32,
    /// Delimiter between headlines
    delimiter: Vec<char>,
    /// Whether to show source prefix
    show_source: bool,
    /// Whether ticker is paused
    paused: bool,
    rotation_mode: RotationMode,
    /// Identity keys of headlines that have been fully shown
    shown_urls: Vec<String>,
    /// Index of the headline being displayed
    current_headline_idx: usize,
    /// Character position where the headline being displayed ends
    current_headline_end: usize,
}

/// The set of the strings held by `v`.
pub open spec fn string_set(v: Seq<String>) -> Set<Seq<char>> {
    Set::new(|k: Seq<char>| exists|i: int| 0 <= i < v.len() && (#[trigger] v[i])@ == k)
}

/// The identity keys of a list of headlines.
pub open spec fn keys_of(items: Seq<Headline>) -> Set<Seq<char>> {
    Set::new(|k: Seq<char>| exists|i: int| 0 <= i < items.len() && key_of(#[trigger] items[i]) == k)
}

impl Ticker {
    /// The headlines in display order.
    pub closed spec fn items(&self) -> Seq<Headline> {
        self.headlines@
    }

    /// The character buffer.
    pub closed spec fn buffer(&self) -> Seq<char> {
        self.ticker_chars@
    }

    /// The segment map.
    pub closed spec fn segment_map(&self) -> Seq<TickerSegment> {
        self.segments@
    }

    /// The scroll offset, in millionths of a character.
    pub closed spec fn offset_units(&self) -> int {
        self.offset as int
    }

    /// The segments that overlap the viewport `[base, base + width)`, in
    /// viewport columns; a segment near the end of the buffer is also tried
    /// one buffer length further on, where the viewport wraps.
    pub fn get_visible_segments(&self, width: usize) -> (r: Vec<VisibleSegment>)
        requires
            self.wf(),
        ensures
            r@ == (if self.buffer().len() == 0 {
                Seq::empty()
            } else {
                visible_of(self.segment_map(), self.base(), self.buffer().len() as int, width as int)
            }),
    {
        let len = self.ticker_chars.len();
        let mut visible: Vec<VisibleSegment> = Vec::new();
        if len == 0 {
            return visible;
        }
        let base = self.base_index();
        let mut i: usize = 0;
        while i < self.segments.len()
            invariant
                i <= self.segments@.len(),
                len == self.ticker_chars@.len(),
                base == self.base(),
                self.wf(),
                visible@ == visible_of(
                    self.segments@.take(i as int),
                    base as int,
                    len as int,
                    width as int,
                ),
            decreases self.segments.len() - i,
        {
            let seg = &self.segments[i];
            proof {
                assert(seg.end <= len) by {
                    self.lemma_segment_in_buffer(i as int);
                }
            }
            let a = visible_piece(seg.start, seg.end, 0, &seg.url, base, width);
            push_opt(&mut visible, a);
            let b = visible_piece(seg.start, seg.end, len, &seg.url, base, width);
            push_opt(&mut visible, b);
            proof {
                assert(self.segments@.take(i + 1).drop_last() =~= self.segments@.take(i as int));
            }
            i += 1;
        }
        assert(self.segments@.take(self.segments@.len() as int) =~= self.segments@);
        visible
    }

    /// The link of the first visible segment that covers column `x`.
    pub fn get_url_at_position(&self, x: usize, width: usize) -> (r: Option<String>)
        requires
            self.wf(),
        ensures
            r == url_at(
                (if self.buffer().len() == 0 {
                    Seq::empty()
                } else {
                    visible_of(
                        self.segment_map(),
                        self.base(),
                        self.buffer().len() as int,
                        width as int,
                    )
                }),
                x as int,
            ),
    {
        let segments = self.get_visible_segments(width);
        first_url_at(&segments, x)
    }

    /// Every segment lies within the buffer.
    proof fn lemma_segment_in_buffer(&self, i: int)
        requires
            self.wf(),
            0 <= i < self.segments@.len(),
        ensures
            self.segments@[i].start <= self.segments@[i].end,
            self.segments@[i].end + self.delimiter@.len() <= self.ticker_chars@.len(),
    {
        let items = self.headlines@;
        lemma_composed_prefix(items, self.delimiter@, self.show_source, i + 1);
        assert(items.take(i + 1).drop_last() =~= items.take(i));
        assert(items.take(i + 1).last() == items[i]);
    }

    /// The offset lies within the buffer: from 0 up to the buffer length in
    /// offset units, and 0 while the buffer is empty.
    pub open spec fn offset_in_range(&self) -> bool {
        &&& self.offset_units() >= 0
        &&& self.buffer().len() > 0 ==> self.offset_units() < self.buffer().len() * SUBCHAR
        &&& self.buffer().len() == 0 ==> self.offset_units() == 0
    }

    /// Every well-formed ticker has its offset in range and its buffer and
    /// segment map laid out from its headlines.
    pub proof fn lemma_wf_facts(&self)
        requires
            self.wf(),
        ensures
            self.offset_in_range(),
            self.segment_map().len() == self.items().len(),
            self.buffer().len() > 0 ==> self.laid_out(),
    {
    }

    /// The buffer and segment map are those of the headlines.
    pub open spec fn laid_out(&self) -> bool {
        &&& self.buffer() == buffer_for(self.items(), self.separator(), self.shows_source())
        &&& self.segment_map().len() == self.items().len()
        &&& forall|i: int|
            0 <= i < self.items().len() ==> segment_of(
                #[trigger] self.segment_map()[i],
                self.items(),
                self.separator(),
                self.shows_source(),
                i,
            )
    }

    /// Advances the clock by `delta_micros` microseconds: the offset moves by
    /// `speed * delta_micros` units, modulo the buffer length, and fair
    /// rotation notes the headline boundaries that were crossed. Nothing
    /// changes while paused or while the buffer is empty.
    pub fn tick(&mut self, delta_micros: u64)
        requires
            old(self).wf(),
        ensures
            final(self).wf(),
            old(self).paused_view() || old(self).buffer().len() == 0 ==> *final(self) == *old(
                self,
            ),
            !old(self).paused_view() && old(self).buffer().len() > 0 ==> {
                &&& final(self).offset_units() == advanced(
                    old(self).offset_units(),
                    old(self).speed_view() as int,
                    delta_micros as int,
                    old(self).buffer().len() as int,
                )
                &&& rotation_step(*old(self), *final(self))
            },
            old(self).speed_view() == 0 || delta_micros == 0 ==> *final(self) == *old(self),
            final(self).segment_map().len() == final(self).items().len(),
            final(self).buffer().len() > 0 ==> final(self).laid_out(),
            final(self).offset_in_range(),
            final(self).items() == old(self).items(),
            final(self).buffer() == old(self).buffer(),
            final(self).segment_map() == old(self).segment_map(),
            final(self).speed_view() == old(self).speed_view(),
            final(self).paused_view() == old(self).paused_view(),
            final(self).separator() == old(self).separator(),
            final(self).shows_source() == old(self).shows_source(),
            final(self).rotation() == old(self).rotation(),
    {
        let len = self.ticker_chars.len();
        if self.paused || len == 0 {
            return;
        }
        let ghost before = *self;
        let old_base = self.base_index();
        let modulus = len as u128 * (SUBCHAR as u128);
        proof {
            assert(self.speed as int * delta_micros as int <= u32::MAX as int * u64::MAX as int)
                by (nonlinear_arith)
                requires
                    self.speed as int <= u32::MAX as int,
                    delta_micros as int <= u64::MAX as int,
                    0 <= self.speed,
                    0 <= delta_micros,
            ;
            assert(len as int * SUBCHAR as int <= usize::MAX as int * SUBCHAR as int)
                by (nonlinear_arith)
                requires
                    len as int <= usize::MAX as int,
            ;
        }
        let step = self.speed as u128 * delta_micros as u128;
        proof {
            if self.speed == 0 || delta_micros == 0 {
                assert(self.speed as int * delta_micros as int == 0) by (nonlinear_arith)
                    requires
                        self.speed == 0 || delta_micros == 0,
                ;
                vstd::arithmetic::div_mod::lemma_small_mod(self.offset as nat, modulus as nat);
            }
        }
        self.offset = (self.offset + step) % modulus;
        proof {
            vstd::arithmetic::div_mod::lemma_mod_bound((before.offset + step) as int, modulus as int);
        }
        let new_base = self.base_index();
        let n = self.headlines.len();
        if self.rotation_mode == RotationMode::Fair && n > 0 {
            if new_base > old_base {
                if self.current_headline_idx < n && old_base < self.current_headline_end
                    && new_base >= self.current_headline_end {
                    let key = headline_key(&self.headlines[self.current_headline_idx]);
                    insert_key(&mut self.shown_urls, key);
                    self.current_headline_idx = self.current_headline_idx + 1;
                    if self.current_headline_idx < n {
                        self.current_headline_end = self.segments[self.current_headline_idx].end;
                    }
                }
            } else if new_base < old_base {
                if self.current_headline_idx < n {
                    let key = headline_key(&self.headlines[self.current_headline_idx]);
                    insert_key(&mut self.shown_urls, key);
                }
                self.current_headline_idx = 0;
                self.current_headline_end = self.segments[0].end;
            }
        }
        proof {
            assert forall|j: int| 0 <= j < self.current_headline_idx implies string_set(
                self.shown_urls@,
            ).contains(key_of(#[trigger] self.headlines@[j])) by {
                if j < before.current_headline_idx {
                    assert(string_set(before.shown_urls@).contains(key_of(self.headlines@[j])));
                }
            }
            assert(string_set(self.shown_urls@).subset_of(keys_of(self.headlines@))) by {
                if self.current_headline_idx != before.current_headline_idx && before.current_headline_idx < n {
                    let c = before.current_headline_idx as int;
                    assert(keys_of(self.headlines@).contains(key_of(self.headlines@[c])));
                }
            }
        }
    }

    /// Stop scrolling.
    pub fn pause(&mut self)
        requires
            old(self).wf(),
        ensures
            final(self).wf(),
            same_scroll_state(*old(self), *final(self)),
            final(self).paused_view(),
            final(self).speed_view() == old(self).speed_view(),
    {
        self.paused = true;
    }

    /// Scroll again.
    pub fn resume(&mut self)
        requires
            old(self).wf(),
        ensures
            final(self).wf(),
            same_scroll_state(*old(self), *final(self)),
            !final(self).paused_view(),
            final(self).speed_view() == old(self).speed_view(),
    {
        self.paused = false;
    }

    pub fn is_paused(&self) -> (r: bool)
        ensures
            r == self.paused_view(),
    {
        self.paused
    }

    /// Pause when scrolling, resume when paused.
    pub fn toggle_pause(&mut self)
        requires
            old(self).wf(),
        ensures
            final(self).wf(),
            same_scroll_state(*old(self), *final(self)),
            final(self).paused_view() == !old(self).paused_view(),
            final(self).speed_view() == old(self).speed_view(),
    {
        self.paused = !self.paused;
    }

    /// The number of headlines in rotation.
    pub fn headline_count(&self) -> (r: usize)
        ensures
            r == self.items().len(),
    {
        self.headlines.len()
    }

    /// Set the speed in characters per second; zero freezes the ticker
    /// without pausing it.
    pub fn set_speed(&mut self, speed: u32)
        requires
            old(self).wf(),
        ensures
            final(self).wf(),
            same_scroll_state(*old(self), *final(self)),
            final(self).paused_view() == old(self).paused_view(),
            final(self).speed_view() == speed,
    {
        self.speed = speed;
    }

    pub fn speed(&self) -> (r: u32)
        ensures
            r == self.speed_view(),
    {
        self.speed
    }

    /// The identity keys of the headlines marked as fully shown.
    pub fn shown_urls(&self) -> (r: Vec<String>)
        ensures
            string_set(r@) == self.shown_set(),
    {
        self.shown_urls.clone()
    }

    /// Update headlines and rebuild the ticker text: the headlines are
    /// ordered by `sort` (see `order_headlines`) and then installed as by
    /// `set_ordered_headlines`.
    pub fn set_headlines(&mut self, headlines: Vec<Headline>, sort: SortMode)
        requires
            old(self).wf(),
        ensures
            final(self).wf(),
            exists|ordered: Seq<Headline>|
                {
                    &&& ordered.to_multiset() == headlines@.to_multiset()
                    &&& sort != SortMode::Random ==> exists|now: i64, p: Seq<usize>|
                        is_sort_order(p, headlines@, sort, now) && arranged(ordered, headlines@, p)
                    &&& installed(*old(self), *final(self), ordered)
                },
    {
        let ghost given = headlines@;
        let ordered = order_headlines(headlines, sort);
        let ghost q = ordered@;
        self.set_ordered_headlines(ordered);
    }

    /// Starts a generation with `ordered`, already sorted. Under fair
    /// rotation, headlines not yet shown come first, keys of headlines that
    /// are gone leave the shown-set, and when every headline has been shown
    /// the shown-set is cleared for a new cycle. The buffer and segment map
    /// are rebuilt, the offset is kept unless it lies past the new buffer,
    /// and the first headline becomes the one being displayed.
    pub fn set_ordered_headlines(&mut self, ordered: Vec<Headline>)
        requires
            old(self).wf(),
        ensures
            final(self).wf(),
            installed(*old(self), *final(self), ordered@),
    {
        let ghost shown0 = string_set(self.shown_urls@);
        let headlines = if self.rotation_mode == RotationMode::Fair {
            let (mut unshown, mut shown) = partition_shown(&ordered, &self.shown_urls);
            let keys = keys_vec(&ordered);
            let kept = retain_keys(&self.shown_urls, &keys);
            proof {
                lemma_partition_keys(ordered@, shown0);
            }
            if unshown.len() == 0 && shown.len() > 0 {
                self.shown_urls = Vec::new();
                assert(string_set(self.shown_urls@) =~= Set::empty());
                shown
            } else {
                self.shown_urls = kept;
                unshown.append(&mut shown);
                unshown
            }
        } else {
            ordered
        };
        self.headlines = headlines;
        if self.headlines.len() > 0 {
            let (text, segs) = compose(&self.headlines, &self.delimiter, self.show_source);
            self.ticker_chars = text;
            self.segments = segs;
        } else {
            self.ticker_chars = chars_of(EMPTY_TEXT);
            self.segments = Vec::new();
        }
        let len = self.ticker_chars.len();
        proof {
            assert(len as int * SUBCHAR as int <= usize::MAX as int * SUBCHAR as int)
                by (nonlinear_arith)
                requires
                    len as int <= usize::MAX as int,
            ;
            if len == 0 {
                reveal_strlit("No headlines available. Check your feed configuration.");
            }
        }
        if self.offset >= len as u128 * (SUBCHAR as u128) {
            self.offset = 0;
        }
        self.current_headline_idx = 0;
        self.current_headline_end = if self.segments.len() > 0 {
            self.segments[0].end
        } else {
            0
        };
    }

    /// The index of the first visible character.
    pub open spec fn base(&self) -> int {
        self.offset_units() / (SUBCHAR as int)
    }

    pub closed spec fn speed_view(&self) -> u32 {
        self.speed
    }

    pub closed spec fn paused_view(&self) -> bool {
        self.paused
    }

    pub closed spec fn separator(&self) -> Seq<char> {
        self.delimiter@
    }

    pub closed spec fn shows_source(&self) -> bool {
        self.show_source
    }

    pub closed spec fn rotation(&self) -> RotationMode {
        self.rotation_mode
    }

    /// The identity keys of the headlines marked as fully shown.
    pub closed spec fn shown_set(&self) -> Set<Seq<char>> {
        string_set(self.shown_urls@)
    }

    /// The index of the headline being displayed.
    pub closed spec fn cursor(&self) -> int {
        self.current_headline_idx as int
    }

    /// Where the headline being displayed ends.
    pub closed spec fn cursor_end(&self) -> int {
        self.current_headline_end as int
    }

    /// The invariant that every operation keeps.
    pub closed spec fn wf(&self) -> bool {
        let n = self.headlines@.len();
        let len = self.ticker_chars@.len();
        &&& self.segments@.len() == n
        &&& n > 0 ==> self.ticker_chars@ == composed(
            self.headlines@,
            self.delimiter@,
            self.show_source,
        )
        &&& n == 0 ==> (len == 0 || self.ticker_chars@ == EMPTY_TEXT@)
        &&& forall|i: int|
            0 <= i < n ==> segment_of(
                #[trigger] self.segments@[i],
                self.headlines@,
                self.delimiter@,
                self.show_source,
                i,
            )
        &&& len == 0 ==> self.offset == 0
        &&& len > 0 ==> self.offset < len * (SUBCHAR as int)
        &&& self.current_headline_idx <= n
        &&& self.current_headline_idx < n ==> self.current_headline_end
            == self.segments@[self.current_headline_idx as int].end
        &&& n == 0 ==> self.current_headline_end == 0
        &&& self.rotation_mode == RotationMode::Continuous ==> self.shown_urls@.len() == 0
            && self.current_headline_idx == 0
        &&& string_set(self.shown_urls@).subset_of(keys_of(self.headlines@))
        &&& forall|j: int|
            0 <= j < self.current_headline_idx ==> string_set(self.shown_urls@).contains(
                key_of(#[trigger] self.headlines@[j]),
            )
    }

    /// A ticker with no headlines yet, settings taken from `config`.
    pub fn new(config: &Config) -> (r: Ticker)
        ensures
            r.wf(),
            r.items().len() == 0,
            r.buffer().len() == 0,
            r.offset_units() == 0,
            r.offset_in_range(),
            r.segment_map().len() == 0,
            r.speed_view() == config.speed,
            !r.paused_view(),
            r.separator() == config.delimiter@,
            r.shows_source() == config.show_source,
            r.rotation() == config.rotation,
            r.shown_set().is_empty(),
    {
        let r = Ticker {
            headlines: Vec::new(),
            ticker_chars: Vec::new(),
            segments: Vec::new(),
            offset: 0,
            speed: config.speed,
            delimiter: chars_of(config.delimiter.as_str()),
            show_source: config.show_source,
            paused: false,
            rotation_mode: config.rotation,
            shown_urls: Vec::new(),
            current_headline_idx: 0,
            current_headline_end: 0,
        };
        assert(string_set(r.shown_urls@) =~= Set::empty());
        r
    }

    /// The offset within the current character, in millionths of a character.
    pub fn get_fractional_offset(&self) -> (r: u64)
        ensures
            r == self.offset_units() % (SUBCHAR as int),
            r < SUBCHAR,
    {
        (self.offset % (SUBCHAR as u128)) as u64
    }

    /// Whether the frame draws each column from the next character: true once
    /// the offset is more than half-way into the current character.
    pub fn shows_next_char(&self) -> (r: bool)
        ensures
            r == (self.offset_units() % (SUBCHAR as int) > HALF_CHAR),
    {
        self.get_fractional_offset() > HALF_CHAR
    }

    /// `width + 1` characters of the buffer from the current character on,
    /// wrapping at its end; empty when the buffer is empty or `width` is zero.
    pub fn get_visible_text(&self, width: usize) -> (r: String)
        requires
            self.wf(),
            width < usize::MAX,
        ensures
            r@ == window_of(self.buffer(), self.base(), width as int),
    {
        let chars = self.visible_chars(width);
        string_of_chars(&chars)
    }

    /// The characters of `get_visible_text`, as a vector.
    pub fn visible_chars(&self, width: usize) -> (r: Vec<char>)
        requires
            self.wf(),
            width < usize::MAX,
        ensures
            r@ == window_of(self.buffer(), self.base(), width as int),
    {
        let len = self.ticker_chars.len();
        let mut out: Vec<char> = Vec::new();
        if len == 0 || width == 0 {
            assert(out@ =~= window_of(self.buffer(), self.base(), width as int));
            return out;
        }
        let base = self.base_index();
        proof {
            vstd::arithmetic::div_mod::lemma_small_mod(base as nat, len as nat);
        }
        let mut idx: usize = base;
        let mut i: usize = 0;
        while i <= width
            invariant
                len == self.ticker_chars@.len(),
                len > 0,
                width < usize::MAX,
                width > 0,
                i <= width + 1,
                base < len,
                idx < len,
                idx == (base + i) % (len as int),
                out@ =~= window_of(self.buffer(), base as int, width as int).take(i as int),
            decreases width + 1 - i,
        {
            out.push(self.ticker_chars[idx]);
            proof {
                lemma_mod_step(base + i, idx as int, len as int);
            }
            idx = if idx + 1 == len {
                0
            } else {
                idx + 1
            };
            i += 1;
        }
        assert(window_of(self.buffer(), base as int, width as int).take(width + 1) =~= window_of(
            self.buffer(),
            base as int,
            width as int,
        ));
        out
    }

    /// The index of the first visible character.
    fn base_index(&self) -> (r: usize)
        requires
            self.wf(),
            self.ticker_chars@.len() > 0,
        ensures
            r == self.base(),
            r < self.buffer().len(),
    {
        let len = self.ticker_chars.len();
        let b = self.offset / (SUBCHAR as u128);
        proof {
            lemma_base_bound(self.offset as int, self.ticker_chars@.len() as int);
        }
        b as usize
    }
}

/// Splits `items` into the headlines whose keys are not in `shown` and those
/// whose keys are, each in order.
fn partition_shown(items: &Vec<Headline>, shown: &Vec<String>) -> (r: (Vec<Headline>, Vec<Headline>))
    ensures
        r.0@ == unshown_of(items@, string_set(shown@)),
        r.1@ == shown_of(items@, string_set(shown@)),
{
    let ghost set = string_set(shown@);
    let mut unshown: Vec<Headline> = Vec::new();
    let mut seen: Vec<Headline> = Vec::new();
    let mut i: usize = 0;
    while i < items.len()
        invariant
            i <= items@.len(),
            set == string_set(shown@),
            unshown@ == unshown_of(items@.take(i as int), set),
            seen@ == shown_of(items@.take(i as int), set),
        decreases items.len() - i,
    {
        let h = &items[i];
        let key = headline_key(h);
        proof {
            assert(items@.take(i + 1).drop_last() =~= items@.take(i as int));
            assert(items@.take(i + 1).last() == items@[i as int]);
        }
        if contains_key(shown, &key) {
            seen.push(h.duplicate());
        } else {
            unshown.push(h.duplicate());
        }
        i += 1;
    }
    assert(items@.take(items@.len() as int) =~= items@);
    (unshown, seen)
}

/// The identity keys of `items`.
fn keys_vec(items: &Vec<Headline>) -> (r: Vec<String>)
    ensures
        string_set(r@) == keys_of(items@),
{
    let mut keys: Vec<String> = Vec::new();
    let mut i: usize = 0;
    while i < items.len()
        invariant
            i <= items@.len(),
            string_set(keys@) == keys_of(items@.take(i as int)),
        decreases items.len() - i,
    {
        let k = headline_key(&items[i]);
        proof {
            lemma_string_set_push(keys@, k);
            lemma_keys_push(items@.take(i as int), items@[i as int]);
            assert(items@.take(i + 1) =~= items@.take(i as int).push(items@[i as int]));
        }
        keys.push(k);
        i += 1;
    }
    assert(items@.take(items@.len() as int) =~= items@);
    keys
}

/// The strings of `v` that are among the strings of `keys`.
fn retain_keys(v: &Vec<String>, keys: &Vec<String>) -> (r: Vec<String>)
    ensures
        string_set(r@) == string_set(v@).intersect(string_set(keys@)),
{
    let mut out: Vec<String> = Vec::new();
    let mut i: usize = 0;
    while i < v.len()
        invariant
            i <= v@.len(),
            string_set(out@) == string_set(v@.take(i as int)).intersect(string_set(keys@)),
        decreases v.len() - i,
    {
        proof {
            assert(v@.take(i + 1) =~= v@.take(i as int).push(v@[i as int]));
            lemma_string_set_push(v@.take(i as int), v@[i as int]);
        }
        if contains_key(keys, &v[i]) {
            let s = v[i].clone();
            proof {
                lemma_string_set_push(out@, s);
            }
            out.push(s);
            assert(string_set(out@) =~= string_set(v@.take(i + 1)).intersect(string_set(keys@)));
        } else {
            assert(string_set(out@) =~= string_set(v@.take(i + 1)).intersect(string_set(keys@)));
        }
        i += 1;
    }
    assert(v@.take(v@.len() as int) =~= v@);
    out
}

proof fn lemma_keys_push(items: Seq<Headline>, h: Headline)
    ensures
        keys_of(items.push(h)) == keys_of(items).insert(key_of(h)),
{
    assert forall|k: Seq<char>| keys_of(items.push(h)).contains(k) implies keys_of(items).insert(
        key_of(h),
    ).contains(k) by {
        let i = choose|i: int| 0 <= i < items.push(h).len() && key_of(#[trigger] items.push(h)[i]) == k;
        if i < items.len() {
            assert(key_of(items[i]) == k);
        }
    }
    assert forall|k: Seq<char>| keys_of(items).insert(key_of(h)).contains(k) implies keys_of(
        items.push(h),
    ).contains(k) by {
        if k == key_of(h) {
            assert(key_of(items.push(h)[items.len() as int]) == k);
        } else {
            let i = choose|i: int| 0 <= i < items.len() && key_of(#[trigger] items[i]) == k;
            assert(key_of(items.push(h)[i]) == k);
        }
    }
    assert(keys_of(items.push(h)) =~= keys_of(items).insert(key_of(h)));
}

/// Every headline is in exactly one part of the partition, and the keys of
/// the shown part are in `shown`.
proof fn lemma_partition_keys(items: Seq<Headline>, shown: Set<Seq<char>>)
    ensures
        keys_of(unshown_of(items, shown) + shown_of(items, shown)) == keys_of(items),
        unshown_of(items, shown).len() == 0 ==> keys_of(shown_of(items, shown)) == keys_of(items),
        keys_of(shown_of(items, shown)).subset_of(shown),
        unshown_of(items, shown).len() + shown_of(items, shown).len() == items.len(),
    decreases items.len(),
{
    if items.len() > 0 {
        let init = items.drop_last();
        let h = items.last();
        lemma_partition_keys(init, shown);
        assert(init.push(h) =~= items);
        lemma_keys_push(init, h);
        let u = unshown_of(init, shown);
        let v = shown_of(init, shown);
        if shown.contains(key_of(h)) {
            lemma_keys_push(v, h);
            lemma_keys_push(u + v, h);
            assert(u + v.push(h) =~= (u + v).push(h));
        } else {
            lemma_keys_push(u, h);
            lemma_keys_concat(u.push(h), v);
            lemma_keys_concat(u, v);
        }
    } else {
        assert(keys_of(items) =~= Set::empty());
        assert(unshown_of(items, shown) + shown_of(items, shown) =~= items);
        assert(keys_of(shown_of(items, shown)) =~= Set::empty());
    }
}

proof fn lemma_keys_concat(a: Seq<Headline>, b: Seq<Headline>)
    ensures
        keys_of(a + b) == keys_of(a).union(keys_of(b)),
{
    assert forall|k: Seq<char>| keys_of(a + b).contains(k) implies keys_of(a).union(
        keys_of(b),
    ).contains(k) by {
        let i = choose|i: int| 0 <= i < (a + b).len() && key_of(#[trigger] (a + b)[i]) == k;
        if i < a.len() {
            assert(key_of(a[i]) == k);
        } else {
            assert(key_of(b[i - a.len()]) == k);
        }
    }
    assert forall|k: Seq<char>| keys_of(a).union(keys_of(b)).contains(k) implies keys_of(
        a + b,
    ).contains(k) by {
        if keys_of(a).contains(k) {
            let i = choose|i: int| 0 <= i < a.len() && key_of(#[trigger] a[i]) == k;
            assert(key_of((a + b)[i]) == k);
        } else {
            let i = choose|i: int| 0 <= i < b.len() && key_of(#[trigger] b[i]) == k;
            assert(key_of((a + b)[a.len() + i]) == k);
        }
    }
    assert(keys_of(a + b) =~= keys_of(a).union(keys_of(b)));
}

/// The identity key of a headline: its link, else its title.
pub fn headline_key(h: &Headline) -> (r: String)
    ensures
        r@ == key_of(*h),
{
    match &h.url {
        Some(u) => u.clone(),
        None => h.title.clone(),
    }
}

/// Whether `k` is one of the strings of `v`.
pub fn contains_key(v: &Vec<String>, k: &String) -> (r: bool)
    ensures
        r == string_set(v@).contains(k@),
{
    let mut i: usize = 0;
    while i < v.len()
        invariant
            i <= v@.len(),
            forall|j: int| 0 <= j < i ==> (#[trigger] v@[j])@ != k@,
        decreases v.len() - i,
    {
        if v[i] == *k {
            assert(string_set(v@).contains(k@) == true) by {
                assert(v@[i as int]@ == k@);
            }
            return true;
        }
        i += 1;
    }
    false
}

/// Adds `k` to the strings of `v`, unless it is there already.
fn insert_key(v: &mut Vec<String>, k: String)
    ensures
        string_set(final(v)@) == string_set(old(v)@).insert(k@),
{
    if !contains_key(v, &k) {
        v.push(k);
        proof {
            lemma_string_set_push(old(v)@, k);
        }
    } else {
        assert(string_set(old(v)@).insert(k@) =~= string_set(old(v)@));
    }
}

pub(crate) proof fn lemma_string_set_push(v: Seq<String>, s: String)
    ensures
        string_set(v.push(s)) == string_set(v).insert(s@),
{
    assert forall|k: Seq<char>| string_set(v.push(s)).contains(k) implies string_set(
        v,
    ).insert(s@).contains(k) by {
        let i = choose|i: int| 0 <= i < v.push(s).len() && (#[trigger] v.push(s)[i])@ == k;
        if i < v.len() {
            assert(v[i]@ == k);
        }
    }
    assert forall|k: Seq<char>| string_set(v).insert(s@).contains(k) implies string_set(
        v.push(s),
    ).contains(k) by {
        if k == s@ {
            assert(v.push(s)[v.len() as int]@ == k);
        } else {
            let i = choose|i: int| 0 <= i < v.len() && (#[trigger] v[i])@ == k;
            assert(v.push(s)[i]@ == k);
        }
    }
    assert(string_set(v.push(s)) =~= string_set(v).insert(s@));
}

/// The buffer holds every headline's text and one separator after each:
/// its length is the sum of the display lengths plus `n` separators, and the
/// segments follow one another, each a separator after the one before,
/// starting at 0 and ending one separator before the end of the buffer.
pub proof fn lemma_buffer_layout(t: Ticker)
    requires
        t.wf(),
        t.items().len() > 0,
    ensures
        t.buffer().len() == total_display(t.items(), t.shows_source()) + t.items().len()
            * t.separator().len(),
        t.segment_map().len() == t.items().len(),
        t.segment_map()[0].start == 0,
        forall|i: int|
            0 <= i < t.items().len() ==> #[trigger] t.segment_map()[i].start <= t.segment_map()[i].end,
        forall|i: int|
            0 <= i < t.items().len() - 1 ==> #[trigger] t.segment_map()[i + 1].start
                == t.segment_map()[i].end + t.separator().len(),
        t.segment_map()[t.items().len() - 1].end + t.separator().len() == t.buffer().len(),
{
    let items = t.items();
    let (sep, show) = (t.separator(), t.shows_source());
    let n = items.len() as int;
    lemma_composed_length(items, sep, show);
    assert(items.take(0) =~= Seq::<Headline>::empty());
    assert forall|i: int| 0 <= i < n - 1 implies #[trigger] t.segment_map()[i + 1].start
        == t.segment_map()[i].end + sep.len() by {
        assert(items.take(i + 1).drop_last() =~= items.take(i));
        assert(items.take(i + 1).last() == items[i]);
    }
    assert(items.take(n).drop_last() =~= items.take(n - 1));
    assert(items.take(n) =~= items);
}

/// The buffer of a new generation holds every given headline's text once
/// and one separator after each, whatever order sorting and fair rotation
/// put them in: its length is the sum of the display lengths of the given
/// headlines plus one separator per headline.
pub proof fn lemma_buffer_length_of_given(
    old: Ticker,
    new: Ticker,
    given: Seq<Headline>,
    ordered: Seq<Headline>,
)
    requires
        installed(old, new, ordered),
        ordered.to_multiset() == given.to_multiset(),
        given.len() > 0,
    ensures
        new.buffer().len() == total_display(given, old.shows_source()) + given.len()
            * old.separator().len(),
        new.segment_map().len() == given.len(),
{
    broadcast use vstd::seq_lib::group_to_multiset_ensures;

    let show = old.shows_source();
    if old.rotation() == RotationMode::Fair {
        lemma_rotation_order_multiset(ordered, old.shown_set());
    }
    let items = new.items();
    assert(items.to_multiset() == given.to_multiset());
    vstd::seq_lib::to_multiset_len(items);
    vstd::seq_lib::to_multiset_len(given);
    assert(items.len() == given.len());
    lemma_total_display_permutation(items, given, show);
    lemma_composed_length(items, old.separator(), show);
}

/// Fair rotation only reorders the headlines.
pub proof fn lemma_rotation_order_multiset(items: Seq<Headline>, shown: Set<Seq<char>>)
    ensures
        rotation_order(items, shown).to_multiset() == items.to_multiset(),
{
    lemma_partition_multiset(items, shown);
    if cycle_done(items, shown) {
        assert(unshown_of(items, shown) + shown_of(items, shown) =~= shown_of(items, shown));
    }
}

proof fn lemma_partition_multiset(items: Seq<Headline>, shown: Set<Seq<char>>)
    ensures
        (unshown_of(items, shown) + shown_of(items, shown)).to_multiset() == items.to_multiset(),
    decreases items.len(),
{
    broadcast use vstd::seq_lib::group_to_multiset_ensures;
    broadcast use vstd::seq_lib::lemma_multiset_commutative;

    if items.len() > 0 {
        let init = items.drop_last();
        let h = items.last();
        lemma_partition_multiset(init, shown);
        assert(init.push(h) =~= items);
        let u = unshown_of(init, shown);
        let v = shown_of(init, shown);
        if shown.contains(key_of(h)) {
            assert(u + v.push(h) =~= (u + v).push(h));
        } else {
            assert((u.push(h) + v).to_multiset() =~= (u + v).to_multiset().insert(h));
        }
    } else {
        assert(unshown_of(items, shown) + shown_of(items, shown) =~= items);
    }
}

/// Adding up display lengths does not depend on the order.
pub proof fn lemma_total_display_permutation(a: Seq<Headline>, b: Seq<Headline>, show_source: bool)
    requires
        a.to_multiset() == b.to_multiset(),
    ensures
        total_display(a, show_source) == total_display(b, show_source),
{
    let f = |acc: int, h: Headline| acc + display_of(h, show_source).len();
    assert(vstd::seq_lib::commutative_foldl(f));
    vstd::seq_lib::lemma_fold_left_permutation(a, b, f, 0int);
    lemma_total_display_fold(a, show_source);
    lemma_total_display_fold(b, show_source);
}

proof fn lemma_total_display_fold(a: Seq<Headline>, show_source: bool)
    ensures
        total_display(a, show_source) == a.fold_left(
            0int,
            |acc: int, h: Headline| acc + display_of(h, show_source).len(),
        ),
    decreases a.len(),
{
    if a.len() > 0 {
        lemma_total_display_fold(a.drop_last(), show_source);
    }
}

/// `s` is a run of ticks under fair rotation over one generation: every
/// state well-formed with the same headlines and segments, each step one
/// advance of the clock that moves forward by at most one character.
pub open spec fn steady_ticks(s: Seq<Ticker>) -> bool {
    &&& s.len() >= 1
    &&& forall|k: int|
        0 <= k < s.len() ==> {
            &&& (#[trigger] s[k]).wf()
            &&& s[k].rotation() == RotationMode::Fair
            &&& s[k].items() == s[0].items()
            &&& s[k].segment_map() == s[0].segment_map()
            &&& s[k].separator() == s[0].separator()
            &&& s[k].shows_source() == s[0].shows_source()
        }
    &&& forall|k: int|
        0 <= k < s.len() - 1 ==> {
            &&& #[trigger] rotation_step(s[k], s[k + 1])
            &&& s[k].base() <= s[k + 1].base() <= s[k].base() + 1
        }
}

/// The pointer of `t` stands at `c`: every segment before it ends at or
/// before the first visible character, and the segment at it ends after.
pub open spec fn pointer_matches(t: Ticker, c: int) -> bool {
    let segs = t.segment_map();
    &&& 0 <= c <= segs.len()
    &&& c < segs.len() ==> t.base() < segs[c].end
    &&& c > 0 ==> segs[c - 1].end <= t.base()
}

/// Under fair rotation, a run of ticks that starts at the first headline
/// and scrolls, at most one character per tick, past the end of the last
/// headline marks every headline shown: the shown-set is then exactly the
/// set of identity keys. (With a non-empty separator, segment ends are at
/// least a character apart, so no boundary is skipped.)
pub proof fn lemma_one_pass_shows_all(s: Seq<Ticker>)
    requires
        steady_ticks(s),
        s[0].items().len() > 0,
        s[0].separator().len() > 0,
        s[0].buffer().len() > 0,
        s[0].cursor() == 0,
        s[0].base() < s[0].segment_map()[0].end,
        s[s.len() - 1].base() >= s[0].segment_map()[s[0].items().len() - 1].end,
    ensures
        s[s.len() - 1].shown_set() == keys_of(s[0].items()),
{
    let last = s.len() - 1;
    let n = s[0].items().len() as int;
    lemma_pass_pointer(s, last);
    let t = s[last];
    lemma_ends_increase(t);
    if t.cursor() < n {
        assert(t.segment_map()[t.cursor()].end <= t.segment_map()[n - 1].end);
    }
    lemma_all_passed_all_shown(t);
}

/// Segment ends strictly increase when the separator is not empty.
proof fn lemma_ends_increase(t: Ticker)
    requires
        t.wf(),
        t.items().len() > 0,
        t.separator().len() > 0,
    ensures
        forall|i: int, j: int|
            0 <= i < j < t.items().len() ==> #[trigger] t.segment_map()[i].end + (j - i)
                <= #[trigger] t.segment_map()[j].end,
{
    lemma_buffer_layout(t);
    let segs = t.segment_map();
    assert forall|i: int, j: int| 0 <= i < j < t.items().len() implies #[trigger] segs[i].end + (j
        - i) <= #[trigger] segs[j].end by {
        lemma_ends_step(t, i, j);
    }
}

proof fn lemma_ends_step(t: Ticker, i: int, j: int)
    requires
        t.wf(),
        t.separator().len() > 0,
        0 <= i < j < t.items().len(),
        forall|m: int|
            0 <= m < t.items().len() ==> #[trigger] t.segment_map()[m].start <= t.segment_map()[m].end,
        forall|m: int|
            0 <= m < t.items().len() - 1 ==> #[trigger] t.segment_map()[m + 1].start
                == t.segment_map()[m].end + t.separator().len(),
    ensures
        t.segment_map()[i].end + (j - i) <= t.segment_map()[j].end,
    decreases j - i,
{
    let segs = t.segment_map();
    assert(segs[i + 1].start == segs[i].end + t.separator().len());
    if j > i + 1 {
        lemma_ends_step(t, i + 1, j);
    }
}

/// Along a run of ticks the pointer stays where the first visible
/// character is.
proof fn lemma_pass_pointer(s: Seq<Ticker>, k: int)
    requires
        steady_ticks(s),
        0 <= k < s.len(),
        s[0].items().len() > 0,
        s[0].separator().len() > 0,
        s[0].cursor() == 0,
        s[0].base() < s[0].segment_map()[0].end,
    ensures
        pointer_matches(s[k], s[k].cursor()),
    decreases k,
{
    let n = s[0].items().len() as int;
    assert(s[k].wf());
    if k > 0 {
        lemma_pass_pointer(s, k - 1);
        let a = s[k - 1];
        let b = s[k];
        assert(rotation_step(s[k - 1], s[k - 1 + 1]));
        assert(s[k - 1 + 1] == b);
        assert(a.wf() && b.wf());
        lemma_ends_increase(a);
        let segs = a.segment_map();
        let c = a.cursor();
        assert(b.segment_map() == segs);
        if c < n {
            assert(a.cursor_end() == segs[c].end);
        }
        if c + 1 < n && b.base() > a.base() && a.base() < a.cursor_end() && a.cursor_end() <= b.base() {
            assert(segs[c].end + 1 <= segs[c + 1].end);
        }
    } else {
        assert(s[0].wf());
    }
}

/// The length of the buffer of `items`.
pub proof fn lemma_composed_length(items: Seq<Headline>, sep: Seq<char>, show_source: bool)
    ensures
        composed(items, sep, show_source).len() == total_display(items, show_source) + items.len()
            * sep.len(),
    decreases items.len(),
{
    if items.len() > 0 {
        lemma_composed_length(items.drop_last(), sep, show_source);
        assert((items.len() - 1) * sep.len() + sep.len() == items.len() * sep.len())
            by (nonlinear_arith);
    }
}

/// Advancing by `d1` and then by `d2` puts the offset where advancing once
/// by `d1 + d2` does.
pub proof fn lemma_advance_additive(offset: int, speed: int, d1: int, d2: int, len: int)
    requires
        len > 0,
    ensures
        advanced(advanced(offset, speed, d1, len), speed, d2, len) == advanced(
            offset,
            speed,
            d1 + d2,
            len,
        ),
{
    let m = len * SUBCHAR;
    vstd::arithmetic::mul::lemma_mul_strictly_positive(len, SUBCHAR as int);
    vstd::arithmetic::div_mod::lemma_add_mod_noop_right(speed * d2, offset + speed * d1, m);
    vstd::arithmetic::mul::lemma_mul_is_distributive_add(speed, d1, d2);
}

/// Advancing by more than a whole buffer at once lands where advancing by
/// the amount modulo the buffer length does.
pub proof fn lemma_advance_wraps(offset: int, speed: int, micros: int, len: int)
    requires
        len > 0,
    ensures
        advanced(offset, speed, micros, len) == (offset + (speed * micros) % (len * SUBCHAR)) % (
        len * SUBCHAR),
{
    let m = len * SUBCHAR;
    vstd::arithmetic::mul::lemma_mul_strictly_positive(len, SUBCHAR as int);
    vstd::arithmetic::div_mod::lemma_add_mod_noop_right(offset, speed * micros, m);
}

/// The visible window and segments depend only on the buffer, the segment
/// map and the offset: states that agree on those (as after `pause`,
/// `resume`, `toggle_pause` or `set_speed`, or with no call at all) show
/// the same thing.
pub proof fn lemma_view_unchanged(a: Ticker, b: Ticker, width: int)
    requires
        same_scroll_state(a, b),
    ensures
        window_of(a.buffer(), a.base(), width) == window_of(b.buffer(), b.base(), width),
        visible_of(a.segment_map(), a.base(), a.buffer().len() as int, width) == visible_of(
            b.segment_map(),
            b.base(),
            b.buffer().len() as int,
            width,
        ),
{
}

/// Under fair rotation, once the pointer has passed every headline, the
/// shown-set is exactly the set of identity keys of the headlines.
pub proof fn lemma_all_passed_all_shown(t: Ticker)
    requires
        t.wf(),
        t.rotation() == RotationMode::Fair,
        t.cursor() == t.items().len(),
    ensures
        t.shown_set() == keys_of(t.items()),
{
    assert forall|k: Seq<char>| keys_of(t.items()).contains(k) implies t.shown_set().contains(k) by {
        let i = choose|i: int| 0 <= i < t.items().len() && key_of(#[trigger] t.items()[i]) == k;
    }
    assert(t.shown_set() =~= keys_of(t.items()));
}

/// Headlines all of whose keys were shown start a new cycle: the shown-set
/// is cleared and the order is kept as given.
pub proof fn lemma_exhausted_cycle_restarts(items: Seq<Headline>, shown: Set<Seq<char>>)
    requires
        items.len() > 0,
        keys_of(items).subset_of(shown),
    ensures
        cycle_done(items, shown),
        rotation_order(items, shown) == items,
        rotation_shown(items, shown) == Set::<Seq<char>>::empty(),
{
    lemma_all_shown_partition(items, shown);
}

/// A new generation whose keys were all shown begins a fresh cycle from its
/// first headline, with an empty shown-set.
pub proof fn lemma_repeat_generation_restarts(old: Ticker, new: Ticker, ordered: Seq<Headline>)
    requires
        installed(old, new, ordered),
        old.rotation() == RotationMode::Fair,
        ordered.len() > 0,
        keys_of(ordered).subset_of(old.shown_set()),
    ensures
        new.shown_set().is_empty(),
        new.items() == ordered,
        new.cursor() == 0,
{
    lemma_exhausted_cycle_restarts(ordered, old.shown_set());
}

proof fn lemma_all_shown_partition(items: Seq<Headline>, shown: Set<Seq<char>>)
    requires
        keys_of(items).subset_of(shown),
    ensures
        unshown_of(items, shown).len() == 0,
        shown_of(items, shown) == items,
    decreases items.len(),
{
    if items.len() > 0 {
        let init = items.drop_last();
        assert(keys_of(init).subset_of(shown)) by {
            assert forall|k: Seq<char>| keys_of(init).contains(k) implies shown.contains(k) by {
                let i = choose|i: int| 0 <= i < init.len() && key_of(#[trigger] init[i]) == k;
                assert(key_of(items[i]) == k);
            }
        }
        lemma_all_shown_partition(init, shown);
        assert(keys_of(items).contains(key_of(items[items.len() - 1])));
        assert(init.push(items.last()) =~= items);
    } else {
        assert(shown_of(items, shown) =~= items);
    }
}

/// A key of no headline of a new generation is not in the shown-set after
/// reconciliation.
pub proof fn lemma_stale_keys_dropped(items: Seq<Headline>, shown: Set<Seq<char>>, k: Seq<char>)
    requires
        !keys_of(items).contains(k),
    ensures
        !rotation_shown(items, shown).contains(k),
{
}

/// A column covered by a visible segment, and by none before it, resolves
/// to that segment's link; a column that no visible segment covers resolves
/// to none.
pub proof fn lemma_link_resolution(vs: Seq<VisibleSegment>, x: int, k: int)
    requires
        0 <= k < vs.len(),
        covers(vs[k], x),
        forall|j: int| 0 <= j < k ==> !covers(#[trigger] vs[j], x),
    ensures
        url_at(vs, x) == vs[k].url,
    decreases k,
{
    if k > 0 {
        assert(!covers(vs[0], x));
        assert forall|j: int| 0 <= j < k - 1 implies !covers(#[trigger] vs.drop_first()[j], x) by {
            assert(vs.drop_first()[j] == vs[j + 1]);
        }
        lemma_link_resolution(vs.drop_first(), x, k - 1);
    }
}

/// A column that no visible segment covers resolves to none.
pub proof fn lemma_uncovered_has_no_link(vs: Seq<VisibleSegment>, x: int)
    requires
        forall|j: int| 0 <= j < vs.len() ==> !covers(#[trigger] vs[j], x),
    ensures
        url_at(vs, x) is None,
    decreases vs.len(),
{
    if vs.len() > 0 {
        assert(!covers(vs[0], x));
        assert forall|j: int| 0 <= j < vs.len() - 1 implies !covers(#[trigger] vs.drop_first()[j], x) by {
            assert(vs.drop_first()[j] == vs[j + 1]);
        }
        lemma_uncovered_has_no_link(vs.drop_first(), x);
    }
}

/// A viewport column whose character lies in a separator, outside every
/// segment of the buffer, has no link.
pub proof fn lemma_separator_has_no_link(t: Ticker, x: int, width: int)
    requires
        t.wf(),
        t.buffer().len() > 0,
        0 <= x < width <= usize::MAX,
        forall|i: int|
            0 <= i < t.segment_map().len() ==> !(#[trigger] t.segment_map()[i].start <= (t.base() + x)
                % (t.buffer().len() as int) < t.segment_map()[i].end),
    ensures
        url_at(visible_of(t.segment_map(), t.base(), t.buffer().len() as int, width), x) is None,
{
    let len = t.buffer().len() as int;
    lemma_base_bound(t.offset_units(), len);
    assert forall|i: int| 0 <= i < t.segment_map().len() implies #[trigger] t.segment_map()[i].start
        <= t.segment_map()[i].end && t.segment_map()[i].end <= len by {
        t.lemma_segment_in_buffer(i);
    }
    lemma_visible_cover(t.segment_map(), t.base(), len, width, x);
    lemma_uncovered_has_no_link(visible_of(t.segment_map(), t.base(), len, width), x);
}

/// A visible piece that covers column `x` comes from a segment that holds
/// the buffer position of `x`.
proof fn lemma_visible_cover(segs: Seq<TickerSegment>, base: int, len: int, width: int, x: int)
    requires
        0 <= base < len,
        0 <= x < width <= usize::MAX,
        forall|i: int| 0 <= i < segs.len() ==> #[trigger] segs[i].start <= segs[i].end && segs[i].end <= len,
        forall|i: int| 0 <= i < segs.len() ==> !(#[trigger] segs[i].start <= (base + x) % len < segs[i].end),
    ensures
        forall|j: int|
            0 <= j < visible_of(segs, base, len, width).len() ==> !covers(
                #[trigger] visible_of(segs, base, len, width)[j],
                x,
            ),
    decreases segs.len(),
{
    if segs.len() > 0 {
        let init = segs.drop_last();
        let s = segs.last();
        assert forall|i: int| 0 <= i < init.len() implies #[trigger] init[i].start <= init[i].end
            && init[i].end <= len by {
            assert(init[i] == segs[i]);
        }
        assert forall|i: int| 0 <= i < init.len() implies !(#[trigger] init[i].start <= (base + x) % len
            < init[i].end) by {
            assert(init[i] == segs[i]);
        }
        lemma_visible_cover(init, base, len, width, x);
        let last = segs.len() - 1;
        assert(!(segs[last].start <= (base + x) % len < segs[last].end));
        let a = piece(s.start as int, s.end as int, s.url, base, width);
        let b = piece(s.start + len, s.end + len, s.url, base, width);
        let v0 = visible_of(init, base, len, width);
        if a.len() > 0 && covers(a[0], x) {
            assert(base + x < s.end);
            vstd::arithmetic::div_mod::lemma_small_mod((base + x) as nat, len as nat);
        }
        if b.len() > 0 && covers(b[0], x) {
            assert(len <= base + x < s.end + len);
            vstd::arithmetic::div_mod::lemma_small_mod((base + x - len) as nat, len as nat);
            vstd::arithmetic::div_mod::lemma_mod_sub_multiples_vanish(base + x, len);
        }
        assert forall|j: int| 0 <= j < visible_of(segs, base, len, width).len() implies !covers(
            #[trigger] visible_of(segs, base, len, width)[j],
            x,
        ) by {
            let all = visible_of(segs, base, len, width);
            assert(all == v0 + a + b);
            if j < v0.len() {
                assert(all[j] == v0[j]);
            } else if j < v0.len() + a.len() {
                assert(all[j] == a[j - v0.len()]);
            } else {
                assert(all[j] == b[j - v0.len() - a.len()]);
            }
        }
    }
}


/// The visible part of the segment `[start, end)` placed `wrap` characters on.
fn visible_piece(
    start: usize,
    end: usize,
    wrap: usize,
    url: &Option<String>,
    base: usize,
    width: usize,
) -> (r: Option<VisibleSegment>)
    requires
        start <= end,
    ensures
        opt_seq(r) == piece(start + wrap, end + wrap, *url, base as int, width as int),
{
    let ss = start as u128 + wrap as u128;
    let se = end as u128 + wrap as u128;
    let vs = base as u128;
    let w = width as u128;
    if ss < vs + w && se > vs {
        let sv: u128 = if ss > vs {
            ss - vs
        } else {
            0
        };
        let ev: u128 = if se - vs < w {
            se - vs
        } else {
            w
        };
        if sv < w && ev > sv {
            let v = VisibleSegment { start: sv as usize, end: ev as usize, url: clone_opt_string(url) };
            assert(opt_seq(Some(v)) =~= seq![v]);
            return Some(v);
        }
    }
    None
}

/// `o` as a sequence of zero or one element.
pub open spec fn opt_seq<T>(o: Option<T>) -> Seq<T> {
    match o {
        Some(v) => seq![v],
        None => Seq::empty(),
    }
}

fn push_opt(v: &mut Vec<VisibleSegment>, o: Option<VisibleSegment>)
    ensures
        final(v)@ == old(v)@ + opt_seq(o),
{
    match o {
        Some(x) => {
            v.push(x);
            assert(old(v)@.push(x) =~= old(v)@ + seq![x]);
        },
        None => {
            assert(old(v)@ + Seq::<VisibleSegment>::empty() =~= old(v)@);
        },
    }
}

/// The link of the first of `vs` that covers column `x`.
pub fn first_url_at(vs: &Vec<VisibleSegment>, x: usize) -> (r: Option<String>)
    ensures
        r == url_at(vs@, x as int),
{
    let mut i: usize = 0;
    assert(vs@.subrange(0, vs@.len() as int) =~= vs@);
    while i < vs.len()
        invariant
            i <= vs@.len(),
            url_at(vs@, x as int) == url_at(vs@.subrange(i as int, vs@.len() as int), x as int),
        decreases vs.len() - i,
    {
        let ghost rest = vs@.subrange(i as int, vs@.len() as int);
        assert(rest.drop_first() =~= vs@.subrange(i + 1, vs@.len() as int));
        assert(rest[0] == vs@[i as int]);
        if vs[i].start <= x && x < vs[i].end {
            return clone_opt_string(&vs[i].url);
        }
        i += 1;
    }
    None
}

/// The buffer of the first `i` headlines is a prefix of the whole buffer.
proof fn lemma_composed_prefix(items: Seq<Headline>, sep: Seq<char>, show_source: bool, i: int)
    requires
        0 <= i <= items.len(),
    ensures
        composed(items.take(i), sep, show_source).len() <= composed(items, sep, show_source).len(),
        i < items.len() ==> composed(items.take(i), sep, show_source).len() + display_of(
            items[i],
            show_source,
        ).len() + sep.len() <= composed(items, sep, show_source).len(),
    decreases items.len() - i,
{
    if i < items.len() {
        lemma_composed_prefix(items, sep, show_source, i + 1);
        assert(items.take(i + 1).drop_last() =~= items.take(i));
        assert(items.take(i + 1).last() == items[i]);
    } else {
        assert(items.take(i) =~= items);
    }
}

proof fn lemma_mod_step(x: int, r: int, m: int)
    requires
        x >= 0,
        m > 0,
        r == x % m,
    ensures
        (x + 1) % m == (if r + 1 == m {
            0
        } else {
            r + 1
        }),
{
    vstd::arithmetic::div_mod::lemma_fundamental_div_mod(x, m);
    vstd::arithmetic::div_mod::lemma_mod_pos_bound(x, m);
    let q = x / m;
    if r + 1 == m {
        assert(x + 1 == m * (q + 1)) by (nonlinear_arith)
            requires
                x == m * q + r,
                r + 1 == m,
        ;
        vstd::arithmetic::div_mod::lemma_mod_multiples_basic(q + 1, m);
        vstd::arithmetic::mul::lemma_mul_is_commutative(m, q + 1);
    } else {
        vstd::arithmetic::div_mod::lemma_mod_multiples_vanish(q, r + 1, m);
        vstd::arithmetic::div_mod::lemma_small_mod((r + 1) as nat, m as nat);
    }
}

proof fn lemma_base_bound(offset: int, len: int)
    requires
        0 <= offset < len * (SUBCHAR as int),
        len > 0,
    ensures
        offset / (SUBCHAR as int) < len,
        offset / (SUBCHAR as int) >= 0,
{
    let s = SUBCHAR as int;
    vstd::arithmetic::div_mod::lemma_div_pos_is_pos(offset, s);
    if offset / s >= len {
        vstd::arithmetic::div_mod::lemma_fundamental_div_mod(offset, s);
        vstd::arithmetic::mul::lemma_mul_inequality(len, offset / s, s);
        vstd::arithmetic::mul::lemma_mul_is_commutative(s, offset / s);
        vstd::arithmetic::div_mod::lemma_mod_pos_bound(offset, s);
    }
}

} // verus!
