//! What the terminal front end draws: the characters of a frame, the style
//! of each cell, the hyperlink escape sequences of the ticker line, and the
//! status bar text. Drawing them is left to the terminal library.
use crate::text::{append_chars, char_at, string_of_chars};
use crate::ticker::{covers, window_of, Ticker, VisibleSegment, HALF_CHAR, SUBCHAR};
use vstd::prelude::*;

verus! {

/// Opens an OSC 8 hyperlink; the target and a BEL follow.
pub const OSC8_OPEN: &'static str = "\x1b]8;;";

/// Ends the target of an OSC 8 hyperlink, or closes the link.
pub const BEL: &'static str = "\x07";

/// The status bar's marker while the ticker is paused.
pub const PAUSED_MARK: &'static str = "⏸ PAUSED";

/// The status bar's marker while the ticker scrolls.
pub const PLAYING_MARK: &'static str = "▶ PLAYING";

/// The status bar's help text, shown when there is no message.
pub const KEY_HELP: &'static str = "q=quit space=pause ±=speed";

/// The decimal digit `d`.
pub open spec fn digit(d: nat) -> char {
    ((d + 48) as u8) as char
}

/// The decimal notation of `n`.
pub open spec fn decimal(n: nat) -> Seq<char>
    decreases n,
{
    if n < 10 {
        seq![digit(n)]
    } else {
        decimal(n / 10).push(digit(n % 10))
    }
}

/// Appends the decimal notation of `n` to `v`.
pub fn push_decimal(v: &mut Vec<char>, n: u64)
    ensures
        final(v)@ == old(v)@ + decimal(n as nat),
    decreases n,
{
    if n >= 10 {
        push_decimal(v, n / 10);
    }
    let d = (n % 10) as u8;
    v.push((d + 48) as char);
    proof {
        if n >= 10 {
            assert(old(v)@ + decimal((n / 10) as nat).push(digit((n % 10) as nat)) =~= old(v)@
                + decimal(n as nat));
        } else {
            assert(old(v)@.push(digit(n as nat)) =~= old(v)@ + decimal(n as nat));
        }
    }
}

/// The `width` characters of a frame: column `i` shows character `i` of the
/// window, or `i + 1` once the offset is more than half-way into a
/// character; a blank where the window has no such character.
pub open spec fn frame_of(window: Seq<char>, next: bool, width: int) -> Seq<char> {
    Seq::new(
        width as nat,
        |i: int|
            {
                let j = if next {
                    i + 1
                } else {
                    i
                };
                if j < window.len() {
                    window[j]
                } else {
                    ' '
                }
            },
    )
}

/// The characters a frame of `width` columns shows for `t`.
pub open spec fn ticker_frame(t: Ticker, width: int) -> Seq<char> {
    frame_of(
        window_of(t.buffer(), t.base(), width),
        t.offset_units() % (SUBCHAR as int) > HALF_CHAR,
        width,
    )
}

/// The characters of a frame of `width` columns.
pub fn frame_chars(ticker: &Ticker, width: usize) -> (r: Vec<char>)
    requires
        ticker.wf(),
        width < usize::MAX,
    ensures
        r@ == ticker_frame(*ticker, width as int),
{
    let window = ticker.visible_chars(width);
    let next = ticker.shows_next_char();
    let mut out: Vec<char> = Vec::new();
    let mut i: usize = 0;
    while i < width
        invariant
            i <= width,
            width < usize::MAX,
            window@ == window_of(ticker.buffer(), ticker.base(), width as int),
            next == (ticker.offset_units() % (SUBCHAR as int) > HALF_CHAR),
            out@ =~= ticker_frame(*ticker, width as int).take(i as int),
        decreases width - i,
    {
        let j = if next {
            i + 1
        } else {
            i
        };
        let c = if j < window.len() {
            window[j]
        } else {
            ' '
        };
        out.push(c);
        i += 1;
    }
    assert(ticker_frame(*ticker, width as int).take(width as int) =~= ticker_frame(
        *ticker,
        width as int,
    ));
    out
}

/// The first of `vs` that starts at column `pos` and has a link.
pub open spec fn link_starting(vs: Seq<VisibleSegment>, pos: int) -> Option<VisibleSegment>
    decreases vs.len(),
{
    if vs.len() == 0 {
        None
    } else if vs[0].start == pos && vs[0].url is Some {
        Some(vs[0])
    } else {
        link_starting(vs.drop_first(), pos)
    }
}

/// The output for columns `pos..` of a line showing `chars`: a segment with
/// a link that starts at a column is written as an OSC 8 hyperlink over its
/// columns, every other column as its character.
pub open spec fn line_body(chars: Seq<char>, vs: Seq<VisibleSegment>, pos: int) -> Seq<char>
    decreases chars.len() - pos,
{
    if pos < 0 || pos >= chars.len() {
        Seq::empty()
    } else {
        match link_starting(vs, pos) {
            Some(s) => {
                let end = if s.end < chars.len() {
                    s.end as int
                } else {
                    chars.len() as int
                };
                if end > pos {
                    OSC8_OPEN@ + s.url.unwrap()@ + BEL@ + chars.subrange(pos, end) + OSC8_OPEN@ + BEL@
                        + line_body(chars, vs, end)
                } else {
                    seq![chars[pos]] + line_body(chars, vs, pos + 1)
                }
            },
            None => seq![chars[pos]] + line_body(chars, vs, pos + 1),
        }
    }
}

/// The whole output for a ticker line on terminal row `row` (counted from
/// 0): a cursor move to the row's first column, then the line.
pub open spec fn line_output(chars: Seq<char>, vs: Seq<VisibleSegment>, row: u16) -> Seq<char> {
    seq!['\x1b', '['] + decimal(row as nat + 1) + seq![';', '1', 'H'] + line_body(chars, vs, 0)
}

/// The first of `vs` that starts at column `pos` and has a link.
fn find_link_start(vs: &Vec<VisibleSegment>, pos: usize) -> (r: Option<usize>)
    ensures
        match r {
            Some(k) => k < vs@.len() && link_starting(vs@, pos as int) == Some(vs@[k as int])
                && vs@[k as int].start == pos && vs@[k as int].url is Some,
            None => link_starting(vs@, pos as int) is None,
        },
{
    let mut k: usize = 0;
    assert(vs@.subrange(0, vs@.len() as int) =~= vs@);
    while k < vs.len()
        invariant
            k <= vs@.len(),
            link_starting(vs@, pos as int) == link_starting(
                vs@.subrange(k as int, vs@.len() as int),
                pos as int,
            ),
        decreases vs.len() - k,
    {
        let ghost rest = vs@.subrange(k as int, vs@.len() as int);
        assert(rest[0] == vs@[k as int]);
        assert(rest.drop_first() =~= vs@.subrange(k + 1, vs@.len() as int));
        if vs[k].start == pos && vs[k].url.is_some() {
            return Some(k);
        }
        k += 1;
    }
    None
}

/// Writes OSC 8 hyperlinks for the links of the ticker line, for terminals
/// that make them clickable.
pub struct HyperlinkRenderer {
    buffer: Vec<char>,
}

impl HyperlinkRenderer {
    /// What the renderer holds.
    pub closed spec fn output_view(&self) -> Seq<char> {
        self.buffer@
    }

    pub fn new() -> (r: HyperlinkRenderer)
        ensures
            r.output_view() == Seq::<char>::empty(),
    {
        HyperlinkRenderer { buffer: Vec::new() }
    }

    /// Render ticker line with embedded hyperlinks: the output replaces what
    /// the renderer held.
    pub fn render_ticker_line(&mut self, ticker: &Ticker, width: usize, row: u16)
        requires
            ticker.wf(),
            width < usize::MAX,
        ensures
            final(self).output_view() == line_output(
                ticker_frame(*ticker, width as int),
                (if ticker.buffer().len() == 0 {
                    Seq::empty()
                } else {
                    crate::ticker::visible_of(
                        ticker.segment_map(),
                        ticker.base(),
                        ticker.buffer().len() as int,
                        width as int,
                    )
                }),
                row,
            ),
    {
        let chars = frame_chars(ticker, width);
        let segments = ticker.get_visible_segments(width);
        let mut out: Vec<char> = Vec::new();
        out.push('\x1b');
        out.push('[');
        push_decimal(&mut out, row as u64 + 1);
        out.push(';');
        out.push('1');
        out.push('H');
        let ghost head = out@;
        let mut pos: usize = 0;
        while pos < chars.len()
            invariant
                pos <= chars@.len(),
                out@ + line_body(chars@, segments@, pos as int) == head + line_body(
                    chars@,
                    segments@,
                    0,
                ),
            decreases chars.len() - pos,
        {
            let found = find_link_start(&segments, pos);
            let mut step_link = false;
            let mut next = pos + 1;
            if let Some(k) = found {
                let seg = &segments[k];
                let end = if seg.end < chars.len() {
                    seg.end
                } else {
                    chars.len()
                };
                if end > pos {
                    let ghost before = out@;
                    append_chars(&mut out, OSC8_OPEN);
                    match &seg.url {
                        Some(u) => append_chars(&mut out, u.as_str()),
                        None => {},
                    }
                    append_chars(&mut out, BEL);
                    let mut j: usize = pos;
                    while j < end
                        invariant
                            pos <= j <= end,
                            end <= chars@.len(),
                            seg.url is Some,
                            out@ == before + OSC8_OPEN@ + seg.url.unwrap()@ + BEL@
                                + chars@.subrange(pos as int, j as int),
                        decreases end - j,
                    {
                        out.push(chars[j]);
                        assert(chars@.subrange(pos as int, j + 1) =~= chars@.subrange(
                            pos as int,
                            j as int,
                        ).push(chars@[j as int]));
                        j += 1;
                    }
                    append_chars(&mut out, OSC8_OPEN);
                    append_chars(&mut out, BEL);
                    step_link = true;
                    next = end;
                }
            }
            if !step_link {
                let ghost before = out@;
                out.push(chars[pos]);
                assert(out@ =~= before + seq![chars@[pos as int]]);
            }
            proof {
                let body = line_body(chars@, segments@, pos as int);
                let rest = line_body(chars@, segments@, next as int);
                assert(out@ + rest =~= head + line_body(chars@, segments@, 0)) by {
                    if step_link {
                        let s = link_starting(segments@, pos as int).unwrap();
                        assert(body == OSC8_OPEN@ + s.url.unwrap()@ + BEL@ + chars@.subrange(
                            pos as int,
                            next as int,
                        ) + OSC8_OPEN@ + BEL@ + rest);
                    } else {
                        assert(body == seq![chars@[pos as int]] + rest);
                    }
                }
            }
            pos = next;
        }
        proof {
            assert(out@ + Seq::<char>::empty() =~= out@);
        }
        self.buffer = out;
    }

    /// What the renderer holds, as a string.
    pub fn output(&self) -> (r: String)
        ensures
            r@ == self.output_view(),
    {
        string_of_chars(&self.buffer)
    }
}

/// How a cell of the ticker line is styled.
#[derive(Debug, Clone, Copy, PartialEq, Eq, Structural)]
pub enum CellStyle {
    Plain,
    /// Part of a headline with a link
    Link,
    /// Part of a headline with a link, under the mouse pointer
    HoveredLink,
}

/// One cell of the ticker line.
#[derive(Debug, Clone, Copy, PartialEq, Eq, Structural)]
pub struct StyledCell {
    pub ch: char,
    pub style: CellStyle,
}

/// Column `i` lies in a visible segment that has a link.
pub open spec fn clickable(vs: Seq<VisibleSegment>, i: int) -> bool {
    exists|k: int| 0 <= k < vs.len() && covers(#[trigger] vs[k], i) && vs[k].url is Some
}

/// The style of a cell: a link under the pointer, a link, or plain.
pub open spec fn style_of(is_link: bool, hovered: bool) -> CellStyle {
    if is_link && hovered {
        CellStyle::HoveredLink
    } else if is_link {
        CellStyle::Link
    } else {
        CellStyle::Plain
    }
}

/// The ticker line, with the column under the mouse pointer.
pub struct TickerWidget<'a> {
    ticker: &'a Ticker,
    hovered_x: Option<u16>,
}

impl<'a> TickerWidget<'a> {
    pub closed spec fn ticker_view(&self) -> Ticker {
        *self.ticker
    }

    pub closed spec fn hovered_view(&self) -> Option<u16> {
        self.hovered_x
    }

    pub fn new(ticker: &'a Ticker) -> (r: TickerWidget<'a>)
        ensures
            r.ticker_view() == *ticker,
            r.hovered_view() is None,
    {
        TickerWidget { ticker, hovered_x: None }
    }

    /// The same widget with the pointer at terminal column `x`, if any.
    pub fn hovered(self, x: Option<u16>) -> (r: TickerWidget<'a>)
        ensures
            r.ticker_view() == self.ticker_view(),
            r.hovered_view() == x,
    {
        TickerWidget { ticker: self.ticker, hovered_x: x }
    }

    /// The cells of a line of `width` columns whose first column is the
    /// terminal column `area_x`.
    pub fn cells(&self, area_x: u16, width: usize) -> (r: Vec<StyledCell>)
        requires
            self.ticker_view().wf(),
            width < usize::MAX,
        ensures
            r@.len() == width,
            forall|i: int|
                0 <= i < width ==> cell_at(
                    #[trigger] r@[i],
                    ticker_frame(self.ticker_view(), width as int),
                    visible_in(self.ticker_view(), width as int),
                    self.hovered_view(),
                    area_x,
                    i,
                ),
    {
        let chars = frame_chars(self.ticker, width);
        let segments = self.ticker.get_visible_segments(width);
        build_cells(&chars, &segments, self.hovered_x, area_x, width)
    }
}

/// The visible segments of `t` in a viewport of `width` columns.
pub open spec fn visible_in(t: Ticker, width: int) -> Seq<VisibleSegment> {
    if t.buffer().len() == 0 {
        Seq::empty()
    } else {
        crate::ticker::visible_of(t.segment_map(), t.base(), t.buffer().len() as int, width)
    }
}

/// `c` is the cell of column `i`, given the frame's characters, the visible
/// segments and the pointer's column.
pub open spec fn cell_at(
    c: StyledCell,
    chars: Seq<char>,
    vs: Seq<VisibleSegment>,
    hovered_x: Option<u16>,
    area_x: u16,
    i: int,
) -> bool {
    &&& c.ch == chars[i]
    &&& c.style == style_of(clickable(vs, i), hovered_x matches Some(h) && h == area_x + i)
}

/// The cells of a line, from its characters and visible segments.
fn build_cells(
    chars: &Vec<char>,
    segments: &Vec<VisibleSegment>,
    hovered_x: Option<u16>,
    area_x: u16,
    width: usize,
) -> (r: Vec<StyledCell>)
    requires
        chars@.len() == width,
    ensures
        r@.len() == width,
        forall|m: int| 0 <= m < width ==> cell_at(#[trigger] r@[m], chars@, segments@, hovered_x, area_x, m),
{
        let mut out: Vec<StyledCell> = Vec::new();
        let mut i: usize = 0;
        while i < width
            invariant
                i <= width,
                chars@.len() == width,
                out@.len() == i,
                forall|m: int|
                    0 <= m < i ==> cell_at(#[trigger] out@[m], chars@, segments@, hovered_x, area_x, m),
            decreases width - i,
        {
            let link = link_covers(segments, i);
            let hovered = match hovered_x {
                Some(h) => h as usize >= area_x as usize && h as usize - area_x as usize == i,
                None => false,
            };
            let style = if link && hovered {
                CellStyle::HoveredLink
            } else if link {
                CellStyle::Link
            } else {
                CellStyle::Plain
            };
            let cell = StyledCell { ch: char_at(chars, i), style };
            out.push(cell);
            i += 1;
        }
        out
}

/// Whether column `i` lies in a visible segment that has a link.
fn link_covers(vs: &Vec<VisibleSegment>, i: usize) -> (r: bool)
    ensures
        r == clickable(vs@, i as int),
{
    let mut k: usize = 0;
    while k < vs.len()
        invariant
            k <= vs@.len(),
            forall|m: int| 0 <= m < k ==> !(covers(#[trigger] vs@[m], i as int) && vs@[m].url is Some),
        decreases vs.len() - k,
    {
        if vs[k].start <= i && i < vs[k].end && vs[k].url.is_some() {
            assert(covers(vs@[k as int], i as int) && vs@[k as int].url is Some);
            return true;
        }
        k += 1;
    }
    false
}

/// The state line under the ticker.
pub struct StatusBar<'a> {
    pub headline_count: usize,
    pub paused: bool,
    pub speed: u32,
    pub status_msg: Option<&'a str>,
}

/// The status bar's text: pause state, headline count, speed, then the
/// message or the key help.
pub open spec fn status_text_of(
    paused: bool,
    count: usize,
    speed: u32,
    msg: Option<Seq<char>>,
) -> Seq<char> {
    let mark = if paused {
        PAUSED_MARK@
    } else {
        PLAYING_MARK@
    };
    let tail = match msg {
        Some(m) => m,
        None => KEY_HELP@,
    };
    seq![' '] + mark + " | "@ + decimal(count as nat) + " headlines | speed: "@ + decimal(
        speed as nat,
    ) + " | "@ + tail + seq![' ']
}

impl<'a> StatusBar<'a> {
    /// The state of `ticker`, with no message.
    pub fn new(ticker: &Ticker) -> (r: StatusBar<'a>)
        ensures
            r.headline_count == ticker.items().len(),
            r.paused == ticker.paused_view(),
            r.speed == ticker.speed_view(),
            r.status_msg is None,
    {
        StatusBar {
            headline_count: ticker.headline_count(),
            paused: ticker.is_paused(),
            speed: ticker.speed(),
            status_msg: None,
        }
    }

    /// The same bar, showing `msg` in place of the key help.
    pub fn with_message(self, msg: &'a str) -> (r: StatusBar<'a>)
        ensures
            r.headline_count == self.headline_count,
            r.paused == self.paused,
            r.speed == self.speed,
            r.status_msg == Some(msg),
    {
        StatusBar { status_msg: Some(msg), ..self }
    }

    /// The text the bar shows.
    pub fn text(&self) -> (r: String)
        ensures
            r@ == status_text_of(
                self.paused,
                self.headline_count,
                self.speed,
                match self.status_msg {
                    Some(m) => Some(m@),
                    None => None,
                },
            ),
    {
        let mut v: Vec<char> = Vec::new();
        v.push(' ');
        if self.paused {
            append_chars(&mut v, PAUSED_MARK);
        } else {
            append_chars(&mut v, PLAYING_MARK);
        }
        append_chars(&mut v, " | ");
        push_decimal(&mut v, self.headline_count as u64);
        append_chars(&mut v, " headlines | speed: ");
        push_decimal(&mut v, self.speed as u64);
        append_chars(&mut v, " | ");
        match self.status_msg {
            Some(m) => append_chars(&mut v, m),
            None => append_chars(&mut v, KEY_HELP),
        }
        v.push(' ');
        proof {
            let mark = if self.paused {
                PAUSED_MARK@
            } else {
                PLAYING_MARK@
            };
            let tail = match self.status_msg {
                Some(m) => m@,
                None => KEY_HELP@,
            };
            assert(v@ =~= seq![' '] + mark + " | "@ + decimal(self.headline_count as nat)
                + " headlines | speed: "@ + decimal(self.speed as nat) + " | "@ + tail + seq![' ']);
        }
        string_of_chars(&v)
    }
}

} // verus!
