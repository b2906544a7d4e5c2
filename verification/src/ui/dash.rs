//! The dashboard: what its keys do and what its panels hold.
use crate::text;
use crate::ui::{push_line, request_abort, texts, Board, State, Stop, Task};
use vstd::prelude::*;

verus! {

/// Filled cell of a bar.
pub const FILL: char = '█';

/// Empty cell of a bar.
pub const VOID: char = '░';

/// A key that was pressed.
#[derive(Clone, Copy, Debug, PartialEq, Eq, Structural)]
pub enum Key {
    Up,
    Down,
    Left,
    Right,
    PageUp,
    PageDown,
    Home,
    End,
    Tab,
    Enter,
    Esc,
    Backspace,
    F5,
    Char(char),
    Other,
}

/// `a + b`, or the largest number where that is too large.
pub open spec fn saturated(a: int, b: int) -> int {
    if a + b > usize::MAX {
        usize::MAX as int
    } else {
        a + b
    }
}

/// A dashboard gone back by `n` rows, which no longer follows the log.
pub open spec fn gone_back(b: Board, n: int) -> Board {
    Board { follow: false, scroll: saturated(b.scroll, n), ..b }
}

/// A dashboard gone forward by `n` rows, which follows the log again at its
/// end.
pub open spec fn gone_forward(b: Board, n: int) -> Board {
    let s = if b.scroll > n {
        b.scroll - n
    } else {
        0
    };
    Board { scroll: s, follow: b.follow || s == 0, ..b }
}

/// Scrolls the log back: it no longer follows.
pub fn scroll_back(st: &mut State, n: usize)
    ensures
        final(st)@ == gone_back(old(st)@, n as int),
{
    st.follow = false;
    st.scroll = if st.scroll > usize::MAX - n {
        usize::MAX
    } else {
        st.scroll + n
    };
}

/// Scrolls the log forward; at its end it follows again.
pub fn scroll_forward(st: &mut State, n: usize)
    ensures
        final(st)@ == gone_forward(old(st)@, n as int),
{
    st.scroll = if st.scroll > n {
        st.scroll - n
    } else {
        0
    };
    if st.scroll == 0 {
        st.follow = true;
    }
}

/// Whether a key asks to leave.
pub open spec fn quits(key: Key, ctrl: bool) -> bool {
    ||| ctrl && key == Key::Char('c')
    ||| key == Key::Char('q')
    ||| key == Key::Esc
}

/// How a key scrolls the log, while the run goes on.
pub open spec fn scrolled(b: Board, key: Key) -> Board {
    match key {
        Key::Up => gone_back(b, 1),
        Key::Down => gone_forward(b, 1),
        Key::PageUp => gone_back(b, 10),
        Key::PageDown => gone_forward(b, 10),
        Key::Home => gone_back(b, usize::MAX as int / 2),
        Key::End => Board { follow: true, scroll: 0, ..b },
        _ => b,
    }
}

/// Whether a key leaves the dashboard: only once the run has ended.
pub open spec fn leaves(key: Key, ctrl: bool, finished: bool) -> bool {
    finished && (quits(key, ctrl) || key == Key::Enter || key == Key::Char(' '))
}

/// Whether a key stops the run: only while there is one.
pub open spec fn asks_to_stop(key: Key, ctrl: bool, finished: bool) -> bool {
    !finished && quits(key, ctrl)
}

/// Acts on a key, and says whether the screen is to be given back. While the
/// run goes on, leaving means asking it to stop; once it is over, the screen
/// goes.
pub fn handle(st: &mut State, stop: &mut Stop, key: Key, ctrl: bool, finished: bool) -> (leave: bool)
    ensures
        leave == leaves(key, ctrl, finished),
        final(stop).asked == (old(stop).asked || asks_to_stop(key, ctrl, finished)),
        final(st)@ == if finished {
            old(st)@
        } else if quits(key, ctrl) {
            Board { phase: "stopping after the frame in flight..."@, ..old(st)@ }
        } else {
            scrolled(old(st)@, key)
        },
{
    let quit: bool = ctrl && key == Key::Char('c') || key == Key::Char('q') || key == Key::Esc;
    if finished {
        return quit || key == Key::Enter || key == Key::Char(' ');
    }
    if quit {
        request_abort(stop);
        st.phase = text::copy("stopping after the frame in flight...");
        return false;
    }
    match key {
        Key::Up => scroll_back(st, 1),
        Key::Down => scroll_forward(st, 1),
        Key::PageUp => scroll_back(st, 10),
        Key::PageDown => scroll_forward(st, 10),
        Key::Home => scroll_back(st, usize::MAX / 2),
        Key::End => {
            st.follow = true;
            st.scroll = 0;
        },
        _ => {},
    }
    false
}

/// The width of a text on the screen: its characters.
pub fn width(s: &str) -> (n: usize)
    ensures
        n == s@.len(),
{
    s.unicode_len()
}

/// A text cut to a width, the cut marked.
pub open spec fn clipped(s: Seq<char>, max: int) -> Seq<char> {
    if s.len() <= max {
        s
    } else {
        s.take(
            if max > 1 {
                max - 1
            } else {
                0
            },
        ).push('…')
    }
}

/// Cuts a text to a width.
pub fn clip(s: &str, max: usize) -> (r: String)
    ensures
        r@ == clipped(s@, max as int),
{
    let c = text::chars(s);
    if c.len() <= max {
        return text::copy(s);
    }
    let n: usize = if max > 1 {
        max - 1
    } else {
        0
    };
    let mut t = text::slice_of(c.as_slice(), 0, n);
    t.push('…');
    assert(t@ =~= clipped(s@, max as int));
    text::string(t.as_slice())
}

/// A clipped text is never wider than it may be, unless not even the mark
/// fits.
pub proof fn law_clip_fits(s: Seq<char>, max: int)
    requires
        max >= 1,
    ensures
        clipped(s, max).len() <= max,
        s.len() <= max ==> clipped(s, max) == s,
{
}

/// The last space in `from .. to`.
pub open spec fn last_space(s: Seq<char>, from: int, to: int) -> Option<int>
    decreases to - from,
{
    if to <= from {
        None
    } else if s[to - 1] == ' ' {
        Some(to - 1)
    } else {
        last_space(s, from, to - 1)
    }
}

/// Where a row that starts at `i` with this much room is cut, and where the
/// next one starts. A space in the last third of the row is preferred, and
/// dropped.
pub open spec fn row_cut(s: Seq<char>, i: int, room: int) -> (int, int) {
    let end = if i + room < s.len() {
        i + room
    } else {
        s.len() as int
    };
    if end < s.len() {
        match last_space(s, i + room * 2 / 3, end) {
            Some(p) => (p, p + 1),
            None => (end, end),
        }
    } else {
        (end, end)
    }
}

/// The rows of a text from position `i` on; all but the first are indented.
pub open spec fn rows_from(s: Seq<char>, w: int, i: int) -> Seq<Seq<char>>
    decreases s.len() - i,
    when w >= 8
{
    if i >= s.len() {
        Seq::empty()
    } else {
        let indent = if i == 0 {
            0
        } else {
            4int
        };
        let (cut, next) = row_cut(s, i, w - indent);
        if next <= i || next > s.len() {
            Seq::empty()
        } else {
            seq![text::run_of(' ', indent) + s.subrange(i, cut)] + rows_from(s, w, next)
        }
    }
}

/// The rows of a text in a panel.
pub open spec fn wrapped(s: Seq<char>, w: int) -> Seq<Seq<char>> {
    if w < 8 {
        seq![
            s.take(
                if s.len() < w {
                    s.len() as int
                } else {
                    w
                },
            ),
        ]
    } else if s.len() <= w {
        seq![s]
    } else {
        rows_from(s, w, 0)
    }
}

proof fn lemma_last_space(s: Seq<char>, from: int, to: int)
    requires
        0 <= from,
        to <= s.len(),
    ensures
        last_space(s, from, to) matches Some(p) ==> from <= p < to && s[p] == ' ',
    decreases to - from,
{
    if from < to && s[to - 1] != ' ' {
        lemma_last_space(s, from, to - 1);
    }
}

proof fn lemma_row_cut(s: Seq<char>, i: int, room: int)
    requires
        0 <= i < s.len(),
        room >= 4,
    ensures
        i < row_cut(s, i, room).0 <= row_cut(s, i, room).1 <= s.len(),
        row_cut(s, i, room).0 <= i + room,
        row_cut(s, i, room).1 <= row_cut(s, i, room).0 + 1,
        row_cut(s, i, room).1 == row_cut(s, i, room).0 + 1 ==> s[row_cut(s, i, room).0] == ' ',
{
    let end = if i + room < s.len() {
        i + room
    } else {
        s.len() as int
    };
    lemma_last_space(s, i + room * 2 / 3, end);
}

/// Wraps a text at a panel's width.
pub fn wrap(s: &str, w: usize) -> (rows: Vec<String>)
    ensures
        texts(rows@) == wrapped(s@, w as int),
{
    let mut rows: Vec<String> = Vec::new();
    assert(texts(rows@) =~= Seq::empty());
    let c = text::chars(s);
    let n: usize = c.len();
    if w < 8 {
        let k: usize = if n < w {
            n
        } else {
            w
        };
        let t = text::slice_of(c.as_slice(), 0, k);
        assert(t@ =~= s@.take(k as int));
        push_line(&mut rows, &t);
        assert(texts(rows@) =~= wrapped(s@, w as int));
        return rows;
    }
    if n <= w {
        push_line(&mut rows, &c);
        assert(texts(rows@) =~= wrapped(s@, w as int));
        return rows;
    }
    let mut i: usize = 0;
    while i < n
        invariant
            i <= n,
            n == c@.len(),
            c@ == s@,
            8 <= w < n,
            texts(rows@) + rows_from(s@, w as int, i as int) == rows_from(s@, w as int, 0),
        decreases n - i,
    {
        let indent: usize = if i == 0 {
            0
        } else {
            4
        };
        let room: usize = w - indent;
        let end: usize = if room < n - i {
            i + room
        } else {
            n
        };
        let mut cut: usize = end;
        let mut next: usize = end;
        proof {
            lemma_row_cut(s@, i as int, room as int);
            assert(room as int * 2 / 3 <= room);
        }
        if end < n {
            let third: usize = room / 3 * 2 + room % 3 * 2 / 3;
            assert(third == room as int * 2 / 3);
            let from: usize = i + third;
            let mut k: usize = end;
            let mut found: bool = false;
            while k > from && !found
                invariant
                    from <= k <= end <= n,
                    n == c@.len(),
                    c@ == s@,
                    cut == end || found,
                    !found ==> cut == end && next == end && last_space(
                        s@,
                        from as int,
                        end as int,
                    ) == last_space(s@, from as int, k as int),
                    found ==> last_space(s@, from as int, end as int) == Some(cut as int) && next
                        == cut + 1 && cut < end,
                decreases k + if found { 0int } else { 1int },
            {
                if c[k - 1] == ' ' {
                    found = true;
                    cut = k - 1;
                    next = k;
                } else {
                    k = k - 1;
                }
            }
        }
        assert((cut as int, next as int) == row_cut(s@, i as int, room as int));
        let mut row: Vec<char> = Vec::new();
        text::push_run(&mut row, ' ', indent);
        let mut piece = text::slice_of(c.as_slice(), i, cut);
        row.append(&mut piece);
        let ghost before = texts(rows@);
        push_line(&mut rows, &row);
        proof {
            let r = text::run_of(' ', indent as int) + s@.subrange(i as int, cut as int);
            assert(row@ =~= r);
            assert(rows_from(s@, w as int, i as int) == seq![r] + rows_from(
                s@,
                w as int,
                next as int,
            ));
            assert(texts(rows@) + rows_from(s@, w as int, next as int) =~= before + rows_from(
                s@,
                w as int,
                i as int,
            ));
        }
        i = next;
    }
    assert(texts(rows@) =~= rows_from(s@, w as int, 0));
    rows
}

/// No row is wider than the panel.
pub proof fn law_wrapped_rows_fit(s: Seq<char>, w: int, k: int)
    requires
        w >= 0,
        0 <= k < wrapped(s, w).len(),
    ensures
        wrapped(s, w)[k].len() <= w,
{
    if w >= 8 && s.len() > w {
        lemma_rows_fit(s, w, 0, k);
    }
}

proof fn lemma_rows_fit(s: Seq<char>, w: int, i: int, k: int)
    requires
        w >= 8,
        0 <= i,
        0 <= k < rows_from(s, w, i).len(),
    ensures
        rows_from(s, w, i)[k].len() <= w,
    decreases s.len() - i,
{
    let indent = if i == 0 {
        0
    } else {
        4int
    };
    lemma_row_cut(s, i, w - indent);
    let (cut, next) = row_cut(s, i, w - indent);
    if k > 0 {
        lemma_rows_fit(s, w, next, k - 1);
    }
}

/// Rows put together again: the indentation of all but the first is taken off,
/// and a space goes where `gaps` says that one was dropped.
pub open spec fn unwrapped(rows: Seq<Seq<char>>, gaps: Seq<bool>, first: bool) -> Seq<char>
    decreases rows.len(),
{
    if rows.len() == 0 {
        Seq::empty()
    } else {
        rows[0].skip(
            if first {
                0
            } else {
                4
            },
        ) + (if gaps[0] {
            seq![' ']
        } else {
            Seq::empty()
        }) + unwrapped(rows.drop_first(), gaps.drop_first(), false)
    }
}

/// Wrapping loses nothing but spaces at the breaks: put together again, the
/// rows are the text.
pub proof fn law_wrapping_keeps_the_text(s: Seq<char>, w: int)
    requires
        w >= 8,
    ensures
        exists|gaps: Seq<bool>|
            gaps.len() == wrapped(s, w).len() && #[trigger] unwrapped(wrapped(s, w), gaps, true)
                == s,
{
    if s.len() <= w {
        let gaps = seq![false];
        let rows = seq![s];
        assert(rows.drop_first() =~= Seq::empty());
        assert(unwrapped(rows.drop_first(), gaps.drop_first(), false) =~= Seq::empty());
        assert(unwrapped(rows, gaps, true) =~= s);
        assert(unwrapped(wrapped(s, w), gaps, true) == s);
    } else {
        let gaps = lemma_unwrap(s, w, 0);
        assert(s.skip(0) =~= s);
        assert(unwrapped(wrapped(s, w), gaps, true) == s);
    }
}

proof fn lemma_unwrap(s: Seq<char>, w: int, i: int) -> (gaps: Seq<bool>)
    requires
        w >= 8,
        0 <= i <= s.len(),
    ensures
        gaps.len() == rows_from(s, w, i).len(),
        unwrapped(rows_from(s, w, i), gaps, i == 0) == s.skip(i),
    decreases s.len() - i,
{
    if i >= s.len() {
        assert(s.skip(i) =~= Seq::empty());
        Seq::empty()
    } else {
        let indent = if i == 0 {
            0
        } else {
            4int
        };
        lemma_row_cut(s, i, w - indent);
        let (cut, next) = row_cut(s, i, w - indent);
        let rest = lemma_unwrap(s, w, next);
        let gaps = seq![next > cut] + rest;
        let rows = rows_from(s, w, i);
        let row = text::run_of(' ', indent) + s.subrange(i, cut);
        assert(rows[0] == row);
        assert(rows.drop_first() =~= rows_from(s, w, next));
        assert(gaps.drop_first() =~= rest);
        assert(row.skip(indent) =~= s.subrange(i, cut));
        let gap = if next > cut {
            seq![' ']
        } else {
            Seq::empty()
        };
        assert(s.subrange(i, cut) + gap + s.skip(next) =~= s.skip(i));
        gaps
    }
}

/// The rows of several lines.
pub open spec fn all_rows(lines: Seq<Seq<char>>, w: int) -> Seq<Seq<char>>
    decreases lines.len(),
{
    if lines.len() == 0 {
        Seq::empty()
    } else {
        all_rows(lines.drop_last(), w) + wrapped(lines.last(), w)
    }
}

/// The last lines of a log, as many as can possibly fill the panel.
pub open spec fn tail(log: Seq<Seq<char>>, h: int, scroll: int) -> Seq<Seq<char>> {
    let n = h + scroll + 4;
    if n < log.len() {
        log.skip(log.len() - n)
    } else {
        log
    }
}

/// How far the log of a panel can be scrolled back.
pub open spec fn clamped_scroll(b: Board, w: int, h: int) -> int {
    let rows = all_rows(tail(b.log, h, b.scroll), w).len();
    let most = if rows > h {
        rows - h
    } else {
        0
    };
    if b.scroll > most {
        most
    } else {
        b.scroll
    }
}

/// The rows a panel shows of the log.
pub open spec fn shown_rows(b: Board, w: int, h: int) -> Seq<Seq<char>> {
    let rows = all_rows(tail(b.log, h, b.scroll), w);
    let end = rows.len() - clamped_scroll(b, w, h);
    rows.subrange(
        if end > h {
            end - h
        } else {
            0
        },
        end,
    )
}

/// The rows a panel `w` by `h` shows of the log. A log scrolled back further
/// than it reaches is held at its first row, and follows again where that is
/// also its last.
pub fn log_rows(st: &mut State, w: usize, h: usize) -> (rows: Vec<String>)
    requires
        h >= 1,
    ensures
        texts(rows@) == shown_rows(old(st)@, w as int, h as int),
        final(st)@ == ({
            let s = clamped_scroll(old(st)@, w as int, h as int);
            Board {
                scroll: s,
                follow: old(st).follow || (s < old(st).scroll && s == 0),
                ..old(st)@
            }
        }),
{
    let ghost b = st@;
    let ghost log = texts(st.log@);
    let n: usize = st.log.len();
    let ghost t = tail(log, h as int, st.scroll as int);
    let skip: usize = if st.scroll < n && h < n - st.scroll && 4 < n - st.scroll - h {
        n - st.scroll - h - 4
    } else {
        0
    };
    assert(t =~= log.skip(skip as int));
    let mut all: Vec<String> = Vec::new();
    let mut i: usize = skip;
    assert(texts(all@) =~= all_rows(t.take(0), w as int));
    while i < n
        invariant
            skip <= i <= n,
            n == st.log@.len(),
            log == texts(st.log@),
            t == log.skip(skip as int),
            texts(all@) == all_rows(t.take(i - skip), w as int),
        decreases n - i,
    {
        let mut piece = wrap(st.log[i].as_str(), w);
        proof {
            let k = i - skip;
            assert(t.take(k + 1).drop_last() =~= t.take(k));
            assert(t[k] == st.log@[i as int]@);
        }
        let ghost before = all@;
        let ghost p = piece@;
        all.append(&mut piece);
        assert(texts(all@) =~= texts(before) + texts(p));
        i = i + 1;
    }
    assert(t.take(i - skip) =~= t);
    let total: usize = all.len();
    assert(total == texts(all@).len());
    let most: usize = if total > h {
        total - h
    } else {
        0
    };
    if st.scroll > most {
        st.scroll = most;
        if most == 0 {
            st.follow = true;
        }
    }
    let end: usize = total - st.scroll;
    let start: usize = if end > h {
        end - h
    } else {
        0
    };
    let mut rows: Vec<String> = Vec::new();
    let mut k: usize = start;
    let ghost ar = texts(all@);
    assert(texts(rows@) =~= ar.subrange(start as int, start as int));
    while k < end
        invariant
            start <= k <= end <= all@.len(),
            ar == texts(all@),
            texts(rows@) == ar.subrange(start as int, k as int),
        decreases end - k,
    {
        let c = text::chars(all[k].as_str());
        push_line(&mut rows, &c);
        assert(ar[k as int] == c@);
        assert(ar.subrange(start as int, k + 1) =~= ar.subrange(start as int, k as int).push(c@));
        k = k + 1;
    }
    rows
}

/// A log that follows shows its last rows.
pub proof fn law_following_shows_the_end(b: Board, w: int, h: int)
    requires
        b.scroll == 0,
        h >= 1,
    ensures
        ({
            let rows = all_rows(tail(b.log, h, 0), w);
            &&& clamped_scroll(b, w, h) == 0
            &&& rows.len() > 0 ==> shown_rows(b, w, h).last() == rows.last()
        }),
{
}

/// How a line of the log is drawn.
#[derive(Clone, Copy, Debug, PartialEq, Eq, Structural)]
pub enum Tone {
    /// The run failed.
    Error,
    Warning,
    /// A frame was lost.
    Problem,
    /// Detail under another line.
    Detail,
    Normal,
}

/// How a line of the log is drawn.
pub open spec fn tone_of(s: Seq<char>) -> Tone {
    let t = text::trim_start(s);
    if text::stands_at(t, "ERROR:"@, 0) {
        Tone::Error
    } else if text::occurs(t, "WARNING"@) || text::occurs(t, "NOT ALIGNED"@) || text::occurs(
        t,
        "implausible"@,
    ) {
        Tone::Warning
    } else if text::occurs(t, "LOAD FAILED"@) || text::occurs(t, "different dimensions"@) {
        Tone::Problem
    } else if text::stands_at(s, "  "@, 0) {
        Tone::Detail
    } else {
        Tone::Normal
    }
}

/// How a line of the log is drawn: the few that report a problem are to be
/// found in it.
pub fn style_line(s: &str) -> (r: Tone)
    ensures
        r == tone_of(s@),
{
    let c = text::chars(s);
    let t = text::trimmed_start(c.as_slice());
    let t = t.as_slice();
    if text::starts_with(t, "ERROR:") {
        Tone::Error
    } else if text::contains(t, "WARNING") || text::contains(t, "NOT ALIGNED") || text::contains(
        t,
        "implausible",
    ) {
        Tone::Warning
    } else if text::contains(t, "LOAD FAILED") || text::contains(t, "different dimensions") {
        Tone::Problem
    } else if text::starts_with(c.as_slice(), "  ") {
        Tone::Detail
    } else {
        Tone::Normal
    }
}

/// The width of one of two columns.
pub open spec fn column_of(inner: int) -> int {
    if inner / 2 > 20 {
        inner / 2
    } else {
        20
    }
}

/// The width of a column of the summary: half the panel, twenty at least.
pub fn header_column(inner: usize) -> (col: usize)
    ensures
        col == column_of(inner as int),
{
    if inner / 2 > 20 {
        inner / 2
    } else {
        20
    }
}

/// One field of the summary as it is drawn: its name, its value, and the space
/// that brings the next one to its column.
pub fn header_cell(key: &str, value: &str, col: usize, more: bool) -> (r: (String, String, String))
    requires
        col >= 20,
    ensures
        r.0@ == text::padded(key@, 8) + " "@,
        r.1@ == clipped(value@, col - 10),
        r.2@ == if more {
            text::run_of(' ', col - (9 + r.1@.len()))
        } else {
            Seq::empty()
        },
{
    let mut k: Vec<char> = Vec::new();
    text::push_padded(&mut k, key, 8);
    text::push_text(&mut k, " ");
    assert(k@ =~= text::padded(key@, 8) + " "@);
    let v = clip(value, col - 10);
    let used: usize = width(v.as_str());
    let mut pad: Vec<char> = Vec::new();
    if more {
        let fill: usize = if col - 9 > used {
            col - 9 - used
        } else {
            0
        };
        text::push_run(&mut pad, ' ', fill);
    }
    assert(pad@ =~= if more {
        text::run_of(' ', col - (9 + v@.len()))
    } else {
        Seq::empty()
    });
    (text::string(k.as_slice()), v, text::string(pad.as_slice()))
}

/// What stands behind a bar while its pass runs, at its widest.
pub open spec fn count_text(done: u64, total: u64) -> Seq<char> {
    " "@ + text::decimal(done as nat) + "/"@ + text::decimal(total as nat) + " 100%"@
}

/// The largest width of something of the first `n` bars.
pub open spec fn widest(tasks: Seq<Task>, f: spec_fn(Task) -> int, n: int) -> int
    decreases n,
{
    if n <= 0 {
        0
    } else {
        let m = widest(tasks, f, n - 1);
        let v = f(tasks[n - 1]);
        if v > m {
            v
        } else {
            m
        }
    }
}

/// A number held within limits.
pub open spec fn held(v: int, lo: int, hi: int) -> int {
    if v < lo {
        lo
    } else if v > hi {
        hi
    } else {
        v
    }
}

/// The widths of a panel of bars: of their labels, of their counts, and of the
/// bars themselves, which give way to the notes.
pub open spec fn bar_widths(tasks: Seq<Task>, inner: int) -> (int, int, int) {
    let n = tasks.len() as int;
    let label = if n == 0 {
        6
    } else {
        held(widest(tasks, |t: Task| t.label@.len() as int, n), 6, 18)
    };
    let count = if n == 0 {
        12
    } else {
        widest(tasks, |t: Task| count_text(t.done, t.total).len() as int, n)
    };
    let note = widest(tasks, |t: Task| t.note@.len() as int + 2, n);
    (label, count, held(inner - (label + 1 + count + note), 4, 56))
}

/// `a + b`, or the largest number where that is too large.
fn plus(a: usize, b: usize) -> (r: usize)
    ensures
        r == saturated(a as int, b as int),
{
    if a > usize::MAX - b {
        usize::MAX
    } else {
        a + b
    }
}

/// The number of decimal digits of a number.
fn digit_count(n: u64) -> (k: usize)
    ensures
        k == text::decimal(n as nat).len(),
        k <= 20,
{
    let mut c: Vec<char> = Vec::new();
    text::push_decimal(&mut c, n);
    proof {
        reveal_with_fuel(tens, 21);
        lemma_decimal_len(n as nat, 20);
    }
    c.len()
}

/// The smallest number with more than `k` digits.
spec fn tens(k: nat) -> nat
    decreases k,
{
    if k == 0 {
        1
    } else {
        10 * tens((k - 1) as nat)
    }
}

proof fn lemma_decimal_len(n: nat, k: nat)
    requires
        k >= 1,
        n < tens(k),
    ensures
        text::decimal(n).len() <= k,
    decreases k,
{
    if n >= 10 {
        if k == 1 {
            assert(tens(0) == 1);
        }
        lemma_decimal_len(n / 10, (k - 1) as nat);
    }
}

/// The widths of a panel of bars.
pub fn bar_layout(tasks: &Vec<Task>, inner: usize) -> (r: (usize, usize, usize))
    ensures
        (r.0 as int, r.1 as int, r.2 as int) == bar_widths(tasks@, inner as int),
{
    let n: usize = tasks.len();
    let ghost lf = |t: Task| t.label@.len() as int;
    let ghost cf = |t: Task| count_text(t.done, t.total).len() as int;
    let ghost nf = |t: Task| t.note@.len() as int + 2;
    let mut label: usize = 0;
    let mut count: usize = 0;
    let mut note: usize = 0;
    let mut i: usize = 0;
    while i < n
        invariant
            i <= n == tasks@.len(),
            lf == (|t: Task| t.label@.len() as int),
            cf == (|t: Task| count_text(t.done, t.total).len() as int),
            nf == (|t: Task| t.note@.len() as int + 2),
            label == widest(tasks@, lf, i as int),
            count == widest(tasks@, cf, i as int),
            count <= 64,
            note == saturated(widest(tasks@, nf, i as int), 0),
            0 <= widest(tasks@, nf, i as int),
        decreases n - i,
    {
        let l: usize = width(tasks[i].label.as_str());
        if l > label {
            label = l;
        }
        let d: usize = digit_count(tasks[i].done);
        let t: usize = digit_count(tasks[i].total);
        proof {
            reveal_strlit(" ");
            reveal_strlit("/");
            reveal_strlit(" 100%");
        }
        let c: usize = d + t + 7;
        if c > count {
            count = c;
        }
        let m: usize = plus(width(tasks[i].note.as_str()), 2);
        if m > note {
            note = m;
        }
        i = i + 1;
    }
    let label_w: usize = if n == 0 {
        6
    } else if label < 6 {
        6
    } else if label > 18 {
        18
    } else {
        label
    };
    let count_w: usize = if n == 0 {
        12
    } else {
        count
    };
    let used: usize = plus(label_w + 1 + count_w, note);
    let room: usize = if inner > used {
        inner - used
    } else {
        0
    };
    let bar: usize = if room < 4 {
        4
    } else if room > 56 {
        56
    } else {
        room
    };
    (label_w, count_w, bar)
}

/// Whether a cell of a track is filled by the block that slides along it.
pub open spec fn sliding(i: int, cells: int, tick: int) -> bool {
    let win = if cells / 5 > 2 {
        cells / 5
    } else {
        2
    };
    let pos = tick % (cells + win);
    i + win > pos && i < pos
}

/// The track of a bar whose end is not known yet: a block slides along it.
pub fn track(cells: usize, tick: usize) -> (r: String)
    requires
        cells <= 56,
    ensures
        r@ == Seq::new(
            cells as nat,
            |i: int|
                if sliding(i, cells as int, tick as int) {
                    FILL
                } else {
                    VOID
                },
        ),
{
    let win: usize = if cells / 5 > 2 {
        cells / 5
    } else {
        2
    };
    let pos: usize = tick % (cells + win);
    let mut c: Vec<char> = Vec::new();
    let mut i: usize = 0;
    while i < cells
        invariant
            i <= cells <= 56,
            win == if cells / 5 > 2 {
                cells / 5
            } else {
                2
            },
            pos == tick as int % (cells + win),
            c@ =~= Seq::new(
                i as nat,
                |j: int|
                    if sliding(j, cells as int, tick as int) {
                        FILL
                    } else {
                        VOID
                    },
            ),
        decreases cells - i,
    {
        c.push(
            if i + win > pos && i < pos {
                FILL
            } else {
                VOID
            },
        );
        i = i + 1;
    }
    text::string(c.as_slice())
}

/// A time of day for a number of seconds, with spaces around it.
pub open spec fn clock_text(seconds: nat) -> Seq<char> {
    " "@ + text::two_digits(seconds / 3600) + ":"@ + text::two_digits(seconds / 60 % 60) + ":"@
        + text::two_digits(seconds % 60) + " "@
}

/// The seconds a clock shows: those the run took, once it has ended.
pub open spec fn seconds_shown(finish_ms: u64, elapsed: u64) -> nat {
    if finish_ms > 0 {
        (finish_ms / 1000) as nat
    } else {
        elapsed as nat
    }
}

/// The clock of a run: how long it took, or has taken so far.
pub fn clock(finish_ms: u64, elapsed: u64) -> (r: String)
    ensures
        r@ == clock_text(seconds_shown(finish_ms, elapsed)),
{
    let e: u64 = if finish_ms > 0 {
        finish_ms / 1000
    } else {
        elapsed
    };
    let mut c = text::chars(" ");
    text::push_two_digits(&mut c, e / 3600);
    text::push_text(&mut c, ":");
    text::push_two_digits(&mut c, e / 60 % 60);
    text::push_text(&mut c, ":");
    text::push_two_digits(&mut c, e % 60);
    text::push_text(&mut c, " ");
    assert(c@ =~= clock_text(e as nat));
    text::string(c.as_slice())
}

/// What the footer says the run is doing.
pub open spec fn footer_text(
    phase: Seq<char>,
    finished: bool,
    stopped: bool,
    failed: bool,
) -> Seq<char> {
    if !finished {
        phase
    } else if stopped {
        "stopped"@
    } else if failed {
        "failed — see the last line of the log"@
    } else {
        "done"@
    }
}

/// What the footer says the run is doing.
pub fn footer_phase(phase: &str, finished: bool, stopped: bool, failed: bool) -> (r: String)
    ensures
        r@ == footer_text(phase@, finished, stopped, failed),
{
    if !finished {
        text::copy(phase)
    } else if stopped {
        text::copy("stopped")
    } else if failed {
        text::copy("failed — see the last line of the log")
    } else {
        text::copy("done")
    }
}

/// Going back leaves the log's end behind and going forward as far brings it
/// back; nothing else on the dashboard changes.
pub proof fn law_scrolling_goes_both_ways(b: Board, n: int)
    requires
        0 <= n,
        0 <= b.scroll,
        b.scroll + n <= usize::MAX,
    ensures
        gone_back(b, n).scroll == b.scroll + n,
        !gone_back(b, n).follow,
        gone_forward(gone_back(b, n), n).scroll == b.scroll,
        b.scroll == 0 && n > 0 ==> gone_forward(gone_back(b, n), n).follow,
        b.scroll > n ==> gone_forward(b, n).scroll == b.scroll - n && gone_forward(b, n).follow
            == b.follow,
        b.scroll <= n ==> gone_forward(b, n).scroll == 0 && gone_forward(b, n).follow,
        gone_back(b, n) == (Board {
            scroll: gone_back(b, n).scroll,
            follow: gone_back(b, n).follow,
            ..b
        }),
        gone_forward(b, n) == (Board {
            scroll: gone_forward(b, n).scroll,
            follow: gone_forward(b, n).follow,
            ..b
        }),
{
}

/// The arrows scroll by a row and the page keys by ten; the end key goes to the
/// end, the home key far back, and other keys leave the log alone.
pub proof fn law_keys_scroll(b: Board, c: char)
    requires
        0 <= b.scroll <= 1_000_000,
    ensures
        scrolled(b, Key::Up).scroll == b.scroll + 1 && !scrolled(b, Key::Up).follow,
        scrolled(b, Key::PageUp).scroll == b.scroll + 10 && !scrolled(b, Key::PageUp).follow,
        b.scroll > 10 ==> scrolled(b, Key::Down).scroll == b.scroll - 1 && scrolled(
            b,
            Key::PageDown,
        ).scroll == b.scroll - 10,
        scrolled(b, Key::End).scroll == 0 && scrolled(b, Key::End).follow,
        scrolled(b, Key::Home).scroll >= 1_000_000 && !scrolled(b, Key::Home).follow,
        scrolled(b, Key::Char(c)) == b && scrolled(b, Key::Tab) == b && scrolled(b, Key::Enter) == b,
{
}

/// The same keys stop a run and, once it has ended, leave its dashboard: `q`,
/// escape and control-c. Enter and the space bar only leave.
pub proof fn law_quitting_stops_then_leaves(key: Key, ctrl: bool)
    ensures
        quits(Key::Char('q'), ctrl) && quits(Key::Esc, ctrl) && quits(Key::Char('c'), true),
        !quits(Key::Char('c'), false),
        !quits(Key::Up, ctrl) && !quits(Key::Enter, ctrl) && !quits(Key::Char(' '), ctrl),
        !leaves(key, ctrl, false),
        !asks_to_stop(key, ctrl, true),
        asks_to_stop(key, ctrl, false) ==> leaves(key, ctrl, true),
        asks_to_stop(Key::Char('q'), ctrl, false) && asks_to_stop(Key::Esc, ctrl, false)
            && asks_to_stop(Key::Char('c'), true, false),
        leaves(Key::Enter, ctrl, true) && leaves(Key::Char(' '), ctrl, true),
        !asks_to_stop(Key::Enter, ctrl, false) && !asks_to_stop(Key::Char(' '), ctrl, false),
        !leaves(Key::Up, ctrl, true) && !leaves(Key::Down, ctrl, true),
{
}

/// A text that is cut off keeps its beginning and ends with an ellipsis.
pub proof fn law_clipped_texts_keep_their_beginning(s: Seq<char>, max: int)
    requires
        max >= 1,
        s.len() > max,
    ensures
        clipped(s, max).len() == max,
        clipped(s, max).take(max - 1) == s.take(max - 1),
        clipped(s, max).last() == '…',
{
    assert(clipped(s, max).take(max - 1) =~= s.take(max - 1));
}

/// The header has two columns of equal width, of at least twenty places.
pub proof fn law_columns_share_the_width(inner: int)
    requires
        inner >= 0,
    ensures
        column_of(inner) >= 20,
        inner >= 42 ==> 2 * column_of(inner) <= inner < 2 * column_of(inner) + 2,
        inner < 42 ==> column_of(inner) == 20,
{
}

/// A clock shows hours, minutes and seconds, two digits each.
pub proof fn law_clocks_show_the_time(h: nat, m: nat, s: nat, finish_ms: u64, elapsed: u64)
    requires
        m < 60,
        s < 60,
    ensures
        clock_text((3600 * h + 60 * m + s) as nat) == " "@ + text::two_digits(h) + ":"@
            + text::two_digits(m) + ":"@ + text::two_digits(s) + " "@,
        finish_ms == 0 ==> seconds_shown(finish_ms, elapsed) == elapsed,
        finish_ms > 0 ==> 1000 * seconds_shown(finish_ms, elapsed) <= finish_ms < 1000 * (
        seconds_shown(finish_ms, elapsed) + 1),
{
    let t = (3600 * h + 60 * m + s) as nat;
    assert(t / 3600 == h && t / 60 == 60 * h + m && t % 60 == s);
    assert((60 * h + m) % 60 == m);
}

/// The footer shows the phase of a run, and at its end how it ended: that it
/// was stopped comes before that it failed.
pub proof fn law_footers_tell_the_end(phase: Seq<char>, stopped: bool, failed: bool)
    ensures
        footer_text(phase, false, stopped, failed) == phase,
        footer_text(phase, true, true, failed) == "stopped"@,
        footer_text(phase, true, false, true) == "failed — see the last line of the log"@,
        footer_text(phase, true, false, false) == "done"@,
{
}

proof fn lemma_widest(tasks: Seq<Task>, f: spec_fn(Task) -> int, n: int)
    requires
        0 <= n <= tasks.len(),
    ensures
        widest(tasks, f, n) >= 0,
        forall|i: int| 0 <= i < n ==> f(#[trigger] tasks[i]) <= widest(tasks, f, n),
        widest(tasks, f, n) > 0 ==> exists|i: int| 0 <= i < n && f(#[trigger] tasks[i]) == widest(
            tasks,
            f,
            n,
        ),
    decreases n,
{
    if n > 0 {
        lemma_widest(tasks, f, n - 1);
        let m = widest(tasks, f, n - 1);
        if f(tasks[n - 1]) <= m && m > 0 {
            let i = choose|i: int| 0 <= i < n - 1 && f(#[trigger] tasks[i]) == m;
            assert(f(tasks[i]) == widest(tasks, f, n));
        }
    }
}

/// Every label of up to eighteen letters has room, every count does, and the
/// bar takes what is left, within its limits.
pub proof fn law_bars_leave_room(tasks: Seq<Task>, inner: int, i: int)
    requires
        0 <= i < tasks.len(),
    ensures
        ({
            let (label, count, cells) = bar_widths(tasks, inner);
            &&& 6 <= label <= 18
            &&& tasks[i].label@.len() <= 18 ==> tasks[i].label@.len() <= label
            &&& count_text(tasks[i].done, tasks[i].total).len() <= count
            &&& 4 <= cells <= 56
            &&& cells > 4 ==> label + 1 + count + cells + tasks[i].note@.len() + 2 <= inner
        }),
{
    let n = tasks.len() as int;
    lemma_widest(tasks, |t: Task| t.label@.len() as int, n);
    lemma_widest(tasks, |t: Task| count_text(t.done, t.total).len() as int, n);
    lemma_widest(tasks, |t: Task| t.note@.len() as int + 2, n);
    let l = |t: Task| t.label@.len() as int;
    let c = |t: Task| count_text(t.done, t.total).len() as int;
    let o = |t: Task| t.note@.len() as int + 2;
    assert(l(tasks[i]) <= widest(tasks, l, n));
    assert(c(tasks[i]) <= widest(tasks, c, n));
    assert(o(tasks[i]) <= widest(tasks, o, n));
}

/// On a bar without an end a piece slides along: it moves by a cell with every
/// tick, is never longer than a fifth of the bar or two cells, and begins
/// again when it has left it.
pub proof fn law_pieces_slide(i: int, cells: int, tick: int)
    requires
        0 <= i < cells,
        10 <= cells,
        0 <= tick,
        tick % (cells + cells / 5) + 1 < cells + cells / 5,
    ensures
        sliding(i, cells, tick) ==> sliding(i + 1, cells, tick + 1),
        sliding(i + 1, cells, tick + 1) ==> sliding(i, cells, tick),
        !sliding(i, cells, 0),
        sliding(i, cells, tick) ==> !sliding(i + cells / 5, cells, tick),
{
    let p = cells + cells / 5;
    vstd::arithmetic::div_mod::lemma_fundamental_div_mod(tick, p);
    vstd::arithmetic::div_mod::lemma_mod_bound(tick, p);
    assert(p * (tick / p) == tick / p * p) by (nonlinear_arith);
    vstd::arithmetic::div_mod::lemma_fundamental_div_mod_converse(
        tick + 1,
        p,
        tick / p,
        tick % p + 1,
    );
    assert(0int % p == 0) by {
        vstd::arithmetic::div_mod::lemma_small_mod(0, p as nat);
    }
}

/// Lines are coloured by what they say: errors by how they begin, warnings and
/// problems by a word in them.
pub proof fn law_lines_are_coloured_by_what_they_say(a: Seq<char>, b: Seq<char>)
    requires
        a.len() > 6,
        !text::is_white(a[0]),
        a.take(6) != "ERROR:"@,
    ensures
        tone_of("ERROR:"@ + b) is Error,
        tone_of(a + "WARNING"@ + b) is Warning,
        tone_of(a + "NOT ALIGNED"@ + b) is Warning,
        tone_of(a + "implausible"@ + b) is Warning,
        tone_of(a + "LOAD FAILED"@ + b) is Warning || tone_of(a + "LOAD FAILED"@ + b) is Problem,
        tone_of(Seq::<char>::empty()) is Normal,
{
    reveal_strlit("ERROR:");
    reveal_strlit("WARNING");
    reveal_strlit("NOT ALIGNED");
    reveal_strlit("implausible");
    reveal_strlit("LOAD FAILED");
    reveal_strlit("different dimensions");
    reveal_strlit("  ");
    let e = "ERROR:"@ + b;
    assert(e[0] == 'E');
    text::law_texts_occur_inside(a, "ERROR:"@, b, a);
    lemma_starts_like(a, "WARNING"@, b);
    lemma_starts_like(a, "NOT ALIGNED"@, b);
    lemma_starts_like(a, "implausible"@, b);
    lemma_starts_like(a, "LOAD FAILED"@, b);
    let none = Seq::<char>::empty();
    assert(text::trim_start(none) == none);
}

proof fn lemma_starts_like(a: Seq<char>, m: Seq<char>, b: Seq<char>)
    requires
        a.len() > 6,
        !text::is_white(a[0]),
        a.take(6) != "ERROR:"@,
    ensures
        text::trim_start(a + m + b) == a + m + b,
        text::occurs(a + m + b, m),
        !text::stands_at(a + m + b, "ERROR:"@, 0),
{
    reveal_strlit("ERROR:");
    text::law_texts_occur_inside(a, m, b, a);
    assert((a + m + b)[0] == a[0]);
    assert((a + m + b).subrange(0, 6) =~= a.take(6));
}

/// Only as many of the latest lines are laid out as can show, with some to
/// spare, and they stay in order.
pub proof fn law_latest_lines_are_laid_out(log: Seq<Seq<char>>, h: int, scroll: int, i: int)
    requires
        h >= 0,
        scroll >= 0,
    ensures
        log.len() <= h + scroll + 4 ==> tail(log, h, scroll) == log,
        log.len() > h + scroll + 4 ==> tail(log, h, scroll).len() == h + scroll + 4,
        log.len() > h + scroll + 4 && 0 <= i < h + scroll + 4 ==> tail(log, h, scroll)[i]
            == log[log.len() - (h + scroll + 4) + i],
{
}

/// The log shows as many rows as there is room for, so many before the last as
/// it is scrolled back, and no further back than the first. `rows` are the rows
/// that are laid out.
pub proof fn law_log_shows_what_it_is_scrolled_to(
    b: Board,
    w: int,
    h: int,
    rows: Seq<Seq<char>>,
    i: int,
)
    requires
        h > 0,
        b.scroll >= 0,
        rows == all_rows(tail(b.log, h, b.scroll), w),
    ensures
        rows.len() <= h ==> shown_rows(b, w, h) == rows,
        rows.len() > h ==> shown_rows(b, w, h).len() == h,
        rows.len() >= h + b.scroll && 0 <= i < h ==> shown_rows(b, w, h)[i] == rows[rows.len()
            - b.scroll - h + i],
        h < rows.len() < h + b.scroll && 0 <= i < h ==> shown_rows(b, w, h)[i] == rows[i],
{
}

/// A piece is a fifth of the bar wide, two cells at least, and moves with every
/// tick until it has left the bar; then it comes in again.
pub proof fn law_pieces_are_a_fifth_wide(i: int, cells: int, win: int, tick: int)
    requires
        cells > 0,
        win >= 2 && win >= cells / 5,
        win == 2 || win == cells / 5,
        0 <= tick < cells + win,
    ensures
        sliding(i, cells, tick) <==> tick - win < i < tick,
        sliding(i, cells, tick + cells + win) == sliding(i, cells, tick),
{
    assert((tick + (cells + win)) % (cells + win) == tick) by (nonlinear_arith)
        requires
            0 <= tick < cells + win,
    ;
    assert(tick % (cells + win) == tick) by (nonlinear_arith)
        requires
            0 <= tick < cells + win,
    ;
}

} // verus!
