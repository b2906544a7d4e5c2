//! What a run reports, and where it goes: line by line to the terminal, or to
//! a dashboard with a summary, a bar per pass and the log.
use crate::text;
use std::collections::VecDeque;
use vstd::prelude::*;

pub mod command;
pub mod dash;
pub mod edit;
pub mod form;
pub mod wizard;

verus! {

/// Log lines kept for the dashboard's scrollback.
pub const LOG_CAP: usize = 8192;

/// One progress bar: a pass over the frames.
pub struct Task {
    /// What the bar is addressed by.
    pub key: String,
    pub label: String,
    pub done: u64,
    /// Zero where the size of the work is not known yet.
    pub total: u64,
    pub finished: bool,
    /// What stays next to the bar once the pass is over.
    pub note: String,
}

/// Everything the dashboard draws.
pub struct State {
    /// Summary of the run, in pairs.
    pub header: Vec<(String, String)>,
    pub tasks: Vec<Task>,
    pub log: VecDeque<String>,
    /// Log lines that are no longer kept.
    pub dropped: usize,
    pub warnings: Vec<String>,
    /// What the run is doing right now.
    pub phase: String,
    /// Whether the log sticks to its end.
    pub follow: bool,
    /// Rows scrolled back from the end when it does not.
    pub scroll: usize,
}

/// A dashboard.
pub struct Ui {
    pub state: State,
    /// Milliseconds the run took, zero while it runs.
    pub finish_ms: u64,
    /// Whether the run returned an error.
    pub failed: bool,
    /// Whether the run is over.
    pub done: bool,
}

/// Where the report goes.
pub enum Sink {
    /// Line by line to the terminal.
    Plain,
    Tui(Ui),
}

/// What a progress bar shows.
pub struct Bar {
    pub key: Seq<char>,
    pub label: Seq<char>,
    pub done: u64,
    pub total: u64,
    pub finished: bool,
    pub note: Seq<char>,
}

/// What a dashboard shows.
pub struct Board {
    pub header: Seq<(Seq<char>, Seq<char>)>,
    pub tasks: Seq<Bar>,
    pub log: Seq<Seq<char>>,
    pub dropped: int,
    pub warnings: Seq<Seq<char>>,
    pub phase: Seq<char>,
    pub follow: bool,
    pub scroll: int,
}

impl View for Task {
    type V = Bar;

    open spec fn view(&self) -> Bar {
        Bar {
            key: self.key@,
            label: self.label@,
            done: self.done,
            total: self.total,
            finished: self.finished,
            note: self.note@,
        }
    }
}

/// The texts of a list.
pub open spec fn texts(v: Seq<String>) -> Seq<Seq<char>> {
    v.map_values(|s: String| s@)
}

/// The texts of a list of pairs.
pub open spec fn pairs(v: Seq<(String, String)>) -> Seq<(Seq<char>, Seq<char>)> {
    v.map_values(|p: (String, String)| (p.0@, p.1@))
}

/// What a list of bars shows.
pub open spec fn bars(v: Seq<Task>) -> Seq<Bar> {
    v.map_values(|t: Task| t@)
}

impl View for State {
    type V = Board;

    open spec fn view(&self) -> Board {
        Board {
            header: pairs(self.header@),
            tasks: bars(self.tasks@),
            log: texts(self.log@),
            dropped: self.dropped as int,
            warnings: texts(self.warnings@),
            phase: self.phase@,
            follow: self.follow,
            scroll: self.scroll as int,
        }
    }
}

impl View for Sink {
    type V = Option<Board>;

    open spec fn view(&self) -> Option<Board> {
        match *self {
            Sink::Plain => None,
            Sink::Tui(ui) => Some(ui.state@),
        }
    }
}

/// What changes of a report besides what it shows: nothing.
pub open spec fn same_run(a: Sink, b: Sink) -> bool {
    match (a, b) {
        (Sink::Plain, Sink::Plain) => true,
        (Sink::Tui(x), Sink::Tui(y)) => x.finish_ms == y.finish_ms && x.failed == y.failed
            && x.done == y.done,
        _ => false,
    }
}

/// A dashboard on which nothing has happened yet.
pub open spec fn blank_board(header: Seq<(Seq<char>, Seq<char>)>) -> Board {
    Board {
        header,
        tasks: Seq::empty(),
        log: Seq::empty(),
        dropped: 0,
        warnings: Seq::empty(),
        phase: Seq::empty(),
        follow: true,
        scroll: 0,
    }
}

impl State {
    /// A dashboard with a summary of the run, that follows the log.
    pub fn new(header: Vec<(String, String)>) -> (s: State)
        ensures
            s@ == blank_board(pairs(header@)),
    {
        let s = State {
            header,
            tasks: Vec::new(),
            log: VecDeque::new(),
            dropped: 0,
            warnings: Vec::new(),
            phase: String::new(),
            follow: true,
            scroll: 0,
        };
        assert(s@.tasks =~= Seq::empty());
        assert(s@.log =~= Seq::empty());
        assert(s@.warnings =~= Seq::empty());
        assert(s@.phase =~= Seq::empty());
        s
    }
}

/// Takes over the report for a run with the given summary.
pub fn start_dashboard(header: Vec<(String, String)>) -> (s: Sink)
    ensures
        s is Tui,
        s@ == Some(blank_board(pairs(header@))),
        s matches Sink::Tui(ui) && ui.finish_ms == 0 && !ui.failed && !ui.done,
{
    Sink::Tui(Ui { state: State::new(header), finish_ms: 0, failed: false, done: false })
}

/// Whether a line reports a problem: what the run itself marks as one.
pub open spec fn warns(line: Seq<char>) -> bool {
    let l = text::trim_start(line);
    ||| text::occurs(l, "WARNING"@)
    ||| text::occurs(l, "LOAD FAILED"@)
    ||| text::occurs(l, "NOT ALIGNED"@)
    ||| text::occurs(l, "different dimensions"@)
    ||| text::occurs(l, "implausible alignment"@)
}

/// Whether a line is worth repeating once the screen is gone.
pub fn is_warning(line: &str) -> (b: bool)
    ensures
        b == warns(line@),
{
    let c = text::chars(line);
    let l = text::trimmed_start(c.as_slice());
    text::contains(l.as_slice(), "WARNING") || text::contains(l.as_slice(), "LOAD FAILED")
        || text::contains(l.as_slice(), "NOT ALIGNED") || text::contains(
        l.as_slice(),
        "different dimensions",
    ) || text::contains(l.as_slice(), "implausible alignment")
}

/// A dashboard after a line is reported: the line is the last of the log, the
/// oldest one gives way where there are too many, and a warning is kept.
pub open spec fn said(b: Board, line: Seq<char>) -> Board {
    let full = b.log.push(line);
    let over = full.len() > LOG_CAP;
    Board {
        warnings: if warns(line) {
            b.warnings.push(text::trim(line))
        } else {
            b.warnings
        },
        log: if over {
            full.drop_first()
        } else {
            full
        },
        dropped: if over {
            b.dropped + 1
        } else {
            b.dropped
        },
        ..b
    }
}

/// Reports a line: to the dashboard, or back to the caller to be printed.
pub fn say(sink: &mut Sink, line: String) -> (print: Option<String>)
    requires
        old(sink)@ is Some && old(sink)@->0.log.len() >= LOG_CAP ==> old(sink)@->0.dropped
            < usize::MAX,
    ensures
        old(sink)@ is None ==> print is Some && print->0@ == line@,
        old(sink)@ is Some ==> print is None,
        final(sink)@ == match old(sink)@ {
            None => None,
            Some(b) => Some(said(b, line@)),
        },
        same_run(*old(sink), *final(sink)),
{
    match sink {
        Sink::Plain => Some(line),
        Sink::Tui(ui) => {
            let ghost before = ui.state@;
            let ghost warnings0 = ui.state.warnings@;
            let ghost log0 = ui.state.log@;
            if is_warning(line.as_str()) {
                let c = text::chars(line.as_str());
                let t = text::trimmed(c.as_slice());
                let w = text::string(t.as_slice());
                ui.state.warnings.push(w);
                assert(texts(ui.state.warnings@) =~= texts(warnings0).push(w@));
            }
            let ghost l = line@;
            ui.state.log.push_back(line);
            assert(texts(ui.state.log@) =~= texts(log0).push(l));
            let ghost full = ui.state.log@;
            if ui.state.log.len() > LOG_CAP {
                ui.state.log.pop_front();
                assert(texts(ui.state.log@) =~= texts(full).drop_first());
                ui.state.dropped = ui.state.dropped + 1;
            }
            assert(ui.state@ == said(before, l));
            None
        },
    }
}

/// The summary with one field set, replaced where it is already there.
pub open spec fn headed(
    h: Seq<(Seq<char>, Seq<char>)>,
    key: Seq<char>,
    value: Seq<char>,
) -> Seq<(Seq<char>, Seq<char>)> {
    match key_at(h, key) {
        Some(k) => h.update(k, (h[k].0, value)),
        None => h.push((key, value)),
    }
}

/// Where a field of the summary is.
pub open spec fn key_at(h: Seq<(Seq<char>, Seq<char>)>, key: Seq<char>) -> Option<int>
    decreases h.len(),
{
    if h.len() == 0 {
        None
    } else if h[0].0 == key {
        Some(0)
    } else {
        match key_at(h.drop_first(), key) {
            Some(k) => Some(k + 1),
            None => None,
        }
    }
}

fn find_key(h: &Vec<(String, String)>, key: &str) -> (r: Option<usize>)
    ensures
        r is Some <==> key_at(pairs(h@), key@) is Some,
        r is Some ==> key_at(pairs(h@), key@) == Some(r->0 as int) && r->0 < h@.len(),
{
    let k = text::chars(key);
    let ghost p = pairs(h@);
    let mut i: usize = 0;
    assert(p.skip(0) =~= p);
    while i < h.len()
        invariant
            i <= h@.len(),
            p == pairs(h@),
            k@ == key@,
            match key_at(p.skip(i as int), key@) {
                Some(m) => key_at(p, key@) == Some(m + i),
                None => key_at(p, key@) is None,
            },
        decreases h@.len() - i,
    {
        assert(p.skip(i as int).drop_first() =~= p.skip(i + 1));
        assert(p.skip(i as int)[0] == (h@[i as int].0@, h@[i as int].1@));
        let c = text::chars(h[i].0.as_str());
        if text::same(c.as_slice(), k.as_slice()) {
            return Some(i);
        }
        i = i + 1;
    }
    None
}

/// Sets one field of the summary.
pub fn head(sink: &mut Sink, key: &str, value: String)
    ensures
        final(sink)@ == match old(sink)@ {
            None => None,
            Some(b) => Some(Board { header: headed(b.header, key@, value@), ..b }),
        },
        same_run(*old(sink), *final(sink)),
{
    match sink {
        Sink::Plain => {},
        Sink::Tui(ui) => {
            let ghost h0 = ui.state.header@;
            let ghost v = value@;
            match find_key(&ui.state.header, key) {
                Some(k) => {
                    let name = text::copy(ui.state.header[k].0.as_str());
                    let ghost n = name@;
                    ui.state.header.set(k, (name, value));
                    assert(pairs(ui.state.header@) =~= pairs(h0).update(k as int, (n, v)));
                },
                None => {
                    let name = text::copy(key);
                    let ghost n = name@;
                    ui.state.header.push((name, value));
                    assert(pairs(ui.state.header@) =~= pairs(h0).push((n, v)));
                },
            }
        },
    }
}

/// Says what the run is doing right now.
pub fn phase(sink: &mut Sink, t: &str)
    ensures
        final(sink)@ == match old(sink)@ {
            None => None,
            Some(b) => Some(Board { phase: t@, ..b }),
        },
        same_run(*old(sink), *final(sink)),
{
    match sink {
        Sink::Plain => {},
        Sink::Tui(ui) => {
            ui.state.phase = text::copy(t);
        },
    }
}

/// Where a bar is.
pub open spec fn bar_at(tasks: Seq<Bar>, key: Seq<char>) -> Option<int>
    decreases tasks.len(),
{
    if tasks.len() == 0 {
        None
    } else if tasks[0].key == key {
        Some(0)
    } else {
        match bar_at(tasks.drop_first(), key) {
            Some(k) => Some(k + 1),
            None => None,
        }
    }
}

/// The bar a key addresses, if there is one.
fn with_task(tasks: &Vec<Task>, key: &str) -> (r: Option<usize>)
    ensures
        r is Some <==> bar_at(bars(tasks@), key@) is Some,
        r is Some ==> bar_at(bars(tasks@), key@) == Some(r->0 as int) && r->0 < tasks@.len(),
{
    let k = text::chars(key);
    let ghost p = bars(tasks@);
    let mut i: usize = 0;
    assert(p.skip(0) =~= p);
    while i < tasks.len()
        invariant
            i <= tasks@.len(),
            p == bars(tasks@),
            k@ == key@,
            match bar_at(p.skip(i as int), key@) {
                Some(m) => bar_at(p, key@) == Some(m + i),
                None => bar_at(p, key@) is None,
            },
        decreases tasks@.len() - i,
    {
        assert(p.skip(i as int).drop_first() =~= p.skip(i + 1));
        assert(p.skip(i as int)[0] == tasks@[i as int]@);
        let c = text::chars(tasks[i].key.as_str());
        if text::same(c.as_slice(), k.as_slice()) {
            return Some(i);
        }
        i = i + 1;
    }
    None
}

/// The bars with one of them changed.
pub open spec fn changed(tasks: Seq<Bar>, key: Seq<char>, f: spec_fn(Bar) -> Bar) -> Seq<Bar> {
    match bar_at(tasks, key) {
        Some(k) => tasks.update(k, f(tasks[k])),
        None => tasks,
    }
}

/// A bar at its start.
pub open spec fn fresh_bar(key: Seq<char>, label: Seq<char>, total: u64) -> Bar {
    Bar { key, label, done: 0, total, finished: false, note: Seq::empty() }
}

/// The tasks once one has begun: anew in its place, or behind the others.
pub open spec fn begun(
    tasks: Seq<Bar>,
    key: Seq<char>,
    label: Seq<char>,
    total: u64,
) -> Seq<Bar> {
    match bar_at(tasks, key) {
        Some(k) => tasks.update(k, fresh_bar(tasks[k].key, label, total)),
        None => tasks.push(fresh_bar(key, label, total)),
    }
}

/// A task that has come as far as `done`.
pub open spec fn moved_to(t: Bar, done: u64) -> Bar {
    Bar { done, ..t }
}

/// Opens a bar, or starts it anew. A total of zero means that the size of the
/// work is not known yet.
pub fn task_begin(sink: &mut Sink, key: &str, label: &str, total: u64)
    ensures
        final(sink)@ == match old(sink)@ {
            None => None,
            Some(b) => Some(
                Board { tasks: begun(b.tasks, key@, label@, total), ..b },
            ),
        },
        same_run(*old(sink), *final(sink)),
{
    match sink {
        Sink::Plain => {},
        Sink::Tui(ui) => {
            let ghost t0 = ui.state.tasks@;
            let at = with_task(&ui.state.tasks, key);
            let name = match at {
                Some(k) => text::copy(ui.state.tasks[k].key.as_str()),
                None => text::copy(key),
            };
            let t = Task {
                key: name,
                label: text::copy(label),
                done: 0,
                total,
                finished: false,
                note: String::new(),
            };
            let ghost shown = t@;
            assert(shown.note =~= Seq::empty());
            match at {
                Some(k) => {
                    ui.state.tasks.set(k, t);
                    assert(bars(ui.state.tasks@) =~= bars(t0).update(k as int, shown));
                },
                None => {
                    ui.state.tasks.push(t);
                    assert(bars(ui.state.tasks@) =~= bars(t0).push(shown));
                },
            }
        },
    }
}

/// Puts a bar in the place of another one.
fn put_task(ui: &mut Ui, k: usize, done: u64, finished: bool, note: String)
    requires
        k < old(ui).state.tasks@.len(),
    ensures
        ({
            let t = old(ui).state.tasks@[k as int]@;
            &&& final(ui).state@ == (Board {
                tasks: bars(old(ui).state.tasks@).update(
                    k as int,
                    Bar { done, finished, note: note@, ..t },
                ),
                ..old(ui).state@
            })
            &&& final(ui).finish_ms == old(ui).finish_ms
            &&& final(ui).failed == old(ui).failed
            &&& final(ui).done == old(ui).done
        }),
{
    let ghost t0 = ui.state.tasks@;
    let t = Task {
        key: text::copy(ui.state.tasks[k].key.as_str()),
        label: text::copy(ui.state.tasks[k].label.as_str()),
        done,
        total: ui.state.tasks[k].total,
        finished,
        note,
    };
    let ghost shown = t@;
    ui.state.tasks.set(k, t);
    assert(bars(ui.state.tasks@) =~= bars(t0).update(k as int, shown));
}

/// Advances a bar by `n`. A key without a bar is ignored.
pub fn task_add(sink: &mut Sink, key: &str, n: u64)
    requires
        old(sink)@ matches Some(b) ==> (bar_at(b.tasks, key@) matches Some(k) ==> b.tasks[k].done + n
            <= u64::MAX),
    ensures
        final(sink)@ == match old(sink)@ {
            None => None,
            Some(b) => Some(
                Board {
                    tasks: changed(b.tasks, key@, |t: Bar| moved_to(t, (t.done + n) as u64)),
                    ..b
                },
            ),
        },
        same_run(*old(sink), *final(sink)),
{
    match sink {
        Sink::Plain => {},
        Sink::Tui(ui) => {
            if let Some(k) = with_task(&ui.state.tasks, key) {
                let done: u64 = ui.state.tasks[k].done + n;
                let finished: bool = ui.state.tasks[k].finished;
                let note = text::copy(ui.state.tasks[k].note.as_str());
                put_task(ui, k, done, finished, note);
            }
        },
    }
}

/// Sets a bar's position.
pub fn task_set(sink: &mut Sink, key: &str, done: u64)
    ensures
        final(sink)@ == match old(sink)@ {
            None => None,
            Some(b) => Some(
                Board { tasks: changed(b.tasks, key@, |t: Bar| moved_to(t, done)), ..b },
            ),
        },
        same_run(*old(sink), *final(sink)),
{
    match sink {
        Sink::Plain => {},
        Sink::Tui(ui) => {
            if let Some(k) = with_task(&ui.state.tasks, key) {
                let finished: bool = ui.state.tasks[k].finished;
                let note = text::copy(ui.state.tasks[k].note.as_str());
                put_task(ui, k, done, finished, note);
            }
        },
    }
}

/// A bar that is closed: it does not stand past its end.
pub open spec fn closed(t: Bar, note: Seq<char>) -> Bar {
    Bar {
        finished: true,
        done: if t.total > 0 && t.done > t.total {
            t.total
        } else {
            t.done
        },
        note,
        ..t
    }
}

/// Closes a bar. The note is what stays next to it.
pub fn task_end(sink: &mut Sink, key: &str, note: String)
    ensures
        final(sink)@ == match old(sink)@ {
            None => None,
            Some(b) => Some(
                Board { tasks: changed(b.tasks, key@, |t: Bar| closed(t, note@)), ..b },
            ),
        },
        same_run(*old(sink), *final(sink)),
{
    match sink {
        Sink::Plain => {},
        Sink::Tui(ui) => {
            if let Some(k) = with_task(&ui.state.tasks, key) {
                let d: u64 = ui.state.tasks[k].done;
                let total: u64 = ui.state.tasks[k].total;
                let done: u64 = if total > 0 && d > total {
                    total
                } else {
                    d
                };
                put_task(ui, k, done, true, note);
            }
        },
    }
}

/// Whether the user has asked to stop.
pub struct Stop {
    pub asked: bool,
}

/// Whether the user has asked to stop. A run looks between frames, so it never
/// gives up in the middle of writing one.
pub fn aborted(stop: &Stop) -> (b: bool)
    ensures
        b == stop.asked,
{
    stop.asked
}

/// Asks the run to stop.
pub fn request_abort(stop: &mut Stop)
    ensures
        final(stop).asked,
{
    stop.asked = true;
}

/// Whether a run failed: with an error that is not the user's own stopping it.
pub open spec fn counts_as_failure(error: bool, stopped: bool) -> bool {
    error && !stopped
}

/// The end of a run: an error is reported, unless it is that the user asked to
/// stop, and the clock stops.
pub fn finish(sink: &mut Sink, error: Option<String>, stopped: bool, elapsed_ms: u64)
    requires
        old(sink)@ is Some && old(sink)@->0.log.len() >= LOG_CAP ==> old(sink)@->0.dropped
            < usize::MAX,
    ensures
        final(sink)@ == match old(sink)@ {
            None => None,
            Some(b) => Some(
                if counts_as_failure(error is Some, stopped) {
                    said(b, "ERROR: "@ + error->0@)
                } else {
                    b
                },
            ),
        },
        *final(sink) matches Sink::Tui(ui) ==> ui.finish_ms == elapsed_ms && ui.done && (*old(
            sink,
        ) matches Sink::Tui(was) && ui.failed == (was.failed || counts_as_failure(
            error is Some,
            stopped,
        ))),
{
    let report: bool = match &error {
        Some(_) => !stopped,
        None => false,
    };
    if report {
        if let Some(e) = error {
            let mut c = text::chars("ERROR: ");
            text::push_text(&mut c, e.as_str());
            let line = text::string(c.as_slice());
            let _ = say(sink, line);
        }
    }
    match sink {
        Sink::Plain => {},
        Sink::Tui(ui) => {
            if report {
                ui.failed = true;
            }
            ui.finish_ms = elapsed_ms;
            ui.done = true;
        },
    }
}

/// A line of the summary for a field.
pub open spec fn field_line(p: (Seq<char>, Seq<char>)) -> Seq<char> {
    text::padded(p.0, 10) + " "@ + p.1
}

/// A line of the summary for a pass.
pub open spec fn task_line(t: Bar) -> Seq<char> {
    text::padded(t.label, 10) + " "@ + text::decimal(t.done as nat) + "/"@ + text::decimal(
        t.total as nat,
    ) + if t.note.len() == 0 {
        Seq::empty()
    } else {
        "  "@ + t.note
    }
}

/// The lines of the summary on the warnings: how many there are, and every one
/// of them.
pub open spec fn warning_lines(w: Seq<Seq<char>>) -> Seq<Seq<char>> {
    if w.len() == 0 {
        Seq::empty()
    } else {
        seq![text::decimal(w.len()) + " warning(s):"@] + Seq::new(w.len(), |i: int| "  "@ + w[i])
    }
}

/// What is printed once the screen is given back.
pub open spec fn summary_of(b: Board) -> Seq<Seq<char>> {
    Seq::new(b.header.len(), |i: int| field_line(b.header[i])) + Seq::new(
        b.tasks.len(),
        |i: int| task_line(b.tasks[i]),
    ) + warning_lines(b.warnings)
}

/// Appends a line.
pub(crate) fn push_line(lines: &mut Vec<String>, c: &Vec<char>)
    ensures
        texts(final(lines)@) == texts(old(lines)@).push(c@),
{
    let ghost was = lines@;
    let s = text::string(c.as_slice());
    lines.push(s);
    assert(texts(lines@) =~= texts(was).push(c@));
}

/// The summary of a run, line by line: its settings, what each pass got
/// through, and every warning.
pub fn shutdown(state: &State) -> (lines: Vec<String>)
    ensures
        texts(lines@) == summary_of(state@),
{
    let ghost b = state@;
    let mut lines: Vec<String> = Vec::new();
    let mut i: usize = 0;
    while i < state.header.len()
        invariant
            i <= state.header@.len(),
            b == state@,
            texts(lines@) =~= Seq::new(i as nat, |j: int| field_line(b.header[j])),
        decreases state.header@.len() - i,
    {
        let mut c: Vec<char> = Vec::new();
        text::push_padded(&mut c, state.header[i].0.as_str(), 10);
        text::push_text(&mut c, " ");
        text::push_text(&mut c, state.header[i].1.as_str());
        assert(c@ =~= field_line(b.header[i as int]));
        push_line(&mut lines, &c);
        i = i + 1;
    }
    let ghost first = texts(lines@);
    let mut k: usize = 0;
    while k < state.tasks.len()
        invariant
            k <= state.tasks@.len(),
            b == state@,
            texts(lines@) =~= first + Seq::new(k as nat, |j: int| task_line(b.tasks[j])),
        decreases state.tasks@.len() - k,
    {
        let t = &state.tasks[k];
        let mut c: Vec<char> = Vec::new();
        text::push_padded(&mut c, t.label.as_str(), 10);
        text::push_text(&mut c, " ");
        text::push_decimal(&mut c, t.done);
        text::push_text(&mut c, "/");
        text::push_decimal(&mut c, t.total);
        let note = text::chars(t.note.as_str());
        if note.len() > 0 {
            text::push_text(&mut c, "  ");
            text::push_text(&mut c, t.note.as_str());
        }
        assert(b.tasks[k as int] == t@);
        assert(c@ =~= task_line(b.tasks[k as int]));
        push_line(&mut lines, &c);
        k = k + 1;
    }
    let ghost second = texts(lines@);
    let n: usize = state.warnings.len();
    if n > 0 {
        let mut c: Vec<char> = Vec::new();
        text::push_decimal(&mut c, n as u64);
        text::push_text(&mut c, " warning(s):");
        assert(c@ =~= text::decimal(n as nat) + " warning(s):"@);
        let ghost title = c@;
        push_line(&mut lines, &c);
        let mut w: usize = 0;
        assert(texts(lines@) =~= second + seq![title] + Seq::new(0, |j: int| "  "@ + b.warnings[j]));
        while w < n
            invariant
                w <= n == state.warnings@.len(),
                b == state@,
                texts(lines@) =~= second + seq![title] + Seq::new(
                    w as nat,
                    |j: int| "  "@ + b.warnings[j],
                ),
            decreases n - w,
        {
            let mut c: Vec<char> = Vec::new();
            text::push_text(&mut c, "  ");
            text::push_text(&mut c, state.warnings[w].as_str());
            assert(c@ =~= "  "@ + b.warnings[w as int]);
            push_line(&mut lines, &c);
            w = w + 1;
        }
    }
    assert(texts(lines@) =~= summary_of(b));
    lines
}

/// Reporting a line never loses one silently: what is kept and what was
/// dropped add up to what was said, every warning is kept, the log never grows
/// past its limit, and it holds the latest lines in order.
pub proof fn law_log_keeps_the_latest(b: Board, line: Seq<char>)
    requires
        b.log.len() <= LOG_CAP,
    ensures
        LOG_CAP == 8192,
        said(b, line).log.len() <= LOG_CAP,
        said(b, line).dropped + said(b, line).log.len() == b.dropped + b.log.len() + 1,
        said(b, line).log.last() == line,
        b.log.len() < LOG_CAP ==> said(b, line).log == b.log.push(line),
        b.log.len() == LOG_CAP ==> said(b, line).log == b.log.drop_first().push(line),
        said(b, line).warnings == if warns(line) {
            b.warnings.push(text::trim(line))
        } else {
            b.warnings
        },
        said(b, line).header == b.header,
        said(b, line).tasks == b.tasks,
        said(b, line).phase == b.phase,
        said(b, line).follow == b.follow,
        said(b, line).scroll == b.scroll,
{
    assert(b.log.push(line).drop_first() =~= b.log.drop_first().push(line) || b.log.len() == 0);
}

/// Setting a field twice leaves the last value, in one place.
pub proof fn law_head_replaces(
    h: Seq<(Seq<char>, Seq<char>)>,
    key: Seq<char>,
    v: Seq<char>,
    w: Seq<char>,
)
    ensures
        headed(headed(h, key, v), key, w) == headed(h, key, w),
{
    lemma_key_at(h, key);
    let h1 = headed(h, key, v);
    match key_at(h, key) {
        Some(k) => {
            lemma_key_is(h1, key, k);
            assert(headed(h1, key, w) =~= headed(h, key, w));
        },
        None => {
            lemma_key_is(h1, key, h.len() as int);
            assert(headed(h1, key, w) =~= headed(h, key, w));
        },
    }
}

proof fn lemma_key_at(h: Seq<(Seq<char>, Seq<char>)>, key: Seq<char>)
    ensures
        match key_at(h, key) {
            Some(k) => 0 <= k < h.len() && h[k].0 == key && forall|j: int|
                0 <= j < k ==> (#[trigger] h[j]).0 != key,
            None => forall|j: int| 0 <= j < h.len() ==> (#[trigger] h[j]).0 != key,
        },
    decreases h.len(),
{
    if h.len() > 0 && h[0].0 != key {
        let r = h.drop_first();
        lemma_key_at(r, key);
        match key_at(r, key) {
            Some(m) => {
                assert(h[m + 1] == r[m]);
                assert forall|j: int| 0 <= j < m + 1 implies (#[trigger] h[j]).0 != key by {
                    if j > 0 {
                        assert(r[j - 1] == h[j]);
                    }
                }
            },
            None => {
                assert forall|j: int| 0 <= j < h.len() implies (#[trigger] h[j]).0 != key by {
                    if j > 0 {
                        assert(r[j - 1] == h[j]);
                    }
                }
            },
        }
    }
}

proof fn lemma_key_is(h: Seq<(Seq<char>, Seq<char>)>, key: Seq<char>, k: int)
    requires
        0 <= k < h.len(),
        h[k].0 == key,
        forall|j: int| 0 <= j < k ==> (#[trigger] h[j]).0 != key,
    ensures
        key_at(h, key) == Some(k),
{
    lemma_key_at(h, key);
    let m = key_at(h, key);
    if m is None {
        assert(h[k].0 != key);
    }
}

/// A dashboard begins empty, with its header, and follows the log.
pub proof fn law_dashboards_begin_empty(header: Seq<(Seq<char>, Seq<char>)>)
    ensures
        ({
            let b = blank_board(header);
            &&& b.header == header
            &&& b.tasks.len() == 0 && b.log.len() == 0 && b.warnings.len() == 0 && b.phase.len()
                == 0
            &&& b.follow && b.scroll == 0 && b.dropped == 0
        }),
{
}

/// An error makes a run fail unless the user stopped it.
pub proof fn law_stopping_is_no_failure(error: bool)
    ensures
        !counts_as_failure(error, true),
        counts_as_failure(error, false) == error,
{
}

/// A line that says that something went wrong is a warning, and is kept as one;
/// a line with fewer letters than the shortest of these words is not.
pub proof fn law_bad_news_are_warnings(a: Seq<char>, b: Seq<char>, line: Seq<char>)
    requires
        a.len() > 0,
        !text::is_white(a[0]),
    ensures
        warns(a + "WARNING"@ + b),
        warns(a + "LOAD FAILED"@ + b),
        warns(a + "NOT ALIGNED"@ + b),
        warns(a + "different dimensions"@ + b),
        warns(a + "implausible alignment"@ + b),
        line.len() < 7 ==> !warns(line),
{
    reveal_strlit("WARNING");
    reveal_strlit("LOAD FAILED");
    reveal_strlit("NOT ALIGNED");
    reveal_strlit("different dimensions");
    reveal_strlit("implausible alignment");
    text::law_texts_occur_inside(a, "WARNING"@, b, a);
    text::law_texts_occur_inside(a, "LOAD FAILED"@, b, a);
    text::law_texts_occur_inside(a, "NOT ALIGNED"@, b, a);
    text::law_texts_occur_inside(a, "different dimensions"@, b, a);
    text::law_texts_occur_inside(a, "implausible alignment"@, b, a);
    text::lemma_trim_start_is_shorter(line);
}

/// A header has the value that was last given to a key, once, and keeps all
/// others in their places.
pub proof fn law_headers_hold_the_last_value(
    h: Seq<(Seq<char>, Seq<char>)>,
    key: Seq<char>,
    value: Seq<char>,
    j: int,
)
    requires
        0 <= j < h.len(),
    ensures
        headed(h, key, value).contains((key, value)),
        h[j].0 != key ==> headed(h, key, value)[j] == h[j],
        h[j].0 == key ==> headed(h, key, value).len() == h.len(),
        (forall|i: int| 0 <= i < h.len() ==> (#[trigger] h[i]).0 != key) ==> headed(h, key, value)
            == h.push((key, value)),
{
    lemma_key_at(h, key);
    match key_at(h, key) {
        Some(k) => {
            assert(headed(h, key, value)[k] == (key, value));
        },
        None => {
            assert(headed(h, key, value)[h.len() as int] == (key, value));
        },
    }
}

proof fn lemma_bar_at(tasks: Seq<Bar>, key: Seq<char>)
    ensures
        match bar_at(tasks, key) {
            Some(k) => 0 <= k < tasks.len() && tasks[k].key == key && forall|j: int|
                0 <= j < k ==> (#[trigger] tasks[j]).key != key,
            None => forall|j: int| 0 <= j < tasks.len() ==> (#[trigger] tasks[j]).key != key,
        },
    decreases tasks.len(),
{
    if tasks.len() > 0 && tasks[0].key != key {
        let rest = tasks.drop_first();
        lemma_bar_at(rest, key);
        assert forall|j: int| 0 <= j < rest.len() implies rest[j] == #[trigger] tasks[j + 1] by {}
        match bar_at(rest, key) {
            Some(k) => {
                assert forall|j: int| 0 <= j < k + 1 implies (#[trigger] tasks[j]).key != key by {
                    if j > 0 {
                        assert(rest[j - 1].key != key);
                    }
                }
            },
            None => {
                assert forall|j: int| 0 <= j < tasks.len() implies (#[trigger] tasks[j]).key != key by {
                    if j > 0 {
                        assert(rest[j - 1].key != key);
                    }
                }
            },
        }
    }
}

/// What happens to a task happens to the first one with its key, and to no
/// other; without one nothing happens.
pub proof fn law_tasks_change_alone(
    tasks: Seq<Bar>,
    key: Seq<char>,
    f: spec_fn(Bar) -> Bar,
    k: int,
    j: int,
)
    requires
        0 <= k < tasks.len(),
        tasks[k].key == key,
        forall|i: int| 0 <= i < k ==> (#[trigger] tasks[i]).key != key,
        0 <= j < tasks.len(),
    ensures
        changed(tasks, key, f).len() == tasks.len(),
        changed(tasks, key, f)[k] == f(tasks[k]),
        j != k ==> changed(tasks, key, f)[j] == tasks[j],
{
    lemma_bar_at(tasks, key);
}

/// Nothing changes for a key that no task has.
pub proof fn law_unknown_tasks_change_nothing(
    tasks: Seq<Bar>,
    key: Seq<char>,
    f: spec_fn(Bar) -> Bar,
)
    requires
        forall|i: int| 0 <= i < tasks.len() ==> (#[trigger] tasks[i]).key != key,
    ensures
        changed(tasks, key, f) == tasks,
{
    lemma_bar_at(tasks, key);
}

/// A task that begins has done nothing yet and is not finished. Begun again it
/// starts over in its place, and a new one stands behind the others.
pub proof fn law_tasks_begin_from_nothing(
    tasks: Seq<Bar>,
    key: Seq<char>,
    label: Seq<char>,
    total: u64,
) -> (k: int)
    ensures
        0 <= k < begun(tasks, key, label, total).len(),
        ({
            let t = begun(tasks, key, label, total)[k];
            &&& t.key == key && t.label == label && t.total == total
            &&& t.done == 0 && !t.finished && t.note.len() == 0
        }),
        (forall|i: int| 0 <= i < tasks.len() ==> (#[trigger] tasks[i]).key != key) ==> k
            == tasks.len() && begun(tasks, key, label, total).len() == tasks.len() + 1,
        (exists|i: int| 0 <= i < tasks.len() && (#[trigger] tasks[i]).key == key) ==> begun(
            tasks,
            key,
            label,
            total,
        ).len() == tasks.len(),
        forall|j: int|
            0 <= j < tasks.len() && j != k ==> #[trigger] begun(tasks, key, label, total)[j]
                == tasks[j],
{
    lemma_bar_at(tasks, key);
    match bar_at(tasks, key) {
        Some(k) => {
            assert(tasks[k].key == key);
            k
        },
        None => tasks.len() as int,
    }
}

/// A task moves on by what was done, and by nothing else of it; one that ends
/// is finished, has its note, and has not done more than there was to do.
pub proof fn law_tasks_move_and_end(t: Bar, done: u64, note: Seq<char>)
    ensures
        ({
            let m = moved_to(t, done);
            m.done == done && m.key == t.key && m.label == t.label && m.total == t.total
                && m.finished == t.finished && m.note == t.note
        }),
        ({
            let e = closed(t, note);
            &&& e.finished && e.note == note
            &&& e.key == t.key && e.label == t.label && e.total == t.total
            &&& t.total == 0 || t.done <= t.total ==> e.done == t.done
            &&& t.total > 0 && t.done > t.total ==> e.done == t.total
        }),
{
}

/// What is left on the screen are the header, the tasks and the warnings, one
/// line each, with their number before the warnings.
pub proof fn law_summaries_show_everything(b: Board, i: int)
    ensures
        ({
            let s = summary_of(b);
            let (h, t, w) = (b.header.len() as int, b.tasks.len() as int, b.warnings.len() as int);
            &&& s.len() == h + t + if w > 0 {
                w + 1
            } else {
                0
            }
            &&& 0 <= i < h ==> s[i] == text::padded(b.header[i].0, 10) + " "@ + b.header[i].1
            &&& 0 <= i < t ==> s[h + i] == task_line(b.tasks[i])
            &&& w > 0 ==> s[h + t] == text::decimal(b.warnings.len()) + " warning(s):"@
            &&& 0 <= i < w ==> s[h + t + 1 + i] == "  "@ + b.warnings[i]
        }),
{
}

/// The line of a task says how much of how much is done, and its note if it has
/// one.
pub proof fn law_task_lines_tell_progress(t: Bar)
    ensures
        ({
            let head = text::padded(t.label, 10) + " "@ + text::decimal(t.done as nat) + "/"@
                + text::decimal(t.total as nat);
            &&& t.note.len() == 0 ==> task_line(t) == head
            &&& t.note.len() > 0 ==> task_line(t) == head + ("  "@ + t.note)
        }),
{
    let head = text::padded(t.label, 10) + " "@ + text::decimal(t.done as nat) + "/"@
        + text::decimal(t.total as nat);
    assert(head + Seq::<char>::empty() =~= head);
}

/// What is reported changes neither how a run ends nor when it ended, and never
/// turns a dashboard into plain lines.
pub proof fn law_reports_do_not_end_a_run(a: Sink, b: Sink)
    requires
        same_run(a, b),
    ensures
        a is Plain <==> b is Plain,
        a matches Sink::Tui(x) ==> b matches Sink::Tui(y) && x.failed == y.failed && x.done
            == y.done && x.finish_ms == y.finish_ms,
{
}

/// A dashboard shows its bars, lines and warnings as they are, in order.
pub proof fn law_dashboards_show_their_state(s: State, k: int)
    ensures
        s@.log.len() == s.log@.len() && s@.warnings.len() == s.warnings@.len() && s@.tasks.len()
            == s.tasks@.len() && s@.header.len() == s.header@.len(),
        0 <= k < s.log@.len() ==> s@.log[k] == s.log@[k]@,
        0 <= k < s.warnings@.len() ==> s@.warnings[k] == s.warnings@[k]@,
        0 <= k < s.header@.len() ==> s@.header[k] == (s.header@[k].0@, s.header@[k].1@),
        0 <= k < s.tasks@.len() ==> s@.tasks[k].key == s.tasks@[k].key@ && s@.tasks[k].label
            == s.tasks@[k].label@ && s@.tasks[k].note == s.tasks@[k].note@ && s@.tasks[k].done
            == s.tasks@[k].done && s@.tasks[k].total == s.tasks@[k].total && s@.tasks[k].finished
            == s.tasks@[k].finished,
        s@.phase == s.phase@ && s@.follow == s.follow && s@.scroll == s.scroll && s@.dropped
            == s.dropped,
{
}

} // verus!
