//! The form of the setup screen: what each key does to it, and what stops a
//! run from starting.
use crate::text;
use crate::ui::dash::Key;
use crate::ui::edit::{bump_field, bumped, commit_field, committed};
use crate::ui::wizard::{
    anomaly_name, anomaly_text, applies, blank, kind, kind_of, nearest, push_two_decimals, row_at,
    rows, rows_of, rows_upto, same_options, settings_of, shown, to_nearest, two_decimals, Args, Cfg, Id, Kind,
    Row, Section, Settings, ALL_ROWS, HUNDREDTH,
};
use vstd::prelude::*;

verus! {

/// The form.
pub struct Form {
    pub cfg: Cfg,
    /// The row in focus.
    pub cursor: usize,
    /// The first row on screen.
    pub top: usize,
    /// The text of the field in focus while it is typed into.
    pub edit: Option<String>,
    /// The directory that was last looked into.
    pub scanned: String,
    /// How many frames it held, or why it could not be read.
    pub found: Result<usize, String>,
    /// Why the run cannot start.
    pub error: Option<String>,
}

/// What a form holds.
pub struct Sheet {
    pub cfg: Settings,
    pub cursor: usize,
    pub top: usize,
    pub edit: Option<Seq<char>>,
    pub scanned: Seq<char>,
    pub found: Result<usize, Seq<char>>,
    pub error: Option<Seq<char>>,
}

/// How many frames were found, with the reason as text.
pub open spec fn finding(r: Result<usize, String>) -> Result<usize, Seq<char>> {
    match r {
        Ok(n) => Ok(n),
        Err(e) => Err(e@),
    }
}

impl View for Form {
    type V = Sheet;

    open spec fn view(&self) -> Sheet {
        Sheet {
            cfg: self.cfg@,
            cursor: self.cursor,
            top: self.top,
            edit: shown(self.edit),
            scanned: self.scanned@,
            found: finding(self.found),
            error: shown(self.error),
        }
    }
}

/// What a key asks for.
#[derive(Clone, Copy, Debug, PartialEq, Eq, Structural)]
pub enum Step {
    Continue,
    Quit,
    /// To start the run, if nothing stands in its way.
    Check,
    Start,
}

/// Whether a row is there and is a field.
pub open spec fn is_field(s: Settings, k: int) -> bool {
    0 <= k < rows_of(s).len() && rows_of(s)[k] is Field
}

/// The first field from a row on.
pub open spec fn field_from(rows: Seq<Row>, k: int) -> Option<int>
    decreases rows.len() - k,
{
    if k < 0 || k >= rows.len() {
        None
    } else if rows[k] is Field {
        Some(k)
    } else {
        field_from(rows, k + 1)
    }
}

/// The last field up to a row.
pub open spec fn field_upto(rows: Seq<Row>, k: int) -> Option<int>
    decreases k + 1,
{
    if k < 0 || k >= rows.len() {
        None
    } else if rows[k] is Field {
        Some(k)
    } else {
        field_upto(rows, k - 1)
    }
}

/// The field in focus.
pub open spec fn current_of(f: Sheet) -> Option<Id> {
    if is_field(f.cfg, f.cursor as int) {
        Some(rows_of(f.cfg)[f.cursor as int]->Field_0)
    } else {
        None
    }
}

/// The form once what was typed has been taken.
pub open spec fn after_commit(f: Sheet) -> Sheet {
    match (f.edit, current_of(f)) {
        (Some(buf), Some(id)) => Sheet { cfg: committed(f.cfg, id, buf), edit: None, ..f },
        _ => Sheet { edit: None, ..f },
    }
}

/// The form once the field in focus has been stepped.
pub open spec fn after_bump(f: Sheet, up: bool) -> Sheet {
    match current_of(f) {
        Some(id) => Sheet { cfg: bumped(f.cfg, id, up), ..f },
        None => f,
    }
}

/// The form with the focus one field up.
pub open spec fn after_up(f: Sheet) -> Sheet {
    match field_upto(rows_of(f.cfg), f.cursor - 1) {
        Some(k) => Sheet { cursor: k as usize, ..f },
        None => f,
    }
}

/// The form with the focus one field down.
pub open spec fn after_down(f: Sheet) -> Sheet {
    match field_from(rows_of(f.cfg), f.cursor + 1) {
        Some(k) => Sheet { cursor: k as usize, ..f },
        None => f,
    }
}

/// What is being typed, or the text to begin with.
pub open spec fn typing(f: Sheet, begin: Seq<char>) -> Seq<char> {
    match f.edit {
        Some(b) => b,
        None => begin,
    }
}

/// A text without its last character.
pub open spec fn shortened(s: Seq<char>) -> Seq<char> {
    if s.len() > 0 {
        s.drop_last()
    } else {
        s
    }
}

/// Whether a field takes a character: a path any, a number digits and the
/// point.
pub open spec fn takes(id: Id, c: char) -> bool {
    match kind_of(id) {
        Kind::Text => true,
        Kind::Number => text::is_digit(c) || c == '.',
        _ => false,
    }
}

/// The form once a character has been typed. The first one replaces what the
/// field held.
pub open spec fn after_typed(f: Sheet, c: char) -> Sheet {
    match current_of(f) {
        Some(id) => if takes(id, c) {
            Sheet { edit: Some(typing(f, Seq::empty()).push(c)), ..f }
        } else {
            f
        },
        None => f,
    }
}

/// The form once the last character has been taken back.
pub open spec fn after_erased(f: Sheet) -> Sheet {
    match current_of(f) {
        Some(id) => if kind_of(id) is Text || kind_of(id) is Number {
            Sheet { edit: Some(shortened(typing(f, value_text(f.cfg, id)))), ..f }
        } else {
            f
        },
        None => f,
    }
}

/// What a key does to the form.
pub open spec fn pressed(f: Sheet, key: Key, ctrl: bool) -> (Sheet, Step) {
    if ctrl {
        match key {
            Key::Char(c) => if c == 'c' {
                (f, Step::Quit)
            } else if c == 'r' {
                (after_commit(f), Step::Check)
            } else {
                (f, Step::Continue)
            },
            _ => (f, Step::Continue),
        }
    } else {
        match key {
            Key::Esc => if f.edit is Some {
                (Sheet { edit: None, ..f }, Step::Continue)
            } else {
                (f, Step::Quit)
            },
            Key::F5 => (after_commit(f), Step::Check),
            Key::Enter => (
                after_commit(f),
                if f.edit is Some {
                    Step::Continue
                } else {
                    Step::Check
                },
            ),
            Key::Up => (after_up(after_commit(f)), Step::Continue),
            Key::Down | Key::Tab => (after_down(after_commit(f)), Step::Continue),
            Key::Left => (after_bump(after_commit(f), false), Step::Continue),
            Key::Right => (after_bump(after_commit(f), true), Step::Continue),
            Key::Backspace => (after_erased(f), Step::Continue),
            Key::Char(c) => if c == ' ' && !(current_of(f) is Some && kind_of(current_of(f)->0)
                is Text) {
                (after_bump(after_commit(f), true), Step::Continue)
            } else {
                (after_typed(f, c), Step::Continue)
            },
            _ => (f, Step::Continue),
        }
    }
}

/// What stands in the way of the run.
pub open spec fn obstacle(f: Sheet) -> Option<Seq<char>> {
    let c = f.cfg;
    if text::trim(c.input).len() == 0 {
        Some("no frames directory given"@)
    } else if f.found is Err {
        Some(f.found->Err_0)
    } else if f.found->Ok_0 == 0 {
        Some("no .ARW found in "@ + text::trim(c.input))
    } else if !c.stack && !c.export {
        Some("with the stack off and no export the run would produce nothing"@)
    } else if !c.stack && !c.untracked {
        Some(
            "the stack can only be skipped on an untracked sequence: on a tracked one it is what every exported frame is levelled against"@,
        )
    } else if c.stack && text::trim(c.output).len() == 0 {
        Some("no output DNG given"@)
    } else if c.export && text::trim(c.export_dir).len() == 0 {
        Some("no export directory given"@)
    } else if c.export && !c.flatten {
        Some("the timelapse export needs the correction on"@)
    } else {
        None
    }
}

/// The first row on screen, moved only as far as the cursor needs.
pub open spec fn scrolled(f: Sheet, h: int) -> int {
    let n = rows_of(f.cfg).len();
    let t = if f.cursor < f.top {
        f.cursor as int
    } else {
        f.top as int
    };
    let t = if f.cursor >= t + h {
        f.cursor + 1 - h
    } else {
        t
    };
    let last = if n > h {
        n - h
    } else {
        0
    };
    if t > last {
        last
    } else {
        t
    }
}

/// A switch in words.
pub open spec fn on_off(b: bool) -> Seq<char> {
    if b {
        "on"@
    } else {
        "off"@
    }
}

/// The value of a field, as it is shown.
pub open spec fn value_text(s: Settings, id: Id) -> Seq<char> {
    match id {
        Id::Input => s.input,
        Id::Sequence => if s.untracked {
            "untracked — fixed tripod"@
        } else {
            "tracked — equatorial mount"@
        },
        Id::Limit => if s.limit == 0 {
            "all"@
        } else {
            text::decimal(s.limit as nat)
        },
        Id::Stack => on_off(s.stack),
        Id::Output => s.output,
        Id::Stretch => on_off(s.stretch),
        Id::FixedStabilize => on_off(s.fixed_stabilize),
        Id::FixedSearch => text::decimal(s.fixed_search as nat) + " px"@,
        Id::FixedAnomaly => anomaly_text(s.fixed_anomaly),
        Id::Flatten => on_off(s.flatten),
        Id::ResidualSurface => on_off(s.residual_surface),
        Id::ScatterComp => two_decimals(s.scatter_comp),
        Id::DumpCorrection => if text::trim(s.dump_correction).len() == 0 {
            "off"@
        } else {
            s.dump_correction
        },
        Id::Export => on_off(s.export),
        Id::ExportDir => s.export_dir,
        Id::ExportWindow => text::decimal(s.export_window as nat) + " frames"@,
        Id::ExportStabilize => on_off(s.export_stabilize),
        Id::ExportDeflicker => on_off(s.export_deflicker),
        Id::ExportTransients => on_off(s.export_transients),
        Id::ExportCloudGuard => on_off(s.export_cloud_guard),
        Id::SkyTolerance => "x"@ + two_decimals(s.sky_tolerance),
        Id::MaxForeground => match s.max_foreground {
            None => "auto"@,
            Some(v) => text::decimal(nearest(v as int, HUNDREDTH as int) as nat) + "%"@,
        },
        Id::MaxStars => text::decimal(s.max_stars as nat),
    }
}

/// What is noted after the value of a field.
pub open spec fn note_text(s: Settings, id: Id) -> Seq<char> {
    match id {
        Id::ScatterComp => if s.scatter_comp == 0 {
            "  off"@
        } else {
            ""@
        },
        Id::ExportWindow => if s.export_window == 1 {
            "  no temporal reduction"@
        } else {
            ""@
        },
        _ => ""@,
    }
}

/// What was found in the frames directory, in words.
pub open spec fn found_text(r: Result<usize, Seq<char>>) -> Seq<char> {
    match r {
        Ok(n) => if n == 0 {
            "  no .ARW here"@
        } else {
            "  "@ + text::decimal(n as nat) + " frames"@
        },
        Err(_) => "  not a readable directory"@,
    }
}

fn switch_name(b: bool) -> (r: String)
    ensures
        r@ == on_off(b),
{
    if b {
        text::copy("on")
    } else {
        text::copy("off")
    }
}

/// A number with a text before and after it.
fn number_text(before: &str, n: u64, after: &str) -> (r: String)
    ensures
        r@ == before@ + text::decimal(n as nat) + after@,
{
    let mut c = text::chars(before);
    text::push_decimal(&mut c, n);
    text::push_text(&mut c, after);
    text::string(c.as_slice())
}

/// A count in digits.
fn count_text(n: usize) -> (r: String)
    ensures
        r@ == text::decimal(n as nat),
{
    let mut c: Vec<char> = Vec::new();
    text::push_decimal(&mut c, n as u64);
    assert(c@ =~= text::decimal(n as nat));
    text::string(c.as_slice())
}

/// A count in digits, with a text after it.
fn unit_text(n: u64, unit: &str) -> (r: String)
    ensures
        r@ == text::decimal(n as nat) + unit@,
{
    let mut c: Vec<char> = Vec::new();
    text::push_decimal(&mut c, n);
    assert(c@ =~= text::decimal(n as nat));
    text::push_text(&mut c, unit);
    text::string(c.as_slice())
}

/// A real-valued option, with a text before it.
fn real_text(before: &str, v: u64) -> (r: String)
    ensures
        r@ == before@ + two_decimals(v),
{
    let mut c = text::chars(before);
    push_two_decimals(&mut c, v);
    text::string(c.as_slice())
}

/// The value of a field, and what is noted after it.
pub fn value(c: &Cfg, id: Id) -> (r: (String, String))
    ensures
        r.0@ == value_text(c@, id),
        r.1@ == note_text(c@, id),
{
    let note = match id {
        Id::ScatterComp => if c.scatter_comp == 0 {
            "  off"
        } else {
            ""
        },
        Id::ExportWindow => if c.export_window == 1 {
            "  no temporal reduction"
        } else {
            ""
        },
        _ => "",
    };
    let note = text::copy(note);
    match kind(id) {
        Kind::Text => (path_value(c, id), note),
        Kind::Number => (number_value(c, id), note),
        Kind::Choice => (text::copy(anomaly_name(c.fixed_anomaly)), note),
        Kind::Switch => (switch_value(c, id), note),
    }
}

fn path_value(c: &Cfg, id: Id) -> (r: String)
    requires
        kind_of(id) is Text,
    ensures
        r@ == value_text(c@, id),
{
    match id {
        Id::Input => text::copy(c.input.as_str()),
        Id::Output => text::copy(c.output.as_str()),
        Id::ExportDir => text::copy(c.export_dir.as_str()),
        _ => if blank(c.dump_correction.as_str()) {
            text::copy("off")
        } else {
            text::copy(c.dump_correction.as_str())
        },
    }
}

fn number_value(c: &Cfg, id: Id) -> (r: String)
    requires
        kind_of(id) is Number,
    ensures
        r@ == value_text(c@, id),
{
    match id {
        Id::Limit => if c.limit == 0 {
            text::copy("all")
        } else {
            count_text(c.limit)
        },
        Id::FixedSearch => unit_text(c.fixed_search as u64, " px"),
        Id::ScatterComp => {
            let r = real_text("", c.scatter_comp);
            proof {
                reveal_strlit("");
                assert(r@ =~= two_decimals(c.scatter_comp));
            }
            r
        },
        Id::ExportWindow => unit_text(c.export_window as u64, " frames"),
        Id::SkyTolerance => real_text("x", c.sky_tolerance),
        Id::MaxForeground => match c.max_foreground {
            None => text::copy("auto"),
            Some(v) => unit_text(to_nearest(v, HUNDREDTH), "%"),
        },
        _ => count_text(c.max_stars),
    }
}

fn switch_value(c: &Cfg, id: Id) -> (r: String)
    requires
        kind_of(id) is Switch,
    ensures
        r@ == value_text(c@, id),
{
    match id {
        Id::Sequence => if c.untracked {
            text::copy("untracked — fixed tripod")
        } else {
            text::copy("tracked — equatorial mount")
        },
        Id::Stack => switch_name(c.stack),
        Id::Stretch => switch_name(c.stretch),
        Id::FixedStabilize => switch_name(c.fixed_stabilize),
        Id::Flatten => switch_name(c.flatten),
        Id::ResidualSurface => switch_name(c.residual_surface),
        Id::Export => switch_name(c.export),
        Id::ExportStabilize => switch_name(c.export_stabilize),
        Id::ExportDeflicker => switch_name(c.export_deflicker),
        Id::ExportTransients => switch_name(c.export_transients),
        _ => switch_name(c.export_cloud_guard),
    }
}

/// What stands in the first rows does not depend on those that follow.
proof fn lemma_rows_prefix(s: Settings, n: int, m: int)
    requires
        0 <= n <= m,
    ensures
        rows_upto(s, n).len() <= rows_upto(s, m).len(),
        rows_upto(s, n) == rows_upto(s, m).take(rows_upto(s, n).len() as int),
    decreases m - n,
{
    if n < m {
        lemma_rows_prefix(s, n, m - 1);
    }
    assert(rows_upto(s, n) =~= rows_upto(s, m).take(rows_upto(s, n).len() as int));
}

/// Where a row of the form stands among all rows.
proof fn lemma_row_place(s: Settings, n: int, k: int) -> (p: int)
    requires
        0 <= n,
        0 <= k < rows_upto(s, n).len(),
    ensures
        0 <= p < n,
        row_at(p) == rows_upto(s, n)[k],
        applies(s, row_at(p)),
        rows_upto(s, p).len() == k,
    decreases n,
{
    if applies(s, row_at(n - 1)) && k == rows_upto(s, n).len() - 1 {
        n - 1
    } else {
        lemma_row_place(s, n - 1, k)
    }
}

/// Whether the same rows apply up to a place.
spec fn agree_upto(s: Settings, t: Settings, n: int) -> bool {
    forall|j: int| 0 <= j < n ==> applies(s, #[trigger] row_at(j)) == applies(t, row_at(j))
}

proof fn lemma_rows_agree(s: Settings, t: Settings, n: int)
    requires
        agree_upto(s, t, n),
    ensures
        rows_upto(s, n) == rows_upto(t, n),
    decreases n,
{
    if n > 0 {
        lemma_rows_agree(s, t, n - 1);
        assert(applies(s, row_at(n - 1)) == applies(t, row_at(n - 1)));
    }
}

/// A row stays where it is if the rows up to it apply as before.
proof fn lemma_row_stays(s: Settings, t: Settings, k: int, p: int)
    requires
        0 <= k < rows_of(s).len(),
        0 <= p < ALL_ROWS,
        row_at(p) == rows_of(s)[k],
        applies(s, row_at(p)),
        rows_upto(s, p).len() == k,
        agree_upto(s, t, p + 1),
    ensures
        k < rows_of(t).len(),
        rows_of(t)[k] == rows_of(s)[k],
{
    assert(applies(t, row_at(p)) == applies(s, row_at(p)));
    lemma_rows_agree(s, t, p + 1);
    lemma_rows_prefix(t, p + 1, ALL_ROWS as int);
    assert(rows_upto(t, p + 1)[k] == row_at(p));
}

/// A field is only followed by the rows that depend on it.
proof fn lemma_bump_keeps_rows(s: Settings, id: Id, up: bool, p: int)
    requires
        0 <= p < ALL_ROWS,
        row_at(p) == Row::Field(id),
    ensures
        agree_upto(s, bumped(s, id, up), p + 1),
{
    let t = bumped(s, id, up);
    assert forall|j: int| 0 <= j < p + 1 implies applies(s, #[trigger] row_at(j)) == applies(
        t,
        row_at(j),
    ) by {
        match row_at(j) {
            Row::Section(_) => {},
            Row::Field(_) => {},
        }
    }
}

/// Stepping a field leaves the focus on it, whatever rows come and go.
pub proof fn law_stepping_keeps_the_focus(f: Sheet, up: bool)
    requires
        is_field(f.cfg, f.cursor as int),
    ensures
        current_of(after_bump(f, up)) == current_of(f),
{
    let k = f.cursor as int;
    let id = current_of(f)->0;
    let p = lemma_row_place(f.cfg, ALL_ROWS as int, k);
    lemma_bump_keeps_rows(f.cfg, id, up, p);
    lemma_row_stays(f.cfg, bumped(f.cfg, id, up), k, p);
}

/// Typing into a field changes no row of the form.
pub proof fn law_typing_keeps_the_rows(s: Settings, id: Id, buf: Seq<char>)
    ensures
        rows_of(committed(s, id, buf)) == rows_of(s),
{
    lemma_rows_agree(s, committed(s, id, buf), ALL_ROWS as int);
}

proof fn lemma_field_from(rows: Seq<Row>, k: int)
    ensures
        match field_from(rows, k) {
            Some(i) => k <= i < rows.len() && rows[i] is Field,
            None => true,
        },
    decreases rows.len() - k,
{
    if 0 <= k < rows.len() && !(rows[k] is Field) {
        lemma_field_from(rows, k + 1);
    }
}

proof fn lemma_field_upto(rows: Seq<Row>, k: int)
    ensures
        match field_upto(rows, k) {
            Some(i) => 0 <= i <= k && i < rows.len() && rows[i] is Field,
            None => true,
        },
    decreases k + 1,
{
    if 0 <= k < rows.len() && !(rows[k] is Field) {
        lemma_field_upto(rows, k - 1);
    }
}

proof fn lemma_rows_few(s: Settings, n: int)
    requires
        0 <= n,
    ensures
        rows_upto(s, n).len() <= n,
    decreases n,
{
    if n > 0 {
        lemma_rows_few(s, n - 1);
    }
}

/// Whatever key is pressed, the focus is on a field and never on a heading.
pub proof fn law_focus_is_on_a_field(f: Sheet, key: Key, ctrl: bool)
    requires
        is_field(f.cfg, f.cursor as int),
    ensures
        is_field(pressed(f, key, ctrl).0.cfg, pressed(f, key, ctrl).0.cursor as int),
{
    let c = after_commit(f);
    assert(is_field(c.cfg, c.cursor as int)) by {
        if f.edit is Some {
            law_typing_keeps_the_rows(f.cfg, current_of(f)->0, f.edit->0);
        }
    }
    law_stepping_keeps_the_focus(c, true);
    law_stepping_keeps_the_focus(c, false);
    lemma_rows_few(c.cfg, ALL_ROWS as int);
    lemma_field_upto(rows_of(c.cfg), c.cursor - 1);
    lemma_field_from(rows_of(c.cfg), c.cursor + 1);
}

/// A form with nothing in its way describes a run that is not refused: it
/// produces something, skips the stack only where that can be done, and names
/// every path it writes to.
pub proof fn law_form_starts_only_runs_that_are_accepted(f: Sheet, a: Args)
    requires
        obstacle(f) is None,
        same_options(a, f.cfg),
    ensures
        a.input@.len() > 0,
        a.no_stack ==> a.export_clean is Some && a.fixed_tripod,
        !a.no_stack ==> a.output@.len() > 0,
        a.export_clean is Some ==> a.export_clean->0@.len() > 0 && !a.no_flatten,
{
}

/// After scrolling, the field in focus is on screen, and where it was already
/// nothing has moved.
pub proof fn law_focus_is_on_screen(f: Sheet, h: int)
    requires
        is_field(f.cfg, f.cursor as int),
        h > 0,
    ensures
        0 <= scrolled(f, h) <= f.cursor < scrolled(f, h) + h,
        f.top <= f.cursor < f.top + h && f.top + h <= rows_of(f.cfg).len() ==> scrolled(f, h)
            == f.top,
{
}

/// What a row of the form shows.
pub enum Shown {
    Heading(Section),
    Field {
        id: Id,
        /// Whether the focus is on it.
        selected: bool,
        /// Whether it is being typed into.
        editing: bool,
        text: String,
        note: String,
    },
}

impl Form {
    /// Whether the focus is on a field.
    pub open spec fn is_valid(&self) -> bool {
        is_field(self.cfg@, self.cursor as int)
    }

    /// The form over the defaults, with what was found in their directory.
    pub fn new(d: &Args, found: Result<usize, String>) -> (f: Form)
        ensures
            f@ == (Sheet {
                cfg: settings_of(*d),
                cursor: 1,
                top: 0,
                edit: None,
                scanned: d.input@,
                found: finding(found),
                error: None,
            }),
            f.is_valid(),
    {
        let cfg = Cfg::new(d);
        let scanned = text::copy(d.input.as_str());
        proof {
            let s = settings_of(*d);
            assert(rows_upto(s, 1) =~= seq![row_at(0)]) by {
                reveal_with_fuel(rows_upto, 2);
            }
            assert(rows_upto(s, 2) =~= seq![row_at(0), row_at(1)]) by {
                reveal_with_fuel(rows_upto, 3);
            }
            lemma_rows_prefix(s, 2, ALL_ROWS as int);
            assert(rows_of(s).take(2)[1] == row_at(1));
        }
        Form { cfg, cursor: 1, top: 0, edit: None, scanned, found, error: None }
    }

    /// The first field from a row on, or the last up to it.
    pub fn next_field(&self, from: usize, down: bool) -> (r: Option<usize>)
        ensures
            match r {
                Some(k) => Some(k as int),
                None => None,
            } == if down {
                field_from(rows_of(self.cfg@), from as int)
            } else {
                field_upto(rows_of(self.cfg@), from as int)
            },
    {
        let rows = rows(&self.cfg);
        let mut i: usize = from;
        while i < rows.len()
            invariant
                rows@ == rows_of(self.cfg@),
                down ==> field_from(rows@, from as int) == field_from(rows@, i as int),
                !down ==> field_upto(rows@, from as int) == field_upto(rows@, i as int),
            decreases
                (if down {
                    rows@.len() - i
                } else {
                    i + 1
                }),
        {
            if let Row::Field(_) = rows[i] {
                return Some(i);
            }
            if down {
                i = i + 1;
            } else if i == 0 {
                return None;
            } else {
                i = i - 1;
            }
        }
        None
    }

    /// The field in focus.
    pub fn current(&self) -> (r: Option<Id>)
        ensures
            r == current_of(self@),
    {
        let rows = rows(&self.cfg);
        if self.cursor < rows.len() {
            match rows[self.cursor] {
                Row::Field(id) => Some(id),
                _ => None,
            }
        } else {
            None
        }
    }

    /// Takes what was typed, if anything was.
    pub fn commit(self) -> (f: Form)
        ensures
            f@ == after_commit(self@),
    {
        let id = self.current();
        let f = self;
        match (f.edit, id) {
            (Some(buf), Some(id)) => Form {
                cfg: commit_field(f.cfg, id, buf.as_str()),
                edit: None,
                cursor: f.cursor,
                top: f.top,
                scanned: f.scanned,
                found: f.found,
                error: f.error,
            },
            _ => Form {
                cfg: f.cfg,
                edit: None,
                cursor: f.cursor,
                top: f.top,
                scanned: f.scanned,
                found: f.found,
                error: f.error,
            },
        }
    }

    /// Steps the field in focus.
    pub fn bump(self, up: bool) -> (f: Form)
        ensures
            f@ == after_bump(self@, up),
    {
        match self.current() {
            Some(id) => {
                let f = self;
                Form { cfg: bump_field(f.cfg, id, up), ..f }
            },
            None => self,
        }
    }

    fn up(self) -> (f: Form)
        ensures
            f@ == after_up(self@),
    {
        if self.cursor > 0 {
            match self.next_field(self.cursor - 1, false) {
                Some(k) => {
                    return Form { cursor: k, ..self };
                },
                None => {},
            }
        }
        self
    }

    fn down(self) -> (f: Form)
        requires
            self.is_valid(),
        ensures
            f@ == after_down(self@),
    {
        proof {
            lemma_rows_few(self.cfg@, ALL_ROWS as int);
        }
        match self.next_field(self.cursor + 1, true) {
            Some(k) => Form { cursor: k, ..self },
            None => self,
        }
    }

    fn typed(self, c: char) -> (f: Form)
        ensures
            f@ == after_typed(self@, c),
    {
        let u: u32 = c as u32;
        let fits = match self.current() {
            Some(id) => match kind(id) {
                Kind::Text => true,
                Kind::Number => (0x30 <= u && u <= 0x39) || c == '.',
                _ => false,
            },
            None => false,
        };
        if !fits {
            return self;
        }
        let mut buf = match &self.edit {
            Some(b) => text::chars(b.as_str()),
            None => Vec::new(),
        };
        assert(buf@ =~= typing(self@, Seq::empty()));
        buf.push(c);
        Form { edit: Some(text::string(buf.as_slice())), ..self }
    }

    fn erased(self) -> (f: Form)
        ensures
            f@ == after_erased(self@),
    {
        let id = match self.current() {
            Some(id) => id,
            None => {
                return self;
            },
        };
        match kind(id) {
            Kind::Text | Kind::Number => {},
            _ => {
                return self;
            },
        }
        let mut buf = match &self.edit {
            Some(b) => text::chars(b.as_str()),
            None => {
                let v = value(&self.cfg, id);
                text::chars(v.0.as_str())
            },
        };
        let ghost was = buf@;
        let _ = buf.pop();
        assert(buf@ =~= shortened(was));
        Form { edit: Some(text::string(buf.as_slice())), ..self }
    }

    /// What a key does.
    pub fn key(self, key: Key, ctrl: bool) -> (r: (Form, Step))
        requires
            self.is_valid(),
        ensures
            (r.0@, r.1) == pressed(self@, key, ctrl),
            r.0.is_valid(),
    {
        proof {
            law_focus_is_on_a_field(self@, key, ctrl);
            law_focus_is_on_a_field(self@, Key::F5, false);
        }
        if ctrl {
            return match key {
                Key::Char(c) => if c == 'c' {
                    (self, Step::Quit)
                } else if c == 'r' {
                    (self.commit(), Step::Check)
                } else {
                    (self, Step::Continue)
                },
                _ => (self, Step::Continue),
            };
        }
        match key {
            Key::Esc => if self.edit.is_some() {
                (Form { edit: None, ..self }, Step::Continue)
            } else {
                (self, Step::Quit)
            },
            Key::F5 => (self.commit(), Step::Check),
            Key::Enter => {
                let step = if self.edit.is_some() {
                    Step::Continue
                } else {
                    Step::Check
                };
                (self.commit(), step)
            },
            Key::Up => (self.commit().up(), Step::Continue),
            Key::Down | Key::Tab => (self.commit().down(), Step::Continue),
            Key::Left => (self.commit().bump(false), Step::Continue),
            Key::Right => (self.commit().bump(true), Step::Continue),
            Key::Backspace => (self.erased(), Step::Continue),
            Key::Char(c) => {
                let path = match self.current() {
                    Some(id) => match kind(id) {
                        Kind::Text => true,
                        _ => false,
                    },
                    None => false,
                };
                if c == ' ' && !path {
                    (self.commit().bump(true), Step::Continue)
                } else {
                    (self.typed(c), Step::Continue)
                }
            },
            _ => (self, Step::Continue),
        }
    }

    /// Whether the frames directory has changed since it was looked into.
    pub fn stale(&self) -> (b: bool)
        ensures
            b == (self.scanned@ != self.cfg.input@),
    {
        let a = text::chars(self.scanned.as_str());
        let b = text::chars(self.cfg.input.as_str());
        !text::same(a.as_slice(), b.as_slice())
    }

    /// Notes what was found in the frames directory.
    pub fn rescan(self, found: Result<usize, String>) -> (f: Form)
        ensures
            f@ == (Sheet { scanned: self.cfg.input@, found: finding(found), ..self@ }),
    {
        let scanned = text::copy(self.cfg.input.as_str());
        Form { scanned, found, ..self }
    }

    /// What stands in the way of the run.
    pub fn validate(&self) -> (r: Option<String>)
        ensures
            shown(r) == obstacle(self@),
    {
        let c = &self.cfg;
        if blank(c.input.as_str()) {
            return Some(text::copy("no frames directory given"));
        }
        match &self.found {
            Err(e) => {
                return Some(text::copy(e.as_str()));
            },
            Ok(n) => {
                if *n == 0 {
                    let mut m = text::chars("no .ARW found in ");
                    let t = text::chars(c.input.as_str());
                    let mut t = text::trimmed(t.as_slice());
                    m.append(&mut t);
                    return Some(text::string(m.as_slice()));
                }
            },
        }
        if !c.stack && !c.export {
            return Some(
                text::copy("with the stack off and no export the run would produce nothing"),
            );
        }
        if !c.stack && !c.untracked {
            return Some(
                text::copy(
                    "the stack can only be skipped on an untracked sequence: on a tracked one it is what every exported frame is levelled against",
                ),
            );
        }
        if c.stack && blank(c.output.as_str()) {
            return Some(text::copy("no output DNG given"));
        }
        if c.export && blank(c.export_dir.as_str()) {
            return Some(text::copy("no export directory given"));
        }
        if c.export && !c.flatten {
            return Some(text::copy("the timelapse export needs the correction on"));
        }
        None
    }

    /// Starts the run, or says what stands in its way.
    pub fn start(self) -> (r: (Form, Step))
        ensures
            match obstacle(self@) {
                Some(e) => r.0@ == (Sheet { error: Some(e), ..self@ }) && r.1 is Continue,
                None => r.0@ == self@ && r.1 is Start,
            },
    {
        match self.validate() {
            Some(e) => (Form { error: Some(e), ..self }, Step::Continue),
            None => (self, Step::Start),
        }
    }

    /// Scrolls only as far as the field in focus needs to be on screen.
    pub fn scroll(self, h: usize) -> (f: Form)
        requires
            self.is_valid(),
            h > 0,
        ensures
            f@ == (Sheet { top: scrolled(self@, h as int) as usize, ..self@ }),
            f.top <= f.cursor < f.top + h,
    {
        proof {
            law_focus_is_on_screen(self@, h as int);
        }
        let n: usize = rows(&self.cfg).len();
        let mut t: usize = if self.cursor < self.top {
            self.cursor
        } else {
            self.top
        };
        if self.cursor - t >= h {
            t = self.cursor - h + 1;
        }
        let last: usize = if n > h {
            n - h
        } else {
            0
        };
        if t > last {
            t = last;
        }
        Form { top: t, ..self }
    }

    /// What a row shows.
    pub fn row(&self, k: usize) -> (r: Shown)
        requires
            k < rows_of(self.cfg@).len(),
        ensures
            match rows_of(self.cfg@)[k as int] {
                Row::Section(s) => r == Shown::Heading(s),
                Row::Field(i) => r matches Shown::Field { id, selected, editing, text, note }
                    && id == i && selected == (k == self.cursor) && editing == (selected
                    && self.edit is Some) && text@ == (if editing {
                    self@.edit->0
                } else {
                    value_text(self.cfg@, i)
                }) && note@ == (if editing {
                    ""@
                } else {
                    note_text(self.cfg@, i)
                }),
            },
    {
        let rows = rows(&self.cfg);
        match rows[k] {
            Row::Section(s) => Shown::Heading(s),
            Row::Field(id) => {
                let selected = k == self.cursor;
                if selected {
                    if let Some(b) = &self.edit {
                        return Shown::Field {
                            id,
                            selected,
                            editing: true,
                            text: text::copy(b.as_str()),
                            note: text::copy(""),
                        };
                    }
                }
                let (text, note) = value(&self.cfg, id);
                Shown::Field { id, selected, editing: false, text, note }
            },
        }
    }

    /// What was found in the frames directory, in words.
    pub fn frames_found(&self) -> (r: String)
        ensures
            r@ == found_text(self@.found),
    {
        match &self.found {
            Ok(n) => if *n == 0 {
                text::copy("  no .ARW here")
            } else {
                number_text("  ", *n as u64, " frames")
            },
            Err(_) => text::copy("  not a readable directory"),
        }
    }
}

proof fn lemma_nearest_from(rows: Seq<Row>, k: int)
    ensures
        match field_from(rows, k) {
            Some(j) => k <= j < rows.len() && rows[j] is Field && forall|i: int|
                k <= i < j ==> !((#[trigger] rows[i]) is Field),
            None => k < 0 || forall|i: int| k <= i < rows.len() ==> !((#[trigger] rows[i]) is Field),
        },
    decreases rows.len() - k,
{
    if 0 <= k < rows.len() && !(rows[k] is Field) {
        lemma_nearest_from(rows, k + 1);
    }
}

proof fn lemma_nearest_upto(rows: Seq<Row>, k: int)
    ensures
        match field_upto(rows, k) {
            Some(j) => 0 <= j <= k && rows[j] is Field && forall|i: int|
                j < i <= k ==> !((#[trigger] rows[i]) is Field),
            None => k >= rows.len() || forall|i: int|
                0 <= i <= k ==> !((#[trigger] rows[i]) is Field),
        },
    decreases k + 1,
{
    if 0 <= k < rows.len() && !(rows[k] is Field) {
        lemma_nearest_upto(rows, k - 1);
    }
}

/// The arrows go to the next field above or below, past headings, and stay
/// where there is none. Nothing but the cursor changes.
pub proof fn law_arrows_go_to_the_next_field(f: Sheet, k: int)
    requires
        is_field(f.cfg, f.cursor as int),
        is_field(f.cfg, k),
        k != f.cursor,
        rows_of(f.cfg).len() <= usize::MAX,
    ensures
        k > f.cursor ==> f.cursor < after_down(f).cursor <= k,
        k < f.cursor ==> k <= after_up(f).cursor < f.cursor,
        after_down(f) == (Sheet { cursor: after_down(f).cursor, ..f }),
        after_up(f) == (Sheet { cursor: after_up(f).cursor, ..f }),
        is_field(f.cfg, after_down(f).cursor as int) && is_field(
            f.cfg,
            after_up(f).cursor as int,
        ),
{
    let rows = rows_of(f.cfg);
    lemma_nearest_from(rows, f.cursor + 1);
    lemma_nearest_upto(rows, f.cursor - 1);
}

/// Escape throws away what was typed, or leaves the form; control-c leaves it
/// in any case. Enter takes what was typed, or asks to start the run, as F5 and
/// control-r always do.
pub proof fn law_keys_that_leave(f: Sheet)
    ensures
        f.edit is Some ==> pressed(f, Key::Esc, false) == (Sheet { edit: None, ..f }, Step::Continue),
        f.edit is None ==> pressed(f, Key::Esc, false) == (f, Step::Quit),
        pressed(f, Key::Char('c'), true) == (f, Step::Quit),
        pressed(f, Key::Char('r'), true).1 is Check && pressed(f, Key::F5, false).1 is Check,
        pressed(f, Key::F5, false).0 == pressed(f, Key::Char('r'), true).0,
        f.edit is Some ==> pressed(f, Key::Enter, false).1 is Continue,
        f.edit is None ==> pressed(f, Key::Enter, false).1 is Check,
        pressed(f, Key::Enter, false).0.edit is None && pressed(f, Key::F5, false).0.edit is None,
{
}

/// What is typed goes behind what is already there, and backspace takes the
/// last of it away again.
pub proof fn law_typing_and_erasing(f: Sheet, buf: Seq<char>, c: char, id: Id)
    requires
        f.edit == Some(buf),
        current_of(f) == Some(id),
        takes(id, c),
        c != ' ',
    ensures
        pressed(f, Key::Char(c), false).0 == (Sheet { edit: Some(buf.push(c)), ..f }),
        pressed(f, Key::Char(c), false).1 is Continue,
        after_erased(after_typed(f, c)).edit == Some(buf),
        buf.len() > 0 ==> after_erased(f).edit == Some(buf.drop_last()),
        buf.len() == 0 ==> after_erased(f).edit == Some(buf),
{
    assert(buf.push(c).drop_last() =~= buf);
}

/// Text fields take every character, number fields digits and the point, and
/// others none.
pub proof fn law_fields_take_what_they_hold(c: char)
    ensures
        takes(Id::Input, c) && takes(Id::Output, c) && takes(Id::ExportDir, c) && takes(
            Id::DumpCorrection,
            c,
        ),
        takes(Id::Limit, c) <==> '0' <= c <= '9' || c == '.',
        takes(Id::ScatterComp, c) <==> '0' <= c <= '9' || c == '.',
        takes(Id::MaxForeground, c) <==> '0' <= c <= '9' || c == '.',
        !takes(Id::Stack, c) && !takes(Id::Export, c) && !takes(Id::FixedAnomaly, c),
{
}

/// The left and right arrows take what was typed and step the field; the space
/// bar does as the right arrow where there is no text to type.
pub proof fn law_arrows_step_the_field(f: Sheet, id: Id)
    requires
        current_of(f) == Some(id),
        f.edit is None,
    ensures
        pressed(f, Key::Left, false).0 == (Sheet { cfg: bumped(f.cfg, id, false), ..f }),
        pressed(f, Key::Right, false).0 == (Sheet { cfg: bumped(f.cfg, id, true), ..f }),
        !(kind_of(id) is Text) ==> pressed(f, Key::Char(' '), false) == pressed(
            f,
            Key::Right,
            false,
        ),
        kind_of(id) is Text ==> pressed(f, Key::Char(' '), false).0.cfg == f.cfg,
{
}

/// What is typed is taken when the field is left, and only then.
pub proof fn law_leaving_a_field_takes_what_was_typed(f: Sheet, id: Id, buf: Seq<char>)
    requires
        current_of(f) == Some(id),
        f.edit == Some(buf),
    ensures
        pressed(f, Key::Enter, false).0.cfg == committed(f.cfg, id, buf),
        pressed(f, Key::Down, false).0.cfg == committed(f.cfg, id, buf),
        pressed(f, Key::Up, false).0.cfg == committed(f.cfg, id, buf),
        pressed(f, Key::Tab, false).0.cfg == committed(f.cfg, id, buf),
        pressed(f, Key::Esc, false).0.cfg == f.cfg,
        pressed(f, Key::Backspace, false).0.cfg == f.cfg,
{
}

/// A form can be started if there are frames, something is produced, what is
/// written has a place, and the export has its correction; and not otherwise.
pub proof fn law_what_a_start_takes(f: Sheet)
    ensures
        obstacle(f) is None <==> {
            &&& text::trim(f.cfg.input).len() > 0
            &&& f.found matches Ok(n) && n > 0
            &&& f.cfg.stack || (f.cfg.export && f.cfg.untracked)
            &&& f.cfg.stack ==> text::trim(f.cfg.output).len() > 0
            &&& f.cfg.export ==> text::trim(f.cfg.export_dir).len() > 0 && f.cfg.flatten
        },
{
}

/// The values are shown as they are: paths and counts in full, switches as on
/// or off, and what is left open as such.
pub proof fn law_values_are_shown(s: Settings)
    ensures
        value_text(s, Id::Input) == s.input && value_text(s, Id::Output) == s.output && value_text(
            s,
            Id::ExportDir,
        ) == s.export_dir,
        s.stack ==> value_text(s, Id::Stack) == "on"@,
        !s.stack ==> value_text(s, Id::Stack) == "off"@,
        s.export ==> value_text(s, Id::Export) == "on"@,
        !s.export ==> value_text(s, Id::Export) == "off"@,
        s.flatten ==> value_text(s, Id::Flatten) == "on"@,
        !s.flatten ==> value_text(s, Id::Flatten) == "off"@,
        s.stretch ==> value_text(s, Id::Stretch) == "on"@,
        !s.stretch ==> value_text(s, Id::Stretch) == "off"@,
        s.limit == 0 ==> value_text(s, Id::Limit) == "all"@,
        s.limit > 0 ==> value_text(s, Id::Limit) == text::decimal(s.limit as nat),
        value_text(s, Id::MaxStars) == text::decimal(s.max_stars as nat),
        value_text(s, Id::FixedSearch) == text::decimal(s.fixed_search as nat) + " px"@,
        value_text(s, Id::ExportWindow) == text::decimal(s.export_window as nat) + " frames"@,
        s.max_foreground is None ==> value_text(s, Id::MaxForeground) == "auto"@,
        s.untracked ==> value_text(s, Id::Sequence) == "untracked — fixed tripod"@,
        !s.untracked ==> value_text(s, Id::Sequence) == "tracked — equatorial mount"@,
{
}

/// The remaining switches are shown as on or off, each by what it switches.
pub proof fn law_switches_are_shown(s: Settings)
    ensures
        s.fixed_stabilize ==> value_text(s, Id::FixedStabilize) == "on"@,
        !s.fixed_stabilize ==> value_text(s, Id::FixedStabilize) == "off"@,
        s.residual_surface ==> value_text(s, Id::ResidualSurface) == "on"@,
        !s.residual_surface ==> value_text(s, Id::ResidualSurface) == "off"@,
        s.export_stabilize ==> value_text(s, Id::ExportStabilize) == "on"@,
        !s.export_stabilize ==> value_text(s, Id::ExportStabilize) == "off"@,
        s.export_deflicker ==> value_text(s, Id::ExportDeflicker) == "on"@,
        !s.export_deflicker ==> value_text(s, Id::ExportDeflicker) == "off"@,
        s.export_transients ==> value_text(s, Id::ExportTransients) == "on"@,
        !s.export_transients ==> value_text(s, Id::ExportTransients) == "off"@,
        s.export_cloud_guard ==> value_text(s, Id::ExportCloudGuard) == "on"@,
        !s.export_cloud_guard ==> value_text(s, Id::ExportCloudGuard) == "off"@,
        s.fixed_anomaly is Coarse ==> value_text(s, Id::FixedAnomaly) == "coarse"@,
        s.fixed_anomaly is Off ==> value_text(s, Id::FixedAnomaly) == "none"@,
        s.fixed_anomaly is Full ==> value_text(s, Id::FixedAnomaly) == "full"@,
{
}

/// Reals are shown rounded to hundredths, a tolerance as a factor and a part of
/// the frame in percent. `h` is the hundredth that a value is nearest to.
pub proof fn law_reals_are_shown_in_hundredths(s: Settings, h: int)
    requires
        h >= 0,
    ensures
        h * 10_000_000 - 5_000_000 < s.scatter_comp < h * 10_000_000 + 5_000_000 ==> value_text(
            s,
            Id::ScatterComp,
        ) == text::decimal((h / 100) as nat) + "."@ + text::two_digits((h % 100) as nat),
        h * 10_000_000 - 5_000_000 < s.sky_tolerance < h * 10_000_000 + 5_000_000 ==> value_text(
            s,
            Id::SkyTolerance,
        ) == "x"@ + (text::decimal((h / 100) as nat) + "."@ + text::two_digits((h % 100) as nat)),
        (s.max_foreground matches Some(v) && h * 10_000_000 - 5_000_000 < v < h * 10_000_000
            + 5_000_000) ==> value_text(s, Id::MaxForeground) == text::decimal(h as nat) + "%"@,
{
    if h * 10_000_000 - 5_000_000 < s.scatter_comp < h * 10_000_000 + 5_000_000 {
        assert(nearest(s.scatter_comp as int, HUNDREDTH as int) == h);
    }
    if h * 10_000_000 - 5_000_000 < s.sky_tolerance < h * 10_000_000 + 5_000_000 {
        assert(nearest(s.sky_tolerance as int, HUNDREDTH as int) == h);
    }
}

/// A layer that is not dumped is shown as off, any other path as it is.
pub proof fn law_dumps_are_shown(s: Settings, k: int)
    requires
        0 <= k < s.dump_correction.len(),
    ensures
        !text::is_white(s.dump_correction[k]) ==> value_text(s, Id::DumpCorrection)
            == s.dump_correction,
{
    if !text::is_white(s.dump_correction[k]) {
        let p = text::law_trimming_takes_white_ends(s.dump_correction);
        assert(p.0 <= k < p.1);
    }
}

/// A note says what a figure turns off, and nothing stands by any other value.
pub proof fn law_notes_say_what_is_off(s: Settings, id: Id)
    ensures
        s.scatter_comp == 0 ==> note_text(s, Id::ScatterComp) == "  off"@,
        s.export_window == 1 ==> note_text(s, Id::ExportWindow) == "  no temporal reduction"@,
        s.scatter_comp > 0 && id is ScatterComp ==> note_text(s, id) == ""@,
        s.export_window != 1 && id is ExportWindow ==> note_text(s, id) == ""@,
        !(id is ScatterComp) && !(id is ExportWindow) ==> note_text(s, id) == ""@,
{
}

/// What was found is told by its number, if there is any.
pub proof fn law_what_was_found(n: usize, e: Seq<char>)
    ensures
        n > 0 ==> found_text(Ok(n)) == "  "@ + text::decimal(n as nat) + " frames"@,
        found_text(Ok(0)) == "  no .ARW here"@,
        found_text(Err(e)) == "  not a readable directory"@,
{
}

} // verus!
