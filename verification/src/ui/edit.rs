//! Editing a field of the setup screen: typing into it and stepping it.
use crate::fit::AnomalyArg;
use crate::text;
use crate::ui::wizard::{blank, kind, kind_of, trim_copy, Cfg, Id, Kind, Settings, ONE};
use vstd::prelude::*;

verus! {

/// A number held between two bounds.
pub open spec fn clamped(v: int, lo: int, hi: int) -> int {
    if v < lo {
        lo
    } else if v > hi {
        hi
    } else {
        v
    }
}

/// A whole number as it is typed: digits, a plus sign before them at most,
/// white space around them aside.
pub open spec fn count_of(buf: Seq<char>) -> Option<int> {
    let t = text::trim(buf);
    text::parse_digits(
        if t.len() > 0 && t[0] == '+' {
            t.skip(1)
        } else {
            t
        },
        usize::MAX as int,
    )
}

fn read_count(buf: &str) -> (r: Option<usize>)
    ensures
        match count_of(buf@) {
            Some(n) => r is Some && r->0 == n,
            None => r is None,
        },
{
    let c = text::chars(buf);
    let t = text::trimmed(c.as_slice());
    let d = if t.len() > 0 && t[0] == '+' {
        let d = text::slice_of(t.as_slice(), 1, t.len());
        assert(d@ =~= t@.skip(1));
        d
    } else {
        t
    };
    match text::digits(d.as_slice(), usize::MAX as u64) {
        Some(n) => Some(n as usize),
        None => None,
    }
}

/// What is typed, held between two bounds, where it is a number; what was there
/// before where it is not.
pub open spec fn count_or(buf: Seq<char>, cur: usize, lo: int, hi: int) -> int {
    match count_of(buf) {
        Some(n) => clamped(n, lo, hi),
        None => cur as int,
    }
}

fn read_count_or(buf: &str, cur: usize, lo: usize, hi: usize) -> (n: usize)
    requires
        lo <= hi,
    ensures
        n == count_or(buf@, cur, lo as int, hi as int),
{
    match read_count(buf) {
        Some(n) => clamp_count(n, lo, hi),
        None => cur,
    }
}

/// Where the first point stands; at the end if there is none.
pub open spec fn point(t: Seq<char>) -> int
    decreases t.len(),
{
    if t.len() == 0 || t[0] == '.' {
        0
    } else {
        1 + point(t.skip(1))
    }
}

/// The digits before the point.
pub open spec fn whole_part(t: Seq<char>) -> Seq<char> {
    t.take(point(t))
}

/// The digits after the point.
pub open spec fn decimals(t: Seq<char>) -> Seq<char> {
    if point(t) < t.len() {
        t.skip(point(t) + 1)
    } else {
        Seq::empty()
    }
}

/// Decimals to the nearest billionth; halfway goes up.
pub open spec fn billionths(d: Seq<char>) -> int {
    text::digits_value((d + text::run_of('0', 9)).take(9)) + if d.len() > 9 && d[9] as u32 >= 0x35 {
        1int
    } else {
        0int
    }
}

/// A number as it is typed, in billionths: digits with at most one point among
/// them, white space around them aside.
pub open spec fn real_of(buf: Seq<char>) -> Option<int> {
    let t = text::trim(buf);
    let (w, d) = (whole_part(t), decimals(t));
    if text::all_digits(w) && text::all_digits(d) && w.len() + d.len() > 0 {
        Some(text::digits_value(w) * 1_000_000_000 + billionths(d))
    } else {
        None
    }
}

proof fn lemma_point(t: Seq<char>)
    ensures
        0 <= point(t) <= t.len(),
        point(t) < t.len() ==> t[point(t)] == '.',
        forall|i: int| 0 <= i < point(t) ==> t[i] != '.',
    decreases t.len(),
{
    if t.len() > 0 && t[0] != '.' {
        lemma_point(t.skip(1));
        assert forall|i: int| 0 <= i < point(t) implies t[i] != '.' by {
            if i > 0 {
                assert(t.skip(1)[i - 1] != '.');
            }
        }
    }
}

pub(crate) proof fn lemma_point_is(t: Seq<char>, k: int)
    requires
        0 <= k <= t.len(),
        k < t.len() ==> t[k] == '.',
        forall|i: int| 0 <= i < k ==> t[i] != '.',
    ensures
        point(t) == k,
{
    lemma_point(t);
    if point(t) < k {
        assert(t[point(t)] != '.');
    }
    if k < point(t) {
        assert(t[k] != '.');
    }
}

/// Whether every character is a digit.
fn digits_only(s: &[char]) -> (b: bool)
    ensures
        b == text::all_digits(s@),
{
    let mut i: usize = 0;
    while i < s.len()
        invariant
            i <= s@.len(),
            forall|j: int| 0 <= j < i ==> text::is_digit(#[trigger] s@[j]),
        decreases s@.len() - i,
    {
        let u: u32 = s[i] as u32;
        if u < 0x30 || u > 0x39 {
            assert(!text::is_digit(s@[i as int]));
            return false;
        }
        i = i + 1;
    }
    true
}

/// Decimals to the nearest billionth.
fn read_decimals(d: &[char]) -> (v: u64)
    requires
        text::all_digits(d@),
    ensures
        v == billionths(d@),
        v <= 1_000_000_000,
{
    let ghost t = d@ + text::run_of('0', 9);
    let mut v: u64 = 0;
    let mut bound: u64 = 1;
    let mut i: usize = 0;
    while i < 9
        invariant
            i <= 9,
            text::all_digits(d@),
            t == d@ + text::run_of('0', 9),
            v == text::digits_value(t.take(i as int)),
            v < bound,
            bound == (if i == 0 {
                1
            } else if i == 1 {
                10
            } else if i == 2 {
                100
            } else if i == 3 {
                1_000
            } else if i == 4 {
                10_000
            } else if i == 5 {
                100_000
            } else if i == 6 {
                1_000_000
            } else if i == 7 {
                10_000_000
            } else if i == 8 {
                100_000_000
            } else {
                1_000_000_000int
            }),
        decreases 9 - i,
    {
        assert(t.take(i + 1).drop_last() =~= t.take(i as int));
        assert(t.take(i + 1).last() == t[i as int]);
        let digit: u64 = if i < d.len() {
            assert(text::is_digit(d@[i as int]));
            (d[i] as u32 - 0x30) as u64
        } else {
            assert(t[i as int] == '0');
            0
        };
        v = 10 * v + digit;
        bound = 10 * bound;
        i = i + 1;
    }
    if d.len() > 9 && d[9] as u32 >= 0x35 {
        v + 1
    } else {
        v
    }
}

/// A number as it is typed, no larger than `hi`.
fn read_real(buf: &str, hi: u64) -> (r: Option<u64>)
    requires
        hi <= 1000 * ONE,
    ensures
        match real_of(buf@) {
            Some(v) => r is Some && r->0 == clamped(v, 0, hi as int),
            None => r is None,
        },
{
    let c = text::chars(buf);
    let t = text::trimmed(c.as_slice());
    let mut k: usize = 0;
    while k < t.len() && t[k] != '.'
        invariant
            k <= t@.len(),
            forall|i: int| 0 <= i < k ==> t@[i] != '.',
        decreases t@.len() - k,
    {
        k = k + 1;
    }
    proof {
        lemma_point_is(t@, k as int);
    }
    let w = text::slice_of(t.as_slice(), 0, k);
    assert(w@ =~= whole_part(t@));
    let d = if k < t.len() {
        text::slice_of(t.as_slice(), k + 1, t.len())
    } else {
        Vec::new()
    };
    assert(d@ =~= decimals(t@));
    if !digits_only(w.as_slice()) || !digits_only(d.as_slice()) || (w.len() == 0 && d.len() == 0) {
        return None;
    }
    let f: u64 = read_decimals(d.as_slice());
    let n: u64 = if w.len() == 0 {
        0
    } else {
        match text::digits(w.as_slice(), 1000) {
            Some(n) => n,
            None => {
                assert(text::digits_value(w@) > 1000);
                return Some(hi);
            },
        }
    };
    let v: u64 = n * 1_000_000_000 + f;
    Some(
        if v > hi {
            hi
        } else {
            v
        },
    )
}

/// What is typed, held between two bounds, where it is a number; what was there
/// before where it is not.
pub open spec fn real_or(buf: Seq<char>, cur: u64, lo: u64, hi: u64) -> u64 {
    match real_of(buf) {
        Some(v) => clamped(v, lo as int, hi as int) as u64,
        None => cur,
    }
}

fn read_real_or(buf: &str, cur: u64, lo: u64, hi: u64) -> (v: u64)
    requires
        lo <= hi <= 1000 * ONE,
    ensures
        v == real_or(buf@, cur, lo, hi),
{
    match read_real(buf, hi) {
        Some(v) => if v < lo {
            lo
        } else {
            v
        },
        None => cur,
    }
}

fn clamp_count(v: usize, lo: usize, hi: usize) -> (r: usize)
    requires
        lo <= hi,
    ensures
        r == clamped(v as int, lo as int, hi as int),
{
    if v < lo {
        lo
    } else if v > hi {
        hi
    } else {
        v
    }
}

/// The next odd number, from the number itself on.
pub open spec fn made_odd(v: int) -> int {
    if v % 2 == 0 {
        v + 1
    } else {
        v
    }
}

fn make_odd(v: usize) -> (r: usize)
    requires
        v < 1000,
    ensures
        r == made_odd(v as int),
{
    if v % 2 == 0 {
        v + 1
    } else {
        v
    }
}

/// A path as it was typed, without white space around it.
pub open spec fn path_typed(s: Settings, id: Id, buf: Seq<char>) -> Settings {
    match id {
        Id::Input => Settings { input: text::trim(buf), ..s },
        Id::Output => Settings { output: text::trim(buf), ..s },
        Id::ExportDir => Settings { export_dir: text::trim(buf), ..s },
        Id::DumpCorrection => Settings { dump_correction: text::trim(buf), ..s },
        _ => s,
    }
}

/// A count as it was typed, held to its range. What is no number leaves the
/// old value in place.
pub open spec fn count_typed(s: Settings, id: Id, buf: Seq<char>) -> Settings {
    match id {
        Id::Limit => Settings {
            limit: count_or(buf, s.limit, 0, usize::MAX as int) as usize,
            ..s
        },
        Id::MaxStars => Settings {
            max_stars: count_or(buf, s.max_stars, 5, 2000) as usize,
            ..s
        },
        Id::FixedSearch => Settings {
            fixed_search: count_or(buf, s.fixed_search, 4, 1024) as usize,
            ..s
        },
        Id::ExportWindow => Settings {
            export_window: match count_of(buf) {
                Some(n) => made_odd(clamped(n, 1, 199)) as usize,
                None => s.export_window,
            },
            ..s
        },
        _ => s,
    }
}

/// A real-valued option as it was typed, held to its range. What is no number
/// leaves the old value in place.
pub open spec fn real_typed(s: Settings, id: Id, buf: Seq<char>) -> Settings {
    match id {
        Id::ScatterComp => Settings {
            scatter_comp: real_or(buf, s.scatter_comp, 0, 4_000_000_000),
            ..s
        },
        Id::SkyTolerance => Settings {
            sky_tolerance: real_or(buf, s.sky_tolerance, ONE, 20_000_000_000),
            ..s
        },
        Id::MaxForeground => Settings {
            max_foreground: match real_of(buf) {
                Some(v) => Some(clamped(v, 0, ONE as int) as u64),
                None => s.max_foreground,
            },
            ..s
        },
        _ => s,
    }
}

/// The settings once a field has been typed into.
pub open spec fn committed(s: Settings, id: Id, buf: Seq<char>) -> Settings {
    match kind_of(id) {
        Kind::Text => path_typed(s, id, buf),
        Kind::Number => match id {
            Id::ScatterComp | Id::SkyTolerance | Id::MaxForeground => real_typed(s, id, buf),
            _ => count_typed(s, id, buf),
        },
        _ => s,
    }
}

/// Takes what was typed into a path.
#[verifier::rlimit(30)]
fn commit_path(c: Cfg, id: Id, buf: &str) -> (r: Cfg)
    ensures
        r@ == path_typed(c@, id, buf@),
{
    match id {
        Id::Input => Cfg { input: trim_copy(buf), ..c },
        Id::Output => Cfg { output: trim_copy(buf), ..c },
        Id::ExportDir => Cfg { export_dir: trim_copy(buf), ..c },
        Id::DumpCorrection => Cfg { dump_correction: trim_copy(buf), ..c },
        _ => c,
    }
}

/// Takes what was typed into a count.
#[verifier::rlimit(30)]
fn commit_count(c: Cfg, id: Id, buf: &str) -> (r: Cfg)
    ensures
        r@ == count_typed(c@, id, buf@),
{
    match id {
        Id::Limit => {
            return Cfg { limit: read_count_or(buf, c.limit, 0, usize::MAX), ..c };
        },
        Id::MaxStars => {
            return Cfg { max_stars: read_count_or(buf, c.max_stars, 5, 2000), ..c };
        },
        Id::FixedSearch => {
            return Cfg { fixed_search: read_count_or(buf, c.fixed_search, 4, 1024), ..c };
        },
        Id::ExportWindow => {
            let window: usize = match read_count(buf) {
                Some(n) => make_odd(clamp_count(n, 1, 199)),
                None => c.export_window,
            };
            return Cfg { export_window: window, ..c };
        },
        _ => c,
    }
}

/// Takes what was typed into a real-valued option.
#[verifier::rlimit(30)]
fn commit_real(c: Cfg, id: Id, buf: &str) -> (r: Cfg)
    ensures
        r@ == real_typed(c@, id, buf@),
{
    match id {
        Id::ScatterComp => {
            return Cfg { scatter_comp: read_real_or(buf, c.scatter_comp, 0, 4_000_000_000), ..c };
        },
        Id::SkyTolerance => {
            return Cfg { sky_tolerance: read_real_or(buf, c.sky_tolerance, ONE, 20_000_000_000), ..c };
        },
        Id::MaxForeground => {
            let typed: Option<u64> = match read_real(buf, ONE) {
                Some(v) => Some(v),
                None => c.max_foreground,
            };
            return Cfg { max_foreground: typed, ..c };
        },
        _ => c,
    }
}

/// Takes what was typed into a field.
pub(crate) fn commit_field(c: Cfg, id: Id, buf: &str) -> (r: Cfg)
    ensures
        r@ == committed(c@, id, buf@),
{
    match kind(id) {
        Kind::Text => commit_path(c, id, buf),
        Kind::Number => match id {
            Id::ScatterComp | Id::SkyTolerance | Id::MaxForeground => commit_real(c, id, buf),
            _ => commit_count(c, id, buf),
        },
        _ => c,
    }
}

/// A number one step up or down, held between its bounds.
pub open spec fn stepped(v: int, step: int, lo: int, hi: int, up: bool) -> int {
    clamped(
        if up {
            v + step
        } else {
            v - step
        },
        lo,
        hi,
    )
}

/// A real-valued option one step up or down, to the nearest hundredth.
pub open spec fn stepped_real(v: u64, step: int, lo: int, hi: int, up: bool) -> u64 {
    ((stepped(v as int, step, lo, hi, up) + 5_000_000) / 10_000_000 * 10_000_000) as u64
}

fn step_count(v: usize, step: usize, lo: usize, hi: usize, up: bool) -> (r: usize)
    requires
        lo <= hi,
        hi + step <= 1_000_000,
    ensures
        r == stepped(v as int, step as int, lo as int, hi as int, up),
{
    if up {
        if v > hi {
            hi
        } else {
            clamp_count(v + step, lo, hi)
        }
    } else if v < step {
        lo
    } else {
        clamp_count(v - step, lo, hi)
    }
}

fn step_real(v: u64, step: u64, lo: u64, hi: u64, up: bool) -> (r: u64)
    requires
        lo <= hi <= 1000 * ONE,
        step <= ONE,
    ensures
        r == stepped_real(v, step as int, lo as int, hi as int, up),
{
    let s: u64 = if up {
        if v > hi || v + step > hi {
            hi
        } else if v + step < lo {
            lo
        } else {
            v + step
        }
    } else if v < step || v - step < lo {
        lo
    } else if v - step > hi {
        hi
    } else {
        v - step
    };
    (s + 5_000_000) / 10_000_000 * 10_000_000
}

/// The anomaly mode next to another, in a circle.
pub open spec fn turned(a: AnomalyArg, up: bool) -> AnomalyArg {
    match (a, up) {
        (AnomalyArg::Coarse, true) => AnomalyArg::Off,
        (AnomalyArg::Off, true) => AnomalyArg::Full,
        (AnomalyArg::Full, true) => AnomalyArg::Coarse,
        (AnomalyArg::Coarse, false) => AnomalyArg::Full,
        (AnomalyArg::Off, false) => AnomalyArg::Coarse,
        (AnomalyArg::Full, false) => AnomalyArg::Off,
    }
}

/// The directory an export goes to unless another is named.
pub open spec fn default_dir(input: Seq<char>) -> Seq<char> {
    text::trim_end_of(text::trim(input), '/') + "_clean"@
}

/// A switch of the run turned, or the anomaly mode.
pub open spec fn run_turned(s: Settings, id: Id, up: bool) -> Settings {
    match id {
        Id::Sequence => Settings { untracked: !s.untracked, ..s },
        Id::Stack => Settings { stack: !s.stack, ..s },
        Id::Stretch => Settings { stretch: !s.stretch, ..s },
        Id::Flatten => Settings { flatten: !s.flatten, ..s },
        Id::ResidualSurface => Settings { residual_surface: !s.residual_surface, ..s },
        Id::FixedStabilize => Settings { fixed_stabilize: !s.fixed_stabilize, ..s },
        Id::FixedAnomaly => Settings { fixed_anomaly: turned(s.fixed_anomaly, up), ..s },
        _ => s,
    }
}

/// A switch of the timelapse turned. The export takes a directory named after
/// the input as soon as it is on.
pub open spec fn export_turned(s: Settings, id: Id, up: bool) -> Settings {
    match id {
        Id::Export => Settings {
            export: !s.export,
            export_dir: if !s.export && text::trim(s.export_dir).len() == 0 {
                default_dir(s.input)
            } else {
                s.export_dir
            },
            ..s
        },
        Id::ExportStabilize => Settings { export_stabilize: !s.export_stabilize, ..s },
        Id::ExportDeflicker => Settings { export_deflicker: !s.export_deflicker, ..s },
        Id::ExportTransients => Settings { export_transients: !s.export_transients, ..s },
        Id::ExportCloudGuard => Settings { export_cloud_guard: !s.export_cloud_guard, ..s },
        _ => s,
    }
}

/// A count moved by its step.
pub open spec fn count_moved(s: Settings, id: Id, up: bool) -> Settings {
    match id {
        Id::Limit => Settings { limit: stepped(s.limit as int, 5, 0, 100_000, up) as usize, ..s },
        Id::MaxStars => Settings {
            max_stars: stepped(s.max_stars as int, 5, 5, 2000, up) as usize,
            ..s
        },
        Id::FixedSearch => Settings {
            fixed_search: stepped(s.fixed_search as int, 8, 4, 1024, up) as usize,
            ..s
        },
        Id::ExportWindow => Settings {
            export_window: made_odd(stepped(s.export_window as int, 2, 1, 199, up)) as usize,
            ..s
        },
        _ => s,
    }
}

/// A real-valued option moved by its step. One step below no foreground is
/// the default.
pub open spec fn real_moved(s: Settings, id: Id, up: bool) -> Settings {
    match id {
        Id::ScatterComp => Settings {
            scatter_comp: stepped_real(s.scatter_comp, 100_000_000, 0, 4_000_000_000, up),
            ..s
        },
        Id::SkyTolerance => Settings {
            sky_tolerance: stepped_real(s.sky_tolerance, 100_000_000, ONE as int, 20_000_000_000, up),
            ..s
        },
        Id::MaxForeground => Settings {
            max_foreground: match s.max_foreground {
                None => if up {
                    Some(0)
                } else {
                    None
                },
                Some(v) => if !up && v == 0 {
                    None
                } else {
                    Some(stepped_real(v, 50_000_000, 0, ONE as int, up))
                },
            },
            ..s
        },
        _ => s,
    }
}

/// The settings once a field has been stepped: a switch turns, a number moves
/// by its step, a path stays.
pub open spec fn bumped(s: Settings, id: Id, up: bool) -> Settings {
    match id {
        Id::Input | Id::Output | Id::ExportDir | Id::DumpCorrection => s,
        Id::Limit | Id::MaxStars | Id::FixedSearch | Id::ExportWindow => count_moved(s, id, up),
        Id::ScatterComp | Id::SkyTolerance | Id::MaxForeground => real_moved(s, id, up),
        Id::Export
        | Id::ExportStabilize
        | Id::ExportDeflicker
        | Id::ExportTransients
        | Id::ExportCloudGuard => export_turned(s, id, up),
        _ => run_turned(s, id, up),
    }
}

fn turn_anomaly(a: AnomalyArg, up: bool) -> (r: AnomalyArg)
    ensures
        r == turned(a, up),
{
    match (a, up) {
        (AnomalyArg::Coarse, true) => AnomalyArg::Off,
        (AnomalyArg::Off, true) => AnomalyArg::Full,
        (AnomalyArg::Full, true) => AnomalyArg::Coarse,
        (AnomalyArg::Coarse, false) => AnomalyArg::Full,
        (AnomalyArg::Off, false) => AnomalyArg::Coarse,
        (AnomalyArg::Full, false) => AnomalyArg::Off,
    }
}

/// Turns a switch of the run, or the anomaly mode.
#[verifier::rlimit(30)]
fn turn_run(c: Cfg, id: Id, up: bool) -> (r: Cfg)
    ensures
        r@ == run_turned(c@, id, up),
{
    match id {
        Id::Sequence => Cfg { untracked: !c.untracked, ..c },
        Id::Stack => Cfg { stack: !c.stack, ..c },
        Id::Stretch => Cfg { stretch: !c.stretch, ..c },
        Id::Flatten => Cfg { flatten: !c.flatten, ..c },
        Id::ResidualSurface => Cfg { residual_surface: !c.residual_surface, ..c },
        Id::FixedStabilize => Cfg { fixed_stabilize: !c.fixed_stabilize, ..c },
        Id::FixedAnomaly => Cfg { fixed_anomaly: turn_anomaly(c.fixed_anomaly, up), ..c },
        _ => c,
    }
}

/// Turns a switch of the timelapse.
#[verifier::rlimit(30)]
fn turn_export(c: Cfg, id: Id, up: bool) -> (r: Cfg)
    ensures
        r@ == export_turned(c@, id, up),
{
    match id {
        Id::Export => {
            if !c.export && blank(c.export_dir.as_str()) {
                let t = text::chars(c.input.as_str());
                let t = text::trimmed(t.as_slice());
                let mut t = text::trimmed_end_of(t.as_slice(), '/');
                text::push_text(&mut t, "_clean");
                return Cfg { export: true, export_dir: text::string(t.as_slice()), ..c };
            } else {
                return Cfg { export: !c.export, ..c };
            }
        },
        Id::ExportStabilize => {
            return Cfg { export_stabilize: !c.export_stabilize, ..c };
        },
        Id::ExportDeflicker => {
            return Cfg { export_deflicker: !c.export_deflicker, ..c };
        },
        Id::ExportTransients => {
            return Cfg { export_transients: !c.export_transients, ..c };
        },
        Id::ExportCloudGuard => {
            return Cfg { export_cloud_guard: !c.export_cloud_guard, ..c };
        },
        _ => c,
    }
}

/// Moves a count by its step.
#[verifier::rlimit(30)]
fn move_count(c: Cfg, id: Id, up: bool) -> (r: Cfg)
    ensures
        r@ == count_moved(c@, id, up),
{
    match id {
        Id::Limit => {
            return Cfg { limit: step_count(c.limit, 5, 0, 100_000, up), ..c };
        },
        Id::MaxStars => {
            return Cfg { max_stars: step_count(c.max_stars, 5, 5, 2000, up), ..c };
        },
        Id::FixedSearch => {
            return Cfg { fixed_search: step_count(c.fixed_search, 8, 4, 1024, up), ..c };
        },
        Id::ExportWindow => {
            return Cfg { export_window: make_odd(step_count(c.export_window, 2, 1, 199, up)), ..c };
        },
        _ => c,
    }
}

/// Moves a real-valued option by its step.
#[verifier::rlimit(30)]
fn move_real(c: Cfg, id: Id, up: bool) -> (r: Cfg)
    ensures
        r@ == real_moved(c@, id, up),
{
    match id {
        Id::ScatterComp => {
            return Cfg { scatter_comp: step_real(c.scatter_comp, 100_000_000, 0, 4_000_000_000, up), ..c };
        },
        Id::SkyTolerance => {
            return Cfg {
                sky_tolerance: step_real(c.sky_tolerance, 100_000_000, ONE, 20_000_000_000, up),
                ..c
            };
        },
        Id::MaxForeground => {
            let moved: Option<u64> = match c.max_foreground {
                None => if up {
                    Some(0)
                } else {
                    None
                },
                Some(v) => if !up && v == 0 {
                    None
                } else {
                    Some(step_real(v, 50_000_000, 0, ONE, up))
                },
            };
            return Cfg { max_foreground: moved, ..c };
        },
        _ => c,
    }
}

/// Steps a field.
pub(crate) fn bump_field(c: Cfg, id: Id, up: bool) -> (r: Cfg)
    ensures
        r@ == bumped(c@, id, up),
{
    match id {
        Id::Input | Id::Output | Id::ExportDir | Id::DumpCorrection => c,
        Id::Limit | Id::MaxStars | Id::FixedSearch | Id::ExportWindow => move_count(c, id, up),
        Id::ScatterComp | Id::SkyTolerance | Id::MaxForeground => move_real(c, id, up),
        Id::Export
        | Id::ExportStabilize
        | Id::ExportDeflicker
        | Id::ExportTransients
        | Id::ExportCloudGuard => turn_export(c, id, up),
        _ => turn_run(c, id, up),
    }
}

/// Whether every number of the form is one the run takes.
pub open spec fn in_range(s: Settings) -> bool {
    &&& 5 <= s.max_stars <= 2000
    &&& 4 <= s.fixed_search <= 1024
    &&& 1 <= s.export_window <= 199 && s.export_window % 2 == 1
    &&& s.scatter_comp <= 4_000_000_000
    &&& 1_000_000_000 <= s.sky_tolerance <= 20_000_000_000
    &&& (s.max_foreground is Some ==> s.max_foreground->0 <= 1_000_000_000)
}

proof fn lemma_counts_in_range(s: Settings, id: Id, buf: Seq<char>, up: bool)
    requires
        in_range(s),
    ensures
        in_range(count_typed(s, id, buf)),
        in_range(count_moved(s, id, up)),
{
    match id {
        Id::MaxStars => {
            assert(5 <= count_or(buf, s.max_stars, 5, 2000) <= 2000);
            assert(5 <= stepped(s.max_stars as int, 5, 5, 2000, up) <= 2000);
        },
        Id::FixedSearch => {
            assert(4 <= count_or(buf, s.fixed_search, 4, 1024) <= 1024);
            assert(4 <= stepped(s.fixed_search as int, 8, 4, 1024, up) <= 1024);
        },
        Id::ExportWindow => {
            assert(1 <= stepped(s.export_window as int, 2, 1, 199, up) <= 199);
        },
        _ => {},
    }
}

proof fn lemma_reals_in_range(s: Settings, id: Id, buf: Seq<char>, up: bool)
    requires
        in_range(s),
    ensures
        in_range(real_typed(s, id, buf)),
        in_range(real_moved(s, id, up)),
{
    match id {
        Id::ScatterComp => {
            assert(real_or(buf, s.scatter_comp, 0, 4_000_000_000) <= 4_000_000_000);
            assert(stepped_real(s.scatter_comp, 100_000_000, 0, 4_000_000_000, up) <= 4_000_000_000);
        },
        Id::SkyTolerance => {
            assert(ONE <= real_or(buf, s.sky_tolerance, ONE, 20_000_000_000) <= 20_000_000_000);
            assert(ONE <= stepped_real(s.sky_tolerance, 100_000_000, ONE as int, 20_000_000_000, up)
                <= 20_000_000_000);
        },
        _ => {},
    }
}

/// Whatever is typed and however often a field is stepped, the numbers stay in
/// their ranges and the window stays odd.
pub proof fn law_numbers_stay_in_range(s: Settings, id: Id, buf: Seq<char>, up: bool)
    requires
        in_range(s),
    ensures
        in_range(committed(s, id, buf)),
        in_range(bumped(s, id, up)),
{
    lemma_counts_in_range(s, id, buf, up);
    lemma_reals_in_range(s, id, buf, up);
}

/// What cannot be read as the number of a field is dropped, and the old value
/// stands.
pub proof fn law_unreadable_text_changes_nothing(s: Settings, id: Id, buf: Seq<char>)
    requires
        kind_of(id) is Number,
        match id {
            Id::ScatterComp | Id::SkyTolerance | Id::MaxForeground => real_of(buf) is None,
            _ => count_of(buf) is None,
        },
    ensures
        committed(s, id, buf) == s,
{
}

/// A number outside a range becomes the nearest one within it.
pub proof fn law_ranges_hold(v: int, lo: int, hi: int, m: int)
    requires
        lo <= m <= hi,
    ensures
        lo <= clamped(v, lo, hi) <= hi,
        lo <= v <= hi ==> clamped(v, lo, hi) == v,
        v <= m ==> clamped(v, lo, hi) <= m,
        v >= m ==> clamped(v, lo, hi) >= m,
{
}

/// What is typed into a number field is what it holds, brought into the range
/// of the field; a window is made odd.
pub proof fn law_typed_numbers_are_taken(s: Settings, n: nat)
    requires
        n <= usize::MAX,
    ensures
        committed(s, Id::Limit, text::decimal(n)).limit == n,
        5 <= n <= 2000 ==> committed(s, Id::MaxStars, text::decimal(n)).max_stars == n,
        n < 5 ==> committed(s, Id::MaxStars, text::decimal(n)).max_stars == 5,
        n > 2000 ==> committed(s, Id::MaxStars, text::decimal(n)).max_stars == 2000,
        4 <= n <= 1024 ==> committed(s, Id::FixedSearch, text::decimal(n)).fixed_search == n,
        n < 4 ==> committed(s, Id::FixedSearch, text::decimal(n)).fixed_search == 4,
        n > 1024 ==> committed(s, Id::FixedSearch, text::decimal(n)).fixed_search == 1024,
        1 <= n <= 199 && n % 2 == 1 ==> committed(
            s,
            Id::ExportWindow,
            text::decimal(n),
        ).export_window == n,
        1 <= n <= 198 && n % 2 == 0 ==> committed(
            s,
            Id::ExportWindow,
            text::decimal(n),
        ).export_window == n + 1,
        n == 0 ==> committed(s, Id::ExportWindow, text::decimal(n)).export_window == 1,
        n > 199 ==> committed(s, Id::ExportWindow, text::decimal(n)).export_window == 199,
{
    let t = text::decimal(n);
    text::law_decimal_reads_back(n);
    assert(text::is_digit(t[0]) && text::is_digit(t[t.len() - 1]));
    assert(text::trim(t) == t);
    assert(count_of(t) == Some(n as int));
}

/// A field that is typed into changes nothing but itself.
pub proof fn law_fields_are_typed_alone(s: Settings, buf: Seq<char>)
    ensures
        ({
            let c = committed(s, Id::Limit, buf);
            c == (Settings { limit: c.limit, ..s })
        }),
        ({
            let c = committed(s, Id::MaxStars, buf);
            c == (Settings { max_stars: c.max_stars, ..s })
        }),
        ({
            let c = committed(s, Id::FixedSearch, buf);
            c == (Settings { fixed_search: c.fixed_search, ..s })
        }),
        ({
            let c = committed(s, Id::ExportWindow, buf);
            c == (Settings { export_window: c.export_window, ..s })
        }),
        ({
            let c = committed(s, Id::ScatterComp, buf);
            c == (Settings { scatter_comp: c.scatter_comp, ..s })
        }),
        ({
            let c = committed(s, Id::SkyTolerance, buf);
            c == (Settings { sky_tolerance: c.sky_tolerance, ..s })
        }),
        ({
            let c = committed(s, Id::MaxForeground, buf);
            c == (Settings { max_foreground: c.max_foreground, ..s })
        }),
        committed(s, Id::Input, buf) == (Settings { input: text::trim(buf), ..s }),
        committed(s, Id::Output, buf) == (Settings { output: text::trim(buf), ..s }),
        committed(s, Id::ExportDir, buf) == (Settings { export_dir: text::trim(buf), ..s }),
        committed(s, Id::DumpCorrection, buf) == (Settings {
            dump_correction: text::trim(buf),
            ..s
        }),
        committed(s, Id::Stack, buf) == s && committed(s, Id::FixedAnomaly, buf) == s,
{
}

/// A number with decimals is read to the billionth: the whole part, a point,
/// and as many billionths as its digits say.
pub proof fn law_reals_are_read(w: nat, n: nat)
    requires
        n < 100,
    ensures
        real_of(text::decimal(w) + seq!['.'] + text::two_digits(n)) == Some(
            (w * 1_000_000_000 + n * 10_000_000) as int,
        ),
        real_of(text::decimal(w)) == Some((w * 1_000_000_000) as int),
{
    let a = text::decimal(w);
    let d = text::two_digits(n);
    let t = a + seq!['.'] + d;
    text::law_decimal_reads_back(w);
    text::law_decimals_are_short(n);
    lemma_two_digits(n);
    let k = a.len() as int;
    assert(text::is_digit(a[0]) && text::is_digit(a[k - 1]));
    assert(text::is_digit(d[0]) && text::is_digit(d[1]));
    assert(t[0] == a[0] && t[t.len() - 1] == d[1]);
    assert(text::trim(t) == t);
    assert(text::trim(a) == a);
    assert forall|i: int| 0 <= i < k implies t[i] != '.' && a[i] != '.' by {
        assert(text::is_digit(a[i]) && t[i] == a[i]);
    }
    assert(t[k] == '.');
    lemma_point_is(t, k);
    lemma_point_is(a, k);
    assert(t.take(k) =~= a);
    assert(t.skip(k + 1) =~= d);
    assert(a.take(k) =~= a);
    assert(ten_to(7) == 10_000_000 && ten_to(9) == 1_000_000_000) by {
        reveal_with_fuel(ten_to, 10);
    }
    lemma_tens(d, 7);
    assert((d + text::run_of('0', 9)).take(9) =~= d + text::run_of('0', 7));
    let none = Seq::<char>::empty();
    assert((none + text::run_of('0', 9)).take(9) =~= none + text::run_of('0', 9));
    lemma_tens(none, 9);
}

proof fn lemma_two_digits(n: nat)
    requires
        n < 100,
    ensures
        text::all_digits(text::two_digits(n)),
{
    text::law_decimal_reads_back(n);
    let d = text::two_digits(n);
    assert forall|i: int| 0 <= i < d.len() implies text::is_digit(#[trigger] d[i]) by {
        if n < 10 && i > 0 {
            assert(d[i] == text::decimal(n)[i - 1]);
        }
    }
}

/// What the value of digits is multiplied by with zeros behind them.
spec fn ten_to(k: nat) -> nat
    decreases k,
{
    if k == 0 {
        1
    } else {
        10 * ten_to((k - 1) as nat)
    }
}

proof fn lemma_tens(d: Seq<char>, k: nat)
    ensures
        text::digits_value(d + text::run_of('0', k as int)) == text::digits_value(d) * ten_to(k),
    decreases k,
{
    let t = d + text::run_of('0', k as int);
    if k == 0 {
        assert(t =~= d);
        let v = text::digits_value(d) as int;
        assert(v * 1 == v) by (nonlinear_arith);
    } else {
        lemma_tens(d, (k - 1) as nat);
        assert(t.drop_last() =~= d + text::run_of('0', k - 1));
        assert(t.last() == '0');
        let (v, m) = (text::digits_value(d) as int, ten_to((k - 1) as nat) as int);
        assert(10 * (v * m) == v * (10 * m)) by (nonlinear_arith);
        assert(text::digits_value(t) == 10 * text::digits_value(t.drop_last()));
    }
}

/// The arrows move a number by its step and stop at the ends of its range.
pub proof fn law_arrows_move_by_a_step(v: int, step: int, lo: int, hi: int)
    requires
        lo <= v <= hi,
        step > 0,
    ensures
        v + step <= hi ==> stepped(v, step, lo, hi, true) == v + step,
        v - step >= lo ==> stepped(v, step, lo, hi, false) == v - step,
        v + step > hi ==> stepped(v, step, lo, hi, true) == hi,
        v - step < lo ==> stepped(v, step, lo, hi, false) == lo,
        lo + step <= v && v + step <= hi ==> stepped(
            stepped(v, step, lo, hi, true),
            step,
            lo,
            hi,
            false,
        ) == v,
{
}

/// The steps of what is counted: five frames, five stars, eight pixels and two
/// frames of a window.
pub proof fn law_steps_of_counts(s: Settings)
    requires
        in_range(s),
    ensures
        s.limit <= 99_995 ==> bumped(s, Id::Limit, true).limit == s.limit + 5,
        5 <= s.limit <= 100_000 ==> bumped(s, Id::Limit, false).limit == s.limit - 5,
        s.max_stars <= 1995 ==> bumped(s, Id::MaxStars, true).max_stars == s.max_stars + 5,
        s.max_stars >= 10 ==> bumped(s, Id::MaxStars, false).max_stars == s.max_stars - 5,
        s.fixed_search <= 1016 ==> bumped(s, Id::FixedSearch, true).fixed_search == s.fixed_search
            + 8,
        s.fixed_search >= 12 ==> bumped(s, Id::FixedSearch, false).fixed_search == s.fixed_search
            - 8,
        s.export_window <= 197 ==> bumped(s, Id::ExportWindow, true).export_window
            == s.export_window + 2,
        s.export_window >= 3 ==> bumped(s, Id::ExportWindow, false).export_window
            == s.export_window - 2,
{
}

/// A factor moves by whole hundredths: one that stands on them by exactly the
/// step, within its range.
pub proof fn law_steps_of_factors(v: u64, step: int, lo: int, hi: int)
    requires
        v % 10_000_000 == 0,
        step > 0,
        step % 10_000_000 == 0,
        0 <= lo <= v <= hi <= 20_000_000_000,
        lo % 10_000_000 == 0,
        hi % 10_000_000 == 0,
    ensures
        v + step <= hi ==> stepped_real(v, step, lo, hi, true) == v + step,
        v - step >= lo ==> stepped_real(v, step, lo, hi, false) == v - step,
        v + step > hi ==> stepped_real(v, step, lo, hi, true) == hi,
        v - step < lo ==> stepped_real(v, step, lo, hi, false) == lo,
{
}

/// The steps of the factors: tenths of the compensation up to four and of the
/// tolerance from one to twenty. The foreground moves by five hundredths up to
/// all of it; below none of it stands that it is left to the kind of sequence.
pub proof fn law_steps_of_reals(s: Settings, up: bool)
    ensures
        bumped(s, Id::ScatterComp, up).scatter_comp == stepped_real(
            s.scatter_comp,
            100_000_000,
            0,
            4_000_000_000,
            up,
        ),
        bumped(s, Id::SkyTolerance, up).sky_tolerance == stepped_real(
            s.sky_tolerance,
            100_000_000,
            1_000_000_000,
            20_000_000_000,
            up,
        ),
        s.max_foreground is None ==> bumped(s, Id::MaxForeground, true).max_foreground == Some(0u64)
            && bumped(s, Id::MaxForeground, false).max_foreground is None,
        s.max_foreground matches Some(v) ==> (v == 0 && !up ==> bumped(
            s,
            Id::MaxForeground,
            up,
        ).max_foreground is None) && (v > 0 || up ==> bumped(s, Id::MaxForeground, up).max_foreground
            == Some(stepped_real(v, 50_000_000, 0, 1_000_000_000, up))),
{
}

/// Three choices are gone through in a circle, and the other way round the
/// other way.
pub proof fn law_choices_go_round(a: AnomalyArg, up: bool)
    ensures
        turned(turned(a, up), !up) == a,
        turned(turned(turned(a, up), up), up) == a,
        turned(a, up) != a,
        turned(AnomalyArg::Coarse, true) is Off,
{
}

/// A switch turns its own option and no other, and turned twice it stands where
/// it stood.
pub proof fn law_switches_turn_alone(s: Settings, up: bool)
    ensures
        bumped(s, Id::Sequence, up) == (Settings { untracked: !s.untracked, ..s }),
        bumped(s, Id::Stack, up) == (Settings { stack: !s.stack, ..s }),
        bumped(s, Id::Stretch, up) == (Settings { stretch: !s.stretch, ..s }),
        bumped(s, Id::Flatten, up) == (Settings { flatten: !s.flatten, ..s }),
        bumped(s, Id::ResidualSurface, up) == (Settings {
            residual_surface: !s.residual_surface,
            ..s
        }),
        bumped(s, Id::FixedStabilize, up) == (Settings { fixed_stabilize: !s.fixed_stabilize, ..s }),
        bumped(s, Id::ExportStabilize, up) == (Settings {
            export_stabilize: !s.export_stabilize,
            ..s
        }),
        bumped(s, Id::ExportDeflicker, up) == (Settings {
            export_deflicker: !s.export_deflicker,
            ..s
        }),
        bumped(s, Id::ExportTransients, up) == (Settings {
            export_transients: !s.export_transients,
            ..s
        }),
        bumped(s, Id::ExportCloudGuard, up) == (Settings {
            export_cloud_guard: !s.export_cloud_guard,
            ..s
        }),
        bumped(s, Id::Export, up).export == !s.export,
        bumped(s, Id::Input, up) == s && bumped(s, Id::Output, up) == s && bumped(
            s,
            Id::ExportDir,
            up,
        ) == s,
{
}

/// An export that is switched on without a directory gets one beside the
/// frames: their directory with `_clean` behind it, slashes aside. One that has
/// a directory keeps it.
pub proof fn law_exports_go_beside_the_frames(s: Settings, up: bool, path: Seq<char>, n: nat)
    requires
        path.len() > 0,
        !text::is_white(path[0]),
        !text::is_white(path.last()),
        path.last() != '/',
    ensures
        default_dir(path + text::run_of('/', n as int)) == path + "_clean"@,
        text::trim(s.export_dir).len() > 0 ==> bumped(s, Id::Export, up).export_dir
            == s.export_dir,
        s.export ==> bumped(s, Id::Export, up).export_dir == s.export_dir,
        !s.export && text::trim(s.export_dir).len() == 0 ==> bumped(s, Id::Export, up).export_dir
            == default_dir(s.input),
{
    let t = path + text::run_of('/', n as int);
    assert(t[0] == path[0]);
    assert(!text::is_white(t.last())) by {
        if n == 0 {
            assert(t.last() == path.last());
        } else {
            assert(t.last() == '/');
        }
    }
    assert(text::trim(t) == t);
    let k = text::law_trimming_takes_the_character(t, '/');
    assert(k == path.len()) by {
        if k < path.len() {
            assert(t[path.len() - 1] == path.last());
        }
        if k > path.len() {
            assert(t[k - 1] == '/');
        }
    }
    assert(t.take(k) =~= path);
}

/// A number with decimals that is typed is taken as it is, within the range of
/// its field: up to four, from one to twenty, and up to one.
pub proof fn law_typed_reals_are_taken(s: Settings, buf: Seq<char>, v: int)
    requires
        real_of(buf) == Some(v),
        v >= 0,
    ensures
        v <= 4_000_000_000 ==> committed(s, Id::ScatterComp, buf).scatter_comp == v,
        v > 4_000_000_000 ==> committed(s, Id::ScatterComp, buf).scatter_comp == 4_000_000_000,
        1_000_000_000 <= v <= 20_000_000_000 ==> committed(s, Id::SkyTolerance, buf).sky_tolerance
            == v,
        v < 1_000_000_000 ==> committed(s, Id::SkyTolerance, buf).sky_tolerance == 1_000_000_000,
        v > 20_000_000_000 ==> committed(s, Id::SkyTolerance, buf).sky_tolerance == 20_000_000_000,
        v <= 1_000_000_000 ==> committed(s, Id::MaxForeground, buf).max_foreground == Some(v as u64),
        v > 1_000_000_000 ==> committed(s, Id::MaxForeground, buf).max_foreground == Some(
            1_000_000_000u64,
        ),
{
}

} // verus!
