//! The command line that does the same as the setup screen, and how it reads.
use crate::text;
use crate::ui::edit::{count_of, lemma_point_is, real_of};
use crate::ui::wizard::{
    anomaly_name, anomaly_text, same_options, settings_of, shown, Args, Cfg, Settings,
};
use vstd::prelude::*;

verus! {

/// The options of the command line.
#[derive(Clone, Copy, Debug, PartialEq, Eq, Structural)]
pub enum Opt {
    Input,
    Output,
    FixedTripod,
    Limit,
    NoStack,
    NoStretch,
    NoFlatten,
    NoResidualSurface,
    ScatterComp,
    DumpCorrection,
    ExportClean,
    ExportWindow,
    ExportNoStabilize,
    ExportNoDeflicker,
    ExportNoTransients,
    ExportNoCloudGuard,
    FixedNoStabilize,
    FixedSearch,
    FixedAnomaly,
    SkyTolerance,
    MaxForeground,
    MaxStars,
}

/// How many options there are.
pub const OPTIONS: usize = 22;

/// The option at a place of the command line.
pub open spec fn opt_at(k: int) -> Opt {
    if k == 0 {
        Opt::Input
    } else if k == 1 {
        Opt::Output
    } else if k == 2 {
        Opt::FixedTripod
    } else if k == 3 {
        Opt::Limit
    } else if k == 4 {
        Opt::NoStack
    } else if k == 5 {
        Opt::NoStretch
    } else if k == 6 {
        Opt::NoFlatten
    } else if k == 7 {
        Opt::NoResidualSurface
    } else if k == 8 {
        Opt::ScatterComp
    } else if k == 9 {
        Opt::DumpCorrection
    } else if k == 10 {
        Opt::ExportClean
    } else if k == 11 {
        Opt::ExportWindow
    } else if k == 12 {
        Opt::ExportNoStabilize
    } else if k == 13 {
        Opt::ExportNoDeflicker
    } else if k == 14 {
        Opt::ExportNoTransients
    } else if k == 15 {
        Opt::ExportNoCloudGuard
    } else if k == 16 {
        Opt::FixedNoStabilize
    } else if k == 17 {
        Opt::FixedSearch
    } else if k == 18 {
        Opt::FixedAnomaly
    } else if k == 19 {
        Opt::SkyTolerance
    } else if k == 20 {
        Opt::MaxForeground
    } else {
        Opt::MaxStars
    }
}

/// The place of an option.
pub open spec fn place(o: Opt) -> int {
    match o {
        Opt::Input => 0,
        Opt::Output => 1,
        Opt::FixedTripod => 2,
        Opt::Limit => 3,
        Opt::NoStack => 4,
        Opt::NoStretch => 5,
        Opt::NoFlatten => 6,
        Opt::NoResidualSurface => 7,
        Opt::ScatterComp => 8,
        Opt::DumpCorrection => 9,
        Opt::ExportClean => 10,
        Opt::ExportWindow => 11,
        Opt::ExportNoStabilize => 12,
        Opt::ExportNoDeflicker => 13,
        Opt::ExportNoTransients => 14,
        Opt::ExportNoCloudGuard => 15,
        Opt::FixedNoStabilize => 16,
        Opt::FixedSearch => 17,
        Opt::FixedAnomaly => 18,
        Opt::SkyTolerance => 19,
        Opt::MaxForeground => 20,
        Opt::MaxStars => 21,
    }
}

fn nth_opt(k: usize) -> (o: Opt)
    ensures
        o == opt_at(k as int),
{
    if k == 0 {
        Opt::Input
    } else if k == 1 {
        Opt::Output
    } else if k == 2 {
        Opt::FixedTripod
    } else if k == 3 {
        Opt::Limit
    } else if k == 4 {
        Opt::NoStack
    } else if k == 5 {
        Opt::NoStretch
    } else if k == 6 {
        Opt::NoFlatten
    } else if k == 7 {
        Opt::NoResidualSurface
    } else if k == 8 {
        Opt::ScatterComp
    } else if k == 9 {
        Opt::DumpCorrection
    } else if k == 10 {
        Opt::ExportClean
    } else if k == 11 {
        Opt::ExportWindow
    } else if k == 12 {
        Opt::ExportNoStabilize
    } else if k == 13 {
        Opt::ExportNoDeflicker
    } else if k == 14 {
        Opt::ExportNoTransients
    } else if k == 15 {
        Opt::ExportNoCloudGuard
    } else if k == 16 {
        Opt::FixedNoStabilize
    } else if k == 17 {
        Opt::FixedSearch
    } else if k == 18 {
        Opt::FixedAnomaly
    } else if k == 19 {
        Opt::SkyTolerance
    } else if k == 20 {
        Opt::MaxForeground
    } else {
        Opt::MaxStars
    }
}

/// How an option is spelled.
pub open spec fn name_of(o: Opt) -> Seq<char> {
    match o {
        Opt::Input => "-i"@,
        Opt::Output => "-o"@,
        Opt::FixedTripod => "--fixed-tripod"@,
        Opt::Limit => "--limit"@,
        Opt::NoStack => "--no-stack"@,
        Opt::NoStretch => "--no-stretch"@,
        Opt::NoFlatten => "--no-flatten"@,
        Opt::NoResidualSurface => "--no-residual-surface"@,
        Opt::ScatterComp => "--scatter-comp"@,
        Opt::DumpCorrection => "--dump-correction"@,
        Opt::ExportClean => "--export-clean"@,
        Opt::ExportWindow => "--export-window"@,
        Opt::ExportNoStabilize => "--export-no-stabilize"@,
        Opt::ExportNoDeflicker => "--export-no-deflicker"@,
        Opt::ExportNoTransients => "--export-no-transients"@,
        Opt::ExportNoCloudGuard => "--export-no-cloud-guard"@,
        Opt::FixedNoStabilize => "--fixed-no-stabilize"@,
        Opt::FixedSearch => "--fixed-search"@,
        Opt::FixedAnomaly => "--fixed-anomaly"@,
        Opt::SkyTolerance => "--stack-sky-tolerance"@,
        Opt::MaxForeground => "--stack-max-foreground"@,
        Opt::MaxStars => "--max-stars"@,
    }
}

fn opt_name(o: Opt) -> (r: &'static str)
    ensures
        r@ == name_of(o),
{
    match o {
        Opt::Input => "-i",
        Opt::Output => "-o",
        Opt::FixedTripod => "--fixed-tripod",
        Opt::Limit => "--limit",
        Opt::NoStack => "--no-stack",
        Opt::NoStretch => "--no-stretch",
        Opt::NoFlatten => "--no-flatten",
        Opt::NoResidualSurface => "--no-residual-surface",
        Opt::ScatterComp => "--scatter-comp",
        Opt::DumpCorrection => "--dump-correction",
        Opt::ExportClean => "--export-clean",
        Opt::ExportWindow => "--export-window",
        Opt::ExportNoStabilize => "--export-no-stabilize",
        Opt::ExportNoDeflicker => "--export-no-deflicker",
        Opt::ExportNoTransients => "--export-no-transients",
        Opt::ExportNoCloudGuard => "--export-no-cloud-guard",
        Opt::FixedNoStabilize => "--fixed-no-stabilize",
        Opt::FixedSearch => "--fixed-search",
        Opt::FixedAnomaly => "--fixed-anomaly",
        Opt::SkyTolerance => "--stack-sky-tolerance",
        Opt::MaxForeground => "--stack-max-foreground",
        Opt::MaxStars => "--max-stars",
    }
}

/// Whether a value follows an option.
pub open spec fn takes_value(o: Opt) -> bool {
    match o {
        Opt::Input
        | Opt::Output
        | Opt::Limit
        | Opt::ScatterComp
        | Opt::DumpCorrection
        | Opt::ExportClean
        | Opt::ExportWindow
        | Opt::FixedSearch
        | Opt::FixedAnomaly
        | Opt::SkyTolerance
        | Opt::MaxForeground
        | Opt::MaxStars => true,
        _ => false,
    }
}

fn is_valued(o: Opt) -> (b: bool)
    ensures
        b == takes_value(o),
{
    match o {
        Opt::Input
        | Opt::Output
        | Opt::Limit
        | Opt::ScatterComp
        | Opt::DumpCorrection
        | Opt::ExportClean
        | Opt::ExportWindow
        | Opt::FixedSearch
        | Opt::FixedAnomaly
        | Opt::SkyTolerance
        | Opt::MaxForeground
        | Opt::MaxStars => true,
        _ => false,
    }
}

/// The last `k` digits of a number.
pub open spec fn last_digits(n: int, k: int) -> Seq<char>
    decreases k,
{
    if k <= 0 {
        Seq::empty()
    } else {
        last_digits(n / 10, k - 1).push(text::digit(n % 10))
    }
}

fn digits_of(n: u64, k: usize) -> (v: Vec<char>)
    ensures
        v@ == last_digits(n as int, k as int),
    decreases k,
{
    if k == 0 {
        Vec::new()
    } else {
        let mut v = digits_of(n / 10, k - 1);
        v.push((0x30 + (n % 10) as u8) as char);
        v
    }
}

/// Decimals without the zeros at their end; two of them are kept.
pub open spec fn without_zeros(d: Seq<char>) -> Seq<char>
    decreases d.len(),
{
    if d.len() > 2 && d.last() == '0' {
        without_zeros(d.drop_last())
    } else {
        d
    }
}

/// A real-valued option with every decimal it holds, two at least.
pub open spec fn exact(v: u64) -> Seq<char> {
    text::decimal((v as int / 1_000_000_000) as nat) + "."@ + without_zeros(
        last_digits(v as int % 1_000_000_000, 9),
    )
}

fn exact_text(v: u64) -> (c: Vec<char>)
    ensures
        c@ == exact(v),
{
    let mut c: Vec<char> = Vec::new();
    text::push_decimal(&mut c, v / 1_000_000_000);
    text::push_text(&mut c, ".");
    let mut d = digits_of(v % 1_000_000_000, 9);
    let ghost all = d@;
    while d.len() > 2 && d[d.len() - 1] == '0'
        invariant
            without_zeros(d@) == without_zeros(all),
        decreases d@.len(),
    {
        let ghost was = d@;
        let _ = d.pop();
        assert(d@ =~= was.drop_last());
    }
    c.append(&mut d);
    assert(c@ =~= exact(v));
    c
}

/// What the command line says of an option: its value, empty where it takes
/// none; nothing where it does not apply or is what it is by default.
pub open spec fn written(s: Settings, d: Args, o: Opt) -> Option<Seq<char>> {
    match o {
        Opt::Input => if text::trim(s.input) != d.input@ {
            Some(text::trim(s.input))
        } else {
            None
        },
        Opt::Output => if s.stack && text::trim(s.output) != d.output@ {
            Some(text::trim(s.output))
        } else {
            None
        },
        Opt::FixedTripod => flag(s.untracked),
        Opt::Limit => if s.limit > 0 {
            Some(text::decimal(s.limit as nat))
        } else {
            None
        },
        Opt::NoStack => flag(!s.stack),
        Opt::NoStretch => flag(!s.stretch),
        Opt::NoFlatten => flag(!s.flatten),
        Opt::NoResidualSurface => flag(s.flatten && !s.residual_surface),
        Opt::ScatterComp => if s.flatten && s.scatter_comp != d.scatter_comp {
            Some(exact(s.scatter_comp))
        } else {
            None
        },
        Opt::DumpCorrection => if text::trim(s.dump_correction).len() > 0 {
            Some(text::trim(s.dump_correction))
        } else {
            None
        },
        Opt::ExportClean => if s.export {
            Some(text::trim(s.export_dir))
        } else {
            None
        },
        Opt::ExportWindow => if s.export && s.export_window != d.export_window {
            Some(text::decimal(s.export_window as nat))
        } else {
            None
        },
        Opt::ExportNoStabilize => flag(s.export && !s.export_stabilize),
        Opt::ExportNoDeflicker => flag(s.export && !s.export_deflicker),
        Opt::ExportNoTransients => flag(s.export && !s.export_transients),
        Opt::ExportNoCloudGuard => flag(s.export && !s.export_cloud_guard),
        Opt::FixedNoStabilize => flag(s.untracked && !s.fixed_stabilize),
        Opt::FixedSearch => if s.untracked && s.fixed_search != d.fixed_search {
            Some(text::decimal(s.fixed_search as nat))
        } else {
            None
        },
        Opt::FixedAnomaly => if s.untracked && s.fixed_anomaly != d.fixed_anomaly {
            Some(anomaly_text(s.fixed_anomaly))
        } else {
            None
        },
        Opt::SkyTolerance => if s.sky_tolerance != d.stack_sky_tolerance {
            Some(exact(s.sky_tolerance))
        } else {
            None
        },
        Opt::MaxForeground => match s.max_foreground {
            Some(v) => Some(exact(v)),
            None => None,
        },
        Opt::MaxStars => if s.max_stars != d.max_stars {
            Some(text::decimal(s.max_stars as nat))
        } else {
            None
        },
    }
}

/// An option without a value.
pub open spec fn flag(on: bool) -> Option<Seq<char>> {
    if on {
        Some(Seq::empty())
    } else {
        None
    }
}

/// The options written among the first `n`.
pub open spec fn options_upto(s: Settings, d: Args, n: int) -> Seq<(Opt, Seq<char>)>
    decreases n,
{
    if n <= 0 {
        Seq::empty()
    } else {
        match written(s, d, opt_at(n - 1)) {
            Some(v) => options_upto(s, d, n - 1).push((opt_at(n - 1), v)),
            None => options_upto(s, d, n - 1),
        }
    }
}

/// The options that are written.
pub open spec fn options_of(s: Settings, d: Args) -> Seq<(Opt, Seq<char>)> {
    options_upto(s, d, OPTIONS as int)
}

/// Characters that mean something to a shell besides the space.
pub open spec fn special(c: char) -> bool {
    ||| c == '\'' || c == '"' || c == '\\' || c == '$' || c == '`' || c == '*' || c == '?'
    ||| c == '[' || c == ']' || c == '{' || c == '}' || c == '(' || c == ')' || c == '<'
    ||| c == '>' || c == '|' || c == '&' || c == ';' || c == '#' || c == '~' || c == '!'
    ||| c == '\t' || c == '\n' || c == '\r'
}

/// Whether a character may only stand in quotes.
pub open spec fn needs_quotes(c: char) -> bool {
    c == ' ' || special(c)
}

/// A text as it stands between single quotes: a quote of its own is written
/// behind the closing one, with a backslash, and the quotes are opened again.
pub open spec fn escaped(v: Seq<char>) -> Seq<char>
    decreases v.len(),
{
    if v.len() == 0 {
        Seq::empty()
    } else if v.last() == '\'' {
        escaped(v.drop_last()) + seq!['\'', '\\', '\'', '\'']
    } else {
        escaped(v.drop_last()).push(v.last())
    }
}

/// A value as it is written: in quotes if it has a space or a character that
/// means something else to a shell.
pub open spec fn quoted(v: Seq<char>) -> Seq<char> {
    if exists|i: int| 0 <= i < v.len() && needs_quotes(#[trigger] v[i]) {
        seq!['\''] + escaped(v) + seq!['\'']
    } else {
        v
    }
}

/// An option with its value.
pub open spec fn option_text(o: Opt, v: Seq<char>) -> Seq<char> {
    seq![' '] + name_of(o) + if takes_value(o) {
        seq![' '] + quoted(v)
    } else {
        Seq::empty()
    }
}

/// The program and its options.
pub open spec fn command_text(list: Seq<(Opt, Seq<char>)>) -> Seq<char>
    decreases list.len(),
{
    if list.len() == 0 {
        "apilaaa"@
    } else {
        command_text(list.drop_last()) + option_text(list.last().0, list.last().1)
    }
}

/// The command line that does the same as a form: only what departs from the
/// defaults is written out.
pub open spec fn command_of(s: Settings, d: Args) -> Seq<char> {
    command_text(options_of(s, d))
}

fn must_quote(c: char) -> (b: bool)
    ensures
        b == needs_quotes(c),
{
    c == ' ' || c == '\'' || c == '"' || c == '\\' || c == '$' || c == '`' || c == '*' || c == '?'
        || c == '[' || c == ']' || c == '{' || c == '}' || c == '(' || c == ')' || c == '<'
        || c == '>' || c == '|' || c == '&' || c == ';' || c == '#' || c == '~' || c == '!'
        || c == '\t' || c == '\n' || c == '\r'
}

/// Appends a text as it stands between quotes.
fn push_escaped(c: &mut Vec<char>, v: &Vec<char>)
    ensures
        final(c)@ == old(c)@ + escaped(v@),
{
    let ghost was = c@;
    let mut i: usize = 0;
    assert(was + escaped(v@.take(0)) =~= was);
    while i < v.len()
        invariant
            i <= v@.len(),
            c@ == was + escaped(v@.take(i as int)),
        decreases v@.len() - i,
    {
        let ghost next = v@.take(i + 1);
        let ghost sofar = c@;
        assert(next.last() == v@[i as int]);
        assert(next.drop_last() =~= v@.take(i as int));
        if v[i] == '\'' {
            c.push('\'');
            c.push('\\');
            c.push('\'');
            c.push('\'');
            assert(c@ =~= sofar + seq!['\'', '\\', '\'', '\'']);
        } else {
            c.push(v[i]);
        }
        assert(c@ =~= was + escaped(next));
        i = i + 1;
    }
    assert(v@.take(i as int) =~= v@);
}

/// Appends a value as it is written.
fn push_quoted(c: &mut Vec<char>, v: &Vec<char>)
    ensures
        final(c)@ == old(c)@ + quoted(v@),
{
    let ghost was = c@;
    let mut i: usize = 0;
    while i < v.len()
        invariant
            i <= v@.len(),
            c@ == was,
            was == old(c)@,
            forall|k: int| 0 <= k < i ==> !needs_quotes(#[trigger] v@[k]),
        decreases v@.len() - i,
    {
        if must_quote(v[i]) {
            assert(needs_quotes(v@[i as int]));
            c.push('\'');
            push_escaped(c, v);
            c.push('\'');
            assert(c@ =~= was + quoted(v@));
            return ;
        }
        i = i + 1;
    }
    c.extend_from_slice(v.as_slice());
    assert(c@ =~= was + quoted(v@));
}

fn given(on: bool) -> (r: Option<Vec<char>>)
    ensures
        seen(r) == flag(on),
{
    if on {
        let none: Vec<char> = Vec::new();
        assert(none@ =~= Seq::empty());
        Some(none)
    } else {
        None
    }
}

/// A text that may be absent.
spec fn seen(v: Option<Vec<char>>) -> Option<Seq<char>> {
    match v {
        Some(t) => Some(t@),
        None => None,
    }
}

fn path(applies: bool, p: &str) -> (r: Option<Vec<char>>)
    ensures
        seen(r) == if applies {
            Some(text::trim(p@))
        } else {
            None
        },
{
    if applies {
        let c = text::chars(p);
        Some(text::trimmed(c.as_slice()))
    } else {
        None
    }
}

fn number(applies: bool, n: usize) -> (r: Option<Vec<char>>)
    ensures
        seen(r) == if applies {
            Some(text::decimal(n as nat))
        } else {
            None
        },
{
    if applies {
        let mut c: Vec<char> = Vec::new();
        text::push_decimal(&mut c, n as u64);
        assert(c@ =~= text::decimal(n as nat));
        Some(c)
    } else {
        None
    }
}

fn fraction(applies: bool, v: u64) -> (r: Option<Vec<char>>)
    ensures
        seen(r) == if applies {
            Some(exact(v))
        } else {
            None
        },
{
    if applies {
        Some(exact_text(v))
    } else {
        None
    }
}

/// Whether a text, white space around it aside, is not a given one.
fn departs(s: &str, d: &str) -> (r: bool)
    ensures
        r == (text::trim(s@) != d@),
{
    let c = text::chars(s);
    let t = text::trimmed(c.as_slice());
    let e = text::chars(d);
    !text::same(t.as_slice(), e.as_slice())
}

/// Whether there is anything but white space.
fn filled(s: &str) -> (r: bool)
    ensures
        r == (text::trim(s@).len() > 0),
{
    let c = text::chars(s);
    let t = text::trimmed(c.as_slice());
    t.len() > 0
}

impl Cfg {
    /// What the command line says of an option.
    fn written_as(&self, d: &Args, o: Opt) -> (r: Option<Vec<char>>)
        ensures
            seen(r) == written(self@, *d, o),
    {
        match o {
            Opt::Input => path(departs(self.input.as_str(), d.input.as_str()), self.input.as_str()),
            Opt::Output => path(
                self.stack && departs(self.output.as_str(), d.output.as_str()),
                self.output.as_str(),
            ),
            Opt::FixedTripod => given(self.untracked),
            Opt::Limit => number(self.limit > 0, self.limit),
            Opt::NoStack => given(!self.stack),
            Opt::NoStretch => given(!self.stretch),
            Opt::NoFlatten => given(!self.flatten),
            Opt::NoResidualSurface => given(self.flatten && !self.residual_surface),
            Opt::ScatterComp => fraction(
                self.flatten && self.scatter_comp != d.scatter_comp,
                self.scatter_comp,
            ),
            Opt::DumpCorrection => path(
                filled(self.dump_correction.as_str()),
                self.dump_correction.as_str(),
            ),
            Opt::ExportClean => path(self.export, self.export_dir.as_str()),
            Opt::ExportWindow => number(
                self.export && self.export_window != d.export_window,
                self.export_window,
            ),
            Opt::ExportNoStabilize => given(self.export && !self.export_stabilize),
            Opt::ExportNoDeflicker => given(self.export && !self.export_deflicker),
            Opt::ExportNoTransients => given(self.export && !self.export_transients),
            Opt::ExportNoCloudGuard => given(self.export && !self.export_cloud_guard),
            Opt::FixedNoStabilize => given(self.untracked && !self.fixed_stabilize),
            Opt::FixedSearch => number(
                self.untracked && self.fixed_search != d.fixed_search,
                self.fixed_search,
            ),
            Opt::FixedAnomaly => if self.untracked && self.fixed_anomaly != d.fixed_anomaly {
                Some(text::chars(anomaly_name(self.fixed_anomaly)))
            } else {
                None
            },
            Opt::SkyTolerance => fraction(
                self.sky_tolerance != d.stack_sky_tolerance,
                self.sky_tolerance,
            ),
            Opt::MaxForeground => match self.max_foreground {
                Some(v) => fraction(true, v),
                None => None,
            },
            Opt::MaxStars => number(self.max_stars != d.max_stars, self.max_stars),
        }
    }

    /// The command line that would do the same thing.
    pub fn command_line(&self, d: &Args) -> (r: String)
        ensures
            r@ == command_of(self@, *d),
    {
        let mut c = text::chars("apilaaa");
        let mut k: usize = 0;
        while k < OPTIONS
            invariant
                k <= OPTIONS,
                c@ == command_text(options_upto(self@, *d, k as int)),
            decreases OPTIONS - k,
        {
            let o: Opt = nth_opt(k);
            let ghost was = c@;
            if let Some(v) = self.written_as(d, o) {
                c.push(' ');
                text::push_text(&mut c, opt_name(o));
                if is_valued(o) {
                    c.push(' ');
                    push_quoted(&mut c, &v);
                }
                proof {
                    let list = options_upto(self@, *d, k as int);
                    assert(list.push((o, v@)).drop_last() =~= list);
                    assert(c@ =~= was + option_text(o, v@));
                }
            }
            k = k + 1;
        }
        text::string(c.as_slice())
    }
}

/// The words of a command line, the one that is not finished yet, whether it
/// stands in quotes, whether a backslash stands before what comes next, and
/// whether every character so far was meant as itself.
pub struct Scan {
    pub done: Seq<Seq<char>>,
    pub word: Option<Seq<char>>,
    pub quoting: bool,
    pub escaping: bool,
    pub literal: bool,
}

/// The word so far.
pub open spec fn so_far(word: Option<Seq<char>>) -> Seq<char> {
    match word {
        Some(w) => w,
        None => Seq::empty(),
    }
}

/// Reads one character as a shell does. A space ends a word; what stands
/// between single quotes or behind a backslash is taken as it is; another
/// special character would do more than stand for itself.
pub open spec fn step(f: Scan, c: char) -> Scan {
    if f.escaping {
        Scan { word: Some(so_far(f.word).push(c)), escaping: false, ..f }
    } else if f.quoting {
        if c == '\'' {
            Scan { quoting: false, ..f }
        } else {
            Scan { word: Some(so_far(f.word).push(c)), ..f }
        }
    } else if c == '\'' {
        Scan { word: Some(so_far(f.word)), quoting: true, ..f }
    } else if c == '\\' {
        Scan { word: Some(so_far(f.word)), escaping: true, ..f }
    } else if c == ' ' {
        match f.word {
            Some(w) => Scan { done: f.done.push(w), word: None, ..f },
            None => f,
        }
    } else {
        Scan {
            word: Some(so_far(f.word).push(c)),
            literal: f.literal && !special(c),
            ..f
        }
    }
}

/// Reads a command line.
pub open spec fn scan(t: Seq<char>) -> Scan
    decreases t.len(),
{
    if t.len() == 0 {
        Scan {
            done: Seq::empty(),
            word: None,
            quoting: false,
            escaping: false,
            literal: true,
        }
    } else {
        step(scan(t.drop_last()), t.last())
    }
}

/// The words of a command line, where it is finished and a shell does no more
/// than split it.
pub open spec fn words(t: Seq<char>) -> Option<Seq<Seq<char>>> {
    let f = scan(t);
    if f.quoting || f.escaping || !f.literal {
        None
    } else {
        match f.word {
            Some(w) => Some(f.done.push(w)),
            None => Some(f.done),
        }
    }
}

/// The option a word spells.
pub open spec fn opt_named(w: Seq<char>) -> Option<Opt> {
    if exists|o: Opt| name_of(o) == w {
        Some(choose|o: Opt| name_of(o) == w)
    } else {
        None
    }
}

/// The options that words spell: each followed by its value if it takes one,
/// which does not begin with a dash.
pub open spec fn read(ws: Seq<Seq<char>>) -> Option<Seq<(Opt, Seq<char>)>>
    decreases ws.len(),
{
    if ws.len() == 0 {
        Some(Seq::empty())
    } else {
        match opt_named(ws[0]) {
            None => None,
            Some(o) => if !takes_value(o) {
                match read(ws.skip(1)) {
                    Some(rest) => Some(seq![(o, Seq::<char>::empty())] + rest),
                    None => None,
                }
            } else if ws.len() < 2 || ws[1].len() == 0 || ws[1][0] == '-' {
                None
            } else {
                match read(ws.skip(2)) {
                    Some(rest) => Some(seq![(o, ws[1])] + rest),
                    None => None,
                }
            },
        }
    }
}

/// What is said of an option, the last time it is named.
pub open spec fn said_of(list: Seq<(Opt, Seq<char>)>, o: Opt) -> Option<Seq<char>>
    decreases list.len(),
{
    if list.len() == 0 {
        None
    } else if list.last().0 == o {
        Some(list.last().1)
    } else {
        said_of(list.drop_last(), o)
    }
}

/// Whether a text is what is said of it, or the default.
pub open spec fn is_text(said: Option<Seq<char>>, default: Seq<char>, v: Seq<char>) -> bool {
    match said {
        Some(t) => v == t,
        None => v == default,
    }
}

/// Whether a text that may be absent is what is said of it.
pub open spec fn is_optional(said: Option<Seq<char>>, v: Option<String>) -> bool {
    shown(v) == said
}

/// Whether a count is what is said of it, or the default.
pub open spec fn is_count(said: Option<Seq<char>>, default: usize, v: usize) -> bool {
    match said {
        Some(t) => count_of(t) == Some(v as int),
        None => v == default,
    }
}

/// Whether a real-valued option is what is said of it, or the default.
pub open spec fn is_real(said: Option<Seq<char>>, default: u64, v: u64) -> bool {
    match said {
        Some(t) => real_of(t) == Some(v as int),
        None => v == default,
    }
}

/// Whether options that are read say what a run is, over the defaults. What
/// the run does not look at is left out: where nothing is stacked the output,
/// without the correction what it consists of, without the export how it is
/// made, and on a tracked sequence what belongs to the tripod.
pub open spec fn spells(list: Seq<(Opt, Seq<char>)>, d: Args, a: Args) -> bool {
    &&& is_text(said_of(list, Opt::Input), d.input@, a.input@)
    &&& !a.no_stack ==> is_text(said_of(list, Opt::Output), d.output@, a.output@)
    &&& a.fixed_tripod == (d.fixed_tripod || said_of(list, Opt::FixedTripod) is Some)
    &&& match said_of(list, Opt::Limit) {
        Some(t) => a.limit is Some && count_of(t) == Some(a.limit->0 as int),
        None => a.limit == d.limit,
    }
    &&& a.no_stack == (d.no_stack || said_of(list, Opt::NoStack) is Some)
    &&& a.no_stretch == (d.no_stretch || said_of(list, Opt::NoStretch) is Some)
    &&& a.no_flatten == (d.no_flatten || said_of(list, Opt::NoFlatten) is Some)
    &&& !a.no_flatten ==> a.no_residual_surface == (d.no_residual_surface || said_of(
        list,
        Opt::NoResidualSurface,
    ) is Some)
    &&& !a.no_flatten ==> is_real(
        said_of(list, Opt::ScatterComp),
        d.scatter_comp,
        a.scatter_comp,
    )
    &&& is_optional(said_of(list, Opt::DumpCorrection), a.dump_correction)
    &&& is_optional(said_of(list, Opt::ExportClean), a.export_clean)
    &&& a.export_clean is Some ==> {
        &&& is_count(said_of(list, Opt::ExportWindow), d.export_window, a.export_window)
        &&& a.export_no_stabilize == (d.export_no_stabilize || said_of(
            list,
            Opt::ExportNoStabilize,
        ) is Some)
        &&& a.export_no_deflicker == (d.export_no_deflicker || said_of(
            list,
            Opt::ExportNoDeflicker,
        ) is Some)
        &&& a.export_no_transients == (d.export_no_transients || said_of(
            list,
            Opt::ExportNoTransients,
        ) is Some)
        &&& a.export_no_cloud_guard == (d.export_no_cloud_guard || said_of(
            list,
            Opt::ExportNoCloudGuard,
        ) is Some)
    }
    &&& a.fixed_tripod ==> {
        &&& a.fixed_no_stabilize == (d.fixed_no_stabilize || said_of(
            list,
            Opt::FixedNoStabilize,
        ) is Some)
        &&& is_count(said_of(list, Opt::FixedSearch), d.fixed_search, a.fixed_search)
        &&& is_text(
            said_of(list, Opt::FixedAnomaly),
            anomaly_text(d.fixed_anomaly),
            anomaly_text(a.fixed_anomaly),
        )
    }
    &&& is_real(
        said_of(list, Opt::SkyTolerance),
        d.stack_sky_tolerance,
        a.stack_sky_tolerance,
    )
    &&& match said_of(list, Opt::MaxForeground) {
        Some(t) => a.stack_max_foreground is Some && real_of(t) == Some(
            a.stack_max_foreground->0 as int,
        ),
        None => a.stack_max_foreground == d.stack_max_foreground,
    }
    &&& is_count(said_of(list, Opt::MaxStars), d.max_stars, a.max_stars)
}

/// Defaults under which nothing is switched off, limited or set.
pub open spec fn are_defaults(d: Args) -> bool {
    &&& d.limit is None && d.dump_correction is None && d.export_clean is None
    &&& d.stack_max_foreground is None
    &&& !d.no_stack && !d.no_stretch && !d.no_flatten && !d.no_residual_surface
    &&& !d.export_no_stabilize && !d.export_no_deflicker && !d.export_no_transients
    &&& !d.export_no_cloud_guard && !d.fixed_tripod && !d.fixed_no_stabilize
}

/// Whether a text can stand on a command line as a value: there is something of
/// it, and it does not look like an option.
pub open spec fn typeable(v: Seq<char>) -> bool {
    v.len() > 0 && v[0] != '-'
}

/// Whether the paths of a form that are written can stand on a command line.
pub open spec fn has_typeable_paths(s: Settings) -> bool {
    &&& typeable(text::trim(s.input))
    &&& s.stack ==> typeable(text::trim(s.output))
    &&& s.export ==> typeable(text::trim(s.export_dir))
    &&& text::trim(s.dump_correction).len() > 0 ==> typeable(text::trim(s.dump_correction))
}

/// Whether an option stands as it can be read.
spec fn readable(e: (Opt, Seq<char>)) -> bool {
    if takes_value(e.0) {
        typeable(e.1)
    } else {
        e.1 == Seq::<char>::empty()
    }
}

/// The words of options.
spec fn flat(list: Seq<(Opt, Seq<char>)>) -> Seq<Seq<char>>
    decreases list.len(),
{
    if list.len() == 0 {
        Seq::empty()
    } else {
        flat(list.drop_last()) + words_of(list.last())
    }
}

/// The words of an option.
spec fn words_of(e: (Opt, Seq<char>)) -> Seq<Seq<char>> {
    if takes_value(e.0) {
        seq![name_of(e.0), e.1]
    } else {
        seq![name_of(e.0)]
    }
}

/// Whether a text is one word without quotes.
spec fn one_word(x: Seq<char>) -> bool {
    x.len() > 0 && forall|i: int| 0 <= i < x.len() ==> !needs_quotes(#[trigger] x[i])
}

/// What has been read once a word has come to its end.
spec fn at_end(done: Seq<Seq<char>>, x: Seq<char>) -> Scan {
    Scan { done, word: Some(x), quoting: false, escaping: false, literal: true }
}

/// What has been read once a word has begun in quotes.
spec fn in_quotes(done: Seq<Seq<char>>, x: Seq<char>) -> Scan {
    Scan { done, word: Some(x), quoting: true, escaping: false, literal: true }
}

/// Whether a word may begin.
spec fn between(f: Scan) -> bool {
    f.word is None && !f.quoting && !f.escaping && f.literal
}

proof fn lemma_scan_push(t: Seq<char>, c: char)
    ensures
        scan(t.push(c)) == step(scan(t), c),
{
    assert(t.push(c).drop_last() =~= t);
}

/// A word that begins is scanned to its end.
proof fn lemma_scan_word(t: Seq<char>, x: Seq<char>)
    requires
        between(scan(t)),
        one_word(x),
    ensures
        scan(t + x) == at_end(scan(t).done, x),
    decreases x.len(),
{
    let y = x.drop_last();
    assert(t + x =~= (t + y).push(x.last()));
    assert(!needs_quotes(x[x.len() - 1]));
    lemma_scan_push(t + y, x.last());
    if y.len() > 0 {
        assert forall|i: int| 0 <= i < y.len() implies !needs_quotes(#[trigger] y[i]) by {
            assert(x[i] == y[i]);
        }
        lemma_scan_word(t, y);
        assert(y.push(x.last()) =~= x);
    } else {
        assert(t + y =~= t);
        assert(Seq::<char>::empty().push(x.last()) =~= x);
    }
}

/// What stands between quotes comes back as it was.
proof fn lemma_scan_escaped(t: Seq<char>, done: Seq<Seq<char>>, x: Seq<char>)
    requires
        scan(t) == in_quotes(done, Seq::empty()),
    ensures
        scan(t + escaped(x)) == in_quotes(done, x),
    decreases x.len(),
{
    if x.len() == 0 {
        assert(t + escaped(x) =~= t);
        assert(x =~= Seq::<char>::empty());
    } else {
        let y = x.drop_last();
        let front = t + escaped(y);
        lemma_scan_escaped(t, done, y);
        assert(y.push(x.last()) =~= x);
        if x.last() == '\'' {
            let closed = front.push('\'');
            let slashed = closed.push('\\');
            let marked = slashed.push('\'');
            lemma_scan_push(front, '\'');
            lemma_scan_push(closed, '\\');
            lemma_scan_push(slashed, '\'');
            lemma_scan_push(marked, '\'');
            assert(t + escaped(x) =~= marked.push('\''));
        } else {
            lemma_scan_push(front, x.last());
            assert(t + escaped(x) =~= front.push(x.last()));
        }
    }
}

/// A value is one word, in quotes or not.
proof fn lemma_scan_value(t: Seq<char>, v: Seq<char>)
    requires
        between(scan(t)),
        typeable(v),
    ensures
        scan(t + quoted(v)) == at_end(scan(t).done, v),
{
    if exists|i: int| 0 <= i < v.len() && needs_quotes(#[trigger] v[i]) {
        let open = t.push('\'');
        lemma_scan_push(t, '\'');
        lemma_scan_escaped(open, scan(t).done, v);
        lemma_scan_push(open + escaped(v), '\'');
        assert(t + quoted(v) =~= (open + escaped(v)).push('\''));
    } else {
        lemma_scan_word(t, v);
    }
}

/// One of few numbers.
proof fn lemma_few(i: int)
    requires
        0 <= i < 24,
    ensures
        i == 0 || i == 1 || i == 2 || i == 3 || i == 4 || i == 5 || i == 6 || i == 7 || i == 8 || i
            == 9 || i == 10 || i == 11 || i == 12 || i == 13 || i == 14 || i == 15 || i == 16 || i
            == 17 || i == 18 || i == 19 || i == 20 || i == 21 || i == 22 || i == 23,
{
}

/// What tells the names of options apart: how long they are, their last letter
/// and the one behind the dashes.
spec fn mark(o: Opt) -> (int, char, char) {
    match o {
        Opt::Input => (2, 'i', ' '),
        Opt::Output => (2, 'o', ' '),
        Opt::FixedTripod => (14, 'd', 'f'),
        Opt::Limit => (7, 't', 'l'),
        Opt::NoStack => (10, 'k', 'n'),
        Opt::NoStretch => (12, 'h', 'n'),
        Opt::NoFlatten => (12, 'n', 'n'),
        Opt::NoResidualSurface => (21, 'e', 'n'),
        Opt::ScatterComp => (14, 'p', 's'),
        Opt::DumpCorrection => (17, 'n', 'd'),
        Opt::ExportClean => (14, 'n', 'e'),
        Opt::ExportWindow => (15, 'w', 'e'),
        Opt::ExportNoStabilize => (21, 'e', 'e'),
        Opt::ExportNoDeflicker => (21, 'r', 'e'),
        Opt::ExportNoTransients => (22, 's', 'e'),
        Opt::ExportNoCloudGuard => (23, 'd', 'e'),
        Opt::FixedNoStabilize => (20, 'e', 'f'),
        Opt::FixedSearch => (14, 'h', 'f'),
        Opt::FixedAnomaly => (15, 'y', 'f'),
        Opt::SkyTolerance => (21, 'e', 's'),
        Opt::MaxForeground => (22, 'd', 's'),
        Opt::MaxStars => (11, 's', 'm'),
    }
}

/// The name of an option is one word, and bears its mark.
proof fn lemma_name(o: Opt)
    ensures
        one_word(name_of(o)),
        name_of(o).len() == mark(o).0,
        name_of(o).last() == mark(o).1,
        name_of(o).len() > 2 ==> name_of(o)[2] == mark(o).2,
        name_of(o).len() <= 2 ==> mark(o).2 == ' ',
{
    match o {
        Opt::Input => {
            reveal_strlit("-i");
        },
        Opt::Output => {
            reveal_strlit("-o");
        },
        Opt::FixedTripod => {
            reveal_strlit("--fixed-tripod");
        },
        Opt::Limit => {
            reveal_strlit("--limit");
        },
        Opt::NoStack => {
            reveal_strlit("--no-stack");
        },
        Opt::NoStretch => {
            reveal_strlit("--no-stretch");
        },
        Opt::NoFlatten => {
            reveal_strlit("--no-flatten");
        },
        Opt::NoResidualSurface => {
            reveal_strlit("--no-residual-surface");
        },
        Opt::ScatterComp => {
            reveal_strlit("--scatter-comp");
        },
        Opt::DumpCorrection => {
            reveal_strlit("--dump-correction");
        },
        Opt::ExportClean => {
            reveal_strlit("--export-clean");
        },
        Opt::ExportWindow => {
            reveal_strlit("--export-window");
        },
        Opt::ExportNoStabilize => {
            reveal_strlit("--export-no-stabilize");
        },
        Opt::ExportNoDeflicker => {
            reveal_strlit("--export-no-deflicker");
        },
        Opt::ExportNoTransients => {
            reveal_strlit("--export-no-transients");
        },
        Opt::ExportNoCloudGuard => {
            reveal_strlit("--export-no-cloud-guard");
        },
        Opt::FixedNoStabilize => {
            reveal_strlit("--fixed-no-stabilize");
        },
        Opt::FixedSearch => {
            reveal_strlit("--fixed-search");
        },
        Opt::FixedAnomaly => {
            reveal_strlit("--fixed-anomaly");
        },
        Opt::SkyTolerance => {
            reveal_strlit("--stack-sky-tolerance");
        },
        Opt::MaxForeground => {
            reveal_strlit("--stack-max-foreground");
        },
        Opt::MaxStars => {
            reveal_strlit("--max-stars");
        },
    }
    let x = name_of(o);
    assert forall|i: int| 0 <= i < x.len() implies !needs_quotes(#[trigger] x[i]) by {
        lemma_few(i);
        assert(x[i] == '-' || 'a' <= x[i] <= 'z');
    }
}

/// No two options have the same name.
proof fn lemma_names_differ(a: Opt, b: Opt)
    requires
        name_of(a) == name_of(b),
    ensures
        a == b,
{
    lemma_name(a);
    lemma_name(b);
    assert(mark(a) == mark(b));
}

proof fn lemma_named(o: Opt)
    ensures
        opt_named(name_of(o)) == Some(o),
{
    let p = choose|p: Opt| name_of(p) == name_of(o);
    lemma_names_differ(p, o);
}

/// The name of the program is one word.
proof fn lemma_program()
    ensures
        scan("apilaaa"@) == at_end(Seq::empty(), "apilaaa"@),
{
    let none: Seq<char> = Seq::empty();
    reveal_strlit("apilaaa");
    assert forall|i: int| 0 <= i < 7 implies !needs_quotes(#[trigger] "apilaaa"@[i]) by {
        lemma_few(i);
    }
    lemma_scan_word(none, "apilaaa"@);
    assert(none + "apilaaa"@ =~= "apilaaa"@);
}

/// An option adds its words.
proof fn lemma_scan_option(t: Seq<char>, done: Seq<Seq<char>>, x: Seq<char>, o: Opt, v: Seq<char>)
    requires
        scan(t) == at_end(done, x),
        readable((o, v)),
    ensures
        scan(t + option_text(o, v)) == at_end(
            (done.push(x) + words_of((o, v))).drop_last(),
            words_of((o, v)).last(),
        ),
{
    let all = done.push(x);
    let name = t.push(' ');
    lemma_scan_push(t, ' ');
    lemma_name(o);
    lemma_scan_word(name, name_of(o));
    let named = name + name_of(o);
    if takes_value(o) {
        let spaced = named.push(' ');
        lemma_scan_push(named, ' ');
        lemma_scan_value(spaced, v);
        assert(t + option_text(o, v) =~= spaced + quoted(v));
        assert(all.push(name_of(o)) =~= (all + words_of((o, v))).drop_last());
    } else {
        assert(t + option_text(o, v) =~= named);
        assert(all =~= (all + words_of((o, v))).drop_last());
    }
}

/// The words of a command line are the program and those of its options.
proof fn lemma_words(list: Seq<(Opt, Seq<char>)>)
    requires
        forall|i: int| 0 <= i < list.len() ==> readable(#[trigger] list[i]),
    ensures
        scan(command_text(list)) == at_end(
            (seq!["apilaaa"@] + flat(list)).drop_last(),
            (seq!["apilaaa"@] + flat(list)).last(),
        ),
    decreases list.len(),
{
    let all = seq!["apilaaa"@] + flat(list);
    if list.len() == 0 {
        lemma_program();
        assert(all.drop_last() =~= Seq::empty());
    } else {
        let front = list.drop_last();
        assert forall|i: int| 0 <= i < front.len() implies readable(#[trigger] front[i]) by {
            assert(front[i] == list[i]);
        }
        assert(readable(list[list.len() - 1]));
        lemma_words(front);
        let had = seq!["apilaaa"@] + flat(front);
        let e = list.last();
        assert(e == (e.0, e.1));
        lemma_scan_option(command_text(front), had.drop_last(), had.last(), e.0, e.1);
        assert(had.drop_last().push(had.last()) =~= had);
        assert(had + words_of(e) =~= all);
    }
}

proof fn lemma_flat_first(list: Seq<(Opt, Seq<char>)>)
    requires
        list.len() > 0,
    ensures
        flat(list) == words_of(list[0]) + flat(list.skip(1)),
    decreases list.len(),
{
    if list.len() == 1 {
        assert(flat(list.drop_last()) =~= Seq::empty());
        assert(flat(list.skip(1)) =~= Seq::empty());
        assert(flat(list) =~= words_of(list[0]) + flat(list.skip(1)));
    } else {
        let front = list.drop_last();
        lemma_flat_first(front);
        assert(front.skip(1) =~= list.skip(1).drop_last());
        assert(list.skip(1).last() == list.last());
        assert(flat(list) =~= words_of(list[0]) + flat(list.skip(1)));
    }
}

/// The words of options read as those options.
proof fn lemma_reads(list: Seq<(Opt, Seq<char>)>)
    requires
        forall|i: int| 0 <= i < list.len() ==> readable(#[trigger] list[i]),
    ensures
        read(flat(list)) == Some(list),
    decreases list.len(),
{
    if list.len() == 0 {
        assert(list =~= Seq::empty());
    } else {
        let rest = list.skip(1);
        let (o, v) = list[0];
        assert(readable(list[0]));
        assert forall|i: int| 0 <= i < rest.len() implies readable(#[trigger] rest[i]) by {
            assert(rest[i] == list[i + 1]);
        }
        lemma_reads(rest);
        lemma_flat_first(list);
        lemma_named(o);
        let ws = flat(list);
        assert(ws[0] == name_of(o));
        if takes_value(o) {
            assert(ws[1] == v);
            assert(ws.skip(2) =~= flat(rest));
        } else {
            assert(ws.skip(1) =~= flat(rest));
        }
        assert(seq![(o, v)] + rest =~= list);
    }
}

/// What is said of an option is what was written of it.
proof fn lemma_said_of(s: Settings, d: Args, n: int, o: Opt)
    requires
        0 <= n <= OPTIONS,
    ensures
        said_of(options_upto(s, d, n), o) == if place(o) < n {
            written(s, d, o)
        } else {
            None
        },
    decreases n,
{
    if n > 0 {
        lemma_said_of(s, d, n - 1, o);
        let list = options_upto(s, d, n - 1);
        let p = opt_at(n - 1);
        assert(place(p) == n - 1);
        assert(p == o <==> place(o) == n - 1) by {
            assert(opt_at(place(o)) == o);
        }
        if let Some(v) = written(s, d, p) {
            assert(list.push((p, v)).drop_last() =~= list);
        }
    }
}

/// Digits can stand on a command line.
proof fn lemma_digits_typeable(v: Seq<char>)
    requires
        v.len() > 0,
        forall|i: int| 0 <= i < v.len() ==> text::is_digit(#[trigger] v[i]) || v[i] == '.',
    ensures
        typeable(v),
        text::trim(v) == v,
{
    assert(text::is_digit(v[0]) || v[0] == '.');
    assert(text::is_digit(v[v.len() - 1]) || v[v.len() - 1] == '.');
}

/// A count reads back.
proof fn lemma_count_reads(n: usize)
    ensures
        typeable(text::decimal(n as nat)),
        count_of(text::decimal(n as nat)) == Some(n as int),
{
    let t = text::decimal(n as nat);
    text::law_decimal_reads_back(n as nat);
    lemma_digits_typeable(t);
    assert(text::is_digit(t[0]));
}

spec fn tens(k: int) -> int
    decreases k,
{
    if k <= 0 {
        1
    } else {
        10 * tens(k - 1)
    }
}

proof fn lemma_last_digits(n: int, k: int)
    requires
        0 <= n < tens(k),
        0 <= k,
    ensures
        last_digits(n, k).len() == k,
        text::all_digits(last_digits(n, k)),
        text::digits_value(last_digits(n, k)) == n,
    decreases k,
{
    if k > 0 {
        lemma_last_digits(n / 10, k - 1);
        let v = last_digits(n, k);
        assert(v.drop_last() =~= last_digits(n / 10, k - 1));
        assert forall|i: int| 0 <= i < v.len() implies text::is_digit(#[trigger] v[i]) by {
            if i < k - 1 {
                assert(v[i] == v.drop_last()[i]);
                assert(text::is_digit(last_digits(n / 10, k - 1)[i]));
            }
        }
    }
}

/// Zeros put back give the decimals again.
proof fn lemma_zeros_come_back(d: Seq<char>)
    requires
        text::all_digits(d),
        2 <= d.len() <= 9,
    ensures
        2 <= without_zeros(d).len() <= d.len(),
        text::all_digits(without_zeros(d)),
        (without_zeros(d) + text::run_of('0', 9)).take(d.len() as int) == d,
    decreases d.len(),
{
    let z = text::run_of('0', 9);
    if d.len() > 2 && d.last() == '0' {
        let e = d.drop_last();
        assert(text::all_digits(e)) by {
            assert forall|i: int| 0 <= i < e.len() implies text::is_digit(#[trigger] e[i]) by {
                assert(text::is_digit(d[i]));
            }
        }
        lemma_zeros_come_back(e);
        let w = without_zeros(e);
        let back = (w + z).take(d.len() as int);
        assert forall|i: int| 0 <= i < d.len() implies #[trigger] back[i] == d[i] by {
            if i < e.len() {
                assert((w + z).take(e.len() as int)[i] == e[i]);
            } else {
                assert(i >= w.len());
                assert(back[i] == z[i - w.len()]);
            }
        }
        assert(back =~= d);
    } else {
        assert((d + z).take(d.len() as int) =~= d);
    }
}

/// A real-valued option reads back.
proof fn lemma_real_reads(v: u64)
    ensures
        typeable(exact(v)),
        real_of(exact(v)) == Some(v as int),
{
    let whole = text::decimal((v as int / 1_000_000_000) as nat);
    let f = v as int % 1_000_000_000;
    let d = last_digits(f, 9);
    let e = without_zeros(d);
    let t = exact(v);
    reveal_strlit(".");
    text::law_decimal_reads_back((v as int / 1_000_000_000) as nat);
    reveal_with_fuel(tens, 10);
    assert(tens(9) == 1_000_000_000);
    lemma_last_digits(f, 9);
    lemma_zeros_come_back(d);
    let k = whole.len() as int;
    assert(t.len() == k + 1 + e.len());
    assert forall|i: int| 0 <= i < t.len() implies text::is_digit(#[trigger] t[i]) || t[i]
        == '.' by {
        if i < k {
            assert(t[i] == whole[i]);
            assert(text::is_digit(whole[i]));
        } else if i > k {
            assert(t[i] == e[i - k - 1]);
            assert(text::is_digit(e[i - k - 1]));
        }
    }
    lemma_digits_typeable(t);
    assert forall|i: int| 0 <= i < k implies t[i] != '.' by {
        assert(t[i] == whole[i]);
        assert(text::is_digit(whole[i]));
    }
    assert(t[k] == '.');
    lemma_point_is(t, k);
    assert(t.take(k) =~= whole);
    assert(t.skip(k + 1) =~= e);
}

proof fn lemma_anomaly_typeable(s: Settings)
    ensures
        typeable(anomaly_text(s.fixed_anomaly)),
{
    reveal_strlit("coarse");
    reveal_strlit("none");
    reveal_strlit("full");
}

/// What is written can be read.
proof fn lemma_written_readable(s: Settings, d: Args, o: Opt)
    requires
        has_typeable_paths(s),
        written(s, d, o) is Some,
    ensures
        readable((o, written(s, d, o)->0)),
{
    lemma_count_reads(s.limit);
    lemma_count_reads(s.export_window);
    lemma_count_reads(s.fixed_search);
    lemma_count_reads(s.max_stars);
    lemma_real_reads(s.scatter_comp);
    lemma_real_reads(s.sky_tolerance);
    lemma_anomaly_typeable(s);
    if let Some(v) = s.max_foreground {
        lemma_real_reads(v);
    }
}

proof fn lemma_options_readable(s: Settings, d: Args, n: int)
    requires
        has_typeable_paths(s),
    ensures
        forall|i: int|
            0 <= i < options_upto(s, d, n).len() ==> readable(#[trigger] options_upto(s, d, n)[i]),
    decreases n,
{
    if n > 0 {
        lemma_options_readable(s, d, n - 1);
        let front = options_upto(s, d, n - 1);
        let list = options_upto(s, d, n);
        if written(s, d, opt_at(n - 1)) is Some {
            lemma_written_readable(s, d, opt_at(n - 1));
        }
        assert forall|i: int| 0 <= i < list.len() implies readable(#[trigger] list[i]) by {
            if i < front.len() {
                assert(list[i] == front[i]);
                assert(readable(front[i]));
            }
        }
    }
}

/// The command line does the same as the form: split as a shell splits it, it
/// names the program and options that read as the run the form describes, in
/// everything the run looks at. This holds of every path that is not blank and
/// does not begin with a dash, whatever else stands in it.
pub proof fn law_command_reads_back(s: Settings, d: Args, a: Args)
    requires
        are_defaults(d),
        has_typeable_paths(s),
        same_options(a, s),
    ensures
        words(command_of(s, d)) is Some,
        words(command_of(s, d))->0.len() > 0,
        words(command_of(s, d))->0[0] == "apilaaa"@,
        read(words(command_of(s, d))->0.skip(1)) == Some(options_of(s, d)),
        spells(options_of(s, d), d, a),
{
    let list = options_of(s, d);
    lemma_options_readable(s, d, OPTIONS as int);
    lemma_words(list);
    lemma_reads(list);
    let all = seq!["apilaaa"@] + flat(list);
    assert(all.drop_last().push(all.last()) =~= all);
    assert(words(command_of(s, d))->0.skip(1) =~= flat(list));
    assert forall|o: Opt| #[trigger] said_of(list, o) == written(s, d, o) by {
        lemma_said_of(s, d, OPTIONS as int, o);
        assert(place(o) < OPTIONS);
    }
    lemma_count_reads(s.limit);
    lemma_count_reads(s.export_window);
    lemma_count_reads(s.fixed_search);
    lemma_count_reads(s.max_stars);
    lemma_real_reads(s.scatter_comp);
    lemma_real_reads(s.sky_tolerance);
    if let Some(v) = s.max_foreground {
        lemma_real_reads(v);
    }
}

/// A form that was not touched is the run without any options: what the
/// defaults say, and nothing on the command line.
pub proof fn law_untouched_form_is_the_defaults(d: Args, a: Args)
    requires
        text::trim(d.input@) == d.input@,
        text::trim(d.output@) == d.output@,
        are_defaults(d),
        same_options(a, settings_of(d)),
    ensures
        command_of(settings_of(d), d) == "apilaaa"@,
        are_defaults(a),
        a.input@ == d.input@ && a.output@ == d.output@,
        a.max_stars == d.max_stars,
        a.export_window == d.export_window && a.scatter_comp == d.scatter_comp,
        a.stack_sky_tolerance == d.stack_sky_tolerance && a.fixed_search == d.fixed_search,
        a.fixed_anomaly == d.fixed_anomaly,
{
    assert(text::trim(Seq::<char>::empty()) =~= Seq::empty());
    lemma_nothing_written(d, OPTIONS as int);
}

proof fn lemma_nothing_written(d: Args, n: int)
    requires
        text::trim(d.input@) == d.input@,
        text::trim(d.output@) == d.output@,
        are_defaults(d),
    ensures
        options_upto(settings_of(d), d, n) == Seq::<(Opt, Seq<char>)>::empty(),
    decreases n,
{
    assert(text::trim(Seq::<char>::empty()) =~= Seq::empty());
    if n > 0 {
        lemma_nothing_written(d, n - 1);
        assert(written(settings_of(d), d, opt_at(n - 1)) is None);
    }
}

/// The options are called what they are called on the command line, and those
/// that name or set something take a value.
pub proof fn law_options_are_called_as_typed()
    ensures
        name_of(Opt::Input) == "-i"@ && name_of(Opt::Output) == "-o"@,
        name_of(Opt::Limit) == "--limit"@ && name_of(Opt::MaxStars) == "--max-stars"@,
        name_of(Opt::FixedTripod) == "--fixed-tripod"@ && name_of(Opt::FixedNoStabilize)
            == "--fixed-no-stabilize"@ && name_of(Opt::FixedSearch) == "--fixed-search"@ && name_of(
            Opt::FixedAnomaly,
        ) == "--fixed-anomaly"@,
        name_of(Opt::NoStack) == "--no-stack"@ && name_of(Opt::NoStretch) == "--no-stretch"@
            && name_of(Opt::NoFlatten) == "--no-flatten"@ && name_of(Opt::NoResidualSurface)
            == "--no-residual-surface"@,
        name_of(Opt::ScatterComp) == "--scatter-comp"@ && name_of(Opt::DumpCorrection)
            == "--dump-correction"@,
        name_of(Opt::ExportClean) == "--export-clean"@ && name_of(Opt::ExportWindow)
            == "--export-window"@ && name_of(Opt::ExportNoStabilize) == "--export-no-stabilize"@
            && name_of(Opt::ExportNoDeflicker) == "--export-no-deflicker"@ && name_of(
            Opt::ExportNoTransients,
        ) == "--export-no-transients"@ && name_of(Opt::ExportNoCloudGuard)
            == "--export-no-cloud-guard"@,
        name_of(Opt::SkyTolerance) == "--stack-sky-tolerance"@ && name_of(Opt::MaxForeground)
            == "--stack-max-foreground"@,
        takes_value(Opt::Input) && takes_value(Opt::Output) && takes_value(Opt::Limit)
            && takes_value(Opt::ExportClean) && takes_value(Opt::DumpCorrection),
        !takes_value(Opt::NoStack) && !takes_value(Opt::FixedTripod) && !takes_value(
            Opt::ExportNoDeflicker,
        ),
{
}

/// An option stands on the command line as soon as the form departs from the
/// default, with the form's value, and not before.
pub proof fn law_options_are_written_where_they_depart(s: Settings, d: Args)
    ensures
        written(s, d, Opt::NoStack) is Some <==> !s.stack,
        written(s, d, Opt::NoStretch) is Some <==> !s.stretch,
        written(s, d, Opt::NoFlatten) is Some <==> !s.flatten,
        written(s, d, Opt::FixedTripod) is Some <==> s.untracked,
        written(s, d, Opt::ExportClean) is Some <==> s.export,
        s.export ==> written(s, d, Opt::ExportClean) == Some(text::trim(s.export_dir)),
        s.limit > 0 ==> written(s, d, Opt::Limit) == Some(text::decimal(s.limit as nat)),
        s.limit == 0 ==> written(s, d, Opt::Limit) is None,
        text::trim(s.input) == d.input@ ==> written(s, d, Opt::Input) is None,
        text::trim(s.input) != d.input@ ==> written(s, d, Opt::Input) == Some(text::trim(s.input)),
        s.max_stars == d.max_stars ==> written(s, d, Opt::MaxStars) is None,
        s.max_stars != d.max_stars ==> written(s, d, Opt::MaxStars) == Some(
            text::decimal(s.max_stars as nat),
        ),
{
}

/// A value without anything a shell looks at stands as it is; any other stands
/// between single quotes.
pub proof fn law_quotes_stand_around(v: Seq<char>, i: int)
    requires
        0 <= i < v.len(),
    ensures
        (forall|k: int| 0 <= k < v.len() ==> 'a' <= #[trigger] v[k] <= 'z' || 'A' <= v[k] <= 'Z'
            || '0' <= v[k] <= '9' || v[k] == '/' || v[k] == '.' || v[k] == '-' || v[k] == '_')
            ==> quoted(v) == v,
        v[i] == ' ' || v[i] == '\'' || v[i] == '$' || v[i] == ';' || v[i] == '(' || v[i] == '&'
            || v[i] == '*' ==> quoted(v)[0] == '\'' && quoted(v).last() == '\'' && quoted(v).len()
            >= 2,
{
    if forall|k: int| 0 <= k < v.len() ==> 'a' <= #[trigger] v[k] <= 'z' || 'A' <= v[k] <= 'Z'
        || '0' <= v[k] <= '9' || v[k] == '/' || v[k] == '.' || v[k] == '-' || v[k] == '_' {
        assert forall|k: int| 0 <= k < v.len() implies !needs_quotes(#[trigger] v[k]) by {}
    }
    if needs_quotes(v[i]) {
        assert(quoted(v) == seq!['\''] + escaped(v) + seq!['\'']);
    }
}

} // verus!
