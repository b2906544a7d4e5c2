//! The setup screen: a form over the options the command line takes.
//!
//! Options that do not apply are not shown. The equivalent command line is
//! written out as the form is edited. Real-valued options are held in
//! billionths.
use crate::fit::AnomalyArg;
use crate::text;
use crate::ui::pairs;
use vstd::prelude::*;

verus! {

/// One as a real-valued option.
pub const ONE: u64 = 1_000_000_000;

/// One hundredth: the step that real-valued options are kept to.
pub const HUNDREDTH: u64 = 10_000_000;

/// The options of a run, as the command line spells them.
pub struct Args {
    pub input: String,
    pub output: String,
    pub max_stars: usize,
    pub limit: Option<usize>,
    pub no_stretch: bool,
    pub no_flatten: bool,
    pub no_residual_surface: bool,
    pub dump_correction: Option<String>,
    pub no_stack: bool,
    pub export_clean: Option<String>,
    pub export_window: usize,
    pub export_no_stabilize: bool,
    pub export_no_deflicker: bool,
    pub export_no_transients: bool,
    pub export_no_cloud_guard: bool,
    pub scatter_comp: u64,
    pub stack_sky_tolerance: u64,
    pub stack_max_foreground: Option<u64>,
    pub fixed_tripod: bool,
    pub fixed_no_stabilize: bool,
    pub fixed_search: usize,
    pub fixed_anomaly: AnomalyArg,
}

/// The options of a run, as the form shows them: switches stated positively,
/// and what is off or a path split into a switch and a path.
pub struct Cfg {
    pub input: String,
    pub untracked: bool,
    /// Zero means all frames.
    pub limit: usize,
    pub stack: bool,
    pub output: String,
    pub stretch: bool,
    pub flatten: bool,
    pub residual_surface: bool,
    pub scatter_comp: u64,
    pub dump_correction: String,
    pub export: bool,
    pub export_dir: String,
    pub export_window: usize,
    pub export_stabilize: bool,
    pub export_deflicker: bool,
    pub export_transients: bool,
    pub export_cloud_guard: bool,
    pub fixed_stabilize: bool,
    pub fixed_search: usize,
    pub fixed_anomaly: AnomalyArg,
    pub sky_tolerance: u64,
    /// None leaves it to the default for the sequence.
    pub max_foreground: Option<u64>,
    pub max_stars: usize,
}

/// What the options of a form are.
pub struct Settings {
    pub input: Seq<char>,
    pub untracked: bool,
    pub limit: usize,
    pub stack: bool,
    pub output: Seq<char>,
    pub stretch: bool,
    pub flatten: bool,
    pub residual_surface: bool,
    pub scatter_comp: u64,
    pub dump_correction: Seq<char>,
    pub export: bool,
    pub export_dir: Seq<char>,
    pub export_window: usize,
    pub export_stabilize: bool,
    pub export_deflicker: bool,
    pub export_transients: bool,
    pub export_cloud_guard: bool,
    pub fixed_stabilize: bool,
    pub fixed_search: usize,
    pub fixed_anomaly: AnomalyArg,
    pub sky_tolerance: u64,
    pub max_foreground: Option<u64>,
    pub max_stars: usize,
}

impl View for Cfg {
    type V = Settings;

    open spec fn view(&self) -> Settings {
        Settings {
            input: self.input@,
            untracked: self.untracked,
            limit: self.limit,
            stack: self.stack,
            output: self.output@,
            stretch: self.stretch,
            flatten: self.flatten,
            residual_surface: self.residual_surface,
            scatter_comp: self.scatter_comp,
            dump_correction: self.dump_correction@,
            export: self.export,
            export_dir: self.export_dir@,
            export_window: self.export_window,
            export_stabilize: self.export_stabilize,
            export_deflicker: self.export_deflicker,
            export_transients: self.export_transients,
            export_cloud_guard: self.export_cloud_guard,
            fixed_stabilize: self.fixed_stabilize,
            fixed_search: self.fixed_search,
            fixed_anomaly: self.fixed_anomaly,
            sky_tolerance: self.sky_tolerance,
            max_foreground: self.max_foreground,
            max_stars: self.max_stars,
        }
    }
}

/// An option that may be absent, as text.
pub open spec fn shown(s: Option<String>) -> Option<Seq<char>> {
    match s {
        Some(t) => Some(t@),
        None => None,
    }
}

/// The command line's options that a form's options stand for.
pub open spec fn same_options(a: Args, s: Settings) -> bool {
    &&& a.input@ == text::trim(s.input)
    &&& a.output@ == text::trim(s.output)
    &&& a.max_stars == s.max_stars
    &&& a.limit == (if s.limit > 0 {
        Some(s.limit)
    } else {
        None
    })
    &&& a.no_stretch == !s.stretch
    &&& a.no_flatten == !s.flatten
    &&& a.no_residual_surface == !s.residual_surface
    &&& shown(a.dump_correction) == (if text::trim(s.dump_correction).len() > 0 {
        Some(text::trim(s.dump_correction))
    } else {
        None
    })
    &&& a.no_stack == !s.stack
    &&& shown(a.export_clean) == (if s.export {
        Some(text::trim(s.export_dir))
    } else {
        None
    })
    &&& a.export_window == s.export_window
    &&& a.export_no_stabilize == !s.export_stabilize
    &&& a.export_no_deflicker == !s.export_deflicker
    &&& a.export_no_transients == !s.export_transients
    &&& a.export_no_cloud_guard == !s.export_cloud_guard
    &&& a.scatter_comp == s.scatter_comp
    &&& a.stack_sky_tolerance == s.sky_tolerance
    &&& a.stack_max_foreground == s.max_foreground
    &&& a.fixed_tripod == s.untracked
    &&& a.fixed_no_stabilize == !s.fixed_stabilize
    &&& a.fixed_search == s.fixed_search
    &&& a.fixed_anomaly == s.fixed_anomaly
}

/// A form's options for the defaults of the command line.
pub open spec fn settings_of(d: Args) -> Settings {
    Settings {
        input: d.input@,
        untracked: d.fixed_tripod,
        limit: match d.limit {
            Some(n) => n,
            None => 0,
        },
        stack: !d.no_stack,
        output: d.output@,
        stretch: !d.no_stretch,
        flatten: !d.no_flatten,
        residual_surface: !d.no_residual_surface,
        scatter_comp: d.scatter_comp,
        dump_correction: Seq::empty(),
        export: false,
        export_dir: Seq::empty(),
        export_window: d.export_window,
        export_stabilize: !d.export_no_stabilize,
        export_deflicker: !d.export_no_deflicker,
        export_transients: !d.export_no_transients,
        export_cloud_guard: !d.export_no_cloud_guard,
        fixed_stabilize: !d.fixed_no_stabilize,
        fixed_search: d.fixed_search,
        fixed_anomaly: d.fixed_anomaly,
        sky_tolerance: d.stack_sky_tolerance,
        max_foreground: None,
        max_stars: d.max_stars,
    }
}

/// A text without white space around it.
pub(crate) fn trim_copy(s: &str) -> (r: String)
    ensures
        r@ == text::trim(s@),
{
    let c = text::chars(s);
    let t = text::trimmed(c.as_slice());
    text::string(t.as_slice())
}

/// Whether a text is nothing but white space.
pub(crate) fn blank(s: &str) -> (b: bool)
    ensures
        b == (text::trim(s@).len() == 0),
{
    let c = text::chars(s);
    let t = text::trimmed(c.as_slice());
    t.len() == 0
}

/// A number to the nearest multiple of a unit, counted in units; halfway goes
/// to the even one.
pub open spec fn nearest(v: int, unit: int) -> int {
    let (q, r) = (v / unit, v % unit);
    if 2 * r > unit || (2 * r == unit && q % 2 == 1) {
        q + 1
    } else {
        q
    }
}

pub(crate) fn to_nearest(v: u64, unit: u64) -> (r: u64)
    requires
        0 < unit <= 0x7fff_ffff_ffff_ffff,
    ensures
        r == nearest(v as int, unit as int),
{
    let q: u64 = v / unit;
    let m: u64 = v % unit;
    assert(m < unit);
    if 2 * m > unit || (2 * m == unit && q % 2 == 1) {
        assert(q < u64::MAX) by (nonlinear_arith)
            requires
                q == v / unit,
                m == v % unit,
                unit > 0,
                m > 0,
        ;
        q + 1
    } else {
        q
    }
}

/// A real-valued option with two decimals.
pub open spec fn two_decimals(v: u64) -> Seq<char> {
    let h = nearest(v as int, HUNDREDTH as int);
    text::decimal((h / 100) as nat) + "."@ + text::two_digits((h % 100) as nat)
}

pub(crate) fn push_two_decimals(c: &mut Vec<char>, v: u64)
    ensures
        final(c)@ == old(c)@ + two_decimals(v),
{
    let h: u64 = to_nearest(v, HUNDREDTH);
    text::push_decimal(c, h / 100);
    text::push_text(c, ".");
    text::push_two_digits(c, h % 100);
    assert(c@ =~= old(c)@ + two_decimals(v));
}

/// How an anomaly mode is spelled.
pub open spec fn anomaly_text(a: AnomalyArg) -> Seq<char> {
    match a {
        AnomalyArg::Coarse => "coarse"@,
        AnomalyArg::Off => "none"@,
        AnomalyArg::Full => "full"@,
    }
}

/// How an anomaly mode is spelled.
pub fn anomaly_name(a: AnomalyArg) -> (r: &'static str)
    ensures
        r@ == anomaly_text(a),
{
    match a {
        AnomalyArg::Coarse => "coarse",
        AnomalyArg::Off => "none",
        AnomalyArg::Full => "full",
    }
}

impl Cfg {
    /// The form starts from the defaults of the command line.
    pub fn new(d: &Args) -> (c: Cfg)
        ensures
            c@ == settings_of(*d),
    {
        let c = Cfg {
            input: text::copy(d.input.as_str()),
            untracked: d.fixed_tripod,
            limit: match d.limit {
                Some(n) => n,
                None => 0,
            },
            stack: !d.no_stack,
            output: text::copy(d.output.as_str()),
            stretch: !d.no_stretch,
            flatten: !d.no_flatten,
            residual_surface: !d.no_residual_surface,
            scatter_comp: d.scatter_comp,
            dump_correction: String::new(),
            export: false,
            export_dir: String::new(),
            export_window: d.export_window,
            export_stabilize: !d.export_no_stabilize,
            export_deflicker: !d.export_no_deflicker,
            export_transients: !d.export_no_transients,
            export_cloud_guard: !d.export_no_cloud_guard,
            fixed_stabilize: !d.fixed_no_stabilize,
            fixed_search: d.fixed_search,
            fixed_anomaly: d.fixed_anomaly,
            sky_tolerance: d.stack_sky_tolerance,
            max_foreground: None,
            max_stars: d.max_stars,
        };
        assert(c@.dump_correction =~= Seq::empty());
        assert(c@.export_dir =~= Seq::empty());
        c
    }

    /// The options of the run the form describes.
    pub fn to_args(&self) -> (a: Args)
        ensures
            same_options(a, self@),
    {
        let dump = trim_copy(self.dump_correction.as_str());
        Args {
            input: trim_copy(self.input.as_str()),
            output: trim_copy(self.output.as_str()),
            max_stars: self.max_stars,
            limit: if self.limit > 0 {
                Some(self.limit)
            } else {
                None
            },
            no_stretch: !self.stretch,
            no_flatten: !self.flatten,
            no_residual_surface: !self.residual_surface,
            dump_correction: if !blank(self.dump_correction.as_str()) {
                Some(dump)
            } else {
                None
            },
            no_stack: !self.stack,
            export_clean: if self.export {
                Some(trim_copy(self.export_dir.as_str()))
            } else {
                None
            },
            export_window: self.export_window,
            export_no_stabilize: !self.export_stabilize,
            export_no_deflicker: !self.export_deflicker,
            export_no_transients: !self.export_transients,
            export_no_cloud_guard: !self.export_cloud_guard,
            scatter_comp: self.scatter_comp,
            stack_sky_tolerance: self.sky_tolerance,
            stack_max_foreground: self.max_foreground,
            fixed_tripod: self.untracked,
            fixed_no_stabilize: !self.fixed_stabilize,
            fixed_search: self.fixed_search,
            fixed_anomaly: self.fixed_anomaly,
        }
    }
}

/// What the dashboard states of the run: the few options that decide what
/// comes out of it.
pub open spec fn summary_of(a: Args) -> Seq<(Seq<char>, Seq<char>)> {
    seq![
        ("input"@, a.input@),
        (
            "mode"@,
            if a.fixed_tripod {
                "untracked (fixed tripod)"@
            } else {
                "tracked"@
            },
        ),
        (
            "output"@,
            if a.no_stack {
                "none (--no-stack)"@
            } else {
                a.output@
            },
        ),
        (
            "export"@,
            match a.export_clean {
                Some(d) => d@ + " (window "@ + text::decimal(a.export_window as nat) + ")"@,
                None => "off"@,
            },
        ),
        ("frames"@, "counting..."@),
        (
            "clean"@,
            if a.no_flatten {
                "off (--no-flatten)"@
            } else {
                "halo + gradient"@
            },
        ),
    ]
}

/// What the dashboard states of the run.
pub fn summary(a: &Args) -> (v: Vec<(String, String)>)
    ensures
        pairs(v@) == summary_of(*a),
{
    let mode = if a.fixed_tripod {
        "untracked (fixed tripod)"
    } else {
        "tracked"
    };
    let output = if a.no_stack {
        "none (--no-stack)"
    } else {
        a.output.as_str()
    };
    let export = match &a.export_clean {
        Some(d) => {
            let mut c = text::chars(d.as_str());
            text::push_text(&mut c, " (window ");
            text::push_decimal(&mut c, a.export_window as u64);
            text::push_text(&mut c, ")");
            text::string(c.as_slice())
        },
        None => text::copy("off"),
    };
    let clean = if a.no_flatten {
        "off (--no-flatten)"
    } else {
        "halo + gradient"
    };
    let mut v: Vec<(String, String)> = Vec::new();
    v.push((text::copy("input"), text::copy(a.input.as_str())));
    v.push((text::copy("mode"), text::copy(mode)));
    v.push((text::copy("output"), text::copy(output)));
    v.push((text::copy("export"), export));
    v.push((text::copy("frames"), text::copy("counting...")));
    v.push((text::copy("clean"), text::copy(clean)));
    assert(pairs(v@) =~= summary_of(*a));
    v
}

/// The fields of the form.
#[derive(Clone, Copy, Debug, PartialEq, Eq, Structural)]
pub enum Id {
    Input,
    Sequence,
    Limit,
    Stack,
    Output,
    Stretch,
    FixedStabilize,
    FixedSearch,
    FixedAnomaly,
    Flatten,
    ResidualSurface,
    ScatterComp,
    DumpCorrection,
    Export,
    ExportDir,
    ExportWindow,
    ExportStabilize,
    ExportDeflicker,
    ExportTransients,
    ExportCloudGuard,
    SkyTolerance,
    MaxForeground,
    MaxStars,
}

/// The headings of the form.
#[derive(Clone, Copy, Debug, PartialEq, Eq, Structural)]
pub enum Section {
    Frames,
    Stack,
    Tripod,
    Correction,
    Timelapse,
    Selection,
}

/// A row of the form.
#[derive(Clone, Copy, Debug, PartialEq, Eq, Structural)]
pub enum Row {
    Section(Section),
    Field(Id),
}

/// How a field is edited: text and numbers take typing, the rest only steps.
#[derive(Clone, Copy, Debug, PartialEq, Eq, Structural)]
pub enum Kind {
    Text,
    Number,
    Switch,
    Choice,
}

/// How a field is edited.
pub open spec fn kind_of(id: Id) -> Kind {
    match id {
        Id::Input | Id::Output | Id::DumpCorrection | Id::ExportDir => Kind::Text,
        Id::Limit
        | Id::FixedSearch
        | Id::ScatterComp
        | Id::ExportWindow
        | Id::SkyTolerance
        | Id::MaxForeground
        | Id::MaxStars => Kind::Number,
        Id::FixedAnomaly => Kind::Choice,
        _ => Kind::Switch,
    }
}

/// How a field is edited.
pub fn kind(id: Id) -> (k: Kind)
    ensures
        k == kind_of(id),
{
    match id {
        Id::Input | Id::Output | Id::DumpCorrection | Id::ExportDir => Kind::Text,
        Id::Limit
        | Id::FixedSearch
        | Id::ScatterComp
        | Id::ExportWindow
        | Id::SkyTolerance
        | Id::MaxForeground
        | Id::MaxStars => Kind::Number,
        Id::FixedAnomaly => Kind::Choice,
        _ => Kind::Switch,
    }
}

/// What a heading says.
pub open spec fn section_text(s: Section) -> Seq<char> {
    match s {
        Section::Frames => "frames"@,
        Section::Stack => "stack"@,
        Section::Tripod => "tripod"@,
        Section::Correction => "correction"@,
        Section::Timelapse => "timelapse"@,
        Section::Selection => "frame selection"@,
    }
}

/// What a heading says.
pub fn section_name(s: Section) -> (r: &'static str)
    ensures
        r@ == section_text(s),
{
    match s {
        Section::Frames => "frames",
        Section::Stack => "stack",
        Section::Tripod => "tripod",
        Section::Correction => "correction",
        Section::Timelapse => "timelapse",
        Section::Selection => "frame selection",
    }
}

/// What a field is called.
pub open spec fn label_text(id: Id) -> Seq<char> {
    match id {
        Id::Input => "frames directory"@,
        Id::Sequence => "sequence"@,
        Id::Limit => "frame limit"@,
        Id::Stack => "write the stack"@,
        Id::Output => "output DNG"@,
        Id::Stretch => "auto stretch"@,
        Id::FixedStabilize => "measure tripod drift"@,
        Id::FixedSearch => "drift search"@,
        Id::FixedAnomaly => "per-frame anomaly"@,
        Id::Flatten => "remove halo + gradient"@,
        Id::ResidualSurface => "residual surface"@,
        Id::ScatterComp => "scatter compensation"@,
        Id::DumpCorrection => "dump removed layer"@,
        Id::Export => "export timelapse"@,
        Id::ExportDir => "export directory"@,
        Id::ExportWindow => "temporal window"@,
        Id::ExportStabilize => "stabilize"@,
        Id::ExportDeflicker => "deflicker"@,
        Id::ExportTransients => "keep transients"@,
        Id::ExportCloudGuard => "cloud guard"@,
        Id::SkyTolerance => "sky tolerance"@,
        Id::MaxForeground => "max foreground"@,
        Id::MaxStars => "stars per frame"@,
    }
}

/// What a field is called.
pub fn label(id: Id) -> (r: &'static str)
    ensures
        r@ == label_text(id),
{
    match id {
        Id::Input => "frames directory",
        Id::Sequence => "sequence",
        Id::Limit => "frame limit",
        Id::Stack => "write the stack",
        Id::Output => "output DNG",
        Id::Stretch => "auto stretch",
        Id::FixedStabilize => "measure tripod drift",
        Id::FixedSearch => "drift search",
        Id::FixedAnomaly => "per-frame anomaly",
        Id::Flatten => "remove halo + gradient",
        Id::ResidualSurface => "residual surface",
        Id::ScatterComp => "scatter compensation",
        Id::DumpCorrection => "dump removed layer",
        Id::Export => "export timelapse",
        Id::ExportDir => "export directory",
        Id::ExportWindow => "temporal window",
        Id::ExportStabilize => "stabilize",
        Id::ExportDeflicker => "deflicker",
        Id::ExportTransients => "keep transients",
        Id::ExportCloudGuard => "cloud guard",
        Id::SkyTolerance => "sky tolerance",
        Id::MaxForeground => "max foreground",
        Id::MaxStars => "stars per frame",
    }
}

/// What a field does.
pub open spec fn help_text(id: Id) -> Seq<char> {
    match id {
        Id::Input => "Directory holding the .ARW files. They are taken in name order, which for a camera is capture order."@,
        Id::Sequence => "Tracked: an equatorial mount held the stars still, so the frames are aligned on the stars. Untracked: the camera sat on a fixed tripod, the landscape is what stays still and the stack comes out as star trails."@,
        Id::Limit => "Process only the first N frames. 0 uses the whole directory. A few frames are enough to see whether the settings are right before committing to the session."@,
        Id::Stack => "Off skips loading, cleaning and averaging entirely: only the crop is worked out, for the timelapse export. Needs the export on, and an untracked sequence."@,
        Id::Output => "The stacked linear DNG. Camera, lens, exposure and capture time are written into it from the first source frame."@,
        Id::Stretch => "Off keeps the native sensor scale, for doing the whole development in darktable with no prior gain."@,
        Id::FixedStabilize => "Measures the residual tripod drift against the reference's landscape and undoes it. Off assumes the camera never moved and exports in sensor coordinates, uncropped."@,
        Id::FixedSearch => "Largest tripod drift searched for, in sensor pixels."@,
        Id::FixedAnomaly => "coarse: the per-frame anomaly may only follow structure far broader than the Milky Way — horizon glow, twilight, a rising moon. none: the defect model alone. full: the tracked-sequence surface, which on an untracked one takes part of the drifting Milky Way with it."@,
        Id::Flatten => "Fits and subtracts the lens halo/glare and the background gradient. Off leaves both in, and the timelapse export cannot run."@,
        Id::ResidualSurface => "The second stage: a lower-envelope surface that removes the bands and wedges the parametric halo + gradient model leaves behind."@,
        Id::ScatterComp => "Contrast compensation in the veiled areas: after the veil is subtracted, the deviation from the sky is rescaled to match the contrast at the centre. 0 turns it off."@,
        Id::DumpCorrection => "Also write a DNG of the layer that was removed, cropped and stretched like the output, so a developer can confirm it took defect and not sky. Empty = off."@,
        Id::Export => "Export every frame cleaned, stabilized, deflickered and temporally denoised — the timelapse. Excluded frames are exported too."@,
        Id::ExportDir => "Where the cleaned sequence is written. One DNG per frame, so count on around 145 MB each."@,
        Id::ExportWindow => "Frames combined per exported frame, odd. Noise falls roughly as the square root of N-2. 1 turns the temporal reduction off."@,
        Id::ExportStabilize => "Off exports in sensor coordinates, uncropped, and turns off the temporal reduction with it: that one needs aligned frames."@,
        Id::ExportDeflicker => "Matches each frame's per-channel median and high percentile to the reference's, ignoring the foreground, so the sequence stops pulsing."@,
        Id::ExportTransients => "Keeps meteors, satellites and planes at their original frame's value instead of letting the temporal combination average them away."@,
        Id::ExportCloudGuard => "Treats cloud like foreground: out of the temporal window, since cloud is the one thing that does not follow the sky, and out of the frame's level statistics, since a light-polluted cloud outshines every star."@,
        Id::SkyTolerance => "Frames whose sky level falls outside [median/F, median x F] of the session — twilight, cloud, moonrise — stay out of the stack. They are still exported."@,
        Id::MaxForeground => "Frames with more of the frame than this taken up by trees or horizon stay out of the stack. 'auto' is 0 for a tracked sequence and 1 for an untracked one, where the landscape is part of the picture."@,
        Id::MaxStars => "Stars used per frame for the alignment fit."@,
    }
}

/// What a field does.
pub fn help(id: Id) -> (r: &'static str)
    ensures
        r@ == help_text(id),
{
    match id {
        Id::Input => "Directory holding the .ARW files. They are taken in name order, which for a camera is capture order.",
        Id::Sequence => "Tracked: an equatorial mount held the stars still, so the frames are aligned on the stars. Untracked: the camera sat on a fixed tripod, the landscape is what stays still and the stack comes out as star trails.",
        Id::Limit => "Process only the first N frames. 0 uses the whole directory. A few frames are enough to see whether the settings are right before committing to the session.",
        Id::Stack => "Off skips loading, cleaning and averaging entirely: only the crop is worked out, for the timelapse export. Needs the export on, and an untracked sequence.",
        Id::Output => "The stacked linear DNG. Camera, lens, exposure and capture time are written into it from the first source frame.",
        Id::Stretch => "Off keeps the native sensor scale, for doing the whole development in darktable with no prior gain.",
        Id::FixedStabilize => "Measures the residual tripod drift against the reference's landscape and undoes it. Off assumes the camera never moved and exports in sensor coordinates, uncropped.",
        Id::FixedSearch => "Largest tripod drift searched for, in sensor pixels.",
        Id::FixedAnomaly => "coarse: the per-frame anomaly may only follow structure far broader than the Milky Way — horizon glow, twilight, a rising moon. none: the defect model alone. full: the tracked-sequence surface, which on an untracked one takes part of the drifting Milky Way with it.",
        Id::Flatten => "Fits and subtracts the lens halo/glare and the background gradient. Off leaves both in, and the timelapse export cannot run.",
        Id::ResidualSurface => "The second stage: a lower-envelope surface that removes the bands and wedges the parametric halo + gradient model leaves behind.",
        Id::ScatterComp => "Contrast compensation in the veiled areas: after the veil is subtracted, the deviation from the sky is rescaled to match the contrast at the centre. 0 turns it off.",
        Id::DumpCorrection => "Also write a DNG of the layer that was removed, cropped and stretched like the output, so a developer can confirm it took defect and not sky. Empty = off.",
        Id::Export => "Export every frame cleaned, stabilized, deflickered and temporally denoised — the timelapse. Excluded frames are exported too.",
        Id::ExportDir => "Where the cleaned sequence is written. One DNG per frame, so count on around 145 MB each.",
        Id::ExportWindow => "Frames combined per exported frame, odd. Noise falls roughly as the square root of N-2. 1 turns the temporal reduction off.",
        Id::ExportStabilize => "Off exports in sensor coordinates, uncropped, and turns off the temporal reduction with it: that one needs aligned frames.",
        Id::ExportDeflicker => "Matches each frame's per-channel median and high percentile to the reference's, ignoring the foreground, so the sequence stops pulsing.",
        Id::ExportTransients => "Keeps meteors, satellites and planes at their original frame's value instead of letting the temporal combination average them away.",
        Id::ExportCloudGuard => "Treats cloud like foreground: out of the temporal window, since cloud is the one thing that does not follow the sky, and out of the frame's level statistics, since a light-polluted cloud outshines every star.",
        Id::SkyTolerance => "Frames whose sky level falls outside [median/F, median x F] of the session — twilight, cloud, moonrise — stay out of the stack. They are still exported.",
        Id::MaxForeground => "Frames with more of the frame than this taken up by trees or horizon stay out of the stack. 'auto' is 0 for a tracked sequence and 1 for an untracked one, where the landscape is part of the picture.",
        Id::MaxStars => "Stars used per frame for the alignment fit.",
    }
}

/// How many rows the form has when all of them apply.
pub const ALL_ROWS: usize = 29;

/// Row `k` of the form with all rows.
pub open spec fn row_at(k: int) -> Row {
    if k == 0 {
        Row::Section(Section::Frames)
    } else if k == 1 {
        Row::Field(Id::Input)
    } else if k == 2 {
        Row::Field(Id::Sequence)
    } else if k == 3 {
        Row::Field(Id::Limit)
    } else if k == 4 {
        Row::Section(Section::Stack)
    } else if k == 5 {
        Row::Field(Id::Stack)
    } else if k == 6 {
        Row::Field(Id::Output)
    } else if k == 7 {
        Row::Field(Id::Stretch)
    } else if k == 8 {
        Row::Section(Section::Tripod)
    } else if k == 9 {
        Row::Field(Id::FixedStabilize)
    } else if k == 10 {
        Row::Field(Id::FixedSearch)
    } else if k == 11 {
        Row::Field(Id::FixedAnomaly)
    } else if k == 12 {
        Row::Section(Section::Correction)
    } else if k == 13 {
        Row::Field(Id::Flatten)
    } else if k == 14 {
        Row::Field(Id::ResidualSurface)
    } else if k == 15 {
        Row::Field(Id::ScatterComp)
    } else if k == 16 {
        Row::Field(Id::DumpCorrection)
    } else if k == 17 {
        Row::Section(Section::Timelapse)
    } else if k == 18 {
        Row::Field(Id::Export)
    } else if k == 19 {
        Row::Field(Id::ExportDir)
    } else if k == 20 {
        Row::Field(Id::ExportStabilize)
    } else if k == 21 {
        Row::Field(Id::ExportWindow)
    } else if k == 22 {
        Row::Field(Id::ExportDeflicker)
    } else if k == 23 {
        Row::Field(Id::ExportTransients)
    } else if k == 24 {
        Row::Field(Id::ExportCloudGuard)
    } else if k == 25 {
        Row::Section(Section::Selection)
    } else if k == 26 {
        Row::Field(Id::SkyTolerance)
    } else if k == 27 {
        Row::Field(Id::MaxForeground)
    } else {
        Row::Field(Id::MaxStars)
    }
}

/// Whether a row applies: the tripod only to an untracked sequence, the
/// timelapse only once the export is on, and so forth.
pub open spec fn applies(s: Settings, r: Row) -> bool {
    match r {
        Row::Section(Section::Tripod) => s.untracked,
        Row::Field(Id::Output) | Row::Field(Id::Stretch) => s.stack,
        Row::Field(Id::FixedStabilize) | Row::Field(Id::FixedAnomaly) => s.untracked,
        Row::Field(Id::FixedSearch) => s.untracked && s.fixed_stabilize,
        Row::Field(Id::ResidualSurface) | Row::Field(Id::ScatterComp) => s.flatten,
        Row::Field(Id::DumpCorrection) => s.flatten && s.stack,
        Row::Field(Id::ExportDir)
        | Row::Field(Id::ExportStabilize)
        | Row::Field(Id::ExportDeflicker)
        | Row::Field(Id::ExportTransients)
        | Row::Field(Id::ExportCloudGuard) => s.export,
        Row::Field(Id::ExportWindow) => s.export && (s.export_stabilize || s.untracked),
        Row::Field(Id::MaxStars) => !s.untracked,
        _ => true,
    }
}

/// The rows that apply among the first `n`.
pub open spec fn rows_upto(s: Settings, n: int) -> Seq<Row>
    decreases n,
{
    if n <= 0 {
        Seq::empty()
    } else if applies(s, row_at(n - 1)) {
        rows_upto(s, n - 1).push(row_at(n - 1))
    } else {
        rows_upto(s, n - 1)
    }
}

/// The rows the form shows.
pub open spec fn rows_of(s: Settings) -> Seq<Row> {
    rows_upto(s, ALL_ROWS as int)
}

fn nth_row(k: usize) -> (r: Row)
    ensures
        r == row_at(k as int),
{
    if k == 0 {
        Row::Section(Section::Frames)
    } else if k == 1 {
        Row::Field(Id::Input)
    } else if k == 2 {
        Row::Field(Id::Sequence)
    } else if k == 3 {
        Row::Field(Id::Limit)
    } else if k == 4 {
        Row::Section(Section::Stack)
    } else if k == 5 {
        Row::Field(Id::Stack)
    } else if k == 6 {
        Row::Field(Id::Output)
    } else if k == 7 {
        Row::Field(Id::Stretch)
    } else if k == 8 {
        Row::Section(Section::Tripod)
    } else if k == 9 {
        Row::Field(Id::FixedStabilize)
    } else if k == 10 {
        Row::Field(Id::FixedSearch)
    } else if k == 11 {
        Row::Field(Id::FixedAnomaly)
    } else if k == 12 {
        Row::Section(Section::Correction)
    } else if k == 13 {
        Row::Field(Id::Flatten)
    } else if k == 14 {
        Row::Field(Id::ResidualSurface)
    } else if k == 15 {
        Row::Field(Id::ScatterComp)
    } else if k == 16 {
        Row::Field(Id::DumpCorrection)
    } else if k == 17 {
        Row::Section(Section::Timelapse)
    } else if k == 18 {
        Row::Field(Id::Export)
    } else if k == 19 {
        Row::Field(Id::ExportDir)
    } else if k == 20 {
        Row::Field(Id::ExportStabilize)
    } else if k == 21 {
        Row::Field(Id::ExportWindow)
    } else if k == 22 {
        Row::Field(Id::ExportDeflicker)
    } else if k == 23 {
        Row::Field(Id::ExportTransients)
    } else if k == 24 {
        Row::Field(Id::ExportCloudGuard)
    } else if k == 25 {
        Row::Section(Section::Selection)
    } else if k == 26 {
        Row::Field(Id::SkyTolerance)
    } else if k == 27 {
        Row::Field(Id::MaxForeground)
    } else {
        Row::Field(Id::MaxStars)
    }
}

fn does_apply(c: &Cfg, r: Row) -> (b: bool)
    ensures
        b == applies(c@, r),
{
    match r {
        Row::Section(Section::Tripod) => c.untracked,
        Row::Field(Id::Output) | Row::Field(Id::Stretch) => c.stack,
        Row::Field(Id::FixedStabilize) | Row::Field(Id::FixedAnomaly) => c.untracked,
        Row::Field(Id::FixedSearch) => c.untracked && c.fixed_stabilize,
        Row::Field(Id::ResidualSurface) | Row::Field(Id::ScatterComp) => c.flatten,
        Row::Field(Id::DumpCorrection) => c.flatten && c.stack,
        Row::Field(Id::ExportDir)
        | Row::Field(Id::ExportStabilize)
        | Row::Field(Id::ExportDeflicker)
        | Row::Field(Id::ExportTransients)
        | Row::Field(Id::ExportCloudGuard) => c.export,
        Row::Field(Id::ExportWindow) => c.export && (c.export_stabilize || c.untracked),
        Row::Field(Id::MaxStars) => !c.untracked,
        _ => true,
    }
}

/// The rows the form shows. What does not apply is not shown at all.
pub fn rows(c: &Cfg) -> (v: Vec<Row>)
    ensures
        v@ == rows_of(c@),
        v@.len() <= ALL_ROWS,
{
    let mut v: Vec<Row> = Vec::new();
    let mut k: usize = 0;
    while k < ALL_ROWS
        invariant
            k <= ALL_ROWS,
            v@ == rows_upto(c@, k as int),
            v@.len() <= k,
        decreases ALL_ROWS - k,
    {
        let r: Row = nth_row(k);
        if does_apply(c, r) {
            v.push(r);
        }
        k = k + 1;
    }
    v
}

/// Rounding goes to the nearest unit, and from the middle to an even number of
/// them.
pub proof fn law_rounding_is_to_the_nearest(v: int, unit: int)
    requires
        v >= 0,
        unit > 0,
    ensures
        -unit <= 2 * (v - unit * nearest(v, unit)) <= unit,
        2 * (v - unit * nearest(v, unit)) == unit || 2 * (v - unit * nearest(v, unit)) == -unit
            ==> nearest(v, unit) % 2 == 0,
{
    let q = v / unit;
    vstd::arithmetic::div_mod::lemma_fundamental_div_mod(v, unit);
    vstd::arithmetic::div_mod::lemma_mod_bound(v, unit);
    assert(unit * (q + 1) == unit * q + unit) by (nonlinear_arith);
}

/// A run does what the form says: every switch that is on is not switched off,
/// and every number and path is that of the form.
pub proof fn law_options_follow_the_form(a: Args, s: Settings)
    requires
        same_options(a, s),
    ensures
        s.stack <==> !a.no_stack,
        s.stretch <==> !a.no_stretch,
        s.flatten <==> !a.no_flatten,
        s.residual_surface <==> !a.no_residual_surface,
        s.export_stabilize <==> !a.export_no_stabilize,
        s.export_deflicker <==> !a.export_no_deflicker,
        s.export_transients <==> !a.export_no_transients,
        s.export_cloud_guard <==> !a.export_no_cloud_guard,
        s.fixed_stabilize <==> !a.fixed_no_stabilize,
        s.untracked <==> a.fixed_tripod,
        s.export <==> a.export_clean is Some,
        a.export_clean matches Some(d) ==> d@ == text::trim(s.export_dir),
        a.dump_correction matches Some(d) ==> d@ == text::trim(s.dump_correction) && d@.len() > 0,
        a.dump_correction is None ==> text::trim(s.dump_correction).len() == 0,
        a.input@ == text::trim(s.input) && a.output@ == text::trim(s.output),
        s.limit == 0 ==> a.limit is None,
        s.limit > 0 ==> a.limit == Some(s.limit),
        a.max_stars == s.max_stars && a.export_window == s.export_window && a.fixed_search
            == s.fixed_search,
        a.scatter_comp == s.scatter_comp && a.stack_sky_tolerance == s.sky_tolerance
            && a.stack_max_foreground == s.max_foreground,
        a.fixed_anomaly == s.fixed_anomaly,
{
}

/// A form that was just opened shows the defaults, with nothing to export or to
/// dump and the foreground left to the kind of sequence.
pub proof fn law_forms_open_with_the_defaults(d: Args)
    ensures
        ({
            let s = settings_of(d);
            &&& s.input == d.input@ && s.output == d.output@
            &&& s.stack == !d.no_stack && s.stretch == !d.no_stretch && s.flatten == !d.no_flatten
            &&& s.residual_surface == !d.no_residual_surface && s.untracked == d.fixed_tripod
            &&& s.export_stabilize == !d.export_no_stabilize && s.export_deflicker
                == !d.export_no_deflicker
            &&& s.export_transients == !d.export_no_transients && s.export_cloud_guard
                == !d.export_no_cloud_guard
            &&& s.fixed_stabilize == !d.fixed_no_stabilize
            &&& !s.export && s.export_dir.len() == 0 && s.dump_correction.len() == 0
            &&& s.max_foreground is None
            &&& s.scatter_comp == d.scatter_comp && s.sky_tolerance == d.stack_sky_tolerance
            &&& s.max_stars == d.max_stars && s.export_window == d.export_window && s.fixed_search
                == d.fixed_search && s.fixed_anomaly == d.fixed_anomaly
            &&& d.limit is None ==> s.limit == 0
            &&& d.limit matches Some(n) ==> s.limit == n
        }),
{
}

proof fn lemma_rows(s: Settings, n: int, k: int)
    requires
        0 <= n <= ALL_ROWS,
        0 <= k < n,
    ensures
        rows_upto(s, n).contains(row_at(k)) <==> applies(s, row_at(k)),
    decreases n,
{
    let front = rows_upto(s, n - 1);
    let all = rows_upto(s, n);
    if k < n - 1 {
        lemma_rows(s, n - 1, k);
        if front.contains(row_at(k)) {
            let i = choose|i: int| 0 <= i < front.len() && front[i] == row_at(k);
            assert(all[i] == row_at(k));
        }
        if all.contains(row_at(k)) {
            let i = choose|i: int| 0 <= i < all.len() && all[i] == row_at(k);
            if i < front.len() {
                assert(front[i] == row_at(k));
            } else {
                assert(row_at(n - 1) == row_at(k));
            }
        }
    } else {
        if applies(s, row_at(k)) {
            assert(all[front.len() as int] == row_at(k));
        } else {
            lemma_rows_before(s, n - 1);
            if front.contains(row_at(k)) {
                let i = choose|i: int| 0 <= i < front.len() && front[i] == row_at(k);
                let j = choose|j: int| 0 <= j < n - 1 && front[i] == #[trigger] row_at(j) && applies(s, row_at(j));
                assert(applies(s, row_at(j)));
            }
        }
    }
}

proof fn lemma_rows_before(s: Settings, n: int)
    requires
        0 <= n <= ALL_ROWS,
    ensures
        forall|i: int|
            0 <= i < rows_upto(s, n).len() ==> exists|j: int|
                0 <= j < n && #[trigger] rows_upto(s, n)[i] == #[trigger] row_at(j) && applies(
                    s,
                    row_at(j),
                ),
    decreases n,
{
    if n > 0 {
        lemma_rows_before(s, n - 1);
        let front = rows_upto(s, n - 1);
        let all = rows_upto(s, n);
        assert forall|i: int| 0 <= i < all.len() implies exists|j: int|
            0 <= j < n && #[trigger] all[i] == #[trigger] row_at(j) && applies(s, row_at(j)) by {
            if i < front.len() {
                assert(all[i] == front[i]);
                let j = choose|j: int|
                    0 <= j < n - 1 && front[i] == #[trigger] row_at(j) && applies(s, row_at(j));
                assert(all[i] == row_at(j));
            } else {
                assert(all[i] == row_at(n - 1));
            }
        }
    }
}

/// A form shows the rows that apply, and no others.
pub proof fn law_forms_show_what_applies(s: Settings, k: int)
    requires
        0 <= k < 29,
    ensures
        rows_of(s).contains(row_at(k)) <==> applies(s, row_at(k)),
{
    lemma_rows(s, ALL_ROWS as int, k);
}

/// What belongs to a part of the run is only asked for where that part runs:
/// the output of the stack, the details of the correction and of the export,
/// the tripod's drift, and the stars of a tracked sequence.
pub proof fn law_rows_belong_to_parts(s: Settings)
    ensures
        applies(s, Row::Field(Id::Input)) && applies(s, Row::Field(Id::Sequence)) && applies(
            s,
            Row::Field(Id::Limit),
        ) && applies(s, Row::Field(Id::Stack)) && applies(s, Row::Field(Id::Flatten)) && applies(
            s,
            Row::Field(Id::Export),
        ) && applies(s, Row::Field(Id::SkyTolerance)) && applies(s, Row::Field(Id::MaxForeground)),
        applies(s, Row::Field(Id::Output)) == s.stack,
        applies(s, Row::Field(Id::Stretch)) == s.stack,
        applies(s, Row::Field(Id::DumpCorrection)) == (s.flatten && s.stack),
        applies(s, Row::Field(Id::ResidualSurface)) == s.flatten,
        applies(s, Row::Field(Id::ScatterComp)) == s.flatten,
        applies(s, Row::Field(Id::FixedStabilize)) == s.untracked,
        applies(s, Row::Field(Id::FixedAnomaly)) == s.untracked,
        applies(s, Row::Field(Id::FixedSearch)) == (s.untracked && s.fixed_stabilize),
        applies(s, Row::Section(Section::Tripod)) == s.untracked,
        applies(s, Row::Field(Id::ExportDir)) == s.export,
        applies(s, Row::Field(Id::ExportStabilize)) == s.export,
        applies(s, Row::Field(Id::ExportDeflicker)) == s.export,
        applies(s, Row::Field(Id::ExportTransients)) == s.export,
        applies(s, Row::Field(Id::ExportCloudGuard)) == s.export,
        applies(s, Row::Field(Id::ExportWindow)) == (s.export && (s.export_stabilize
            || s.untracked)),
        applies(s, Row::Field(Id::MaxStars)) == !s.untracked,
{
}

/// Paths are typed as text and figures as numbers; the anomaly is one of three,
/// and everything else is on or off.
pub proof fn law_kinds_of_fields()
    ensures
        kind_of(Id::Input) is Text && kind_of(Id::Output) is Text && kind_of(
            Id::DumpCorrection,
        ) is Text && kind_of(Id::ExportDir) is Text,
        kind_of(Id::Limit) is Number && kind_of(Id::FixedSearch) is Number && kind_of(
            Id::ScatterComp,
        ) is Number && kind_of(Id::ExportWindow) is Number && kind_of(Id::SkyTolerance) is Number
            && kind_of(Id::MaxForeground) is Number && kind_of(Id::MaxStars) is Number,
        kind_of(Id::FixedAnomaly) is Choice,
        kind_of(Id::Sequence) is Switch && kind_of(Id::Stack) is Switch && kind_of(
            Id::Stretch,
        ) is Switch && kind_of(Id::Flatten) is Switch && kind_of(Id::Export) is Switch && kind_of(
            Id::ResidualSurface,
        ) is Switch && kind_of(Id::FixedStabilize) is Switch && kind_of(
            Id::ExportStabilize,
        ) is Switch && kind_of(Id::ExportDeflicker) is Switch && kind_of(
            Id::ExportTransients,
        ) is Switch && kind_of(Id::ExportCloudGuard) is Switch,
{
}

/// The choices are called what the command line calls them.
pub proof fn law_anomalies_are_called_as_typed()
    ensures
        anomaly_text(AnomalyArg::Coarse) == "coarse"@,
        anomaly_text(AnomalyArg::Off) == "none"@,
        anomaly_text(AnomalyArg::Full) == "full"@,
{
}

/// The summary of a run names its frames, its kind, what it writes and what it
/// corrects.
pub proof fn law_summary_of_a_run(a: Args)
    ensures
        ({
            let s = summary_of(a);
            &&& s.len() == 6
            &&& s[0] == ("input"@, a.input@)
            &&& s[1].0 == "mode"@ && (a.fixed_tripod ==> s[1].1 == "untracked (fixed tripod)"@) && (
            !a.fixed_tripod ==> s[1].1 == "tracked"@)
            &&& s[2].0 == "output"@ && (!a.no_stack ==> s[2].1 == a.output@) && (a.no_stack
                ==> s[2].1 == "none (--no-stack)"@)
            &&& s[3].0 == "export"@ && (a.export_clean is None ==> s[3].1 == "off"@)
            &&& s[5].0 == "clean"@ && (a.no_flatten ==> s[5].1 == "off (--no-flatten)"@) && (
            !a.no_flatten ==> s[5].1 == "halo + gradient"@)
        }),
{
}

/// The parts of the form are called what they are about.
pub proof fn law_parts_have_names()
    ensures
        section_text(Section::Frames) == "frames"@,
        section_text(Section::Stack) == "stack"@,
        section_text(Section::Tripod) == "tripod"@,
        section_text(Section::Correction) == "correction"@,
        section_text(Section::Timelapse) == "timelapse"@,
        section_text(Section::Selection) == "frame selection"@,
{
}

/// The fields are called what they set.
pub proof fn law_fields_have_names()
    ensures
        label_text(Id::Input) == "frames directory"@,
        label_text(Id::Sequence) == "sequence"@,
        label_text(Id::Limit) == "frame limit"@,
        label_text(Id::Stack) == "write the stack"@,
        label_text(Id::Output) == "output DNG"@,
        label_text(Id::Stretch) == "auto stretch"@,
        label_text(Id::FixedStabilize) == "measure tripod drift"@,
        label_text(Id::FixedSearch) == "drift search"@,
        label_text(Id::FixedAnomaly) == "per-frame anomaly"@,
        label_text(Id::Flatten) == "remove halo + gradient"@,
        label_text(Id::ResidualSurface) == "residual surface"@,
        label_text(Id::ScatterComp) == "scatter compensation"@,
        label_text(Id::DumpCorrection) == "dump removed layer"@,
        label_text(Id::Export) == "export timelapse"@,
        label_text(Id::ExportDir) == "export directory"@,
        label_text(Id::ExportWindow) == "temporal window"@,
        label_text(Id::ExportStabilize) == "stabilize"@,
        label_text(Id::ExportDeflicker) == "deflicker"@,
        label_text(Id::ExportTransients) == "keep transients"@,
        label_text(Id::ExportCloudGuard) == "cloud guard"@,
        label_text(Id::SkyTolerance) == "sky tolerance"@,
        label_text(Id::MaxForeground) == "max foreground"@,
        label_text(Id::MaxStars) == "stars per frame"@,
{
}

} // verus!
