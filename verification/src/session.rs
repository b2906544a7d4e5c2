//! What a run decides about its frames: which ones are aligned, stacked,
//! allowed into the background model and exported.
//!
//! Measured quantities (sky levels, covered fractions) take part by their
//! order keys; see `order::order_key`.
use crate::order;
use crate::text;
use vstd::prelude::*;

verus! {

/// Minimum inliers to accept a star-based alignment.
pub const MIN_INLIERS: usize = 6;

/// Maximum distance, in frames, to an aligned neighbour for interpolation.
pub const ALIGN_INTERP_RANGE: usize = 6;

/// Key of the largest deviation at the corners, 6 px, between a fitted
/// alignment and the one interpolated from the neighbours.
pub const ALIGN_MAX_DEV_PX: i64 = 0x40c0_0000;

/// Key of the sky level, 0.85 of the sensor range, from which on a frame is
/// saturated and not exported.
pub const EXPORT_MAX_LEVEL: i64 = 0x3f59_999a;

/// Key of the cloud cover, 0.5, above which a frame takes no part in the
/// stack.
pub const CLOUD_MAX_FRAC: i64 = 0x3f00_0000;

/// Key of the cloud cover, 0.02, above which a frame no longer helps
/// determine the background.
pub const CLOUD_FIT_FRAC: i64 = 0x3ca3_d70a;

/// Key of the foreground, 0.6 of the frame, admitted where too few frames are
/// clear of it.
pub const RELAXED_FOREGROUND: i64 = 0x3f19_999a;

/// Key of the whole frame, 1.
pub const WHOLE_FRAME: i64 = 0x3f80_0000;

/// Fewest frames the background may be determined from before the least
/// clouded ones are taken instead.
pub const MODEL_MIN_FRAMES: usize = 24;

/// Fewest frames each half of the session needs for its own median map.
pub const MIN_HALF_FRAMES: usize = 8;

/// What is known about one frame after the first pass.
#[derive(Clone, Copy, Debug, PartialEq, Eq, Structural)]
pub struct FrameInfo {
    /// Position in the list of files, which is chronological.
    pub idx: usize,
    /// Key of the fraction of the frame taken up by foreground.
    pub fraction: i64,
    /// Whether there is any foreground.
    pub foreground: bool,
    /// Key of the fraction covered by cloud.
    pub cloud: i64,
    /// Key of the sky level.
    pub level: i64,
    /// Whether it enters the stack.
    pub in_stack: bool,
    /// Whether it helps determine the background.
    pub in_model: bool,
    /// Whether its alignment was fitted to stars rather than interpolated.
    pub aligned: bool,
    /// Whether it is exported.
    pub export: bool,
}

/// Why a run cannot go on.
#[derive(Clone, Copy, Debug, PartialEq, Eq, Structural)]
pub enum Refusal {
    NoStackWithoutExport,
    NoStackTracked,
    TooFewStars(usize),
    NothingSelected,
    ExportNeedsCorrection,
    StoppedByUser,
}

impl Refusal {
    /// What is reported.
    pub open spec fn text(self) -> Seq<char> {
        match self {
            Refusal::NoStackWithoutExport => "--no-stack requires --export-clean: without either one the run would produce nothing"@,
            Refusal::NoStackTracked => "--no-stack requires --fixed-tripod: on a tracked sequence the stack is the reference every exported frame is levelled against"@,
            Refusal::TooFewStars(n) => "too few stars in the reference ("@ + text::decimal(
                n as nat,
            ) + ") — check exposure or max_stars"@,
            Refusal::NothingSelected => "no frame passes the stack selection (tune --stack-sky-tolerance / --stack-max-foreground)"@,
            Refusal::ExportNeedsCorrection => "--export-clean requires the correction to be enabled (drop --no-flatten)"@,
            Refusal::StoppedByUser => "stopped by the user"@,
        }
    }

    /// What is reported.
    pub fn message(&self) -> (r: String)
        ensures
            r@ == self.text(),
    {
        match *self {
            Refusal::NoStackWithoutExport => String::from_str(
                "--no-stack requires --export-clean: without either one the run would produce nothing",
            ),
            Refusal::NoStackTracked => String::from_str(
                "--no-stack requires --fixed-tripod: on a tracked sequence the stack is the reference every exported frame is levelled against",
            ),
            Refusal::TooFewStars(n) => {
                let mut c = text::chars("too few stars in the reference (");
                text::push_decimal(&mut c, n as u64);
                let mut tail = text::chars(") — check exposure or max_stars");
                c.append(&mut tail);
                text::string(c.as_slice())
            },
            Refusal::NothingSelected => String::from_str(
                "no frame passes the stack selection (tune --stack-sky-tolerance / --stack-max-foreground)",
            ),
            Refusal::ExportNeedsCorrection => String::from_str(
                "--export-clean requires the correction to be enabled (drop --no-flatten)",
            ),
            Refusal::StoppedByUser => String::from_str("stopped by the user"),
        }
    }
}

/// Whether settings can be combined.
pub open spec fn settings_verdict(no_stack: bool, export_clean: bool, fixed_tripod: bool) -> Result<
    (),
    Refusal,
> {
    if no_stack && !export_clean {
        Err::<(), Refusal>(Refusal::NoStackWithoutExport)
    } else if no_stack && !fixed_tripod {
        Err(Refusal::NoStackTracked)
    } else {
        Ok(())
    }
}

/// Settings that cannot be combined: skipping the stack takes an export, for
/// there would be nothing to produce, and a fixed tripod, for on a tracked
/// sequence the stack is what every exported frame is levelled against.
pub fn check_settings(no_stack: bool, export_clean: bool, fixed_tripod: bool) -> (r: Result<
    (),
    Refusal,
>)
    ensures
        r == settings_verdict(no_stack, export_clean, fixed_tripod),
{
    if no_stack {
        if !export_clean {
            return Err(Refusal::NoStackWithoutExport);
        }
        if !fixed_tripod {
            return Err(Refusal::NoStackTracked);
        }
    }
    Ok(())
}

/// The width of a temporal window: odd, and at least one.
pub open spec fn odd(window: usize) -> int {
    if window == 0 {
        1
    } else if window % 2 == 0 {
        window + 1
    } else {
        window as int
    }
}

/// The width of a temporal window, made odd.
pub fn odd_window(window: usize) -> (w: usize)
    ensures
        w == odd(window),
        w % 2 == 1,
{
    if window == 0 {
        1
    } else if window % 2 == 0 {
        assert(window < usize::MAX) by {
            assert(usize::MAX % 2 == 1);
        }
        window + 1
    } else {
        window
    }
}

/// Whether the chain of sky fits between consecutive frames is needed.
pub open spec fn chain_needed(untracked: bool, export_clean: bool, window: usize) -> bool {
    untracked && export_clean && window >= 2
}

/// Whether the chain of sky fits between consecutive frames is needed: on an
/// untracked sequence that exports with a window of more than one frame.
pub fn needs_sky_chain(untracked: bool, export_clean: bool, window: usize) -> (b: bool)
    ensures
        b == chain_needed(untracked, export_clean, window),
{
    untracked && export_clean && odd_window(window) > 1
}

/// Whether the reference has stars enough.
pub open spec fn reference_verdict(stars: usize, untracked: bool) -> Result<bool, Refusal> {
    if stars < MIN_INLIERS && !untracked {
        Err::<bool, Refusal>(Refusal::TooFewStars(stars))
    } else {
        Ok(stars >= MIN_INLIERS)
    }
}

/// Whether the reference has stars enough. On an untracked sequence too few
/// of them only cost the temporal window: `Ok(false)`.
pub fn check_reference(stars: usize, untracked: bool) -> (r: Result<bool, Refusal>)
    ensures
        r == reference_verdict(stars, untracked),
{
    if stars < MIN_INLIERS {
        if !untracked {
            return Err(Refusal::TooFewStars(stars));
        }
        return Ok(false);
    }
    Ok(true)
}

/// How the first pass ended for one frame.
#[derive(Clone, Copy, Debug, PartialEq, Eq, Structural)]
pub enum Outcome {
    LoadFailed,
    OtherDimensions,
    /// Loaded and measured; with the inliers of its star fit, if there is one.
    Measured(Option<usize>),
}

/// What becomes of a frame after the first pass.
#[derive(Clone, Copy, Debug, PartialEq, Eq, Structural)]
pub enum Verdict {
    Skipped,
    Aligned,
    /// Waits for an alignment interpolated from its neighbours.
    Pending,
}

/// What becomes of a frame.
pub open spec fn verdict(untracked: bool, outcome: Outcome) -> Verdict {
    match outcome {
        Outcome::Measured(fit) => if untracked || (fit is Some && fit->0 >= MIN_INLIERS) {
            Verdict::Aligned
        } else {
            Verdict::Pending
        },
        _ => Verdict::Skipped,
    }
}

/// What becomes of a frame. Untracked, a frame never fails to align: the
/// camera did not move, so the worst case is identity.
pub fn judge(untracked: bool, outcome: Outcome) -> (v: Verdict)
    ensures
        v == verdict(untracked, outcome),
{
    match outcome {
        Outcome::LoadFailed => Verdict::Skipped,
        Outcome::OtherDimensions => Verdict::Skipped,
        Outcome::Measured(fit) => if untracked {
            Verdict::Aligned
        } else {
            match fit {
                Some(inliers) => if inliers >= MIN_INLIERS {
                    Verdict::Aligned
                } else {
                    Verdict::Pending
                },
                None => Verdict::Pending,
            }
        },
    }
}

/// Whether a link of the sky chain holds.
pub open spec fn linked(stars_a: usize, stars_b: usize, inliers: Option<usize>) -> bool {
    stars_a >= 3 && stars_b >= 3 && inliers is Some && inliers->0 >= MIN_INLIERS
}

/// Whether a link of the sky chain holds: enough stars on both sides and
/// enough inliers.
pub fn link_holds(stars_a: usize, stars_b: usize, inliers: Option<usize>) -> (b: bool)
    ensures
        b == linked(stars_a, stars_b, inliers),
{
    if stars_a < 3 || stars_b < 3 {
        return false;
    }
    match inliers {
        Some(n) => n >= MIN_INLIERS,
        None => false,
    }
}

/// What an alignment is made of when it is not fitted.
#[derive(Clone, Copy, Debug, PartialEq, Eq, Structural)]
pub enum Basis {
    /// No neighbour is near enough.
    Nothing,
    /// The neighbour's alignment as it is.
    Hold(usize),
    /// On the line from one neighbour to another, by the positions of all
    /// three.
    Line(usize, usize),
}

/// Whether frame `k` may stand in for frame `idx`.
pub open spec fn near(frames: Seq<FrameInfo>, k: int, idx: usize, skip: Option<usize>) -> bool {
    &&& 0 <= k < frames.len()
    &&& frames[k].aligned
    &&& skip != Some(k as usize)
    &&& frames[k].idx - idx <= ALIGN_INTERP_RANGE
    &&& idx - frames[k].idx <= ALIGN_INTERP_RANGE
}

/// `r` is the nearest usable frame before `limit`; among equal positions the
/// last one in the list.
pub open spec fn nearest_before(
    frames: Seq<FrameInfo>,
    idx: usize,
    skip: Option<usize>,
    limit: usize,
    r: Option<usize>,
) -> bool {
    match r {
        None => forall|j: int| #[trigger]
            near(frames, j, idx, skip) ==> frames[j].idx >= limit,
        Some(k) => {
            &&& near(frames, k as int, idx, skip)
            &&& frames[k as int].idx < limit
            &&& forall|j: int| #[trigger]
                near(frames, j, idx, skip) && frames[j].idx < limit ==> frames[j].idx
                    < frames[k as int].idx || frames[j].idx == frames[k as int].idx && j <= k
        },
    }
}

/// `r` is the nearest usable frame after `limit`; among equal positions the
/// first one in the list.
pub open spec fn nearest_after(
    frames: Seq<FrameInfo>,
    idx: usize,
    skip: Option<usize>,
    limit: usize,
    r: Option<usize>,
) -> bool {
    match r {
        None => forall|j: int| #[trigger]
            near(frames, j, idx, skip) ==> frames[j].idx <= limit,
        Some(k) => {
            &&& near(frames, k as int, idx, skip)
            &&& frames[k as int].idx > limit
            &&& forall|j: int| #[trigger]
                near(frames, j, idx, skip) && frames[j].idx > limit ==> frames[j].idx
                    > frames[k as int].idx || frames[j].idx == frames[k as int].idx && j >= k
        },
    }
}

/// What the alignment of frame `idx` is interpolated from: the nearest
/// aligned frames on both sides; with one side only, the two nearest of that
/// side; with one frame only, that one.
pub open spec fn is_basis(
    frames: Seq<FrameInfo>,
    idx: usize,
    skip: Option<usize>,
    b: Basis,
) -> bool {
    exists|prev: Option<usize>, next: Option<usize>|
        #![trigger nearest_before(frames, idx, skip, idx, prev), nearest_after(frames, idx, skip, idx, next)]
        nearest_before(frames, idx, skip, idx, prev) && nearest_after(frames, idx, skip, idx, next)
            && match (prev, next) {
            (Some(p), Some(n)) => b == Basis::Line(p, n),
            (Some(p), None) => exists|pp: Option<usize>| #[trigger]
                nearest_before(frames, idx, skip, frames[p as int].idx, pp) && b == match pp {
                    Some(q) => Basis::Line(q, p),
                    None => Basis::Hold(p),
                },
            (None, Some(n)) => exists|nn: Option<usize>| #[trigger]
                nearest_after(frames, idx, skip, frames[n as int].idx, nn) && b == match nn {
                    Some(q) => Basis::Line(n, q),
                    None => Basis::Hold(n),
                },
            (None, None) => b == Basis::Nothing,
        }
}

fn is_near(frames: &[FrameInfo], k: usize, idx: usize, skip: Option<usize>) -> (b: bool)
    requires
        k < frames@.len(),
    ensures
        b == near(frames@, k as int, idx, skip),
{
    let f = frames[k];
    let skipped: bool = match skip {
        Some(s) => s == k,
        None => false,
    };
    let dist: usize = if f.idx >= idx {
        f.idx - idx
    } else {
        idx - f.idx
    };
    f.aligned && !skipped && dist <= ALIGN_INTERP_RANGE
}

fn find_before(frames: &[FrameInfo], idx: usize, skip: Option<usize>, limit: usize) -> (r: Option<
    usize,
>)
    ensures
        nearest_before(frames@, idx, skip, limit, r),
{
    let mut r: Option<usize> = None;
    let mut k: usize = 0;
    while k < frames.len()
        invariant
            k <= frames@.len(),
            r is None ==> forall|j: int| #[trigger]
                near(frames@, j, idx, skip) && j < k ==> frames@[j].idx >= limit,
            r is Some ==> r->0 < k,
            r is Some ==> near(frames@, r->0 as int, idx, skip) && frames@[r->0 as int].idx < limit,
            r is Some ==> forall|j: int| #[trigger]
                near(frames@, j, idx, skip) && j < k && frames@[j].idx < limit ==> frames@[j].idx
                    < frames@[r->0 as int].idx || frames@[j].idx == frames@[r->0 as int].idx && j
                    <= r->0,
        decreases frames@.len() - k,
    {
        if is_near(frames, k, idx, skip) && frames[k].idx < limit {
            let better: bool = match r {
                None => true,
                Some(b) => frames[k].idx >= frames[b].idx,
            };
            if better {
                r = Some(k);
            }
        }
        k = k + 1;
    }
    r
}

fn find_after(frames: &[FrameInfo], idx: usize, skip: Option<usize>, limit: usize) -> (r: Option<
    usize,
>)
    ensures
        nearest_after(frames@, idx, skip, limit, r),
{
    let mut r: Option<usize> = None;
    let mut k: usize = 0;
    while k < frames.len()
        invariant
            k <= frames@.len(),
            r is None ==> forall|j: int| #[trigger]
                near(frames@, j, idx, skip) && j < k ==> frames@[j].idx <= limit,
            r is Some ==> r->0 < k,
            r is Some ==> near(frames@, r->0 as int, idx, skip) && frames@[r->0 as int].idx > limit,
            r is Some ==> forall|j: int| #[trigger]
                near(frames@, j, idx, skip) && j < k && frames@[j].idx > limit ==> frames@[j].idx
                    > frames@[r->0 as int].idx || frames@[j].idx == frames@[r->0 as int].idx && j
                    >= r->0,
        decreases frames@.len() - k,
    {
        if is_near(frames, k, idx, skip) && frames[k].idx > limit {
            let better: bool = match r {
                None => true,
                Some(b) => frames[k].idx < frames[b].idx,
            };
            if better {
                r = Some(k);
            }
        }
        k = k + 1;
    }
    r
}

/// What the alignment of frame `idx` is interpolated or extrapolated from.
/// `skip` is a frame of the list to leave out: the frame itself.
pub fn predict_transform(frames: &[FrameInfo], idx: usize, skip: Option<usize>) -> (b: Basis)
    ensures
        is_basis(frames@, idx, skip, b),
{
    let prev = find_before(frames, idx, skip, idx);
    let next = find_after(frames, idx, skip, idx);
    match (prev, next) {
        (Some(p), Some(n)) => Basis::Line(p, n),
        (Some(p), None) => {
            let pp = find_before(frames, idx, skip, frames[p].idx);
            match pp {
                Some(q) => Basis::Line(q, p),
                None => Basis::Hold(p),
            }
        },
        (None, Some(n)) => {
            let nn = find_after(frames, idx, skip, frames[n].idx);
            match nn {
                Some(q) => Basis::Line(n, q),
                None => Basis::Hold(n),
            }
        },
        (None, None) => Basis::Nothing,
    }
}

/// The frames a basis names.
pub open spec fn names(b: Basis, k: int) -> bool {
    match b {
        Basis::Nothing => false,
        Basis::Hold(p) => p == k,
        Basis::Line(p, q) => p == k || q == k,
    }
}

/// An interpolated alignment rests on star-aligned frames no further than
/// `ALIGN_INTERP_RANGE` away, never on the frame itself, and the two frames of
/// a line are at different positions.
pub proof fn law_basis_is_near(frames: Seq<FrameInfo>, idx: usize, skip: Option<usize>, b: Basis)
    requires
        is_basis(frames, idx, skip, b),
    ensures
        forall|k: int| #[trigger] names(b, k) ==> near(frames, k, idx, skip),
        b matches Basis::Line(p, q) ==> frames[p as int].idx < frames[q as int].idx,
        b is Nothing ==> forall|k: int| #[trigger]
            near(frames, k, idx, skip) ==> frames[k].idx == idx,
{
}

/// Whether a deviation from the neighbours is too large to be true.
pub open spec fn deviates(dev: Option<i64>) -> bool {
    dev is Some && dev->0 > ALIGN_MAX_DEV_PX
}

/// The frames whose fitted alignment departs too far from the one predicted
/// from their neighbours. A frame without a prediction has no deviation.
pub fn implausible(dev: &[Option<i64>]) -> (bad: Vec<usize>)
    ensures
        forall|j: int| 0 <= j < bad@.len() ==> (#[trigger] bad@[j]) < dev@.len(),
        forall|i: int, j: int| 0 <= i < j < bad@.len() ==> bad@[i] < bad@[j],
        forall|k: usize|
            k < dev@.len() ==> (#[trigger] bad@.contains(k) <==> deviates(dev@[k as int])),
{
    let mut bad: Vec<usize> = Vec::new();
    let mut k: usize = 0;
    while k < dev.len()
        invariant
            k <= dev@.len(),
            forall|j: int| 0 <= j < bad@.len() ==> (#[trigger] bad@[j]) < k,
            forall|i: int, j: int| 0 <= i < j < bad@.len() ==> bad@[i] < bad@[j],
            forall|m: usize|
                m < k ==> (#[trigger] bad@.contains(m) <==> dev@[m as int] is Some
                    && dev@[m as int]->0 > ALIGN_MAX_DEV_PX),
        decreases dev@.len() - k,
    {
        let far: bool = match dev[k] {
            Some(d) => d > ALIGN_MAX_DEV_PX,
            None => false,
        };
        let ghost was = bad@;
        if far {
            bad.push(k);
        }
        proof {
            assert forall|m: usize| m < k + 1 implies (#[trigger] bad@.contains(m) <==> dev@[m as int] is Some
                && dev@[m as int]->0 > ALIGN_MAX_DEV_PX) by {
                if far {
                    assert(bad@[was.len() as int] == k);
                    if was.contains(m) {
                        let j = choose|j: int| 0 <= j < was.len() && was[j] == m;
                        assert(bad@[j] == m);
                    }
                }
                if m < k {
                    assert(was.contains(m) == bad@.contains(m)) by {
                        if bad@.contains(m) {
                            let j = choose|j: int| 0 <= j < bad@.len() && bad@[j] == m;
                            assert(was[j] == m);
                        }
                    }
                } else if !far {
                    if bad@.contains(m) {
                        let j = choose|j: int| 0 <= j < bad@.len() && bad@[j] == m;
                        assert(bad@[j] < k);
                    }
                }
            }
        }
        k = k + 1;
    }
    bad
}

/// A frame whose alignment was replaced: it no longer counts as aligned and
/// is out of the stack.
pub open spec fn demoted(f: FrameInfo) -> FrameInfo {
    FrameInfo { aligned: false, in_stack: false, ..f }
}

/// The frames once the first `n` implausible ones are dealt with: those for
/// which there is a basis are demoted.
pub open spec fn repaired(frames: Seq<FrameInfo>, bad: Seq<usize>, bases: Seq<Basis>, n: int) -> Seq<
    FrameInfo,
>
    decreases n,
{
    if n <= 0 {
        frames
    } else {
        let f = repaired(frames, bad, bases, n - 1);
        let k = bad[n - 1] as int;
        if bases[n - 1] is Nothing {
            f
        } else {
            f.update(k, demoted(f[k]))
        }
    }
}

/// Replaces implausible alignments, one after the other: for each, what to
/// interpolate from. A frame that was replaced serves no later one.
pub fn repair(frames: &mut Vec<FrameInfo>, bad: &[usize]) -> (bases: Vec<Basis>)
    requires
        forall|j: int| 0 <= j < bad@.len() ==> (#[trigger] bad@[j]) < old(frames)@.len(),
    ensures
        bases@.len() == bad@.len(),
        final(frames)@ == repaired(old(frames)@, bad@, bases@, bad@.len() as int),
        forall|j: int|
            0 <= j < bad@.len() ==> is_basis(
                repaired(old(frames)@, bad@, bases@, j),
                old(frames)@[bad@[j] as int].idx,
                Some(bad@[j]),
                #[trigger] bases@[j],
            ),
{
    let ghost start = frames@;
    let mut bases: Vec<Basis> = Vec::new();
    let mut j: usize = 0;
    while j < bad.len()
        invariant
            j <= bad@.len(),
            bases@.len() == j,
            frames@.len() == start.len(),
            forall|i: int| 0 <= i < bad@.len() ==> (#[trigger] bad@[i]) < start.len(),
            forall|i: int| 0 <= i < start.len() ==> (#[trigger] frames@[i]).idx == start[i].idx,
            frames@ == repaired(start, bad@, bases@, j as int),
            forall|i: int|
                0 <= i < j ==> is_basis(
                    repaired(start, bad@, bases@, i),
                    start[bad@[i] as int].idx,
                    Some(bad@[i]),
                    #[trigger] bases@[i],
                ),
        decreases bad@.len() - j,
    {
        let k: usize = bad[j];
        let f = frames[k];
        let b = predict_transform(frames.as_slice(), f.idx, Some(k));
        let ghost was = bases@;
        let ghost before = frames@;
        bases.push(b);
        if b != Basis::Nothing {
            frames.set(k, FrameInfo { aligned: false, in_stack: false, ..f });
        }
        proof {
            lemma_repaired_prefix(start, bad@, was, bases@, j as int);
            assert(frames@ =~= repaired(start, bad@, bases@, j + 1));
            assert forall|i: int| 0 <= i < j + 1 implies is_basis(
                repaired(start, bad@, bases@, i),
                start[bad@[i] as int].idx,
                Some(bad@[i]),
                #[trigger] bases@[i],
            ) by {
                lemma_repaired_prefix(start, bad@, was, bases@, i);
                if i < j {
                    assert(bases@[i] == was[i]);
                }
            }
        }
        j = j + 1;
    }
    bases
}

proof fn lemma_repaired_prefix(
    frames: Seq<FrameInfo>,
    bad: Seq<usize>,
    a: Seq<Basis>,
    b: Seq<Basis>,
    n: int,
)
    requires
        n <= a.len() <= b.len(),
        forall|i: int| 0 <= i < a.len() ==> a[i] == b[i],
    ensures
        repaired(frames, bad, a, n) == repaired(frames, bad, b, n),
    decreases n,
{
    if n > 0 {
        lemma_repaired_prefix(frames, bad, a, b, n - 1);
    }
}

/// What to interpolate the alignments of frames without one from; `Nothing`
/// for a frame that has to be skipped.
pub fn recover(frames: &[FrameInfo], pending: &[usize]) -> (bases: Vec<Basis>)
    ensures
        bases@.len() == pending@.len(),
        forall|j: int|
            0 <= j < pending@.len() ==> is_basis(frames@, pending@[j], None, #[trigger] bases@[j]),
{
    let mut bases: Vec<Basis> = Vec::new();
    let mut j: usize = 0;
    while j < pending.len()
        invariant
            j <= pending@.len(),
            bases@.len() == j,
            forall|i: int|
                0 <= i < j ==> is_basis(frames@, pending@[i], None, #[trigger] bases@[i]),
        decreases pending@.len() - j,
    {
        bases.push(predict_transform(frames, pending[j], None));
        j = j + 1;
    }
    bases
}

/// How many frames have a property.
pub open spec fn count(frames: Seq<FrameInfo>, p: spec_fn(FrameInfo) -> bool) -> nat
    decreases frames.len(),
{
    if frames.len() == 0 {
        0
    } else {
        count(frames.drop_last(), p) + if p(frames.last()) {
            1nat
        } else {
            0nat
        }
    }
}

/// The sky levels above zero, in order of the frames; of the aligned frames
/// only if `aligned_only`.
pub open spec fn levels(frames: Seq<FrameInfo>, aligned_only: bool) -> Seq<i64>
    decreases frames.len(),
{
    if frames.len() == 0 {
        Seq::empty()
    } else {
        let f = frames.last();
        let front = levels(frames.drop_last(), aligned_only);
        if f.level > 0 && (f.aligned || !aligned_only) {
            front.push(f.level)
        } else {
            front
        }
    }
}

/// `m` is the median of the frames' levels, zero without any.
pub open spec fn is_session_level(frames: Seq<FrameInfo>, aligned_only: bool, m: i64) -> bool {
    &&& levels(frames, aligned_only).len() == 0 ==> m == 0
    &&& levels(frames, aligned_only).len() > 0 ==> order::is_median(
        levels(frames, aligned_only),
        Some(m),
    )
}

/// The session's sky level: the median of the levels above zero, or zero
/// without any.
pub fn median_level(frames: &[FrameInfo], aligned_only: bool) -> (m: i64)
    ensures
        is_session_level(frames@, aligned_only, m),
{
    let mut v: Vec<i64> = Vec::new();
    let mut k: usize = 0;
    while k < frames.len()
        invariant
            k <= frames@.len(),
            v@ == levels(frames@.take(k as int), aligned_only),
        decreases frames@.len() - k,
    {
        assert(frames@.take(k + 1).drop_last() =~= frames@.take(k as int));
        if frames[k].level > 0 && (frames[k].aligned || !aligned_only) {
            v.push(frames[k].level);
        }
        k = k + 1;
    }
    assert(frames@.take(k as int) =~= frames@);
    match order::median(v.as_slice()) {
        Some(m) => m,
        None => 0,
    }
}

/// Whether a frame is aligned and has no more foreground than `max_fg`.
pub open spec fn clear_of(max_fg: i64) -> spec_fn(FrameInfo) -> bool {
    |f: FrameInfo| f.aligned && f.fraction <= max_fg
}

/// The foreground that is asked for. Without a setting it is none of it on a
/// tracked sequence and all of it on an untracked one, where the landscape is
/// part of the picture.
pub open spec fn asked_foreground(setting: Option<i64>, untracked: bool) -> i64 {
    let asked = match setting {
        Some(k) => k,
        None => if untracked {
            WHOLE_FRAME
        } else {
            0
        },
    };
    if asked > 0 {
        asked
    } else {
        0
    }
}

/// The foreground that is asked for.
pub fn wanted_foreground(setting: Option<i64>, untracked: bool) -> (wanted: i64)
    ensures
        wanted == asked_foreground(setting, untracked),
{
    let asked: i64 = match setting {
        Some(k) => k,
        None => if untracked {
            WHOLE_FRAME
        } else {
            0
        },
    };
    if asked > 0 {
        asked
    } else {
        0
    }
}

/// Whether a frame is aligned on its stars.
pub open spec fn is_aligned() -> spec_fn(FrameInfo) -> bool {
    |f: FrameInfo| f.aligned
}

/// The foreground up to which frames are stacked: what is asked for, unless
/// fewer than a fifth of the aligned frames are clear enough. Then it is 60 %
/// at least.
pub open spec fn admitted(frames: Seq<FrameInfo>, setting: Option<i64>, untracked: bool) -> i64 {
    let wanted = asked_foreground(setting, untracked);
    if 5 * count(frames, clear_of(wanted)) < count(frames, is_aligned()) && wanted
        < RELAXED_FOREGROUND {
        RELAXED_FOREGROUND
    } else {
        wanted
    }
}

/// The foreground up to which frames are stacked, and how many frames are
/// clear of what is asked for.
pub fn admitted_foreground(frames: &[FrameInfo], setting: Option<i64>, untracked: bool) -> (r: (
    i64,
    usize,
))
    ensures
        r.0 == admitted(frames@, setting, untracked),
        r.1 == count(frames@, clear_of(asked_foreground(setting, untracked))),
{
    let wanted: i64 = wanted_foreground(setting, untracked);
    let mut n_clear: usize = 0;
    let mut n_aligned: usize = 0;
    let mut k: usize = 0;
    while k < frames.len()
        invariant
            k <= frames@.len(),
            n_clear <= n_aligned <= k,
            n_clear == count(frames@.take(k as int), clear_of(wanted)),
            n_aligned == count(frames@.take(k as int), is_aligned()),
        decreases frames@.len() - k,
    {
        assert(frames@.take(k + 1).drop_last() =~= frames@.take(k as int));
        if frames[k].aligned {
            n_aligned = n_aligned + 1;
            if frames[k].fraction <= wanted {
                n_clear = n_clear + 1;
            }
        }
        k = k + 1;
    }
    assert(frames@.take(k as int) =~= frames@);
    if (n_clear as u128) * 5 < n_aligned as u128 && wanted < RELAXED_FOREGROUND {
        (RELAXED_FOREGROUND, n_clear)
    } else {
        (wanted, n_clear)
    }
}

/// What the stack selection compares against: the admitted foreground, the
/// session's sky level, and the lowest and highest level within tolerance.
#[derive(Clone, Copy, Debug, PartialEq, Eq, Structural)]
pub struct Limits {
    pub max_fg: i64,
    pub med: i64,
    pub lo: i64,
    pub hi: i64,
}

/// Why a frame is left out of the stack.
#[derive(Clone, Copy, Debug, PartialEq, Eq, Structural)]
pub enum Exclusion {
    NotAligned,
    Foreground,
    Cloud,
    BrightSky,
    DarkSky,
}

/// Why a frame is left out of the stack, if it is: the first reason counts.
pub open spec fn exclusion(f: FrameInfo, l: Limits) -> Option<Exclusion> {
    if !f.aligned {
        Some(Exclusion::NotAligned)
    } else if f.fraction > l.max_fg {
        Some(Exclusion::Foreground)
    } else if f.cloud > CLOUD_MAX_FRAC {
        Some(Exclusion::Cloud)
    } else if l.med > 0 && f.level > l.hi {
        Some(Exclusion::BrightSky)
    } else if l.med > 0 && f.level < l.lo {
        Some(Exclusion::DarkSky)
    } else {
        None
    }
}

/// A frame after the selection. It stays in the stack unless there is a
/// reason against it, and is exported unless its sky is saturated.
pub open spec fn selected(f: FrameInfo, l: Limits) -> FrameInfo {
    FrameInfo {
        export: f.export && f.level < EXPORT_MAX_LEVEL,
        in_stack: f.in_stack && exclusion(f, l) is None,
        ..f
    }
}

/// What the selection reports.
#[derive(Clone, Copy, Debug, PartialEq, Eq, Structural)]
pub struct Selection {
    pub stacked: usize,
    pub with_foreground: usize,
    pub foreground: usize,
    pub cloud: usize,
    pub bright: usize,
    pub dark: usize,
    pub saturated: usize,
}

/// The frames with a reason against them.
pub open spec fn excluded_for(l: Limits, e: Exclusion) -> spec_fn(FrameInfo) -> bool {
    |f: FrameInfo| exclusion(f, l) == Some(e)
}

/// The counts are those of the frames before the selection.
pub open spec fn counts(frames: Seq<FrameInfo>, l: Limits, s: Selection) -> bool {
    &&& s.stacked == count(frames, |f: FrameInfo| selected(f, l).in_stack)
    &&& s.with_foreground == count(frames, |f: FrameInfo| f.foreground)
    &&& s.foreground == count(frames, excluded_for(l, Exclusion::Foreground))
    &&& s.cloud == count(frames, excluded_for(l, Exclusion::Cloud))
    &&& s.bright == count(frames, excluded_for(l, Exclusion::BrightSky))
    &&& s.dark == count(frames, excluded_for(l, Exclusion::DarkSky))
    &&& s.saturated == count(frames, |f: FrameInfo| f.level >= EXPORT_MAX_LEVEL)
}

/// Why a frame is left out of the stack.
pub fn excluded(f: &FrameInfo, l: &Limits) -> (e: Option<Exclusion>)
    ensures
        e == exclusion(*f, *l),
{
    if !f.aligned {
        Some(Exclusion::NotAligned)
    } else if f.fraction > l.max_fg {
        Some(Exclusion::Foreground)
    } else if f.cloud > CLOUD_MAX_FRAC {
        Some(Exclusion::Cloud)
    } else if l.med > 0 && f.level > l.hi {
        Some(Exclusion::BrightSky)
    } else if l.med > 0 && f.level < l.lo {
        Some(Exclusion::DarkSky)
    } else {
        None
    }
}

/// What selecting makes of the frames, and what it reports.
pub open spec fn selects(
    frames: Seq<FrameInfo>,
    after: Seq<FrameInfo>,
    l: Limits,
    r: Result<Selection, Refusal>,
) -> bool {
    &&& after == frames.map_values(|f: FrameInfo| selected(f, l))
    &&& count(frames, |f: FrameInfo| selected(f, l).in_stack) == 0 ==> r == Err::<
        Selection,
        Refusal,
    >(Refusal::NothingSelected)
    &&& count(frames, |f: FrameInfo| selected(f, l).in_stack) > 0 ==> r is Ok && counts(
        frames,
        l,
        r->Ok_0,
    )
}

/// Selects the frames for the stack and for the export. An error where no
/// frame is left to stack.
pub fn select_frames(frames: &mut Vec<FrameInfo>, l: &Limits) -> (r: Result<Selection, Refusal>)
    ensures
        selects(old(frames)@, final(frames)@, *l, r),
{
    let ghost start = frames@;
    let n: usize = frames.len();
    let mut s = Selection {
        stacked: 0,
        with_foreground: 0,
        foreground: 0,
        cloud: 0,
        bright: 0,
        dark: 0,
        saturated: 0,
    };
    let mut k: usize = 0;
    assert(counts(start.take(0), *l, s));
    while k < n
        invariant
            k <= n,
            n == start.len() == frames@.len(),
            s.stacked <= k,
            s.with_foreground <= k,
            s.foreground <= k,
            s.cloud <= k,
            s.bright <= k,
            s.dark <= k,
            s.saturated <= k,
            counts(start.take(k as int), *l, s),
            forall|i: int| 0 <= i < k ==> #[trigger] frames@[i] == selected(start[i], *l),
            forall|i: int| k <= i < n ==> #[trigger] frames@[i] == start[i],
        decreases n - k,
    {
        assert(start.take(k + 1).drop_last() =~= start.take(k as int));
        let f = frames[k];
        assert(f == start[k as int]);
        let mut g = f;
        if f.foreground {
            s.with_foreground = s.with_foreground + 1;
        }
        if f.level >= EXPORT_MAX_LEVEL {
            g.export = false;
            s.saturated = s.saturated + 1;
        }
        match excluded(&f, l) {
            None => {
                if f.in_stack {
                    s.stacked = s.stacked + 1;
                }
            },
            Some(e) => {
                g.in_stack = false;
                match e {
                    Exclusion::NotAligned => {},
                    Exclusion::Foreground => {
                        s.foreground = s.foreground + 1;
                    },
                    Exclusion::Cloud => {
                        s.cloud = s.cloud + 1;
                    },
                    Exclusion::BrightSky => {
                        s.bright = s.bright + 1;
                    },
                    Exclusion::DarkSky => {
                        s.dark = s.dark + 1;
                    },
                }
            },
        }
        frames.set(k, g);
        k = k + 1;
    }
    assert(start.take(k as int) =~= start);
    assert(frames@ =~= start.map_values(|f: FrameInfo| selected(f, *l)));
    if s.stacked == 0 {
        Err(Refusal::NothingSelected)
    } else {
        Ok(s)
    }
}

/// What keeps a frame out of the stack never keeps it out of the export: the
/// export depends on the frame's own sky alone, whatever the limits are.
pub proof fn law_exclusion_does_not_touch_export(f: FrameInfo, l: Limits, m: Limits)
    ensures
        selected(f, l).export == selected(f, m).export,
        f.export ==> (selected(f, l).export <==> f.level < EXPORT_MAX_LEVEL),
{
}

/// On an untracked sequence the landscape never drops a frame, unless a limit
/// on it is set.
pub proof fn law_landscape_drops_no_frame(frames: Seq<FrameInfo>, f: FrameInfo, l: Limits)
    requires
        l.max_fg == admitted(frames, None, true),
        f.fraction <= WHOLE_FRAME,
    ensures
        !(exclusion(f, l) matches Some(Exclusion::Foreground)),
{
}

/// Admitting more foreground than is asked for only ever adds frames.
pub proof fn law_relaxing_only_adds(
    frames: Seq<FrameInfo>,
    setting: Option<i64>,
    untracked: bool,
    f: FrameInfo,
    l: Limits,
    m: Limits,
)
    requires
        l.max_fg == asked_foreground(setting, untracked),
        m == (Limits { max_fg: admitted(frames, setting, untracked), ..l }),
    ensures
        selected(f, l).in_stack ==> selected(f, m).in_stack,
{
}

/// Selecting twice selects nothing new.
pub proof fn law_selection_is_stable(f: FrameInfo, l: Limits)
    ensures
        selected(selected(f, l), l) == selected(f, l),
        selected(f, l).in_stack ==> f.in_stack && f.aligned,
{
}

/// The positions of the stacked frames, ascending.
pub open spec fn candidates(frames: Seq<FrameInfo>) -> Seq<usize>
    decreases frames.len(),
{
    if frames.len() == 0 {
        Seq::empty()
    } else {
        let front = candidates(frames.drop_last());
        if frames.last().in_stack {
            front.push((frames.len() - 1) as usize)
        } else {
            front
        }
    }
}

/// Whether a frame is certainly clear: stacked, and next to no cloud in it.
pub open spec fn certain(f: FrameInfo) -> bool {
    f.in_stack && f.cloud <= CLOUD_FIT_FRAC
}

/// Cloud keys of some frames.
pub open spec fn clouds(frames: Seq<FrameInfo>, at: Seq<usize>) -> Seq<i64> {
    at.map_values(|k: usize| frames[k as int].cloud)
}

/// Which frames determine the background: the certainly clear ones, where
/// there are enough of them; otherwise the least clouded stacked frames in
/// addition, `MODEL_MIN_FRAMES` of them or all there are. `least` lists those,
/// from the clearest on.
pub open spec fn models(
    frames: Seq<FrameInfo>,
    after: Seq<FrameInfo>,
    least: Option<Seq<usize>>,
) -> bool {
    let c = candidates(frames);
    let keep = if c.len() < MODEL_MIN_FRAMES {
        c.len() as int
    } else {
        MODEL_MIN_FRAMES as int
    };
    let enough = count(frames, |f: FrameInfo| certain(f)) >= keep;
    &&& after.len() == frames.len()
    &&& enough == (least is None)
    &&& least is Some ==> exists|p: Seq<usize>| #[trigger]
        order::is_order(clouds(frames, c), p) && least->0 == Seq::new(
            keep as nat,
            |j: int| c[p[j] as int],
        )
    &&& forall|i: int|
        0 <= i < frames.len() ==> #[trigger] after[i] == (FrameInfo {
            in_model: certain(frames[i]) || (least is Some && least->0.contains(i as usize)),
            ..frames[i]
        })
}

/// Positions of the stacked frames are positions of stacked frames, each
/// listed once.
proof fn lemma_candidates(frames: Seq<FrameInfo>)
    requires
        frames.len() <= usize::MAX,
    ensures
        candidates(frames).len() <= frames.len(),
        forall|j: int|
            0 <= j < candidates(frames).len() ==> (#[trigger] candidates(frames)[j]) < frames.len()
                && frames[candidates(frames)[j] as int].in_stack,
        forall|i: int, j: int|
            0 <= i < j < candidates(frames).len() ==> candidates(frames)[i] < candidates(frames)[j],
        forall|i: usize|
            i < frames.len() && (#[trigger] frames[i as int]).in_stack ==> candidates(frames).contains(i),
        candidates(frames).len() == count(frames, |f: FrameInfo| f.in_stack),
    decreases frames.len(),
{
    if frames.len() > 0 {
        let front = frames.drop_last();
        lemma_candidates(front);
        let c = candidates(frames);
        let d = candidates(front);
        assert forall|j: int| 0 <= j < c.len() implies (#[trigger] c[j]) < frames.len()
            && frames[c[j] as int].in_stack by {
            if j < d.len() {
                assert(c[j] == d[j]);
                assert(front[d[j] as int] == frames[d[j] as int]);
            }
        }
        assert forall|i: usize| i < frames.len() && (#[trigger] frames[i as int]).in_stack implies c.contains(
            i,
        ) by {
            if i < front.len() {
                assert(front[i as int].in_stack);
                assert(d.contains(i));
                let j = choose|j: int| 0 <= j < d.len() && d[j] == i;
                assert(c[j] == i);
            } else {
                assert(c[d.len() as int] == i);
            }
        }
    }
}

/// Chooses the frames that determine the background.
pub fn choose_model(frames: &mut Vec<FrameInfo>) -> (least: Option<Vec<usize>>)
    ensures
        models(
            old(frames)@,
            final(frames)@,
            match least {
                Some(v) => Some(v@),
                None => None,
            },
        ),
{
    let ghost start = frames@;
    let n: usize = frames.len();
    let mut n_model: usize = 0;
    let mut cand: Vec<usize> = Vec::new();
    let mut keys: Vec<i64> = Vec::new();
    let mut k: usize = 0;
    while k < n
        invariant
            k <= n,
            n == start.len() == frames@.len(),
            n_model <= k,
            n_model == count(start.take(k as int), |f: FrameInfo| certain(f)),
            cand@ == candidates(start.take(k as int)),
            keys@ == clouds(start, cand@),
            forall|j: int| 0 <= j < cand@.len() ==> #[trigger] cand@[j] < k,
            forall|i: int|
                0 <= i < k ==> #[trigger] frames@[i] == (FrameInfo {
                    in_model: certain(start[i]),
                    ..start[i]
                }),
            forall|i: int| k <= i < n ==> #[trigger] frames@[i] == start[i],
        decreases n - k,
    {
        assert(start.take(k + 1).drop_last() =~= start.take(k as int));
        let f = frames[k];
        assert(f == start[k as int]);
        let sure: bool = f.in_stack && f.cloud <= CLOUD_FIT_FRAC;
        if sure {
            n_model = n_model + 1;
        }
        if f.in_stack {
            let ghost was = cand@;
            cand.push(k);
            keys.push(f.cloud);
            assert(keys@ =~= clouds(start, cand@));
        }
        frames.set(k, FrameInfo { in_model: sure, ..f });
        k = k + 1;
    }
    assert(start.take(k as int) =~= start);
    let keep: usize = if cand.len() < MODEL_MIN_FRAMES {
        cand.len()
    } else {
        MODEL_MIN_FRAMES
    };
    if n_model >= keep {
        return None;
    }
    let p = order::order(keys.as_slice());
    let mut least: Vec<usize> = Vec::new();
    let mut j: usize = 0;
    let ghost sure = frames@;
    while j < keep
        invariant
            j <= keep <= cand@.len(),
            n == start.len() == frames@.len() == sure.len(),
            cand@ == candidates(start),
            keys@ == clouds(start, cand@),
            order::is_order(keys@, p@),
            forall|i: int| 0 <= i < cand@.len() ==> #[trigger] cand@[i] < n,
            least@ =~= Seq::new(j as nat, |i: int| cand@[p@[i] as int]),
            forall|i: int|
                0 <= i < n ==> #[trigger] sure[i] == (FrameInfo {
                    in_model: certain(start[i]),
                    ..start[i]
                }),
            forall|i: int|
                0 <= i < n ==> #[trigger] frames@[i] == (FrameInfo {
                    in_model: sure[i].in_model || least@.contains(i as usize),
                    ..sure[i]
                }),
        decreases keep - j,
    {
        assert(p@[j as int] < cand@.len());
        let i: usize = cand[p[j]];
        let f = frames[i];
        let ghost was = least@;
        let ghost before = frames@;
        frames.set(i, FrameInfo { in_model: true, ..f });
        least.push(i);
        proof {
            assert(least@[was.len() as int] == i);
            assert forall|h: int| 0 <= h < n implies #[trigger] frames@[h] == (FrameInfo {
                in_model: sure[h].in_model || least@.contains(h as usize),
                ..sure[h]
            }) by {
                assert(before[h] == (FrameInfo {
                    in_model: sure[h].in_model || was.contains(h as usize),
                    ..sure[h]
                }));
                if h != i {
                    if least@.contains(h as usize) {
                        let x = choose|x: int| 0 <= x < least@.len() && least@[x] == h as usize;
                        assert(was[x] == h as usize);
                    }
                    if was.contains(h as usize) {
                        let x = choose|x: int| 0 <= x < was.len() && was[x] == h as usize;
                        assert(least@[x] == h as usize);
                    }
                }
            }
        }
        j = j + 1;
    }
    proof {
        assert(order::is_order(clouds(start, candidates(start)), p@));
    }
    Some(least)
}

/// The background is never determined from a cloudier frame than one left
/// out, and never from a frame that is not stacked.
pub proof fn law_model_takes_the_clearest(
    frames: Seq<FrameInfo>,
    after: Seq<FrameInfo>,
    least: Option<Seq<usize>>,
    i: int,
    j: int,
)
    requires
        frames.len() <= usize::MAX,
        models(frames, after, least),
        0 <= i < frames.len(),
        0 <= j < frames.len(),
        after[i].in_model,
    ensures
        after[i].in_stack,
        after[j].in_stack && !after[j].in_model ==> after[i].cloud <= after[j].cloud,
{
    lemma_candidates(frames);
    assert(after[i] == (FrameInfo {
        in_model: certain(frames[i]) || (least is Some && least->0.contains(i as usize)),
        ..frames[i]
    }));
    assert(after[j] == (FrameInfo {
        in_model: certain(frames[j]) || (least is Some && least->0.contains(j as usize)),
        ..frames[j]
    }));
    if !certain(frames[i]) {
        let c = candidates(frames);
        let keep = if c.len() < MODEL_MIN_FRAMES {
            c.len() as int
        } else {
            MODEL_MIN_FRAMES as int
        };
        let p = choose|p: Seq<usize>| #[trigger]
            order::is_order(clouds(frames, c), p) && least->0 == Seq::new(
                keep as nat,
                |h: int| c[p[h] as int],
            );
        let l = least->0;
        let h = choose|h: int| 0 <= h < l.len() && l[h] == i as usize;
        assert(p[h] < c.len());
        assert(c[p[h] as int] == i);
        assert(frames[c[p[h] as int] as int].in_stack);
        if frames[j].in_stack && !after[j].in_model {
            assert(c.contains(j as usize));
            let m = choose|m: int| 0 <= m < c.len() && c[m] == j as usize;
            assert(p.contains(m as usize));
            let q = choose|q: int| 0 <= q < p.len() && p[q] == m as usize;
            if q < keep {
                assert(l[q] == j as usize);
            }
            assert(order::before(clouds(frames, c), p[h] as int, p[q] as int));
        }
    }
}

/// `r` is the first stacked frame at the smallest distance, none without any.
pub open spec fn is_representative(
    frames: Seq<FrameInfo>,
    dist: Seq<i64>,
    r: Option<usize>,
) -> bool {
    match r {
        None => forall|j: int| 0 <= j < frames.len() ==> !(#[trigger] frames[j]).in_stack,
        Some(k) => k < frames.len() && frames[k as int].in_stack && forall|j: int|
            0 <= j < frames.len() && (#[trigger] frames[j]).in_stack ==> dist[j] > dist[k as int]
                || dist[j] == dist[k as int] && j >= k,
    }
}

/// The first stacked frame whose sky is closest to the session's. `dist` holds
/// the keys of the distances.
pub fn representative(frames: &[FrameInfo], dist: &[i64]) -> (r: Option<usize>)
    requires
        dist@.len() == frames@.len(),
    ensures
        is_representative(frames@, dist@, r),
{
    let mut r: Option<usize> = None;
    let mut k: usize = 0;
    while k < frames.len()
        invariant
            k <= frames@.len(),
            dist@.len() == frames@.len(),
            r is None ==> forall|j: int| 0 <= j < k ==> !(#[trigger] frames@[j]).in_stack,
            r is Some ==> r->0 < k && frames@[r->0 as int].in_stack,
            r is Some ==> forall|j: int|
                0 <= j < k && (#[trigger] frames@[j]).in_stack ==> dist@[j] > dist@[r->0 as int]
                    || dist@[j] == dist@[r->0 as int] && j >= r->0,
        decreases frames@.len() - k,
    {
        if frames[k].in_stack {
            let closer: bool = match r {
                None => true,
                Some(b) => dist[k] < dist[b],
            };
            if closer {
                r = Some(k);
            }
        }
        k = k + 1;
    }
    r
}

/// Whether the clean sequence is stabilized, and the width of its temporal
/// window.
pub open spec fn mode_of(
    export_no_stabilize: bool,
    untracked: bool,
    fixed_no_stabilize: bool,
    window: usize,
) -> (bool, usize) {
    let stabilize = !export_no_stabilize && !(untracked && fixed_no_stabilize);
    (
        stabilize,
        if stabilize || untracked {
            window
        } else {
            1
        },
    )
}

/// How the clean sequence is exported: whether it is stabilized, and the
/// width of the temporal window. The window needs frames that are aligned,
/// or, untracked, the sky chain instead.
pub fn export_mode(
    export_no_stabilize: bool,
    untracked: bool,
    fixed_no_stabilize: bool,
    window: usize,
) -> (r: (bool, usize))
    ensures
        r == mode_of(export_no_stabilize, untracked, fixed_no_stabilize, window),
{
    let stabilize: bool = !export_no_stabilize && !(untracked && fixed_no_stabilize);
    (
        stabilize,
        if stabilize || untracked {
            window
        } else {
            1
        },
    )
}

/// Where the session is split, if it is.
pub open spec fn halves_of(untracked: bool, maps: usize, sky_moved: bool) -> Option<usize> {
    if untracked && maps >= 2 * MIN_HALF_FRAMES && sky_moved {
        Some((maps / 2) as usize)
    } else {
        None::<usize>
    }
}

/// Whether the session is split in two halves to verify the residual surface,
/// and where: untracked, with frames enough for both and a sky that moved.
pub fn session_halves(untracked: bool, maps: usize, sky_moved: bool) -> (r: Option<usize>)
    ensures
        r == halves_of(untracked, maps, sky_moved),
{
    if untracked && maps >= 2 * MIN_HALF_FRAMES && sky_moved {
        Some(maps / 2)
    } else {
        None
    }
}

/// Where the levels of the written stack come from.
#[derive(Clone, Copy, Debug, PartialEq, Eq, Structural)]
pub enum LevelsFrom {
    /// No stretch is applied.
    Nowhere,
    /// One representative frame: a star-trail stack cannot set its own.
    Representative,
    /// The stack itself.
    Stack,
}

/// Where the levels of the stack come from.
pub open spec fn levels_source(
    no_stretch: bool,
    no_stack: bool,
    untracked: bool,
    corrected: bool,
) -> LevelsFrom {
    if no_stretch || no_stack {
        LevelsFrom::Nowhere
    } else if untracked && corrected {
        LevelsFrom::Representative
    } else {
        LevelsFrom::Stack
    }
}

/// Where the levels of the stack come from, or that none are needed.
pub fn stack_levels(no_stretch: bool, no_stack: bool, untracked: bool, corrected: bool) -> (r:
    LevelsFrom)
    ensures
        r == levels_source(no_stretch, no_stack, untracked, corrected),
{
    if no_stretch || no_stack {
        LevelsFrom::Nowhere
    } else if untracked && corrected {
        LevelsFrom::Representative
    } else {
        LevelsFrom::Stack
    }
}

/// Skipping the stack takes an export and a fixed tripod; a run that keeps the
/// stack takes neither. The export is asked for first.
pub proof fn law_skipping_the_stack_has_a_price(no_stack: bool, export_clean: bool, fixed: bool)
    ensures
        settings_verdict(no_stack, export_clean, fixed) is Ok <==> (no_stack ==> export_clean
            && fixed),
        settings_verdict(true, false, fixed) == Err::<(), Refusal>(Refusal::NoStackWithoutExport),
        settings_verdict(true, true, false) == Err::<(), Refusal>(Refusal::NoStackTracked),
{
}

/// A window is odd, never narrower than asked for, and wider by one frame at
/// most.
pub proof fn law_windows_are_odd(window: usize)
    ensures
        odd(window) % 2 == 1,
        window <= odd(window) <= window + 1,
{
}

/// The sky chain is for untracked exports whose window has neighbours in it,
/// and for nothing else.
pub proof fn law_chain_is_for_windows(untracked: bool, export_clean: bool, window: usize)
    ensures
        chain_needed(untracked, export_clean, window) ==> untracked && export_clean && odd(window)
            >= 3,
        untracked && export_clean && odd(window) >= 3 ==> chain_needed(
            untracked,
            export_clean,
            window,
        ),
{
}

/// Six stars are enough of a reference. With fewer a tracked run is refused,
/// with their number, and an untracked one goes on without them.
pub proof fn law_six_stars_are_enough(stars: usize, untracked: bool)
    ensures
        stars >= 6 ==> reference_verdict(stars, untracked) == Ok::<bool, Refusal>(true),
        stars < 6 && untracked ==> reference_verdict(stars, untracked) == Ok::<bool, Refusal>(
            false,
        ),
        stars < 6 && !untracked ==> reference_verdict(stars, untracked) == Err::<bool, Refusal>(
            Refusal::TooFewStars(stars),
        ),
{
}

/// A frame that was measured is never dropped: it is aligned with six inliers
/// or more, or if the camera stood still, and waits for its neighbours
/// otherwise. One that was not measured always is.
pub proof fn law_measured_frames_are_kept(untracked: bool, fit: Option<usize>)
    ensures
        verdict(true, Outcome::Measured(fit)) is Aligned,
        fit matches Some(n) && n >= 6 ==> verdict(untracked, Outcome::Measured(fit)) is Aligned,
        fit matches Some(n) && n < 6 ==> verdict(false, Outcome::Measured(fit)) is Pending,
        verdict(false, Outcome::Measured(None)) is Pending,
        verdict(untracked, Outcome::LoadFailed) is Skipped,
        verdict(untracked, Outcome::OtherDimensions) is Skipped,
{
}

/// A link takes three stars on both sides and six inliers, and no more.
pub proof fn law_links_take_stars(a: usize, b: usize, n: usize)
    ensures
        !linked(a, b, None),
        a < 3 || b < 3 || n < 6 ==> !linked(a, b, Some(n)),
        a >= 3 && b >= 3 && n >= 6 ==> linked(a, b, Some(n)),
{
}

/// More than six pixels off the neighbours is too much, and nothing else is.
pub proof fn law_six_pixels_are_plausible(d: i64)
    ensures
        !deviates(None),
        deviates(Some(d)) <==> d > order::key_of(0x40c0_0000),
{
}

/// An alignment is made from the nearest frames that are aligned: those on
/// either side where there are, the two nearest on the one side otherwise, and
/// the only one there is as it stands.
#[verifier::rlimit(30)]
pub proof fn law_basis_is_the_nearest(
    frames: Seq<FrameInfo>,
    idx: usize,
    skip: Option<usize>,
    b: Basis,
    j: int,
)
    requires
        is_basis(frames, idx, skip, b),
        0 <= j < frames.len(),
        frames[j].aligned,
        skip != Some(j as usize),
        -6 <= frames[j].idx - idx <= 6,
        frames[j].idx != idx,
    ensures
        match b {
            Basis::Nothing => false,
            Basis::Hold(p) => {
                &&& p < frames.len() && frames[p as int].aligned && skip != Some(p)
                &&& -6 <= frames[p as int].idx - idx <= 6 && frames[p as int].idx != idx
                &&& frames[j].idx == frames[p as int].idx
            },
            Basis::Line(p, q) => {
                let (x, y) = (frames[p as int].idx, frames[q as int].idx);
                &&& p < frames.len() && frames[p as int].aligned && skip != Some(p)
                &&& q < frames.len() && frames[q as int].aligned && skip != Some(q)
                &&& -6 <= x - idx <= 6 && -6 <= y - idx <= 6
                &&& x < y && x != idx && y != idx
                &&& !(x < frames[j].idx < y)
                &&& y < idx ==> frames[j].idx <= y
                &&& x > idx ==> frames[j].idx >= x
            },
        },
{
    assert(near(frames, j, idx, skip));
}

/// Without an aligned frame in reach there is nothing to go by.
pub proof fn law_no_basis_without_neighbours(
    frames: Seq<FrameInfo>,
    idx: usize,
    skip: Option<usize>,
    b: Basis,
)
    requires
        is_basis(frames, idx, skip, b),
        forall|j: int|
            0 <= j < frames.len() && (#[trigger] frames[j]).aligned && skip != Some(j as usize)
                ==> !(-6 <= frames[j].idx - idx <= 6) || frames[j].idx == idx,
    ensures
        b == Basis::Nothing,
{
}

/// Repairing touches the frames named and no others: one that has something to
/// go by loses its own alignment and its place in the stack, and nothing else;
/// one that has not stays as it is.
pub proof fn law_repair_touches_what_is_named(
    frames: Seq<FrameInfo>,
    bad: Seq<usize>,
    bases: Seq<Basis>,
    n: int,
    k: int,
)
    requires
        0 <= n <= bad.len(),
        bases.len() == bad.len(),
        forall|j: int| 0 <= j < bad.len() ==> (#[trigger] bad[j]) < frames.len(),
        0 <= k < frames.len(),
    ensures
        repaired(frames, bad, bases, n).len() == frames.len(),
        (forall|j: int| 0 <= j < n && (#[trigger] bad[j]) == k ==> bases[j] is Nothing) ==> repaired(
            frames,
            bad,
            bases,
            n,
        )[k] == frames[k],
        (exists|j: int| 0 <= j < n && (#[trigger] bad[j]) == k && !(bases[j] is Nothing)) ==> ({
            let f = repaired(frames, bad, bases, n)[k];
            &&& !f.aligned && !f.in_stack
            &&& f.idx == frames[k].idx && f.fraction == frames[k].fraction && f.cloud
                == frames[k].cloud && f.level == frames[k].level && f.foreground
                == frames[k].foreground && f.in_model == frames[k].in_model && f.export
                == frames[k].export
        }),
    decreases n,
{
    if n > 0 {
        law_repair_touches_what_is_named(frames, bad, bases, n - 1, k);
        let was = repaired(frames, bad, bases, n - 1);
        law_repair_touches_what_is_named(frames, bad, bases, n - 1, bad[n - 1] as int);
        if bad[n - 1] == k {
            if !(bases[n - 1] is Nothing) {
                assert(repaired(frames, bad, bases, n)[k] == demoted(was[k]));
                if forall|j: int| 0 <= j < n - 1 && (#[trigger] bad[j]) == k ==> bases[j] is Nothing {
                    assert(was[k] == frames[k]);
                } else {
                    let j = choose|j: int|
                        0 <= j < n - 1 && (#[trigger] bad[j]) == k && !(bases[j] is Nothing);
                    assert(bad[j] == k && !(bases[j] is Nothing));
                }
            }
        }
        if exists|j: int| 0 <= j < n && (#[trigger] bad[j]) == k && !(bases[j] is Nothing) {
            let j = choose|j: int|
                0 <= j < n && (#[trigger] bad[j]) == k && !(bases[j] is Nothing);
            if j < n - 1 {
                assert(bad[j] == k && !(bases[j] is Nothing));
            }
        }
    }
}

/// A count is of the frames that have the property. The result lists them.
pub proof fn law_count_is_of_the_frames(frames: Seq<FrameInfo>, p: spec_fn(FrameInfo) -> bool) -> (
    at: Seq<int>)
    ensures
        count(frames, p) == at.len(),
        forall|j: int|
            0 <= j < at.len() ==> 0 <= #[trigger] at[j] < frames.len() && p(frames[at[j]]),
        forall|j: int, l: int| 0 <= j < l < at.len() ==> #[trigger] at[j] < #[trigger] at[l],
        forall|k: int| 0 <= k < frames.len() && p(#[trigger] frames[k]) ==> at.contains(k),
    decreases frames.len(),
{
    if frames.len() == 0 {
        Seq::empty()
    } else {
        let n = frames.len() - 1;
        let s = frames.drop_last();
        let front = law_count_is_of_the_frames(s, p);
        let at = if p(frames.last()) {
            front.push(n)
        } else {
            front
        };
        assert forall|j: int| 0 <= j < at.len() implies 0 <= #[trigger] at[j] < frames.len() && p(
            frames[at[j]],
        ) by {
            if j < front.len() {
                assert(at[j] == front[j] && s[front[j]] == frames[at[j]]);
            }
        }
        assert forall|k: int| 0 <= k < frames.len() && p(#[trigger] frames[k]) implies at.contains(
            k,
        ) by {
            if k < n {
                assert(s[k] == frames[k]);
                let j = choose|j: int| 0 <= j < front.len() && front[j] == k;
                assert(at[j] == k);
            } else {
                assert(at[front.len() as int] == k);
            }
        }
        at
    }
}

/// Whether a list names exactly the frames that have a property, each once.
spec fn names_all(frames: Seq<FrameInfo>, p: spec_fn(FrameInfo) -> bool, at: Seq<int>) -> bool {
    &&& at.no_duplicates()
    &&& forall|j: int| 0 <= j < at.len() ==> 0 <= #[trigger] at[j] < frames.len() && p(frames[at[j]])
    &&& forall|k: int| 0 <= k < frames.len() && p(#[trigger] frames[k]) ==> at.contains(k)
}

proof fn lemma_count_is(frames: Seq<FrameInfo>, p: spec_fn(FrameInfo) -> bool, at: Seq<int>)
    requires
        names_all(frames, p, at),
    ensures
        count(frames, p) == at.len(),
{
    let own = law_count_is_of_the_frames(frames, p);
    assert(own.no_duplicates());
    own.unique_seq_to_set();
    at.unique_seq_to_set();
    assert(own.to_set() =~= at.to_set()) by {
        assert forall|k: int| own.to_set().contains(k) <==> at.to_set().contains(k) by {
            if own.contains(k) {
                let j = choose|j: int| 0 <= j < own.len() && own[j] == k;
                assert(p(frames[own[j]]));
            }
            if at.contains(k) {
                let j = choose|j: int| 0 <= j < at.len() && at[j] == k;
                assert(p(frames[at[j]]));
            }
        }
    }
}

/// The levels that make up the session's are those above zero, of the aligned
/// frames or of all of them, in the order of the frames. The result lists the
/// frames.
pub proof fn law_levels_are_the_frames(frames: Seq<FrameInfo>, aligned_only: bool) -> (at: Seq<int>)
    ensures
        levels(frames, aligned_only).len() == at.len(),
        forall|j: int|
            0 <= j < at.len() ==> 0 <= #[trigger] at[j] < frames.len() && frames[at[j]].level > 0
                && (aligned_only ==> frames[at[j]].aligned) && levels(frames, aligned_only)[j]
                == frames[at[j]].level,
        forall|j: int, l: int| 0 <= j < l < at.len() ==> #[trigger] at[j] < #[trigger] at[l],
        forall|k: int|
            0 <= k < frames.len() && (#[trigger] frames[k]).level > 0 && (frames[k].aligned
                || !aligned_only) ==> at.contains(k),
    decreases frames.len(),
{
    if frames.len() == 0 {
        Seq::empty()
    } else {
        let n = frames.len() - 1;
        let s = frames.drop_last();
        let front = law_levels_are_the_frames(s, aligned_only);
        let at = if frames.last().level > 0 && (frames.last().aligned || !aligned_only) {
            front.push(n)
        } else {
            front
        };
        assert forall|j: int| 0 <= j < at.len() implies 0 <= #[trigger] at[j] < frames.len()
            && frames[at[j]].level > 0 && (aligned_only ==> frames[at[j]].aligned) && levels(
            frames,
            aligned_only,
        )[j] == frames[at[j]].level by {
            if j < front.len() {
                assert(at[j] == front[j] && s[front[j]] == frames[at[j]]);
            }
        }
        assert forall|k: int|
            0 <= k < frames.len() && (#[trigger] frames[k]).level > 0 && (frames[k].aligned
                || !aligned_only) implies at.contains(k) by {
            if k < n {
                assert(s[k] == frames[k]);
                let j = choose|j: int| 0 <= j < front.len() && front[j] == k;
                assert(at[j] == k);
            } else {
                assert(at[front.len() as int] == k);
            }
        }
        at
    }
}

/// What is set is what is asked for, and never less than nothing. Without a
/// setting a tracked sequence takes no foreground and an untracked one all of
/// it.
pub proof fn law_foreground_asked_for(k: i64, untracked: bool)
    ensures
        k >= 0 ==> asked_foreground(Some(k), untracked) == k,
        k < 0 ==> asked_foreground(Some(k), untracked) == 0,
        asked_foreground(None, false) == 0,
        asked_foreground(None, true) == order::key_of(0x3f80_0000),
{
}

/// The limit is what is asked for as long as a fifth of the aligned frames
/// keeps to it, and 60 % if that is more once fewer do. `aligned` lists the
/// aligned frames and `clear` those of them within what is asked for.
pub proof fn law_limit_is_relaxed_below_a_fifth(
    frames: Seq<FrameInfo>,
    setting: Option<i64>,
    untracked: bool,
    aligned: Seq<int>,
    clear: Seq<int>,
)
    requires
        aligned.no_duplicates(),
        forall|j: int|
            0 <= j < aligned.len() ==> 0 <= #[trigger] aligned[j] < frames.len()
                && frames[aligned[j]].aligned,
        forall|k: int|
            0 <= k < frames.len() && (#[trigger] frames[k]).aligned ==> aligned.contains(k),
        clear.no_duplicates(),
        forall|j: int|
            0 <= j < clear.len() ==> 0 <= #[trigger] clear[j] < frames.len()
                && frames[clear[j]].aligned && frames[clear[j]].fraction <= asked_foreground(
                setting,
                untracked,
            ),
        forall|k: int|
            0 <= k < frames.len() && (#[trigger] frames[k]).aligned && frames[k].fraction
                <= asked_foreground(setting, untracked) ==> clear.contains(k),
    ensures
        5 * clear.len() >= aligned.len() ==> admitted(frames, setting, untracked)
            == asked_foreground(setting, untracked),
        5 * clear.len() < aligned.len() ==> admitted(frames, setting, untracked) == (if asked_foreground(
            setting,
            untracked,
        ) > order::key_of(0x3f19_999a) {
            asked_foreground(setting, untracked) as int
        } else {
            order::key_of(0x3f19_999a)
        }),
{
    let wanted = asked_foreground(setting, untracked);
    assert(names_all(frames, is_aligned(), aligned));
    assert(names_all(frames, clear_of(wanted), clear));
    lemma_count_is(frames, is_aligned(), aligned);
    lemma_count_is(frames, clear_of(wanted), clear);
}

/// A frame whose sky is within the tolerance, that is aligned and shows no more
/// foreground than admitted and at most half a sky of cloud, is never left
/// out. Each of these, taken alone, leaves a frame out; the level of the sky
/// only where the session has one.
pub proof fn law_frames_within_the_limits_are_stacked(f: FrameInfo, l: Limits)
    ensures
        f.aligned && f.fraction <= l.max_fg && f.cloud <= order::key_of(0x3f00_0000) && l.lo
            <= f.level <= l.hi ==> exclusion(f, l) is None,
        f.aligned && f.fraction <= l.max_fg && f.cloud <= order::key_of(0x3f00_0000) && l.med <= 0
            ==> exclusion(f, l) is None,
        !f.aligned ==> exclusion(f, l) is Some,
        f.fraction > l.max_fg ==> exclusion(f, l) is Some,
        f.cloud > order::key_of(0x3f00_0000) ==> exclusion(f, l) is Some,
        l.med > 0 && f.level > l.hi ==> exclusion(f, l) is Some,
        l.med > 0 && f.level < l.lo ==> exclusion(f, l) is Some,
{
}

/// The reason a frame is left out for is true of it, and the first that is.
pub proof fn law_reasons_are_true(f: FrameInfo, l: Limits)
    ensures
        match exclusion(f, l) {
            None => true,
            Some(Exclusion::NotAligned) => !f.aligned,
            Some(Exclusion::Foreground) => f.aligned && f.fraction > l.max_fg,
            Some(Exclusion::Cloud) => f.aligned && f.fraction <= l.max_fg && f.cloud
                > 0x3f00_0000,
            Some(Exclusion::BrightSky) => f.aligned && f.fraction <= l.max_fg && f.cloud
                <= 0x3f00_0000 && f.level > l.hi,
            Some(Exclusion::DarkSky) => f.aligned && f.fraction <= l.max_fg && f.cloud
                <= 0x3f00_0000 && f.level < l.lo && f.level <= l.hi,
        },
{
}

/// Selecting decides about the stack and the export and about nothing else: a
/// frame stays in the stack unless there is a reason against it, and is
/// exported unless its sky is saturated.
pub proof fn law_selection_decides_stack_and_export(f: FrameInfo, l: Limits)
    ensures
        ({
            let s = selected(f, l);
            &&& s.in_stack <==> f.in_stack && exclusion(f, l) is None
            &&& s.export <==> f.export && f.level < order::key_of(0x3f59_999a)
            &&& s.idx == f.idx && s.fraction == f.fraction && s.foreground == f.foreground
            &&& s.cloud == f.cloud && s.level == f.level
            &&& s.in_model == f.in_model && s.aligned == f.aligned
        }),
{
}

/// Frames left out are reported under the reason they were left out for. `at`
/// lists those with the reason `e`.
pub proof fn law_reasons_are_counted(
    frames: Seq<FrameInfo>,
    l: Limits,
    s: Selection,
    e: Exclusion,
    at: Seq<int>,
)
    requires
        counts(frames, l, s),
        at.no_duplicates(),
        forall|j: int|
            0 <= j < at.len() ==> 0 <= #[trigger] at[j] < frames.len() && exclusion(
                frames[at[j]],
                l,
            ) == Some(e),
        forall|k: int|
            0 <= k < frames.len() && exclusion(#[trigger] frames[k], l) == Some(e) ==> at.contains(k),
    ensures
        e is Foreground ==> s.foreground == at.len(),
        e is Cloud ==> s.cloud == at.len(),
        e is BrightSky ==> s.bright == at.len(),
        e is DarkSky ==> s.dark == at.len(),
{
    assert(names_all(frames, excluded_for(l, e), at));
    lemma_count_is(frames, excluded_for(l, e), at);
}

/// What is reported of a selection are the frames themselves: how many stay,
/// show foreground and are saturated.
pub proof fn law_selection_counts_frames(
    frames: Seq<FrameInfo>,
    l: Limits,
    s: Selection,
    stacked: Seq<int>,
    foreground: Seq<int>,
    saturated: Seq<int>,
)
    requires
        counts(frames, l, s),
        stacked.no_duplicates(),
        forall|j: int|
            0 <= j < stacked.len() ==> 0 <= #[trigger] stacked[j] < frames.len()
                && frames[stacked[j]].in_stack && exclusion(frames[stacked[j]], l) is None,
        forall|k: int|
            0 <= k < frames.len() && (#[trigger] frames[k]).in_stack && exclusion(
                frames[k],
                l,
            ) is None ==> stacked.contains(k),
        foreground.no_duplicates(),
        forall|j: int|
            0 <= j < foreground.len() ==> 0 <= #[trigger] foreground[j] < frames.len()
                && frames[foreground[j]].foreground,
        forall|k: int|
            0 <= k < frames.len() && (#[trigger] frames[k]).foreground ==> foreground.contains(k),
        saturated.no_duplicates(),
        forall|j: int|
            0 <= j < saturated.len() ==> 0 <= #[trigger] saturated[j] < frames.len()
                && frames[saturated[j]].level >= 0x3f59_999a,
        forall|k: int|
            0 <= k < frames.len() && (#[trigger] frames[k]).level >= 0x3f59_999a
                ==> saturated.contains(k),
    ensures
        s.stacked == stacked.len(),
        s.with_foreground == foreground.len(),
        s.saturated == saturated.len(),
{
    let p = |f: FrameInfo| selected(f, l).in_stack;
    let q = |f: FrameInfo| f.foreground;
    let r = |f: FrameInfo| f.level >= EXPORT_MAX_LEVEL;
    assert(names_all(frames, p, stacked)) by {
        assert forall|j: int| 0 <= j < stacked.len() implies 0 <= #[trigger] stacked[j]
            < frames.len() && p(frames[stacked[j]]) by {
            assert(selected(frames[stacked[j]], l).in_stack);
        }
        assert forall|k: int| 0 <= k < frames.len() && p(#[trigger] frames[k]) implies stacked.contains(
            k,
        ) by {
            assert(selected(frames[k], l).in_stack);
        }
    }
    assert(names_all(frames, q, foreground));
    assert(names_all(frames, r, saturated));
    lemma_count_is(frames, p, stacked);
    lemma_count_is(frames, q, foreground);
    lemma_count_is(frames, r, saturated);
    assert(count(frames, p) == count(frames, |f: FrameInfo| selected(f, l).in_stack));
    assert(count(frames, q) == count(frames, |f: FrameInfo| f.foreground));
    assert(count(frames, r) == count(frames, |f: FrameInfo| f.level >= EXPORT_MAX_LEVEL));
}

/// The representative is stacked, no stacked frame is closer to the session's
/// sky, and of several as close it is the first. There is one as soon as a
/// frame is stacked.
pub proof fn law_representative_is_the_closest(
    frames: Seq<FrameInfo>,
    dist: Seq<i64>,
    r: Option<usize>,
    j: int,
)
    requires
        is_representative(frames, dist, r),
        0 <= j < frames.len(),
        frames[j].in_stack,
    ensures
        r matches Some(k) && k < frames.len() && frames[k as int].in_stack && dist[k as int]
            <= dist[j] && (dist[k as int] == dist[j] ==> k <= j),
{
}

/// An export is stabilized unless that is switched off, for all sequences or
/// for fixed tripods. Without it a tracked one has no window; an untracked one
/// always has the window that is asked for.
pub proof fn law_export_modes(no_stabilize: bool, untracked: bool, no_fixed: bool, window: usize)
    ensures
        ({
            let (stabilize, w) = mode_of(no_stabilize, untracked, no_fixed, window);
            &&& no_stabilize ==> !stabilize
            &&& untracked && no_fixed ==> !stabilize
            &&& !no_stabilize && !untracked ==> stabilize
            &&& !no_stabilize && !no_fixed ==> stabilize
            &&& untracked ==> w == window
            &&& stabilize ==> w == window
            &&& !untracked && !stabilize ==> w == 1
        }),
{
}

/// A session is split in the middle, with eight frames at least on both sides,
/// and only where the camera stood still and the sky moved.
pub proof fn law_halves_are_even(untracked: bool, maps: usize, sky_moved: bool)
    ensures
        match halves_of(untracked, maps, sky_moved) {
            Some(k) => untracked && sky_moved && k >= 8 && maps - k >= 8 && 0 <= (maps - k) - k <= 1,
            None => !untracked || !sky_moved || maps < 16,
        },
{
}

/// Levels are only needed where a stretched stack is written. A corrected stack
/// of star trails takes them from one frame, every other one from itself.
pub proof fn law_levels_are_for_stretched_stacks(
    no_stretch: bool,
    no_stack: bool,
    untracked: bool,
    corrected: bool,
)
    ensures
        ({
            let s = levels_source(no_stretch, no_stack, untracked, corrected);
            &&& s is Nowhere <==> no_stretch || no_stack
            &&& s is Representative ==> untracked && corrected
            &&& s is Stack ==> !untracked || !corrected
        }),
{
}

/// Frames with next to no cloud are always in the model, stacked frames only
/// are, and nothing else about a frame changes. Where at least 24 stacked
/// frames, or all of them, have next to no cloud, the model is made of these
/// alone.
pub proof fn law_model_is_of_clear_frames(
    frames: Seq<FrameInfo>,
    after: Seq<FrameInfo>,
    least: Option<Seq<usize>>,
    i: int,
)
    requires
        frames.len() <= usize::MAX,
        models(frames, after, least),
        0 <= i < frames.len(),
    ensures
        after.len() == frames.len(),
        after[i] == (FrameInfo { in_model: after[i].in_model, ..frames[i] }),
        frames[i].in_stack && frames[i].cloud <= order::key_of(0x3ca3_d70a) ==> after[i].in_model,
        after[i].in_model ==> frames[i].in_stack,
        least is None ==> (after[i].in_model <==> frames[i].in_stack && frames[i].cloud
            <= order::key_of(0x3ca3_d70a)),
{
    if after[i].in_model {
        law_model_takes_the_clearest(frames, after, least, i, i);
    }
}

/// How many frames make up the model: all that have next to no cloud, where
/// these are 24 or all stacked ones, and otherwise 24 of the stacked ones or
/// all of them. `stacked` and `clear` list the stacked frames and those of them
/// with next to no cloud; the result lists the model.
pub proof fn law_model_has_enough_frames(
    frames: Seq<FrameInfo>,
    after: Seq<FrameInfo>,
    least: Option<Seq<usize>>,
    stacked: Seq<int>,
    clear: Seq<int>,
) -> (model: Seq<int>)
    requires
        frames.len() <= usize::MAX,
        models(frames, after, least),
        stacked.no_duplicates(),
        forall|j: int|
            0 <= j < stacked.len() ==> 0 <= #[trigger] stacked[j] < frames.len()
                && frames[stacked[j]].in_stack,
        forall|k: int|
            0 <= k < frames.len() && (#[trigger] frames[k]).in_stack ==> stacked.contains(k),
        clear.no_duplicates(),
        forall|j: int|
            0 <= j < clear.len() ==> 0 <= #[trigger] clear[j] < frames.len()
                && frames[clear[j]].in_stack && frames[clear[j]].cloud <= 0x3ca3_d70a,
        forall|k: int|
            0 <= k < frames.len() && (#[trigger] frames[k]).in_stack && frames[k].cloud
                <= 0x3ca3_d70a ==> clear.contains(k),
    ensures
        ({
            let keep = if stacked.len() < 24 {
                stacked.len() as int
            } else {
                24
            };
            &&& clear.len() >= keep ==> model.len() == clear.len() && least is None
            &&& clear.len() < keep ==> model.len() == keep && least is Some
        }),
        model.no_duplicates(),
        forall|j: int|
            0 <= j < model.len() ==> 0 <= #[trigger] model[j] < frames.len()
                && after[model[j]].in_model,
        forall|k: int|
            0 <= k < frames.len() && (#[trigger] after[k]).in_model ==> model.contains(k),
{
    lemma_candidates(frames);
    let c = candidates(frames);
    assert(names_all(frames, |f: FrameInfo| f.in_stack, stacked));
    lemma_count_is(frames, |f: FrameInfo| f.in_stack, stacked);
    assert(names_all(frames, |f: FrameInfo| certain(f), clear)) by {
        assert forall|k: int|
            0 <= k < frames.len() && (|f: FrameInfo| certain(f))(
                #[trigger] frames[k],
            ) implies clear.contains(k) by {
            assert(certain(frames[k]));
        }
    }
    lemma_count_is(frames, |f: FrameInfo| certain(f), clear);
    let keep = if c.len() < MODEL_MIN_FRAMES {
        c.len() as int
    } else {
        MODEL_MIN_FRAMES as int
    };
    if least is None {
        assert forall|j: int| 0 <= j < clear.len() implies 0 <= #[trigger] clear[j] < frames.len()
            && after[clear[j]].in_model by {
            assert(certain(frames[clear[j]]));
        }
        assert forall|k: int| 0 <= k < frames.len() && (
        #[trigger] after[k]).in_model implies clear.contains(k) by {
            assert(certain(frames[k]));
        }
        clear
    } else {
        let l = least->0;
        let p = choose|p: Seq<usize>| #[trigger]
            order::is_order(clouds(frames, c), p) && l == Seq::new(
                keep as nat,
                |h: int| c[p[h] as int],
            );
        let model = l.map_values(|u: usize| u as int);
        assert forall|a: int, b: int|
            0 <= a < model.len() && 0 <= b < model.len() && a != b implies model[a] != model[b] by {
            let (s, t) = if a < b {
                (a, b)
            } else {
                (b, a)
            };
            assert(order::before(clouds(frames, c), p[s] as int, p[t] as int));
            assert(p[s] != p[t]);
            if p[s] < p[t] {
                assert(c[p[s] as int] < c[p[t] as int]);
            } else {
                assert(c[p[t] as int] < c[p[s] as int]);
            }
        }
        assert forall|j: int| 0 <= j < model.len() implies 0 <= #[trigger] model[j] < frames.len()
            && after[model[j]].in_model by {
            assert(p[j] < c.len());
            assert(l.contains(l[j]));
            assert(c[p[j] as int] < frames.len());
        }
        assert forall|k: int| 0 <= k < frames.len() && (
        #[trigger] after[k]).in_model implies model.contains(k) by {
            if l.contains(k as usize) {
                let j = choose|j: int| 0 <= j < l.len() && l[j] == k as usize;
                assert(model[j] == k);
            } else {
                let j = lemma_certain_is_least(frames, c, p, keep, clear, k);
                assert(l[j] == k as usize);
            }
        }
        model
    }
}

proof fn lemma_certain_is_least(
    frames: Seq<FrameInfo>,
    c: Seq<usize>,
    p: Seq<usize>,
    keep: int,
    clear: Seq<int>,
    k: int,
) -> (q: int)
    requires
        frames.len() <= usize::MAX,
        c == candidates(frames),
        order::is_order(clouds(frames, c), p),
        0 <= keep <= c.len(),
        clear.len() < keep,
        names_all(frames, |f: FrameInfo| certain(f), clear),
        0 <= k < frames.len(),
        certain(frames[k]),
    ensures
        0 <= q < keep,
        c[p[q] as int] == k,
{
    lemma_candidates(frames);
    assert(c.contains(k as usize));
    let m = choose|m: int| 0 <= m < c.len() && c[m] == k as usize;
    assert(p.contains(m as usize));
    let q = choose|q: int| 0 <= q < p.len() && p[q] == m as usize;
    if q >= keep {
        let s = Seq::new(keep as nat, |j: int| c[p[j] as int] as int);
        assert forall|j: int| 0 <= j < s.len() implies clear.contains(#[trigger] s[j]) by {
            assert(order::before(clouds(frames, c), p[j] as int, p[q] as int));
            assert(p[j] < c.len());
            assert(frames[c[p[j] as int] as int].in_stack);
            assert(certain(frames[s[j]]));
        }
        assert forall|a: int, b: int| 0 <= a < s.len() && 0 <= b < s.len() && a != b implies s[a]
            != s[b] by {
            let (g, h) = if a < b {
                (a, b)
            } else {
                (b, a)
            };
            assert(order::before(clouds(frames, c), p[g] as int, p[h] as int));
            assert(p[g] != p[h] && p[g] < c.len() && p[h] < c.len());
            if p[g] < p[h] {
                assert(c[p[g] as int] < c[p[h] as int]);
            } else {
                assert(c[p[h] as int] < c[p[g] as int]);
            }
        }
        assert(s.no_duplicates());
        s.unique_seq_to_set();
        clear.unique_seq_to_set();
        assert(s.to_set().subset_of(clear.to_set())) by {
            assert forall|x: int| s.to_set().contains(x) implies clear.to_set().contains(x) by {
                let j = choose|j: int| 0 <= j < s.len() && s[j] == x;
                assert(clear.contains(s[j]));
            }
        }
        vstd::set_lib::lemma_len_subset(s.to_set(), clear.to_set());
    }
    q
}

/// Every frame is selected for itself, and a run without any stacked frame is
/// refused.
pub proof fn law_selecting_judges_every_frame(
    frames: Seq<FrameInfo>,
    after: Seq<FrameInfo>,
    l: Limits,
    r: Result<Selection, Refusal>,
    i: int,
)
    requires
        selects(frames, after, l, r),
        0 <= i < frames.len(),
    ensures
        after.len() == frames.len(),
        after[i] == selected(frames[i], l),
        after[i].in_stack ==> r is Ok && counts(frames, l, r->Ok_0),
        (forall|k: int| 0 <= k < after.len() ==> !(#[trigger] after[k]).in_stack) ==> r == Err::<
            Selection,
            Refusal,
        >(Refusal::NothingSelected),
{
    let p = |f: FrameInfo| selected(f, l).in_stack;
    let at = law_count_is_of_the_frames(frames, p);
    assert(count(frames, p) == count(frames, |f: FrameInfo| selected(f, l).in_stack));
    if after[i].in_stack {
        assert(p(frames[i]));
        assert(at.contains(i));
    }
    if forall|k: int| 0 <= k < after.len() ==> !(#[trigger] after[k]).in_stack {
        if at.len() > 0 {
            assert(p(frames[at[0]]));
            assert(after[at[0]].in_stack);
        }
    }
}

/// The level of a session is that of one of its frames, with half of those that
/// count at or below it and the rest at or above; zero where none counts. The
/// result lists the frames accordingly.
pub proof fn law_session_level_is_a_frames(
    frames: Seq<FrameInfo>,
    aligned_only: bool,
    m: i64,
) -> (q: Seq<int>)
    requires
        is_session_level(frames, aligned_only, m),
    ensures
        q.no_duplicates(),
        forall|j: int|
            0 <= j < q.len() ==> 0 <= #[trigger] q[j] < frames.len() && frames[q[j]].level > 0 && (
            aligned_only ==> frames[q[j]].aligned),
        q.len() == 0 <==> forall|k: int|
            0 <= k < frames.len() ==> (#[trigger] frames[k]).level <= 0 || (aligned_only
                && !frames[k].aligned),
        q.len() == 0 ==> m == 0,
        q.len() > 0 ==> {
            let h = q.len() as int / 2;
            &&& frames[q[h]].level == m
            &&& forall|j: int| 0 <= j <= h ==> frames[#[trigger] q[j]].level <= m
            &&& forall|j: int| h <= j < q.len() ==> frames[#[trigger] q[j]].level >= m
        },
{
    let at = law_levels_are_the_frames(frames, aligned_only);
    let s = levels(frames, aligned_only);
    if s.len() == 0 {
        assert forall|k: int| 0 <= k < frames.len() implies (#[trigger] frames[k]).level <= 0 || (
        aligned_only && !frames[k].aligned) by {
            if frames[k].level > 0 && (frames[k].aligned || !aligned_only) {
                assert(at.contains(k));
            }
        }
        Seq::empty()
    } else {
        let p = order::law_median_is_in_the_middle(s, Some(m));
        let q = Seq::new(p.len(), |j: int| at[p[j] as int]);
        assert forall|j: int| 0 <= j < q.len() implies 0 <= #[trigger] q[j] < frames.len()
            && frames[q[j]].level > 0 && (aligned_only ==> frames[q[j]].aligned)
            && frames[q[j]].level == s[p[j] as int] by {
            assert(at[p[j] as int] == q[j]);
        }
        assert forall|a: int, b: int| 0 <= a < q.len() && 0 <= b < q.len() && a != b implies q[a]
            != q[b] by {
            assert(p[a] != p[b]);
            if p[a] < p[b] {
                assert(at[p[a] as int] < at[p[b] as int]);
            } else {
                assert(at[p[b] as int] < at[p[a] as int]);
            }
        }
        let h = q.len() as int / 2;
        assert forall|j: int| 0 <= j <= h implies frames[#[trigger] q[j]].level <= m by {
            assert(s[p[j] as int] <= m);
        }
        assert forall|j: int| h <= j < q.len() implies frames[#[trigger] q[j]].level >= m by {
            assert(s[p[j] as int] >= m);
        }
        assert(frames[q[0]].level > 0);
        q
    }
}

} // verus!
