//! The background of the frames, cell by cell: what is foreground, what is
//! sky, and which cells and frames take part in a fit.
//!
//! Cell values are order keys; see `order::order_key`.
use crate::grid;
use crate::order;
use crate::region;
use vstd::prelude::*;

verus! {

/// Side of a cell in sensor pixels.
pub const BLOCK: usize = 32;

/// Step, in pixels, of the grid on which the average correction is evaluated.
pub const CORR_STEP: usize = 16;

/// Smallest foreground component, in cells.
pub const FG_MIN_CELLS: usize = 2;

/// Growth of the foreground mask, in cells: out-of-focus edges.
pub const FG_DILATE: usize = 1;

/// Fewest samples of a cell in the masked temporal median; below it the cell
/// is filled in from its neighbours.
pub const TM_MIN_SAMPLES: usize = 5;

/// Fewest frames a cell needs before its own slope is trusted.
pub const FLAT_MIN_SAMPLES: usize = 12;

/// Key of the smallest spread of the session's sky level, 1.25, for the
/// multiplicative field to be measurable.
pub const FLAT_MIN_LEVER: i64 = 0x3fa0_0000;

/// Key of how far apart the fits of the two half sessions may land, 0.2 of the
/// field's own range.
pub const FLAT_MAX_DISAGREEMENT: i64 = 0x3e4c_cccd;

/// Key of the smallest range, 1e-6, that counts as a field at all.
pub const FLAT_MIN_SPREAD: i64 = 0x3586_37bd;

/// Key of infinity: finite numbers lie strictly within it.
pub const INFINITE: i64 = 0x7f80_0000;

/// Fewest values of a bin for its median to count.
pub const BIN_MIN_SAMPLES: usize = 6;

/// Low-resolution background map of a frame, three channels per cell.
#[derive(Clone)]
pub struct BgMap {
    pub gw: usize,
    pub gh: usize,
    pub block: usize,
    pub data: Vec<i64>,
    /// Cells with real data; empty where all of them have.
    pub valid: Vec<bool>,
}

impl BgMap {
    /// Three values per cell, and a flag per cell or none.
    pub open spec fn wf(self) -> bool {
        &&& self.data@.len() == 3 * (self.gw * self.gh)
        &&& self.valid@.len() == 0 || self.valid@.len() == self.gw * self.gh
    }

    /// Whether cell `i` holds real data.
    pub open spec fn holds(self, i: int) -> bool {
        self.valid@.len() == 0 || self.valid@[i]
    }

    /// Whether cell `i` holds real data.
    pub fn is_valid(&self, i: usize) -> (b: bool)
        requires
            self.wf(),
            i < self.gw * self.gh,
        ensures
            b == self.holds(i as int),
    {
        self.valid.len() == 0 || self.valid[i]
    }
}

/// Mask per cell of the background map: set where something that is not sky
/// takes up the cell.
#[derive(Clone)]
pub struct CellMask {
    pub gw: usize,
    pub gh: usize,
    pub block: usize,
    pub data: Vec<bool>,
}

/// The cell a pixel coordinate falls into, the last one beyond the map.
pub open spec fn cell_index(x: int, block: int, n: int) -> int {
    if x / block < n {
        x / block
    } else {
        n - 1
    }
}

impl CellMask {
    /// One flag per cell of a grid that has cells.
    pub open spec fn wf(self) -> bool {
        &&& self.gw > 0
        &&& self.gh > 0
        &&& self.block > 0
        &&& self.data@.len() == self.gw * self.gh
    }

    /// The flag of a cell.
    pub fn at_cell(&self, gx: usize, gy: usize) -> (b: bool)
        requires
            self.wf(),
            gx < self.gw,
            gy < self.gh,
        ensures
            b == self.data@[grid::cell(gx as int, gy as int, self.gw as int)],
    {
        let ghost total: usize = self.data.len();
        proof {
            grid::lemma_cell(gx as int, gy as int, self.gw as int, self.gh as int);
            assert(self.gw * self.gh == total);
        }
        self.data[gy * self.gw + gx]
    }

    /// The flag at a sensor pixel; outside the map that of the nearest cell.
    pub fn at_px(&self, x: usize, y: usize) -> (b: bool)
        requires
            self.wf(),
        ensures
            b == self.data@[grid::cell(
                cell_index(x as int, self.block as int, self.gw as int),
                cell_index(y as int, self.block as int, self.gh as int),
                self.gw as int,
            )],
    {
        let cx: usize = x / self.block;
        let cy: usize = y / self.block;
        let gx: usize = if cx < self.gw {
            cx
        } else {
            self.gw - 1
        };
        let gy: usize = if cy < self.gh {
            cy
        } else {
            self.gh - 1
        };
        self.at_cell(gx, gy)
    }

    /// Cells taken up, and cells there are, at least one: their quotient is
    /// the fraction of the frame.
    pub fn fraction(&self) -> (r: (usize, usize))
        ensures
            r.0 == region::set_count(self.data@),
            r.1 == if self.data@.len() > 1 {
                self.data@.len() as int
            } else {
                1
            },
    {
        let n: usize = self.data.len();
        (
            region::count_set(self.data.as_slice()),
            if n > 1 {
                n
            } else {
                1
            },
        )
    }

    /// Whether any cell is taken up.
    pub fn any(&self) -> (b: bool)
        ensures
            b <==> exists|i: int| 0 <= i < self.data@.len() && #[trigger] self.data@[i],
    {
        let mut i: usize = 0;
        while i < self.data.len()
            invariant
                i <= self.data@.len(),
                forall|j: int| 0 <= j < i ==> !(#[trigger] self.data@[j]),
            decreases self.data@.len() - i,
        {
            if self.data[i] {
                return true;
            }
            i = i + 1;
        }
        false
    }
}

/// Whether a cell is far below the sky predicted for it.
pub open spec fn is_dark(pred: i64, value: i64, bound: i64) -> bool {
    pred > 0 && value < bound
}

/// The cells far below the sky that a smooth fit predicts for them. `bound`
/// is the predicted sky times the foreground ratio.
pub fn dark_cells(pred: &[i64], value: &[i64], bound: &[i64]) -> (out: Vec<bool>)
    requires
        pred@.len() == value@.len() == bound@.len(),
    ensures
        out@ == Seq::new(pred@.len(), |i: int| is_dark(pred@[i], value@[i], bound@[i])),
{
    let mut out: Vec<bool> = Vec::new();
    let mut i: usize = 0;
    while i < pred.len()
        invariant
            i <= pred@.len(),
            pred@.len() == value@.len() == bound@.len(),
            out@ =~= Seq::new(i as nat, |j: int| is_dark(pred@[j], value@[j], bound@[j])),
        decreases pred@.len() - i,
    {
        out.push(pred[i] > 0 && value[i] < bound[i]);
        i = i + 1;
    }
    out
}

/// Components large enough to be foreground.
pub open spec fn large() -> spec_fn(Seq<usize>) -> bool {
    |c: Seq<usize>| c.len() >= FG_MIN_CELLS
}

/// The foreground of a frame, from its dark cells: small components are
/// dropped and the rest grows by a cell.
pub fn foreground_mask(gw: usize, gh: usize, block: usize, dark: &[bool]) -> (m: CellMask)
    requires
        dark@.len() == gw * gh,
        gw < usize::MAX - 1,
        gh < usize::MAX - 1,
    ensures
        m.gw == gw && m.gh == gh && m.block == block,
        exists|kept: Seq<bool>| #[trigger]
            region::sifted(dark@, gw as int, gh as int, large(), kept) && m.data@
                == region::grown(kept, gw as int, gh as int, FG_DILATE as int),
{
    let comps = region::components(dark, gw, gh);
    let ghost lists = region::lists(comps@);
    let mut keep: Vec<bool> = Vec::new();
    let mut k: usize = 0;
    while k < comps.len()
        invariant
            k <= comps@.len(),
            lists == region::lists(comps@),
            keep@.len() == k,
            forall|j: int| 0 <= j < k ==> #[trigger] keep@[j] == large()(lists[j]),
        decreases comps@.len() - k,
    {
        keep.push(comps[k].len() >= FG_MIN_CELLS);
        k = k + 1;
    }
    proof {
        assert forall|i: int, j: usize|
            #![trigger lists[i].contains(j)]
            0 <= i < comps@.len() && lists[i].contains(j) implies j < dark@.len() by {
            assert(region::component_of(
                dark@,
                gw as int,
                gh as int,
                lists[i][0] as int,
                lists[i],
            ));
        }
    }
    let kept = region::sift(dark, &comps, keep.as_slice());
    proof {
        lemma_sifted(dark@, gw as int, gh as int, lists, keep@, kept@, large());
    }
    let data = region::dilate(kept.as_slice(), gw, gh, FG_DILATE);
    CellMask { gw, gh, block, data }
}

/// Clearing the components that are not kept leaves those that are.
pub proof fn lemma_sifted(
    mask: Seq<bool>,
    w: int,
    h: int,
    comps: Seq<Seq<usize>>,
    keep: Seq<bool>,
    out: Seq<bool>,
    p: spec_fn(Seq<usize>) -> bool,
)
    requires
        region::are_components(mask, w, h, comps),
        keep.len() == comps.len(),
        forall|k: int| 0 <= k < comps.len() ==> #[trigger] keep[k] == p(comps[k]),
        out.len() == mask.len(),
        forall|j: usize|
            j < mask.len() ==> (#[trigger] out[j as int] <==> mask[j as int] && forall|k: int|
                0 <= k < comps.len() && (#[trigger] comps[k]).contains(j) ==> keep[k]),
    ensures
        region::sifted(mask, w, h, p, out),
{
    assert forall|j: usize| j < mask.len() implies (#[trigger] out[j as int] <==> exists|k: int|
        0 <= k < comps.len() && (#[trigger] comps[k]).contains(j) && p(comps[k])) by {
        if out[j as int] {
            assert(mask[j as int]);
            let k = choose|k: int| 0 <= k < comps.len() && (#[trigger] comps[k]).contains(j);
            assert(keep[k]);
            assert(comps[k].contains(j) && p(comps[k]));
        }
        if exists|k: int| 0 <= k < comps.len() && (#[trigger] comps[k]).contains(j) && p(comps[k]) {
            let k = choose|k: int|
                0 <= k < comps.len() && (#[trigger] comps[k]).contains(j) && p(comps[k]);
            assert(region::component_of(mask, w, h, comps[k][0] as int, comps[k]));
            assert(mask[j as int]);
            assert forall|l: int| 0 <= l < comps.len() && (#[trigger] comps[l]).contains(
                j,
            ) implies keep[l] by {
                assert(l == k);
                assert(keep[k] == p(comps[k]));
            }
        }
    }
    assert(region::are_components(mask, w, h, comps));
}

/// In how many masks a cell is set.
pub open spec fn votes(masks: Seq<CellMask>, i: int) -> nat
    decreases masks.len(),
{
    if masks.len() == 0 {
        0
    } else {
        votes(masks.drop_last(), i) + if masks.last().data@[i] {
            1nat
        } else {
            0nat
        }
    }
}

/// All masks are of the same grid.
pub open spec fn same_grid(masks: Seq<CellMask>) -> bool {
    forall|k: int|
        0 <= k < masks.len() ==> (#[trigger] masks[k]).wf() && masks[k].gw == masks[0].gw
            && masks[k].gh == masks[0].gh
}

/// `data` is set where more than half of the masks are.
pub open spec fn is_consensus(masks: Seq<CellMask>, data: Seq<bool>) -> bool {
    forall|i: int|
        0 <= i < data.len() ==> (#[trigger] data[i] <==> votes(masks, i) > masks.len() as int / 2)
}

/// One mask for a camera that did not move: a cell is landscape where more
/// than half of the frames see it as such.
pub fn consensus_mask(masks: &[CellMask]) -> (m: CellMask)
    requires
        masks@.len() > 0,
        same_grid(masks@),
    ensures
        m.wf(),
        m.gw == masks@[0].gw,
        m.gh == masks@[0].gh,
        m.block == masks@[0].block,
        is_consensus(masks@, m.data@),
{
    let n: usize = masks[0].data.len();
    let half: usize = masks.len() / 2;
    let mut data: Vec<bool> = Vec::new();
    let mut i: usize = 0;
    while i < n
        invariant
            i <= n,
            masks@.len() > 0,
            same_grid(masks@),
            n == masks@[0].data@.len(),
            half == masks@.len() as int / 2,
            data@.len() == i,
            forall|j: int| 0 <= j < i ==> (#[trigger] data@[j] <==> votes(masks@, j) > half),
        decreases n - i,
    {
        let mut v: usize = 0;
        let mut k: usize = 0;
        while k < masks.len()
            invariant
                k <= masks@.len(),
                i < n,
                masks@.len() > 0,
                same_grid(masks@),
                n == masks@[0].data@.len(),
                v <= k,
                v == votes(masks@.take(k as int), i as int),
            decreases masks@.len() - k,
        {
            assert(masks@.take(k + 1).drop_last() =~= masks@.take(k as int));
            assert(masks@[k as int].wf());
            if masks[k].data[i] {
                v = v + 1;
            }
            k = k + 1;
        }
        assert(masks@.take(k as int) =~= masks@);
        data.push(v > half);
        i = i + 1;
    }
    CellMask { gw: masks[0].gw, gh: masks[0].gh, block: masks[0].block, data }
}

/// Where all frames agree on a cell, so does the consensus.
pub proof fn law_consensus_follows_agreement(masks: Seq<CellMask>, i: int, b: bool)
    requires
        masks.len() > 0,
        forall|k: int| 0 <= k < masks.len() ==> (#[trigger] masks[k]).data@[i] == b,
    ensures
        votes(masks, i) > masks.len() as int / 2 <==> b,
{
    lemma_unanimous(masks, i, b);
}

proof fn lemma_unanimous(masks: Seq<CellMask>, i: int, b: bool)
    requires
        forall|k: int| 0 <= k < masks.len() ==> (#[trigger] masks[k]).data@[i] == b,
    ensures
        votes(masks, i) == if b {
            masks.len()
        } else {
            0
        },
    decreases masks.len(),
{
    if masks.len() > 0 {
        let front = masks.drop_last();
        assert forall|k: int| 0 <= k < front.len() implies (#[trigger] front[k]).data@[i] == b by {
            assert(front[k] == masks[k]);
        }
        lemma_unanimous(front, i, b);
        assert(masks.last() == masks[masks.len() - 1]);
    }
}

/// The cells set in either of two masks.
pub open spec fn either(a: Seq<bool>, b: Seq<bool>) -> Seq<bool> {
    Seq::new(a.len(), |i: int| a[i] || b[i])
}

/// Nothing but what one of two masks sets is set in both together, whichever
/// comes first.
pub proof fn law_either_mask_counts(a: Seq<bool>, b: Seq<bool>, i: int)
    requires
        a.len() == b.len(),
        0 <= i < a.len(),
    ensures
        either(a, b).len() == a.len(),
        a[i] ==> either(a, b)[i],
        either(a, b) == either(b, a),
        either(a, a) == a,
        !a[i] ==> either(a, b)[i] == b[i],
{
    assert(either(a, b) =~= either(b, a));
    assert(either(a, a) =~= a);
}

/// The cells set in either of two masks of one grid.
pub fn union_mask(a: &CellMask, b: &CellMask) -> (m: CellMask)
    requires
        a.data@.len() == b.data@.len(),
    ensures
        m.gw == a.gw && m.gh == a.gh && m.block == a.block,
        m.data@ == either(a.data@, b.data@),
{
    let mut data: Vec<bool> = Vec::new();
    let mut i: usize = 0;
    while i < a.data.len()
        invariant
            i <= a.data@.len(),
            a.data@.len() == b.data@.len(),
            data@ =~= either(a.data@, b.data@).take(i as int),
        decreases a.data@.len() - i,
    {
        data.push(a.data[i] || b.data[i]);
        i = i + 1;
    }
    assert(data@ =~= either(a.data@, b.data@));
    CellMask { gw: a.gw, gh: a.gh, block: a.block, data }
}

/// The green values of the first `n` cells outside a mask.
pub open spec fn sky_values(map: BgMap, mask: Seq<bool>, n: int) -> Seq<i64>
    decreases n,
{
    if n <= 0 {
        Seq::empty()
    } else {
        let front = sky_values(map, mask, n - 1);
        if mask[n - 1] {
            front
        } else {
            front.push(map.data@[3 * (n - 1) + 1])
        }
    }
}

/// `m` is the median of green over the cells outside a mask, none without any.
pub open spec fn is_sky_level(map: BgMap, mask: Seq<bool>, m: Option<i64>) -> bool {
    order::is_median(sky_values(map, mask, map.gw * map.gh), m)
}

/// The sky level of a frame: the median of green over the cells that are not
/// foreground, none without such a cell.
pub fn sky_level(map: &BgMap, mask: &CellMask) -> (m: Option<i64>)
    requires
        map.wf(),
        mask.data@.len() == map.gw * map.gh,
    ensures
        is_sky_level(*map, mask.data@, m),
{
    let n: usize = mask.data.len();
    let total: usize = map.data.len();
    let mut v: Vec<i64> = Vec::new();
    let mut i: usize = 0;
    while i < n
        invariant
            i <= n,
            n == mask.data@.len() == map.gw * map.gh,
            total == map.data@.len() == 3 * n,
            v@ == sky_values(*map, mask.data@, i as int),
        decreases n - i,
    {
        if !mask.data[i] {
            v.push(map.data[3 * i + 1]);
        }
        i = i + 1;
    }
    order::median(v.as_slice())
}

/// The values of a cell and channel over the frames that do not mask it.
pub open spec fn samples(maps: Seq<BgMap>, masks: Seq<CellMask>, i: int, c: int) -> Seq<i64>
    decreases maps.len(),
{
    if maps.len() == 0 {
        Seq::empty()
    } else {
        let front = samples(maps.drop_last(), masks.drop_last(), i, c);
        if masks.last().data@[i] {
            front
        } else {
            front.push(maps.last().data@[3 * i + c])
        }
    }
}

/// Whether a key stands for a finite number.
pub open spec fn finite(v: Option<i64>) -> bool {
    v is Some && -INFINITE < v->0 < INFINITE
}

/// Masked temporal median of maps: the median of each cell and channel, which
/// cells had samples enough, and how many had not.
pub struct Median {
    pub data: Vec<Option<i64>>,
    pub valid: Vec<bool>,
    pub filled: usize,
}

/// Whether values have a median that is a finite number.
pub open spec fn has_finite_median(v: Seq<i64>) -> bool {
    exists|m: i64| #[trigger] order::is_median(v, Some(m)) && finite(Some(m))
}

/// Whether a cell has real data: samples enough, and a finite median in every
/// channel.
pub open spec fn measured(maps: Seq<BgMap>, masks: Seq<CellMask>, i: int) -> bool {
    &&& samples(maps, masks, i, 2).len() >= TM_MIN_SAMPLES
    &&& has_finite_median(samples(maps, masks, i, 0))
    &&& has_finite_median(samples(maps, masks, i, 1))
    &&& has_finite_median(samples(maps, masks, i, 2))
}

/// The maps and masks of a session over one grid.
pub open spec fn one_grid(maps: Seq<BgMap>, masks: Seq<CellMask>) -> bool {
    &&& maps.len() > 0
    &&& maps.len() == masks.len()
    &&& forall|k: int|
        0 <= k < maps.len() ==> (#[trigger] maps[k]).wf() && maps[k].gw * maps[k].gh == maps[0].gw
            * maps[0].gh
    &&& forall|k: int|
        0 <= k < masks.len() ==> (#[trigger] masks[k]).data@.len() == maps[0].gw * maps[0].gh
}

/// The median of a cell and channel over the frames that do not mask it.
fn median_of(maps: &[BgMap], masks: &[CellMask], i: usize, c: usize) -> (r: (Option<i64>, usize))
    requires
        one_grid(maps@, masks@),
        i < maps@[0].gw * maps@[0].gh,
        c < 3,
    ensures
        order::is_median(samples(maps@, masks@, i as int, c as int), r.0),
        r.1 == samples(maps@, masks@, i as int, c as int).len(),
{
    let mut v: Vec<i64> = Vec::new();
    let mut k: usize = 0;
    while k < maps.len()
        invariant
            k <= maps@.len(),
            one_grid(maps@, masks@),
            i < maps@[0].gw * maps@[0].gh,
            c < 3,
            v@ == samples(maps@.take(k as int), masks@.take(k as int), i as int, c as int),
        decreases maps@.len() - k,
    {
        assert(maps@.take(k + 1).drop_last() =~= maps@.take(k as int));
        assert(masks@.take(k + 1).drop_last() =~= masks@.take(k as int));
        assert(maps@[k as int].wf());
        let total: usize = maps[k].data.len();
        if !masks[k].data[i] {
            v.push(maps[k].data[3 * i + c]);
        }
        k = k + 1;
    }
    assert(maps@.take(k as int) =~= maps@);
    assert(masks@.take(k as int) =~= masks@);
    (order::median(v.as_slice()), v.len())
}

fn is_finite(v: Option<i64>) -> (b: bool)
    ensures
        b == finite(v),
{
    match v {
        Some(k) => -INFINITE < k && k < INFINITE,
        None => false,
    }
}

proof fn lemma_finite_median(v: Seq<i64>, m: Option<i64>)
    requires
        order::is_median(v, m),
    ensures
        finite(m) <==> has_finite_median(v),
{
    if has_finite_median(v) {
        let k = choose|k: i64| #[trigger] order::is_median(v, Some(k)) && finite(Some(k));
        order::law_rank_is_unique(v, v.len() as int / 2, m->0, k);
    }
    if finite(m) {
        assert(order::is_median(v, Some(m->0)));
    }
}

/// `m` holds the medians of maps over time, cell by cell and channel by channel:
/// which cells are measured, how many are not, and zero everywhere where none
/// is.
pub open spec fn are_medians(maps: Seq<BgMap>, masks: Seq<CellMask>, m: Median) -> bool {
    &&& m.data@.len() == 3 * (maps[0].gw * maps[0].gh)
    &&& m.valid@.len() == maps[0].gw * maps[0].gh
    &&& m.filled == m.valid@.len() - region::set_count(m.valid@)
    &&& forall|i: int|
        0 <= i < m.valid@.len() ==> (#[trigger] m.valid@[i] <==> measured(maps, masks, i))
    &&& m.filled < m.valid@.len() ==> forall|i: int, c: int|
        0 <= i < m.valid@.len() && 0 <= c < 3 ==> #[trigger] order::is_median(
            samples(maps, masks, i, c),
            m.data@[3 * i + c],
        )
    &&& m.filled == m.valid@.len() ==> forall|k: int|
        0 <= k < m.data@.len() ==> #[trigger] m.data@[k] == Some(0i64)
}

/// Cell-by-cell temporal median that leaves out, in every frame, the masked
/// cells. A cell is valid with `TM_MIN_SAMPLES` samples and finite medians.
/// Where no cell is, there is nothing to fill in from and all of it is zero.
pub fn temporal_median_masked(maps: &[BgMap], masks: &[CellMask]) -> (m: Median)
    requires
        one_grid(maps@, masks@),
    ensures
        are_medians(maps@, masks@, m),
{
    let total: usize = maps[0].data.len();
    let n: usize = total / 3;
    assert(maps@[0].wf());
    let mut data: Vec<Option<i64>> = Vec::new();
    let mut valid: Vec<bool> = Vec::new();
    let mut i: usize = 0;
    while i < n
        invariant
            i <= n,
            one_grid(maps@, masks@),
            n == maps@[0].gw * maps@[0].gh,
            total == 3 * n,
            data@.len() == 3 * i,
            valid@.len() == i,
            forall|j: int, c: int|
                0 <= j < i && 0 <= c < 3 ==> #[trigger] order::is_median(
                    samples(maps@, masks@, j, c),
                    data@[3 * j + c],
                ),
            forall|j: int|
                0 <= j < i ==> (#[trigger] valid@[j] <==> measured(maps@, masks@, j)),
        decreases n - i,
    {
        let ghost was = data@;
        let (r, _) = median_of(maps, masks, i, 0);
        let (g, _) = median_of(maps, masks, i, 1);
        let (b, cnt) = median_of(maps, masks, i, 2);
        data.push(r);
        data.push(g);
        data.push(b);
        let ok: bool = cnt >= TM_MIN_SAMPLES && is_finite(r) && is_finite(g) && is_finite(b);
        valid.push(ok);
        proof {
            lemma_finite_median(samples(maps@, masks@, i as int, 0), r);
            lemma_finite_median(samples(maps@, masks@, i as int, 1), g);
            lemma_finite_median(samples(maps@, masks@, i as int, 2), b);
            assert forall|j: int, c: int| 0 <= j < i + 1 && 0 <= c < 3 implies #[trigger] order::is_median(
                samples(maps@, masks@, j, c),
                data@[3 * j + c],
            ) by {
                if j < i {
                    assert(data@[3 * j + c] == was[3 * j + c]);
                }
            }
        }
        i = i + 1;
    }
    let filled: usize = n - region::count_set(valid.as_slice());
    if filled == n {
        data = zeros(total);
    }
    Median { data, valid, filled }
}

fn zeros(n: usize) -> (v: Vec<Option<i64>>)
    ensures
        v@.len() == n,
        forall|k: int| 0 <= k < n ==> #[trigger] v@[k] == Some(0i64),
{
    let mut v: Vec<Option<i64>> = Vec::new();
    while v.len() < n
        invariant
            v@.len() <= n,
            forall|k: int| 0 <= k < v@.len() ==> #[trigger] v@[k] == Some(0i64),
        decreases n - v@.len(),
    {
        v.push(Some(0));
    }
    v
}

/// What the maps hold at one place.
pub open spec fn over_time(maps: Seq<BgMap>, k: int) -> Seq<i64> {
    maps.map_values(|m: BgMap| m.data@[k])
}

/// `data` holds the medians of maps over time, place by place.
pub open spec fn are_all_medians(maps: Seq<BgMap>, data: Seq<i64>) -> bool {
    &&& data.len() == maps[0].data@.len()
    &&& forall|k: int|
        0 <= k < data.len() ==> order::is_median(over_time(maps, k), Some(#[trigger] data[k]))
}

/// Cell-by-cell temporal median over all frames.
pub fn temporal_median(maps: &[BgMap]) -> (data: Vec<i64>)
    requires
        maps@.len() > 0,
        forall|f: int|
            0 <= f < maps@.len() ==> maps@[0].data@.len() <= (#[trigger] maps@[f]).data@.len(),
    ensures
        are_all_medians(maps@, data@),
{
    let n: usize = maps[0].data.len();
    let mut data: Vec<i64> = Vec::new();
    let mut k: usize = 0;
    while k < n
        invariant
            k <= n,
            n == maps@[0].data@.len(),
            maps@.len() > 0,
            forall|f: int|
                0 <= f < maps@.len() ==> n <= (#[trigger] maps@[f]).data@.len(),
            data@.len() == k,
            forall|j: int|
                0 <= j < k ==> order::is_median(over_time(maps@, j), Some(#[trigger] data@[j])),
        decreases n - k,
    {
        let mut v: Vec<i64> = Vec::new();
        let mut f: usize = 0;
        while f < maps.len()
            invariant
                k < n,
                f <= maps@.len(),
                forall|g: int|
                    0 <= g < maps@.len() ==> n <= (#[trigger] maps@[g]).data@.len(),
                v@ =~= over_time(maps@, k as int).take(f as int),
            decreases maps@.len() - f,
        {
            v.push(maps[f].data[k]);
            f = f + 1;
        }
        assert(v@ =~= over_time(maps@, k as int));
        data.push(order::ranked(v.as_slice(), v.len() / 2));
        k = k + 1;
    }
    data
}

/// A cell to be filled in with the mean of others.
pub struct Fill {
    pub cell: usize,
    pub from: Vec<usize>,
}

/// Whether two cells touch, corners included.
pub open spec fn touches(w: int, i: int, j: int) -> bool {
    let (dx, dy) = (i % w - j % w, i / w - j / w);
    -1 <= dx <= 1 && -1 <= dy <= 1
}

/// The cells a cell is filled in from: those with a value that touch it.
pub open spec fn sources(valid: Seq<bool>, w: int, i: int) -> Seq<usize> {
    region::picked(valid.len() as int, |j: int| valid[j] && touches(w, i, j))
}

/// One round of filling in: every cell without a value that touches one with
/// a value.
pub open spec fn round_cells(valid: Seq<bool>, w: int) -> Seq<usize> {
    region::picked(valid.len() as int, |i: int| !valid[i] && sources(valid, w, i).len() > 0)
}

/// Which cells have a value after a round.
pub open spec fn after_round(valid: Seq<bool>, w: int) -> Seq<bool> {
    Seq::new(valid.len(), |i: int| valid[i] || sources(valid, w, i).len() > 0)
}

/// Which cells have a value after `k` rounds.
pub open spec fn after_rounds(valid: Seq<bool>, w: int, k: int) -> Seq<bool>
    decreases k,
{
    if k <= 0 {
        valid
    } else {
        after_round(after_rounds(valid, w, k - 1), w)
    }
}

/// A list of fill-ins is a round.
pub open spec fn is_round(valid: Seq<bool>, w: int, round: Seq<Fill>) -> bool {
    let cells = round_cells(valid, w);
    &&& round.len() == cells.len()
    &&& forall|k: int|
        0 <= k < round.len() ==> (#[trigger] round[k]).cell == cells[k] && round[k].from@
            == sources(valid, w, cells[k] as int)
}

/// The cells with a value that touch cell `i`, in ascending order.
fn find_sources(valid: &[bool], w: usize, h: usize, i: usize) -> (from: Vec<usize>)
    requires
        valid@.len() == w * h,
        i < valid@.len(),
    ensures
        from@ == sources(valid@, w as int, i as int),
{
    let n: usize = valid.len();
    let ghost p = |j: int| valid@[j] && touches(w as int, i as int, j);
    proof {
        if w == 0 {
            assert(w * h == 0) by (nonlinear_arith)
                requires
                    w == 0,
            ;
        }
        grid::lemma_cell_of(i as int, w as int, h as int);
    }
    let x: usize = i % w;
    let y: usize = i / w;
    // Only the rows next to the cell's own can hold such cells.
    let y0: usize = if y > 0 {
        y - 1
    } else {
        0
    };
    let y1: usize = if y + 1 < h {
        y + 2
    } else {
        h
    };
    proof {
        assert(y0 * w <= w * h && y1 * w <= w * h && y0 * w <= y1 * w) by (nonlinear_arith)
            requires
                y0 <= y1 <= h,
                w >= 0,
        ;
        assert(w * h == n);
    }
    let lo: usize = y0 * w;
    let hi: usize = y1 * w;
    let mut from: Vec<usize> = Vec::new();
    proof {
        assert(h * w == w * h) by (nonlinear_arith);
        lemma_none_picked(0, lo as int, p, w as int, h as int, i as int, valid@, true);
    }
    let mut j: usize = lo;
    while j < hi
        invariant
            lo <= j <= hi <= n,
            w > 0,
            n == valid@.len() == w * h,
            i < n,
            x == i as int % w as int,
            y == i as int / w as int,
            p == (|j: int| valid@[j] && touches(w as int, i as int, j)),
            hi == n || hi == (y + 2) * w,
            from@ == region::picked(j as int, p),
        decreases hi - j,
    {
        proof {
            grid::lemma_cell_of(j as int, w as int, h as int);
        }
        let xj: usize = j % w;
        let yj: usize = j / w;
        let near_x: bool = if xj < x {
            x - xj <= 1
        } else {
            xj - x <= 1
        };
        let near_y: bool = if yj < y {
            y - yj <= 1
        } else {
            yj - y <= 1
        };
        if valid[j] && near_x && near_y {
            from.push(j);
        }
        j = j + 1;
    }
    proof {
        assert(hi == n || hi == (i as int / w as int + 2) * w as int);
        lemma_none_picked(hi as int, n as int, p, w as int, h as int, i as int, valid@, false);
    }
    from
}

/// Outside the rows next to a cell's own, nothing touches it.
proof fn lemma_none_picked(
    a: int,
    b: int,
    p: spec_fn(int) -> bool,
    w: int,
    h: int,
    i: int,
    valid: Seq<bool>,
    above: bool,
)
    requires
        0 <= a <= b <= valid.len(),
        w > 0,
        valid.len() == w * h,
        0 <= i < valid.len(),
        p == (|j: int| valid[j] && touches(w, i, j)),
        above ==> b <= (i / w - 1) * w || b == 0,
        !above ==> a >= (i / w + 2) * w || a == valid.len(),
    ensures
        region::picked(b, p) == region::picked(a, p),
    decreases b - a,
{
    if a < b {
        let j = b - 1;
        lemma_none_picked(a, j, p, w, h, i, valid, above);
        grid::lemma_cell_of(j, w, h);
        grid::lemma_cell_of(i, w, h);
        let (yi, yj) = (i / w, j / w);
        if above {
            if yj >= yi - 1 {
                assert(yj * w >= (yi - 1) * w) by (nonlinear_arith)
                    requires
                        yj >= yi - 1,
                        w > 0,
                ;
            }
        } else {
            if yj <= yi + 1 {
                assert((yi + 2) * w >= (yj + 1) * w) by (nonlinear_arith)
                    requires
                        yi + 2 >= yj + 1,
                        w > 0,
                ;
                assert((yj + 1) * w == yj * w + w) by (nonlinear_arith);
            }
        }
        assert(!p(j));
    }
}

/// One round of filling in.
fn fill_round(valid: &[bool], w: usize, h: usize) -> (round: Vec<Fill>)
    requires
        valid@.len() == w * h,
    ensures
        is_round(valid@, w as int, round@),
{
    let n: usize = valid.len();
    let ghost p = |i: int| !valid@[i] && sources(valid@, w as int, i).len() > 0;
    let mut round: Vec<Fill> = Vec::new();
    let mut i: usize = 0;
    while i < n
        invariant
            i <= n,
            n == valid@.len() == w * h,
            p == (|i: int| !valid@[i] && sources(valid@, w as int, i).len() > 0),
            round@.len() == region::picked(i as int, p).len(),
            forall|k: int|
                0 <= k < round@.len() ==> (#[trigger] round@[k]).cell == region::picked(
                    i as int,
                    p,
                )[k] && round@[k].from@ == sources(
                    valid@,
                    w as int,
                    region::picked(i as int, p)[k] as int,
                ),
        decreases n - i,
    {
        if !valid[i] {
            let from = find_sources(valid, w, h, i);
            if from.len() > 0 {
                round.push(Fill { cell: i, from });
            }
        }
        i = i + 1;
    }
    round
}

/// A cell is filled in by a round exactly if it is listed.
proof fn lemma_round_members(valid: Seq<bool>, w: int)
    requires
        valid.len() <= usize::MAX,
    ensures
        forall|i: int|
            0 <= i < valid.len() ==> (#[trigger] after_round(valid, w)[i] <==> valid[i]
                || round_cells(valid, w).contains(i as usize)),
        forall|k: int|
            0 <= k < round_cells(valid, w).len() ==> (#[trigger] round_cells(valid, w)[k])
                < valid.len() && !valid[round_cells(valid, w)[k] as int],
{
    let p = |i: int| !valid[i] && sources(valid, w, i).len() > 0;
    region::lemma_picked(valid.len() as int, p);
    assert forall|i: int| 0 <= i < valid.len() implies (#[trigger] after_round(valid, w)[i]
        <==> valid[i] || round_cells(valid, w).contains(i as usize)) by {
        if round_cells(valid, w).contains(i as usize) {
            let k = choose|k: int|
                0 <= k < round_cells(valid, w).len() && round_cells(valid, w)[k] == i as usize;
            assert(p(round_cells(valid, w)[k] as int));
        }
        if !valid[i] && sources(valid, w, i).len() > 0 {
            assert(p(i as usize as int));
        }
    }
}

proof fn lemma_count_grows(a: Seq<bool>, b: Seq<bool>)
    requires
        a.len() == b.len(),
        forall|i: int| 0 <= i < a.len() && #[trigger] a[i] ==> b[i],
    ensures
        region::set_count(a) <= region::set_count(b) <= b.len(),
        (exists|i: int| 0 <= i < a.len() && !a[i] && #[trigger] b[i]) ==> region::set_count(a)
            < region::set_count(b),
    decreases a.len(),
{
    if a.len() > 0 {
        let (x, y) = (a.drop_last(), b.drop_last());
        assert forall|i: int| 0 <= i < x.len() && #[trigger] x[i] implies y[i] by {
            assert(a[i]);
        }
        lemma_count_grows(x, y);
        if exists|i: int| 0 <= i < a.len() && !a[i] && #[trigger] b[i] {
            let i = choose|i: int| 0 <= i < a.len() && !a[i] && #[trigger] b[i];
            if i < x.len() {
                assert(!x[i] && y[i]);
            }
        }
        assert(a.last() == a[a.len() - 1]);
    }
}

/// A plan fills in round after round until a round would be empty.
pub open spec fn is_plan(valid: Seq<bool>, w: int, rounds: Seq<Vec<Fill>>) -> bool {
    &&& forall|k: int|
        0 <= k < rounds.len() ==> is_round(
            after_rounds(valid, w, k),
            w,
            (#[trigger] rounds[k])@,
        ) && rounds[k]@.len() > 0
    &&& round_cells(after_rounds(valid, w, rounds.len() as int), w).len() == 0
}

/// Plans how the cells without a value are filled in from their neighbours.
pub fn fill_plan(valid: &[bool], w: usize, h: usize) -> (rounds: Vec<Vec<Fill>>)
    requires
        valid@.len() == w * h,
    ensures
        is_plan(valid@, w as int, rounds@),
{
    let n: usize = valid.len();
    let mut now: Vec<bool> = Vec::new();
    let mut i: usize = 0;
    while i < n
        invariant
            i <= n == valid@.len(),
            now@ =~= valid@.take(i as int),
        decreases n - i,
    {
        now.push(valid[i]);
        i = i + 1;
    }
    assert(now@ =~= valid@);
    let mut rounds: Vec<Vec<Fill>> = Vec::new();
    loop
        invariant
            n == valid@.len() == now@.len() == w * h,
            now@ == after_rounds(valid@, w as int, rounds@.len() as int),
            forall|k: int|
                0 <= k < rounds@.len() ==> is_round(
                    after_rounds(valid@, w as int, k),
                    w as int,
                    (#[trigger] rounds@[k])@,
                ) && rounds@[k]@.len() > 0,
        decreases n - region::set_count(now@),
    {
        let ghost before = now@;
        let round = fill_round(now.as_slice(), w, h);
        if round.len() == 0 {
            return rounds;
        }
        let ghost cells = round_cells(before, w as int);
        proof {
            lemma_round_members(before, w as int);
        }
        let mut k: usize = 0;
        while k < round.len()
            invariant
                k <= round@.len() == cells.len(),
                n == now@.len() == before.len(),
                forall|m: int|
                    0 <= m < cells.len() ==> (#[trigger] cells[m]) < n && round@[m].cell == cells[m],
                forall|j: int|
                    0 <= j < n ==> (#[trigger] now@[j] <==> before[j] || cells.take(
                        k as int,
                    ).contains(j as usize)),
            decreases round@.len() - k,
        {
            let c: usize = round[k].cell;
            assert(c == cells[k as int]);
            let ghost prior = now@;
            now.set(c, true);
            proof {
                assert forall|j: int| 0 <= j < n implies (#[trigger] now@[j] <==> before[j]
                    || cells.take(k + 1).contains(j as usize)) by {
                    assert(prior[j] <==> before[j] || cells.take(k as int).contains(j as usize));
                    assert(cells.take(k + 1) =~= cells.take(k as int).push(c));
                    region::lemma_push_contains(cells.take(k as int), c, j as usize);
                }
            }
            k = k + 1;
        }
        proof {
            assert(cells.take(k as int) =~= cells);
            assert(now@ =~= after_round(before, w as int));
            let first = cells[0] as int;
            assert(!before[first] && now@[first]) by {
                assert(cells.contains(first as usize));
            }
            lemma_count_grows(before, now@);
        }
        rounds.push(round);
    }
}

/// A way of cells that touch leads from a cell with a value to every other.
proof fn lemma_spreads(
    valid: Seq<bool>,
    w: int,
    h: int,
    from: int,
    to: int,
    far: nat,
)
    requires
        w > 0,
        valid.len() == w * h,
        valid.len() <= usize::MAX,
        round_cells(valid, w).len() == 0,
        0 <= from < valid.len(),
        valid[from],
        0 <= to < valid.len(),
        -far <= from % w - to % w <= far,
        -far <= from / w - to / w <= far,
    ensures
        valid[to],
    decreases far,
{
    grid::lemma_cell_of(from, w, h);
    grid::lemma_cell_of(to, w, h);
    if far == 0 {
        assert(from == to);
    } else {
        let (fx, fy, tx, ty) = (from % w, from / w, to % w, to / w);
        let nx = if fx < tx {
            tx - 1
        } else if fx > tx {
            tx + 1
        } else {
            tx
        };
        let ny = if fy < ty {
            ty - 1
        } else if fy > ty {
            ty + 1
        } else {
            ty
        };
        let mid = grid::cell(nx, ny, w);
        grid::lemma_cell(nx, ny, w, h);
        vstd::arithmetic::div_mod::lemma_fundamental_div_mod_converse(mid, w, ny, nx);
        lemma_spreads(valid, w, h, from, mid, (far - 1) as nat);
        let p = |j: int| valid[j] && touches(w, to, j);
        region::lemma_picked(valid.len() as int, p);
        assert(p(mid as usize as int));
        assert(sources(valid, w, to).contains(mid as usize));
        let q = |i: int| !valid[i] && sources(valid, w, i).len() > 0;
        region::lemma_picked(valid.len() as int, q);
        if !valid[to] {
            assert(q(to as usize as int));
            assert(round_cells(valid, w).contains(to as usize));
        }
    }
}

proof fn lemma_after_keeps(valid: Seq<bool>, w: int, k: int, i: int)
    requires
        0 <= k,
        0 <= i < valid.len(),
        valid[i],
    ensures
        after_rounds(valid, w, k).len() == valid.len(),
        after_rounds(valid, w, k)[i],
    decreases k,
{
    if k > 0 {
        lemma_after_keeps(valid, w, k - 1, i);
    }
}

/// Filling in leaves no gap: if any cell has a value, every cell has one when
/// the plan is done.
pub proof fn law_fill_is_complete(valid: Seq<bool>, w: int, h: int, rounds: Seq<Vec<Fill>>, a: int, b: int)
    requires
        w > 0,
        valid.len() == w * h,
        valid.len() <= usize::MAX,
        is_plan(valid, w, rounds),
        0 <= a < valid.len(),
        valid[a],
        0 <= b < valid.len(),
    ensures
        after_rounds(valid, w, rounds.len() as int)[b],
{
    let done = after_rounds(valid, w, rounds.len() as int);
    lemma_after_keeps(valid, w, rounds.len() as int, a);
    grid::lemma_cell_of(a, w, h);
    grid::lemma_cell_of(b, w, h);
    lemma_spreads(done, w, h, a, b, (w + h) as nat);
}

/// The values of a cell and channel are that channel's own, of the frames that
/// do not mask the cell and in their order. The result lists those frames.
pub proof fn law_samples_are_the_channels_own(
    maps: Seq<BgMap>,
    masks: Seq<CellMask>,
    i: int,
    c: int,
) -> (at: Seq<int>)
    requires
        maps.len() == masks.len(),
    ensures
        samples(maps, masks, i, c).len() == at.len(),
        forall|j: int|
            0 <= j < at.len() ==> 0 <= #[trigger] at[j] < maps.len() && !masks[at[j]].data@[i]
                && samples(maps, masks, i, c)[j] == maps[at[j]].data@[3 * i + c],
        forall|j: int, l: int| 0 <= j < l < at.len() ==> #[trigger] at[j] < #[trigger] at[l],
        forall|k: int|
            0 <= k < masks.len() && !(#[trigger] masks[k]).data@[i] ==> at.contains(k),
    decreases maps.len(),
{
    if maps.len() == 0 {
        Seq::empty()
    } else {
        let n = maps.len() - 1;
        let (m, s) = (maps.drop_last(), masks.drop_last());
        let front = law_samples_are_the_channels_own(m, s, i, c);
        let at = if masks.last().data@[i] {
            front
        } else {
            front.push(n)
        };
        assert forall|j: int| 0 <= j < at.len() implies 0 <= #[trigger] at[j] < maps.len()
            && !masks[at[j]].data@[i] && samples(maps, masks, i, c)[j] == maps[at[j]].data@[3 * i
            + c] by {
            if j < front.len() {
                assert(at[j] == front[j]);
                assert(m[front[j]] == maps[at[j]] && s[front[j]] == masks[at[j]]);
            }
        }
        assert forall|k: int|
            0 <= k < masks.len() && !(#[trigger] masks[k]).data@[i] implies at.contains(k) by {
            if k < n {
                assert(s[k] == masks[k]);
                let j = choose|j: int| 0 <= j < front.len() && front[j] == k;
                assert(at[j] == k);
            } else {
                assert(at[front.len() as int] == k);
            }
        }
        at
    }
}

proof fn lemma_ascending_from(at: Seq<int>, n: int, j: int)
    requires
        forall|k: int| 0 <= k < at.len() ==> 0 <= #[trigger] at[k] < n,
        forall|k: int, l: int| 0 <= k < l < at.len() ==> #[trigger] at[k] < #[trigger] at[l],
        forall|k: int| 0 <= k < n ==> at.contains(k),
        0 <= j < at.len(),
        0 <= n,
    ensures
        at[j] == j,
    decreases j,
{
    if j > 0 {
        lemma_ascending_from(at, n, j - 1);
    }
    if at[j] > j {
        assert(at.contains(j));
        let l = choose|l: int| 0 <= l < at.len() && at[l] == j;
        if l < j {
            lemma_ascending_from(at, n, l);
        }
        assert(false);
    }
}

proof fn lemma_everything_listed(at: Seq<int>, n: int)
    requires
        0 <= n,
        forall|k: int| 0 <= k < at.len() ==> 0 <= #[trigger] at[k] < n,
        forall|k: int, l: int| 0 <= k < l < at.len() ==> #[trigger] at[k] < #[trigger] at[l],
        forall|k: int| 0 <= k < n ==> at.contains(k),
    ensures
        at.len() == n,
        forall|j: int| 0 <= j < n ==> #[trigger] at[j] == j,
{
    assert forall|j: int| 0 <= j < at.len() implies #[trigger] at[j] == j by {
        lemma_ascending_from(at, n, j);
    }
    if at.len() > n {
        assert(at[n] == n);
    }
    if at.len() < n {
        assert(at.contains(at.len() as int));
    }
}

/// Where nothing is masked, the values of a cell and channel are those that the
/// frames hold there, frame by frame.
pub proof fn law_clear_samples_are_all_frames(
    maps: Seq<BgMap>,
    masks: Seq<CellMask>,
    i: int,
    c: int,
)
    requires
        maps.len() == masks.len(),
        forall|k: int| 0 <= k < masks.len() ==> !(#[trigger] masks[k]).data@[i],
    ensures
        samples(maps, masks, i, c).len() == maps.len(),
        forall|k: int|
            0 <= k < maps.len() ==> #[trigger] samples(maps, masks, i, c)[k] == maps[k].data@[3 * i
                + c],
{
    let at = law_samples_are_the_channels_own(maps, masks, i, c);
    assert forall|k: int| 0 <= k < maps.len() implies at.contains(k) by {
        assert(!masks[k].data@[i]);
    }
    lemma_everything_listed(at, maps.len() as int);
    assert forall|k: int| 0 <= k < maps.len() implies #[trigger] samples(maps, masks, i, c)[k]
        == maps[k].data@[3 * i + c] by {
        assert(at[k] == k);
    }
}

/// What other cells and channels hold does not matter to a channel's median:
/// maps that agree on it have the same one.
pub proof fn law_channels_are_independent(
    a: Seq<BgMap>,
    b: Seq<BgMap>,
    masks: Seq<CellMask>,
    i: int,
    c: int,
)
    requires
        a.len() == b.len() == masks.len(),
        forall|k: int|
            0 <= k < a.len() ==> (#[trigger] a[k]).data@[3 * i + c] == b[k].data@[3 * i + c],
    ensures
        samples(a, masks, i, c) == samples(b, masks, i, c),
    decreases a.len(),
{
    if a.len() > 0 {
        let (f, g) = (a.drop_last(), b.drop_last());
        assert forall|k: int| 0 <= k < f.len() implies (#[trigger] f[k]).data@[3 * i + c]
            == g[k].data@[3 * i + c] by {
            assert(f[k] == a[k] && g[k] == b[k]);
        }
        law_channels_are_independent(f, g, masks.drop_last(), i, c);
        assert(a.last() == a[a.len() - 1]);
    }
}

/// A cell is measured where at least five frames see it and all that they see
/// is finite; with fewer it is not.
pub proof fn law_measured_cells_are_seen_often(
    maps: Seq<BgMap>,
    masks: Seq<CellMask>,
    i: int,
    at: Seq<int>,
)
    requires
        maps.len() == masks.len(),
        maps.len() <= usize::MAX,
        at.no_duplicates(),
        forall|j: int|
            0 <= j < at.len() ==> 0 <= #[trigger] at[j] < masks.len() && !masks[at[j]].data@[i],
        forall|k: int|
            0 <= k < masks.len() && !(#[trigger] masks[k]).data@[i] ==> at.contains(k),
    ensures
        at.len() < 5 ==> !measured(maps, masks, i),
        at.len() >= 5 && (forall|k: int, c: int|
            0 <= k < maps.len() && 0 <= c < 3 ==> -0x7f80_0000 < #[trigger] maps[k].data@[3 * i + c]
                < 0x7f80_0000) ==> measured(maps, masks, i),
{
    lemma_seen(maps, masks, i, 0, at);
    lemma_seen(maps, masks, i, 1, at);
    lemma_seen(maps, masks, i, 2, at);
    if at.len() >= 5 && (forall|k: int, c: int|
        0 <= k < maps.len() && 0 <= c < 3 ==> -0x7f80_0000 < #[trigger] maps[k].data@[3 * i + c]
            < 0x7f80_0000) {
        lemma_seen_finite(maps, masks, i, 0);
        lemma_seen_finite(maps, masks, i, 1);
        lemma_seen_finite(maps, masks, i, 2);
    }
}

proof fn lemma_seen(maps: Seq<BgMap>, masks: Seq<CellMask>, i: int, c: int, at: Seq<int>)
    requires
        maps.len() == masks.len(),
        at.no_duplicates(),
        forall|j: int|
            0 <= j < at.len() ==> 0 <= #[trigger] at[j] < masks.len() && !masks[at[j]].data@[i],
        forall|k: int|
            0 <= k < masks.len() && !(#[trigger] masks[k]).data@[i] ==> at.contains(k),
    ensures
        samples(maps, masks, i, c).len() == at.len(),
{
    let own = law_samples_are_the_channels_own(maps, masks, i, c);
    assert(own.no_duplicates());
    own.unique_seq_to_set();
    at.unique_seq_to_set();
    assert(own.to_set() =~= at.to_set()) by {
        assert forall|k: int| own.to_set().contains(k) <==> at.to_set().contains(k) by {
            if own.contains(k) {
                let j = choose|j: int| 0 <= j < own.len() && own[j] == k;
                assert(!masks[own[j]].data@[i]);
                assert(at.contains(k));
            }
            if at.contains(k) {
                let j = choose|j: int| 0 <= j < at.len() && at[j] == k;
                assert(!masks[at[j]].data@[i]);
                assert(own.contains(k));
            }
        }
    }
}

proof fn lemma_no_more_than_frames(maps: Seq<BgMap>, masks: Seq<CellMask>, i: int, c: int)
    ensures
        samples(maps, masks, i, c).len() <= maps.len(),
    decreases maps.len(),
{
    if maps.len() > 0 {
        lemma_no_more_than_frames(maps.drop_last(), masks.drop_last(), i, c);
    }
}

proof fn lemma_seen_finite(maps: Seq<BgMap>, masks: Seq<CellMask>, i: int, c: int)
    requires
        maps.len() == masks.len(),
        maps.len() <= usize::MAX,
        0 <= c < 3,
        samples(maps, masks, i, c).len() > 0,
        forall|k: int, c: int|
            0 <= k < maps.len() && 0 <= c < 3 ==> -0x7f80_0000 < #[trigger] maps[k].data@[3 * i + c]
                < 0x7f80_0000,
    ensures
        has_finite_median(samples(maps, masks, i, c)),
{
    let s = samples(maps, masks, i, c);
    let at = law_samples_are_the_channels_own(maps, masks, i, c);
    lemma_no_more_than_frames(maps, masks, i, c);
    let m = order::lemma_some_median(s);
    assert(order::is_median(s, Some(m)));
    assert forall|j: int| 0 <= j < s.len() implies -0x7f7f_ffff <= #[trigger] s[j]
        <= 0x7f7f_ffff by {
        assert(s[j] == maps[at[j]].data@[3 * i + c]);
    }
    order::law_median_is_bounded(s, m, -0x7f7f_ffffi64, 0x7f7f_ffffi64);
    assert(finite(Some(m)));
}

/// Without masks every frame counts: what the maps hold at one place, frame by
/// frame.
pub proof fn law_all_frames_count(maps: Seq<BgMap>, k: int, f: int)
    requires
        0 <= f < maps.len(),
    ensures
        over_time(maps, k).len() == maps.len(),
        over_time(maps, k)[f] == maps[f].data@[k],
{
}

/// The consensus counts frames: the result lists those that set the cell, and
/// the cell is landscape exactly if they are more than the others.
pub proof fn law_consensus_is_the_majority(masks: Seq<CellMask>, i: int) -> (yes: Seq<int>)
    ensures
        votes(masks, i) == yes.len(),
        votes(masks, i) > masks.len() as int / 2 <==> yes.len() > masks.len() - yes.len(),
        forall|j: int|
            0 <= j < yes.len() ==> 0 <= #[trigger] yes[j] < masks.len() && masks[yes[j]].data@[i],
        forall|j: int, l: int| 0 <= j < l < yes.len() ==> #[trigger] yes[j] < #[trigger] yes[l],
        forall|k: int| 0 <= k < masks.len() && (#[trigger] masks[k]).data@[i] ==> yes.contains(k),
    decreases masks.len(),
{
    if masks.len() == 0 {
        Seq::empty()
    } else {
        let n = masks.len() - 1;
        let s = masks.drop_last();
        let front = law_consensus_is_the_majority(s, i);
        let yes = if masks.last().data@[i] {
            front.push(n)
        } else {
            front
        };
        assert forall|j: int| 0 <= j < yes.len() implies 0 <= #[trigger] yes[j] < masks.len()
            && masks[yes[j]].data@[i] by {
            if j < front.len() {
                assert(yes[j] == front[j] && s[front[j]] == masks[yes[j]]);
            }
        }
        assert forall|k: int| 0 <= k < masks.len() && (#[trigger] masks[k]).data@[i] implies yes.contains(
            k,
        ) by {
            if k < n {
                assert(s[k] == masks[k]);
                let j = choose|j: int| 0 <= j < front.len() && front[j] == k;
                assert(yes[j] == k);
            } else {
                assert(yes[front.len() as int] == k);
            }
        }
        yes
    }
}

/// A pixel belongs to the cell whose block it lies in; beyond the map the last
/// cell stands for it.
pub proof fn law_pixels_lie_in_their_cell(x: int, block: int, n: int)
    requires
        x >= 0,
        block > 0,
        n > 0,
    ensures
        0 <= cell_index(x, block, n) < n,
        block * cell_index(x, block, n) <= x,
        x < block * n ==> x < block * (cell_index(x, block, n) + 1),
        x >= block * n ==> cell_index(x, block, n) == n - 1,
{
    let q = x / block;
    vstd::arithmetic::div_mod::lemma_fundamental_div_mod(x, block);
    assert(0 <= q) by (nonlinear_arith)
        requires
            x >= 0,
            block > 0,
            q == x / block,
    ;
    assert(block * (q + 1) == block * q + block) by (nonlinear_arith);
    if q < n {
        assert(block * (q + 1) <= block * n) by (nonlinear_arith)
            requires
                q + 1 <= n,
                block > 0,
        ;
    } else {
        assert(block * (n - 1) <= block * q) by (nonlinear_arith)
            requires
                n - 1 <= q,
                block > 0,
        ;
        assert(block * n <= block * q) by (nonlinear_arith)
            requires
                n <= q,
                block > 0,
        ;
    }
}

/// A cell is dark only if a sky is predicted for it and it lies below the
/// bound: what is brighter than a cell that is not dark is not dark either.
pub proof fn law_dark_is_below_the_bound(pred: i64, a: i64, b: i64, bound: i64)
    requires
        a <= b,
    ensures
        !is_dark(pred, bound, bound),
        !is_dark(0, a, bound),
        pred < 0 ==> !is_dark(pred, a, bound),
        is_dark(pred, b, bound) ==> is_dark(pred, a, bound),
        pred > 0 && bound > i64::MIN ==> is_dark(pred, (bound - 1) as i64, bound),
{
}

/// The sky of a frame is the green of its cells outside the mask, in their
/// order. The result lists those cells.
pub proof fn law_sky_is_green_outside_the_mask(map: BgMap, mask: Seq<bool>, n: int) -> (at: Seq<
    int,
>)
    requires
        0 <= n <= mask.len(),
    ensures
        sky_values(map, mask, n).len() == at.len(),
        forall|j: int|
            0 <= j < at.len() ==> 0 <= #[trigger] at[j] < n && !mask[at[j]] && sky_values(
                map,
                mask,
                n,
            )[j] == map.data@[3 * at[j] + 1],
        forall|j: int, l: int| 0 <= j < l < at.len() ==> #[trigger] at[j] < #[trigger] at[l],
        forall|k: int| 0 <= k < n && !(#[trigger] mask[k]) ==> at.contains(k),
    decreases n,
{
    if n <= 0 {
        Seq::empty()
    } else {
        let front = law_sky_is_green_outside_the_mask(map, mask, n - 1);
        let at = if mask[n - 1] {
            front
        } else {
            front.push(n - 1)
        };
        assert forall|k: int| 0 <= k < n && !(#[trigger] mask[k]) implies at.contains(k) by {
            if k < n - 1 {
                let j = choose|j: int| 0 <= j < front.len() && front[j] == k;
                assert(at[j] == k);
            } else {
                assert(at[front.len() as int] == k);
            }
        }
        at
    }
}

/// What is kept are the components that are large enough.
#[verifier::opaque]
spec fn splits(
    dark: Seq<bool>,
    w: int,
    h: int,
    kept: Seq<bool>,
    comps: Seq<Seq<usize>>,
) -> bool {
    region::are_components(dark, w, h, comps) && forall|j: usize|
        j < dark.len() ==> (#[trigger] kept[j as int] <==> exists|k: int|
            0 <= k < comps.len() && (#[trigger] comps[k]).contains(j) && large()(comps[k]))
}

proof fn lemma_splits(dark: Seq<bool>, w: int, h: int, kept: Seq<bool>) -> (comps: Seq<Seq<usize>>)
    requires
        region::sifted(dark, w, h, large(), kept),
    ensures
        splits(dark, w, h, kept, comps),
        kept.len() == dark.len(),
{
    reveal(splits);
    choose|comps: Seq<Seq<usize>>| #[trigger]
        region::are_components(dark, w, h, comps) && forall|j: usize|
            j < dark.len() ==> (#[trigger] kept[j as int] <==> exists|k: int|
                0 <= k < comps.len() && (#[trigger] comps[k]).contains(j) && large()(comps[k]))
}

proof fn lemma_kept_is_large(
    dark: Seq<bool>,
    w: int,
    h: int,
    kept: Seq<bool>,
    comps: Seq<Seq<usize>>,
    j: usize,
) -> (k: int)
    requires
        splits(dark, w, h, kept, comps),
        j < dark.len(),
        kept[j as int],
    ensures
        0 <= k < comps.len(),
        comps[k].contains(j),
        comps[k].len() >= 2,
        comps[k].no_duplicates(),
        dark[j as int],
{
    reveal(splits);
    let k = choose|k: int| 0 <= k < comps.len() && (#[trigger] comps[k]).contains(j) && large()(
        comps[k],
    );
    assert(region::component_of(dark, w, h, comps[k][0] as int, comps[k]));
    k
}

proof fn lemma_large_is_kept(
    dark: Seq<bool>,
    w: int,
    h: int,
    kept: Seq<bool>,
    comps: Seq<Seq<usize>>,
    k: int,
    j: usize,
)
    requires
        splits(dark, w, h, kept, comps),
        j < dark.len(),
        0 <= k < comps.len(),
        comps[k].contains(j),
        comps[k].len() >= 2,
    ensures
        kept[j as int],
{
    reveal(splits);
    assert(comps[k].contains(j) && large()(comps[k]));
}

proof fn lemma_shared(
    dark: Seq<bool>,
    w: int,
    h: int,
    kept: Seq<bool>,
    comps: Seq<Seq<usize>>,
    a: usize,
    b: usize,
) -> (k: int)
    requires
        w > 0,
        dark.len() == w * h,
        splits(dark, w, h, kept, comps),
        a < dark.len(),
        b < dark.len(),
        dark[a as int],
        dark[b as int],
        (b == a + 1 && a as int % w + 1 < w) || (a == b + 1 && b as int % w + 1 < w) || b == a + w
            || a == b + w,
    ensures
        0 <= k < comps.len(),
        comps[k].contains(a),
        comps[k].contains(b),
{
    let k;
    assert(region::are_components(dark, w, h, comps)) by {
        reveal(splits);
    }
    k = region::law_components_cover(dark, w, h, comps, a);
    region::law_neighbours_share_a_component(dark, w, h, comps, k, a, b);
    k
}

proof fn lemma_tied(
    dark: Seq<bool>,
    w: int,
    h: int,
    kept: Seq<bool>,
    comps: Seq<Seq<usize>>,
    k: int,
    label: Seq<int>,
    a: usize,
    b: usize,
)
    requires
        w > 0,
        dark.len() == w * h,
        splits(dark, w, h, kept, comps),
        0 <= k < comps.len(),
        comps[k].contains(a),
        comps[k].contains(b),
        forall|i: int|
            0 <= i < dark.len() && #[trigger] dark[i] ==> (i % w + 1 < w && dark[i + 1] ==> label[i]
                == label[i + 1]) && (i + w < dark.len() && dark[i + w] ==> label[i] == label[i + w]),
    ensures
        b < dark.len(),
        label[a as int] == label[b as int],
{
    assert(region::are_components(dark, w, h, comps)) by {
        reveal(splits);
    }
    assert(b < dark.len()) by {
        assert(region::component_of(dark, w, h, comps[k][0] as int, comps[k]));
    }
    region::law_component_is_tied_by_neighbours(dark, w, h, comps, k, label, a, b);
}

proof fn lemma_paired(
    dark: Seq<bool>,
    w: int,
    h: int,
    kept: Seq<bool>,
    a: usize,
    b: usize,
)
    requires
        w > 0,
        dark.len() == w * h,
        region::sifted(dark, w, h, large(), kept),
        a < dark.len(),
        b < dark.len(),
        dark[a as int],
        dark[b as int],
        (b == a + 1 && a as int % w + 1 < w) || (a == b + 1 && b as int % w + 1 < w) || b == a + w
            || a == b + w,
    ensures
        kept[a as int],
{
    let comps = lemma_splits(dark, w, h, kept);
    let k = lemma_shared(dark, w, h, kept, comps, a, b);
    let i = choose|i: int| 0 <= i < comps[k].len() && comps[k][i] == a;
    let j = choose|j: int| 0 <= j < comps[k].len() && comps[k][j] == b;
    assert(i != j);
    lemma_large_is_kept(dark, w, h, kept, comps, k, a);
}

/// Two dark cells side by side, or one above the other, are foreground, and so
/// is everything up to a cell away from them.
pub proof fn law_dark_pairs_are_foreground(
    dark: Seq<bool>,
    w: int,
    h: int,
    kept: Seq<bool>,
    x: int,
    y: int,
    a: int,
    b: int,
)
    requires
        dark.len() == w * h,
        dark.len() <= usize::MAX,
        region::sifted(dark, w, h, large(), kept),
        0 <= x < w,
        0 <= y < h,
        0 <= a < w,
        0 <= b < h,
        -1 <= a - x <= 1,
        -1 <= b - y <= 1,
        dark[b * w + a],
        (a + 1 < w && dark[b * w + a + 1]) || (b + 1 < h && dark[(b + 1) * w + a]) || (a > 0
            && dark[b * w + a - 1]) || (b > 0 && dark[(b - 1) * w + a]),
    ensures
        region::grown(kept, w, h, FG_DILATE as int)[y * w + x],
{
    let i = b * w + a;
    grid::lemma_cell(a, b, w, h);
    region::lemma_place(a, b, w);
    assert((b + 1) * w == b * w + w) by (nonlinear_arith);
    assert((b - 1) * w == b * w - w) by (nonlinear_arith);
    if a + 1 < w && dark[i + 1] {
        grid::lemma_cell(a + 1, b, w, h);
        lemma_paired(dark, w, h, kept, i as usize, (i + 1) as usize);
    } else if b + 1 < h && dark[i + w] {
        grid::lemma_cell(a, b + 1, w, h);
        lemma_paired(dark, w, h, kept, i as usize, (i + w) as usize);
    } else if a > 0 && dark[i - 1] {
        grid::lemma_cell(a - 1, b, w, h);
        region::lemma_place(a - 1, b, w);
        assert(i - 1 == b * w + (a - 1));
        lemma_paired(dark, w, h, kept, i as usize, (i - 1) as usize);
    } else {
        grid::lemma_cell(a, b - 1, w, h);
        lemma_paired(dark, w, h, kept, i as usize, (i - w) as usize);
    }
    region::law_growth_reaches(kept, w, h, 1, x, y, a, b);
}

/// All foreground is up to a cell away from a dark cell that has another one
/// next to it: dark cells that stand alone do not count. The result names the
/// two.
pub proof fn law_foreground_comes_from_dark_pairs(
    dark: Seq<bool>,
    w: int,
    h: int,
    kept: Seq<bool>,
    x: int,
    y: int,
) -> (s: ((int, int), int))
    requires
        dark.len() == w * h,
        dark.len() <= usize::MAX,
        region::sifted(dark, w, h, large(), kept),
        0 <= x < w,
        0 <= y < h,
        region::grown(kept, w, h, FG_DILATE as int)[y * w + x],
    ensures
        ({
            let (a, b) = s.0;
            let i = b * w + a;
            &&& 0 <= a < w && 0 <= b < h
            &&& -1 <= a - x <= 1 && -1 <= b - y <= 1
            &&& dark[i]
            &&& 0 <= s.1 < dark.len() && dark[s.1]
            &&& (s.1 == i + 1 && a + 1 < w) || (s.1 == i - 1 && a > 0) || s.1 == i + w || s.1 == i
                - w
        }),
{
    let (a, b) = region::law_growth_comes_from_near(kept, w, h, 1, x, y);
    let i = b * w + a;
    grid::lemma_cell(a, b, w, h);
    region::lemma_place(a, b, w);
    let comps = lemma_splits(dark, w, h, kept);
    let j = i as usize;
    let k = lemma_kept_is_large(dark, w, h, kept, comps, j);
    let c = comps[k];
    let other = if c[0] != j {
        c[0]
    } else {
        c[1]
    };
    assert(c.contains(c[0]) && c.contains(c[1]));
    if dark_at(dark, i + 1) && a + 1 < w {
        ((a, b), i + 1)
    } else if dark_at(dark, i - 1) && a > 0 {
        ((a, b), i - 1)
    } else if dark_at(dark, i + w) {
        ((a, b), i + w)
    } else if dark_at(dark, i - w) {
        ((a, b), i - w)
    } else {
        let label = Seq::new(
            dark.len(),
            |q: int|
                if q == i {
                    1int
                } else {
                    0
                },
        );
        assert forall|q: int| 0 <= q < dark.len() && #[trigger] dark[q] implies (q % w + 1 < w
            && dark[q + 1] ==> label[q] == label[q + 1]) && (q + w < dark.len() && dark[q + w]
            ==> label[q] == label[q + w]) by {
            grid::lemma_cell_of(q, w, h);
            if q % w + 1 < w {
                grid::lemma_cell(q % w + 1, q / w, w, h);
                region::lemma_place(q % w + 1, q / w, w);
            }
        }
        lemma_tied(dark, w, h, kept, comps, k, label, j, other);
        ((a, b), i)
    }
}

spec fn dark_at(dark: Seq<bool>, i: int) -> bool {
    0 <= i < dark.len() && dark[i]
}

/// A gap is filled in from exactly those cells with a value that touch it,
/// corners included.
pub proof fn law_gaps_are_filled_from_what_touches(
    valid: Seq<bool>,
    w: int,
    h: int,
    x: int,
    y: int,
    a: int,
    b: int,
)
    requires
        valid.len() == w * h,
        valid.len() <= usize::MAX,
        0 <= x < w,
        0 <= y < h,
        0 <= a < w,
        0 <= b < h,
    ensures
        sources(valid, w, y * w + x).contains((b * w + a) as usize) <==> valid[b * w + a] && -1 <= a
            - x <= 1 && -1 <= b - y <= 1,
        after_round(valid, w).len() == valid.len(),
        valid[y * w + x] ==> after_round(valid, w)[y * w + x],
        valid[b * w + a] && -1 <= a - x <= 1 && -1 <= b - y <= 1 ==> after_round(
            valid,
            w,
        )[y * w + x],
        !valid[y * w + x] && after_round(valid, w)[y * w + x] ==> round_cells(valid, w).contains(
            (y * w + x) as usize,
        ) && sources(valid, w, y * w + x).len() > 0,
        round_cells(valid, w).contains((y * w + x) as usize) ==> !valid[y * w + x],
{
    let i = y * w + x;
    let j = b * w + a;
    grid::lemma_cell(x, y, w, h);
    grid::lemma_cell(a, b, w, h);
    region::lemma_place(x, y, w);
    region::lemma_place(a, b, w);
    let p = |j: int| valid[j] && touches(w, i, j);
    region::lemma_picked(valid.len() as int, p);
    let s = sources(valid, w, i);
    assert(s == region::picked(valid.len() as int, p));
    if s.contains(j as usize) {
        let k = choose|k: int| 0 <= k < s.len() && s[k] == j as usize;
        assert(p(s[k] as int));
    }
    if p(j) {
        assert(s.contains(j as usize));
        let k = choose|k: int| 0 <= k < s.len() && s[k] == j as usize;
        assert(s.len() > 0);
    }
    let q = |i: int| !valid[i] && sources(valid, w, i).len() > 0;
    region::lemma_picked(valid.len() as int, q);
    assert(round_cells(valid, w) == region::picked(valid.len() as int, q));
    let r = round_cells(valid, w);
    if r.contains(i as usize) {
        let k = choose|k: int| 0 <= k < r.len() && r[k] == i as usize;
        assert(q(r[k] as int));
    }
}

/// The median of a cell that no frame masks is, in each channel, what one of
/// the frames holds there in that channel, with half of the frames at or below
/// it and the rest at or above. The result lists the frames accordingly.
pub proof fn law_medians_are_of_each_channel(
    maps: Seq<BgMap>,
    masks: Seq<CellMask>,
    m: Median,
    i: int,
    c: int,
) -> (p: Seq<usize>)
    requires
        one_grid(maps, masks),
        are_medians(maps, masks, m),
        m.filled < m.valid@.len(),
        0 <= i < m.valid@.len(),
        0 <= c < 3,
        forall|k: int| 0 <= k < masks.len() ==> !(#[trigger] masks[k]).data@[i],
    ensures
        p.len() == maps.len(),
        p.no_duplicates(),
        forall|j: int| 0 <= j < p.len() ==> (#[trigger] p[j]) < maps.len(),
        ({
            let h = maps.len() as int / 2;
            &&& m.data@[3 * i + c] == Some(maps[p[h] as int].data@[3 * i + c])
            &&& forall|j: int|
                0 <= j <= h ==> maps[(#[trigger] p[j]) as int].data@[3 * i + c]
                    <= maps[p[h] as int].data@[3 * i + c]
            &&& forall|j: int|
                h <= j < p.len() ==> maps[(#[trigger] p[j]) as int].data@[3 * i + c]
                    >= maps[p[h] as int].data@[3 * i + c]
        }),
{
    law_clear_samples_are_all_frames(maps, masks, i, c);
    let s = samples(maps, masks, i, c);
    let v = m.data@[3 * i + c];
    assert(order::is_median(s, v));
    let p = order::law_median_is_in_the_middle(s, v);
    assert forall|j: int| 0 <= j < p.len() implies s[(#[trigger] p[j]) as int]
        == maps[p[j] as int].data@[3 * i + c] by {}
    p
}

/// A cell is filled in if and only if it is not measured, and where no cell is
/// measured all is zero.
pub proof fn law_unmeasured_cells_are_filled(
    maps: Seq<BgMap>,
    masks: Seq<CellMask>,
    m: Median,
    i: int,
)
    requires
        are_medians(maps, masks, m),
        0 <= i < maps[0].gw * maps[0].gh,
    ensures
        m.data@.len() == 3 * (maps[0].gw * maps[0].gh),
        m.valid@.len() == maps[0].gw * maps[0].gh,
        m.valid@[i] ==> measured(maps, masks, i) && m.filled < m.valid@.len(),
        !m.valid@[i] ==> !measured(maps, masks, i) && m.filled > 0,
        (forall|k: int| 0 <= k < m.valid@.len() ==> !(#[trigger] m.valid@[k])) ==> m.filled
            == m.valid@.len() && m.data@[3 * i] == Some(0i64) && m.data@[3 * i + 1] == Some(0i64)
            && m.data@[3 * i + 2] == Some(0i64),
{
    let v = m.valid@;
    let at = region::law_count_is_of_the_set(v);
    let n = v.len() as int;
    if v[i] {
        assert(at.contains(i));
    }
    assert(at.len() <= n) by {
        lemma_ascending_is_short(at, n);
    }
    if !v[i] && m.filled == 0 {
        assert(at.len() == n);
        lemma_ascending_fills(at, n, i);
        assert(v[at[i]]);
    }
    if forall|k: int| 0 <= k < v.len() ==> !(#[trigger] v[k]) {
        if at.len() > 0 {
            assert(v[at[0]]);
        }
    }
}

proof fn lemma_ascending_is_short(at: Seq<int>, n: int)
    requires
        0 <= n,
        forall|k: int| 0 <= k < at.len() ==> 0 <= #[trigger] at[k] < n,
        forall|k: int, l: int| 0 <= k < l < at.len() ==> #[trigger] at[k] < #[trigger] at[l],
    ensures
        at.len() <= n,
{
    if at.len() > 0 {
        lemma_at_least(at, n, at.len() - 1);
    }
}

proof fn lemma_at_least(at: Seq<int>, n: int, j: int)
    requires
        0 <= j < at.len(),
        forall|k: int| 0 <= k < at.len() ==> 0 <= #[trigger] at[k] < n,
        forall|k: int, l: int| 0 <= k < l < at.len() ==> #[trigger] at[k] < #[trigger] at[l],
    ensures
        at[j] >= j,
        at[j] + (at.len() - 1 - j) <= at[at.len() - 1],
    decreases at.len(),
{
    if j > 0 {
        lemma_at_least(at.drop_last(), n, if j < at.len() - 1 {
            j
        } else {
            j - 1
        });
    } else if at.len() > 1 {
        lemma_at_least(at.drop_last(), n, 0);
    }
    if at.len() > 1 {
        assert(at.drop_last()[at.len() - 2] == at[at.len() - 2]);
        assert(at[at.len() - 2] < at[at.len() - 1]);
    }
}

proof fn lemma_ascending_fills(at: Seq<int>, n: int, j: int)
    requires
        at.len() == n,
        0 <= j < n,
        forall|k: int| 0 <= k < at.len() ==> 0 <= #[trigger] at[k] < n,
        forall|k: int, l: int| 0 <= k < l < at.len() ==> #[trigger] at[k] < #[trigger] at[l],
    ensures
        at[j] == j,
{
    lemma_at_least(at, n, j);
    assert(at[at.len() - 1] < n);
}

/// A cell of the consensus is landscape exactly if more frames see it as such
/// than do not. `yes` lists those that do.
pub proof fn law_more_than_half_decide(
    masks: Seq<CellMask>,
    data: Seq<bool>,
    i: int,
    yes: Seq<int>,
)
    requires
        is_consensus(masks, data),
        0 <= i < data.len(),
        yes.no_duplicates(),
        forall|j: int|
            0 <= j < yes.len() ==> 0 <= #[trigger] yes[j] < masks.len() && masks[yes[j]].data@[i],
        forall|k: int| 0 <= k < masks.len() && (#[trigger] masks[k]).data@[i] ==> yes.contains(k),
    ensures
        data[i] <==> yes.len() > masks.len() - yes.len(),
{
    let own = law_consensus_is_the_majority(masks, i);
    assert(own.no_duplicates());
    own.unique_seq_to_set();
    yes.unique_seq_to_set();
    assert(own.to_set() =~= yes.to_set()) by {
        assert forall|k: int| own.to_set().contains(k) <==> yes.to_set().contains(k) by {
            if own.contains(k) {
                let j = choose|j: int| 0 <= j < own.len() && own[j] == k;
                assert(masks[own[j]].data@[i]);
            }
            if yes.contains(k) {
                let j = choose|j: int| 0 <= j < yes.len() && yes[j] == k;
                assert(masks[yes[j]].data@[i]);
            }
        }
    }
}

/// The sky level is the green of a cell outside the mask, with half of these
/// cells at or below it and the rest at or above; there is none where all is
/// masked. The result lists the cells accordingly.
pub proof fn law_sky_level_is_a_cells_green(map: BgMap, mask: Seq<bool>, m: Option<i64>) -> (q: Seq<
    int,
>)
    requires
        is_sky_level(map, mask, m),
        mask.len() == map.gw * map.gh,
    ensures
        m is None <==> forall|k: int| 0 <= k < mask.len() ==> #[trigger] mask[k],
        m matches Some(v) ==> {
            let h = q.len() as int / 2;
            &&& q.len() > 0
            &&& forall|j: int| 0 <= j < q.len() ==> 0 <= #[trigger] q[j] < mask.len() && !mask[q[j]]
            &&& map.data@[3 * q[h] + 1] == v
            &&& forall|j: int| 0 <= j <= h ==> map.data@[3 * (#[trigger] q[j]) + 1] <= v
            &&& forall|j: int| h <= j < q.len() ==> map.data@[3 * (#[trigger] q[j]) + 1] >= v
            &&& q.no_duplicates()
        },
{
    let n = mask.len() as int;
    let at = law_sky_is_green_outside_the_mask(map, mask, n);
    let s = sky_values(map, mask, n);
    let p = order::law_median_is_in_the_middle(s, m);
    if m is None {
        assert forall|k: int| 0 <= k < mask.len() implies #[trigger] mask[k] by {
            if !mask[k] {
                assert(at.contains(k));
            }
        }
        Seq::empty()
    } else {
        assert(!mask[at[0]]);
        let q = Seq::new(p.len(), |j: int| at[p[j] as int]);
        assert forall|j: int| 0 <= j < q.len() implies 0 <= #[trigger] q[j] < mask.len()
            && !mask[q[j]] && map.data@[3 * q[j] + 1] == s[p[j] as int] by {
            assert(at[p[j] as int] == q[j]);
        }
        assert forall|a: int, b: int| 0 <= a < q.len() && 0 <= b < q.len() && a != b implies q[a]
            != q[b] by {
            assert(p[a] != p[b]);
            if p[a] < p[b] {
                assert(at[p[a] as int] < at[p[b] as int]);
            } else {
                assert(at[p[b] as int] < at[p[a] as int]);
            }
        }
        let h = q.len() as int / 2;
        assert forall|j: int| 0 <= j <= h implies map.data@[3 * (#[trigger] q[j]) + 1] <= m->0 by {
            assert(s[p[j] as int] <= m->0);
        }
        assert forall|j: int| h <= j < q.len() implies map.data@[3 * (#[trigger] q[j]) + 1]
            >= m->0 by {
            assert(s[p[j] as int] >= m->0);
        }
        q
    }
}

/// Over all frames the median at a place is what one of them holds there, with
/// half of them at or below it and the rest at or above.
pub proof fn law_medians_are_of_each_place(maps: Seq<BgMap>, data: Seq<i64>, k: int) -> (p: Seq<
    usize,
>)
    requires
        maps.len() > 0,
        are_all_medians(maps, data),
        0 <= k < data.len(),
    ensures
        data.len() == maps[0].data@.len(),
        p.len() == maps.len(),
        p.no_duplicates(),
        forall|j: int| 0 <= j < p.len() ==> (#[trigger] p[j]) < maps.len(),
        ({
            let h = maps.len() as int / 2;
            &&& data[k] == maps[p[h] as int].data@[k]
            &&& forall|j: int| 0 <= j <= h ==> maps[(#[trigger] p[j]) as int].data@[k] <= data[k]
            &&& forall|j: int| h <= j < p.len() ==> maps[(#[trigger] p[j]) as int].data@[k] >= data[k]
        }),
{
    let p = order::law_median_is_in_the_middle(over_time(maps, k), Some(data[k]));
    let s = over_time(maps, k);
    assert forall|j: int| 0 <= j < p.len() implies s[(#[trigger] p[j]) as int]
        == maps[p[j] as int].data@[k] by {}
    p
}

/// A round fills in the gaps that touch a value, each from all that it touches.
pub proof fn law_rounds_fill_what_touches(
    valid: Seq<bool>,
    w: int,
    h: int,
    round: Seq<Fill>,
    k: int,
    x: int,
    y: int,
)
    requires
        valid.len() == w * h,
        valid.len() <= usize::MAX,
        is_round(valid, w, round),
        0 <= k < round.len(),
        0 <= x < w,
        0 <= y < h,
    ensures
        round[k].cell < valid.len(),
        !valid[round[k].cell as int],
        round[k].from@.len() > 0,
        round[k].from@.contains((y * w + x) as usize) <==> valid[y * w + x] && -1 <= x
            - round[k].cell as int % w <= 1 && -1 <= y - round[k].cell as int / w <= 1,
{
    let cells = round_cells(valid, w);
    let q = |i: int| !valid[i] && sources(valid, w, i).len() > 0;
    region::lemma_picked(valid.len() as int, q);
    assert(cells == region::picked(valid.len() as int, q));
    let i = cells[k] as int;
    assert(q(cells[k] as int));
    assert(w > 0);
    grid::lemma_cell_of(i, w, h);
    law_gaps_are_filled_from_what_touches(valid, w, h, i % w, i / w, x, y);
}

/// A frame is divided into cells of 32 by 32 pixels, and the correction is
/// evaluated on a grid of half that. A bin of fewer than six values does not
/// count.
pub proof fn law_sizes_of_grids()
    ensures
        BLOCK == 32,
        2 * CORR_STEP == BLOCK,
        BIN_MIN_SAMPLES == 6,
{
}

/// Every round of a plan fills something in, starting from what the rounds
/// before it have left.
pub proof fn law_rounds_build_on_each_other(
    valid: Seq<bool>,
    w: int,
    rounds: Seq<Vec<Fill>>,
    k: int,
)
    requires
        is_plan(valid, w, rounds),
        0 <= k < rounds.len(),
    ensures
        rounds[k]@.len() > 0,
        k == 0 ==> is_round(valid, w, rounds[k]@),
        k > 0 ==> is_round(after_round(after_rounds(valid, w, k - 1), w), w, rounds[k]@),
{
    assert(is_round(after_rounds(valid, w, k), w, rounds[k]@));
}

/// A map without a mask of its own holds data everywhere, any other where its
/// mask says so.
pub proof fn law_cells_hold_data(map: BgMap, i: int)
    ensures
        map.valid@.len() == 0 ==> map.holds(i),
        map.valid@.len() > 0 ==> (map.holds(i) <==> map.valid@[i]),
{
}

/// What is no number is not finite, nor is infinity of either sign; everything
/// between is.
pub proof fn law_finite_lies_between_the_infinities(k: i64)
    ensures
        !finite(None),
        -0x7f80_0000 < k < 0x7f80_0000 ==> finite(Some(k)),
        k >= 0x7f80_0000 || k <= -0x7f80_0000 ==> !finite(Some(k)),
{
}

} // verus!
