//! RAW files: which ones are taken, and how their colour mosaic is read.
use crate::grid;
use crate::text;
use rawloader::CFA;
use vstd::prelude::*;

verus! {

/// The file extensions the input listing accepts, in lower case.
pub const RAW_EXTENSIONS: [&'static str; 27] = [
    "3fr",
    "ari",
    "arw",
    "cr2",
    "crw",
    "dcr",
    "dcs",
    "dng",
    "erf",
    "fff",
    "iiq",
    "kdc",
    "mef",
    "mos",
    "mrw",
    "nef",
    "nrw",
    "orf",
    "pef",
    "raf",
    "raw",
    "rw2",
    "rwl",
    "sr2",
    "srf",
    "srw",
    "x3f",
];

/// A character with ASCII letters in lower case.
pub open spec fn lower(c: char) -> char {
    let u = c as u32;
    if 0x41 <= u <= 0x5a {
        (u + 0x20) as char
    } else {
        c
    }
}

/// A text with ASCII letters in lower case.
pub open spec fn lowered(s: Seq<char>) -> Seq<char> {
    s.map_values(|c: char| lower(c))
}

fn to_lower(c: char) -> (r: char)
    ensures
        r == lower(c),
{
    let u: u32 = c as u32;
    if 0x41 <= u && u <= 0x5a {
        (u as u8 + 0x20) as char
    } else {
        c
    }
}

/// Whether an extension is one of those accepted, whatever its case.
pub open spec fn accepted(ext: Seq<char>) -> bool {
    exists|k: int|
        0 <= k < RAW_EXTENSIONS.len() && lowered(ext) == lowered((#[trigger] RAW_EXTENSIONS@[k])@)
}

fn same_ignoring_case(a: &[char], b: &[char]) -> (r: bool)
    ensures
        r <==> lowered(a@) == lowered(b@),
{
    if a.len() != b.len() {
        assert(lowered(a@).len() != lowered(b@).len());
        return false;
    }
    let mut i: usize = 0;
    while i < a.len()
        invariant
            i <= a@.len(),
            a@.len() == b@.len(),
            forall|j: int| 0 <= j < i ==> lower(#[trigger] a@[j]) == lower(b@[j]),
        decreases a@.len() - i,
    {
        if to_lower(a[i]) != to_lower(b[i]) {
            assert(lowered(a@)[i as int] != lowered(b@)[i as int]);
            return false;
        }
        i = i + 1;
    }
    assert(lowered(a@) =~= lowered(b@));
    true
}

/// Whether a file is taken for a RAW, by its extension; a file without one is
/// not.
pub fn is_raw_file(extension: Option<&str>) -> (b: bool)
    ensures
        b == (extension is Some && accepted(extension->0@)),
{
    match extension {
        None => false,
        Some(e) => {
            let c = text::chars(e);
            let list = RAW_EXTENSIONS;
            let mut k: usize = 0;
            while k < 27
                invariant
                    k <= 27,
                    extension == Some(e),
                    c@ == e@,
                    list@ == RAW_EXTENSIONS@,
                    forall|j: int|
                        0 <= j < k ==> lowered(e@) != lowered((#[trigger] RAW_EXTENSIONS@[j])@),
                decreases 27 - k,
            {
                let x = text::chars(list[k]);
                if same_ignoring_case(c.as_slice(), x.as_slice()) {
                    assert(lowered(e@) == lowered(RAW_EXTENSIONS@[k as int]@));
                    return true;
                }
                k = k + 1;
            }
            false
        },
    }
}

/// The case of an extension never matters.
pub proof fn law_extension_case_is_ignored(a: Seq<char>, b: Seq<char>)
    requires
        lowered(a) == lowered(b),
    ensures
        accepted(a) == accepted(b),
{
}

/// Columns and rows of the mosaic pattern that a text of `n` letters
/// describes; none for a length that describes no pattern.
pub open spec fn pattern_size(n: int) -> Option<(int, int)> {
    if n == 4 {
        Some((2, 2))
    } else if n == 16 {
        Some((2, 8))
    } else if n == 36 {
        Some((6, 6))
    } else if n == 144 {
        Some((12, 12))
    } else {
        None
    }
}

/// The colour number of a letter: red, green, blue and a fourth one.
pub open spec fn colour_number(c: char) -> Option<int> {
    if c == 'R' {
        Some(0)
    } else if c == 'G' || c == 'M' {
        Some(1)
    } else if c == 'B' {
        Some(2)
    } else if c == 'E' || c == 'Y' {
        Some(3)
    } else {
        None
    }
}

/// A text that describes a mosaic pattern: row after row, a letter per pixel.
/// The empty text stands for no mosaic.
pub open spec fn describes_pattern(p: Seq<char>) -> bool {
    &&& p.len() == 0 || pattern_size(p.len() as int) is Some
    &&& forall|i: int| 0 <= i < p.len() ==> colour_number(#[trigger] p[i]) is Some
}

/// The colour number at a position of a repeated pattern; zero everywhere
/// without one.
pub open spec fn pattern_at(p: Seq<char>, row: int, col: int) -> int {
    match pattern_size(p.len() as int) {
        None => 0,
        Some((w, h)) => colour_number(p[row % h * w + col % w])->0,
    }
}

/// `rawloader::CFA::new` and `rawloader::CFA::color_at`: the pattern, row by
/// row, repeats over the whole sensor, and the colour at a position is that of
/// its letter. A text that describes no pattern makes `new` panic, and a row
/// or column within 48 of the largest number overflows in `color_at`.
#[verifier::external_body]
fn cfa_color(pattern: &str, row: usize, col: usize) -> (c: usize)
    requires
        describes_pattern(pattern@),
        row <= usize::MAX - 48,
        col <= usize::MAX - 48,
    ensures
        c == pattern_at(pattern@, row as int, col as int),
{
    CFA::new(pattern).color_at(row, col)
}

/// Whether a text describes a mosaic pattern.
pub fn is_pattern(pattern: &str) -> (b: bool)
    ensures
        b == describes_pattern(pattern@),
{
    let c = text::chars(pattern);
    let n: usize = c.len();
    if !(n == 0 || n == 4 || n == 16 || n == 36 || n == 144) {
        return false;
    }
    let mut i: usize = 0;
    while i < n
        invariant
            i <= n == c@.len(),
            c@ == pattern@,
            forall|j: int| 0 <= j < i ==> colour_number(#[trigger] c@[j]) is Some,
        decreases n - i,
    {
        let x: char = c[i];
        if !(x == 'R' || x == 'G' || x == 'B' || x == 'E' || x == 'M' || x == 'Y') {
            assert(colour_number(c@[i as int]) is None);
            return false;
        }
        i = i + 1;
    }
    true
}

/// The colour of a pixel of the mosaic.
#[derive(Clone, Copy, Debug, PartialEq, Eq, Structural)]
pub enum Colour {
    Red,
    Green,
    Blue,
}

/// The Bayer patterns, named by their first two rows.
#[derive(Clone, Copy, Debug, PartialEq, Eq, Structural)]
pub enum Cfa {
    Rggb,
    Bggr,
    Grbg,
    Gbrg,
}

/// The letter for a colour number.
pub open spec fn letter(c: int) -> char {
    if c == 0 {
        'R'
    } else if c == 1 {
        'G'
    } else if c == 2 {
        'B'
    } else {
        '?'
    }
}

/// The first two rows and columns as letters.
pub open spec fn tile(p: Seq<char>) -> Seq<char> {
    seq![
        letter(pattern_at(p, 0, 0)),
        letter(pattern_at(p, 0, 1)),
        letter(pattern_at(p, 1, 0)),
        letter(pattern_at(p, 1, 1)),
    ]
}

/// The Bayer pattern of four letters.
pub open spec fn bayer_of(t: Seq<char>) -> Option<Cfa> {
    if t == seq!['R', 'G', 'G', 'B'] {
        Some(Cfa::Rggb)
    } else if t == seq!['B', 'G', 'G', 'R'] {
        Some(Cfa::Bggr)
    } else if t == seq!['G', 'R', 'B', 'G'] {
        Some(Cfa::Grbg)
    } else if t == seq!['G', 'B', 'R', 'G'] {
        Some(Cfa::Gbrg)
    } else {
        None
    }
}

fn to_letter(c: usize) -> (l: char)
    ensures
        l == letter(c as int),
{
    if c == 0 {
        'R'
    } else if c == 1 {
        'G'
    } else if c == 2 {
        'B'
    } else {
        '?'
    }
}

/// Where a colour stands in the two by two tile, as column and row.
pub open spec fn place(cfa: Cfa, red: bool) -> (int, int) {
    match cfa {
        Cfa::Rggb => if red {
            (0, 0)
        } else {
            (1, 1)
        },
        Cfa::Bggr => if red {
            (1, 1)
        } else {
            (0, 0)
        },
        Cfa::Grbg => if red {
            (1, 0)
        } else {
            (0, 1)
        },
        Cfa::Gbrg => if red {
            (0, 1)
        } else {
            (1, 0)
        },
    }
}

/// The colour of a pixel.
pub open spec fn colour_at(cfa: Cfa, x: int, y: int) -> Colour {
    if (x % 2, y % 2) == place(cfa, true) {
        Colour::Red
    } else if (x % 2, y % 2) == place(cfa, false) {
        Colour::Blue
    } else {
        Colour::Green
    }
}

impl Cfa {
    /// The Bayer pattern of a sensor, by the text that describes its mosaic;
    /// the letters of its tile where it is none of the four.
    pub fn from(pattern: &str) -> (r: Result<Cfa, String>)
        requires
            describes_pattern(pattern@),
        ensures
            match r {
                Ok(c) => bayer_of(tile(pattern@)) == Some(c),
                Err(t) => bayer_of(tile(pattern@)) is None && t@ == tile(pattern@),
            },
    {
        let a: char = to_letter(cfa_color(pattern, 0, 0));
        let b: char = to_letter(cfa_color(pattern, 0, 1));
        let c: char = to_letter(cfa_color(pattern, 1, 0));
        let d: char = to_letter(cfa_color(pattern, 1, 1));
        let t: [char; 4] = [a, b, c, d];
        proof {
            assert(t@ =~= tile(pattern@));
            let rggb = seq!['R', 'G', 'G', 'B'];
            let bggr = seq!['B', 'G', 'G', 'R'];
            let grbg = seq!['G', 'R', 'B', 'G'];
            let gbrg = seq!['G', 'B', 'R', 'G'];
            assert(t@ == rggb <==> t@ =~= rggb);
            assert(t@ == bggr <==> t@ =~= bggr);
            assert(t@ == grbg <==> t@ =~= grbg);
            assert(t@ == gbrg <==> t@ =~= gbrg);
            assert(t@[0] == a && t@[1] == b && t@[2] == c && t@[3] == d);
        }
        if a == 'R' && b == 'G' && c == 'G' && d == 'B' {
            Ok(Cfa::Rggb)
        } else if a == 'B' && b == 'G' && c == 'G' && d == 'R' {
            Ok(Cfa::Bggr)
        } else if a == 'G' && b == 'R' && c == 'B' && d == 'G' {
            Ok(Cfa::Grbg)
        } else if a == 'G' && b == 'B' && c == 'R' && d == 'G' {
            Ok(Cfa::Gbrg)
        } else {
            Err(text::string(&t))
        }
    }

    /// Whether a pixel is red.
    pub fn is_red(self, x: usize, y: usize) -> (b: bool)
        ensures
            b == (colour_at(self, x as int, y as int) is Red),
    {
        let (rx, ry): (usize, usize) = match self {
            Cfa::Rggb => (0, 0),
            Cfa::Bggr => (1, 1),
            Cfa::Grbg => (1, 0),
            Cfa::Gbrg => (0, 1),
        };
        x % 2 == rx && y % 2 == ry
    }

    /// Whether a pixel is blue.
    pub fn is_blue(self, x: usize, y: usize) -> (b: bool)
        ensures
            b == (colour_at(self, x as int, y as int) is Blue),
    {
        let (bx, by): (usize, usize) = match self {
            Cfa::Rggb => (1, 1),
            Cfa::Bggr => (0, 0),
            Cfa::Grbg => (0, 1),
            Cfa::Gbrg => (1, 0),
        };
        x % 2 == bx && y % 2 == by
    }

    /// The colour of a pixel.
    pub fn colour(self, x: usize, y: usize) -> (c: Colour)
        ensures
            c == colour_at(self, x as int, y as int),
    {
        if self.is_red(x, y) {
            Colour::Red
        } else if self.is_blue(x, y) {
            Colour::Blue
        } else {
            Colour::Green
        }
    }
}

/// Every pattern read from a sensor says of each pixel the colour that the
/// sensor has there.
pub proof fn law_pattern_is_the_sensors(p: Seq<char>, cfa: Cfa, x: int, y: int)
    requires
        p.len() == 4,
        bayer_of(tile(p)) == Some(cfa),
        x >= 0,
        y >= 0,
    ensures
        colour_at(cfa, x, y) is Red <==> pattern_at(p, y, x) == 0,
        colour_at(cfa, x, y) is Green <==> pattern_at(p, y, x) == 1,
        colour_at(cfa, x, y) is Blue <==> pattern_at(p, y, x) == 2,
{
    let t = tile(p);
    let k = y % 2 * 2 + x % 2;
    assert(pattern_at(p, y, x) == pattern_at(p, y % 2, x % 2));
    assert(t[0] == letter(pattern_at(p, 0, 0)));
    assert(t[1] == letter(pattern_at(p, 0, 1)));
    assert(t[2] == letter(pattern_at(p, 1, 0)));
    assert(t[3] == letter(pattern_at(p, 1, 1)));
    assert(t[k] == letter(pattern_at(p, y % 2, x % 2)));
}

/// Any two by two pixels hold one red, one blue and two green ones.
pub proof fn law_tile_holds_all_colours(cfa: Cfa, x: int, y: int)
    ensures
        ({
            let c = seq![
                colour_at(cfa, x, y),
                colour_at(cfa, x + 1, y),
                colour_at(cfa, x, y + 1),
                colour_at(cfa, x + 1, y + 1),
            ];
            &&& exists|i: int| 0 <= i < 4 && (#[trigger] c[i]) is Red && forall|j: int|
                0 <= j < 4 && (#[trigger] c[j]) is Red ==> j == i
            &&& exists|i: int| 0 <= i < 4 && (#[trigger] c[i]) is Blue && forall|j: int|
                0 <= j < 4 && (#[trigger] c[j]) is Blue ==> j == i
        }),
{
    let c = seq![
        colour_at(cfa, x, y),
        colour_at(cfa, x + 1, y),
        colour_at(cfa, x, y + 1),
        colour_at(cfa, x + 1, y + 1),
    ];
    let (rx, ry) = place(cfa, true);
    let (bx, by) = place(cfa, false);
    let r = (if x % 2 == rx {
        0int
    } else {
        1
    }) + (if y % 2 == ry {
        0int
    } else {
        2
    });
    let b = (if x % 2 == bx {
        0int
    } else {
        1
    }) + (if y % 2 == by {
        0int
    } else {
        2
    });
    assert((x + 1) % 2 == 1 - x % 2 && (y + 1) % 2 == 1 - y % 2);
    assert(c[r] is Red && c[b] is Blue);
    assert forall|j: int| 0 <= j < 4 && (#[trigger] c[j]) is Red implies j == r by {}
    assert forall|j: int| 0 <= j < 4 && (#[trigger] c[j]) is Blue implies j == b by {}
}

/// Position `k` of a pixel's surroundings: the pixel itself, and then the
/// eight around it, row by row.
pub open spec fn around(x: int, y: int, k: int) -> (int, int) {
    if k == 0 {
        (x, y)
    } else {
        let m = if k <= 4 {
            k - 1
        } else {
            k
        };
        (x + m % 3 - 1, y + m / 3 - 1)
    }
}

/// What the first `n` positions of a pixel's surroundings contribute: index
/// and colour of those inside the image.
pub open spec fn taps_of(cfa: Cfa, x: int, y: int, w: int, h: int, n: int) -> Seq<(usize, Colour)>
    decreases n,
{
    if n <= 0 {
        Seq::empty()
    } else {
        let (a, b) = around(x, y, n - 1);
        let front = taps_of(cfa, x, y, w, h, n - 1);
        if 0 <= a < w && 0 <= b < h {
            front.push((grid::cell(a, b, w) as usize, colour_at(cfa, a, b)))
        } else {
            front
        }
    }
}

/// The samples a pixel's colours are averaged from: for each, its index and
/// colour, the pixel itself first.
pub fn taps(cfa: Cfa, x: usize, y: usize, w: usize, h: usize, out: &mut Vec<(usize, Colour)>)
    requires
        x < w,
        y < h,
        w * h <= usize::MAX,
        w < usize::MAX,
        h < usize::MAX,
    ensures
        final(out)@ == taps_of(cfa, x as int, y as int, w as int, h as int, 9),
{
    out.clear();
    let mut k: usize = 0;
    while k < 9
        invariant
            k <= 9,
            x < w,
            y < h,
            w * h <= usize::MAX,
            w < usize::MAX,
            h < usize::MAX,
            out@ == taps_of(cfa, x as int, y as int, w as int, h as int, k as int),
        decreases 9 - k,
    {
        let m: usize = if k == 0 {
            4
        } else if k <= 4 {
            k - 1
        } else {
            k
        };
        // One past the column and the row, so that neither goes below zero.
        let a: usize = x + m % 3;
        let b: usize = y + m / 3;
        if a >= 1 && a <= w && b >= 1 && b <= h {
            let (nx, ny): (usize, usize) = (a - 1, b - 1);
            proof {
                grid::lemma_cell(nx as int, ny as int, w as int, h as int);
            }
            out.push((ny * w + nx, cfa.colour(nx, ny)));
        }
        k = k + 1;
    }
}

/// Whether the decoded data fill the image exactly.
pub fn size_matches(len: usize, w: usize, h: usize) -> (b: bool)
    ensures
        b == (len == w * h),
{
    match w.checked_mul(h) {
        Some(n) => len == n,
        None => false,
    }
}

/// The patterns are named after the colours of their first two rows, and
/// repeat every two columns and rows.
pub proof fn law_patterns_are_what_they_are_called(cfa: Cfa, x: int, y: int)
    ensures
        colour_at(Cfa::Rggb, 0, 0) is Red && colour_at(Cfa::Rggb, 1, 0) is Green && colour_at(
            Cfa::Rggb,
            0,
            1,
        ) is Green && colour_at(Cfa::Rggb, 1, 1) is Blue,
        colour_at(Cfa::Bggr, 0, 0) is Blue && colour_at(Cfa::Bggr, 1, 0) is Green && colour_at(
            Cfa::Bggr,
            0,
            1,
        ) is Green && colour_at(Cfa::Bggr, 1, 1) is Red,
        colour_at(Cfa::Grbg, 0, 0) is Green && colour_at(Cfa::Grbg, 1, 0) is Red && colour_at(
            Cfa::Grbg,
            0,
            1,
        ) is Blue && colour_at(Cfa::Grbg, 1, 1) is Green,
        colour_at(Cfa::Gbrg, 0, 0) is Green && colour_at(Cfa::Gbrg, 1, 0) is Blue && colour_at(
            Cfa::Gbrg,
            0,
            1,
        ) is Red && colour_at(Cfa::Gbrg, 1, 1) is Green,
        colour_at(cfa, x + 2, y) == colour_at(cfa, x, y),
        colour_at(cfa, x, y + 2) == colour_at(cfa, x, y),
{
}

/// What four letters describe is the pattern of that name.
pub proof fn law_four_letters_name_the_pattern(p: Seq<char>)
    requires
        p.len() == 4,
    ensures
        p == seq!['R', 'G', 'G', 'B'] ==> bayer_of(tile(p)) == Some(Cfa::Rggb),
        p == seq!['B', 'G', 'G', 'R'] ==> bayer_of(tile(p)) == Some(Cfa::Bggr),
        p == seq!['G', 'R', 'B', 'G'] ==> bayer_of(tile(p)) == Some(Cfa::Grbg),
        p == seq!['G', 'B', 'R', 'G'] ==> bayer_of(tile(p)) == Some(Cfa::Gbrg),
        bayer_of(tile(p)) is Some ==> tile(p).contains('R') && tile(p).contains('B')
            && tile(p).contains('G'),
{
    let t = tile(p);
    assert(t[0] == letter(pattern_at(p, 0, 0)));
    assert(t[1] == letter(pattern_at(p, 0, 1)));
    assert(t[2] == letter(pattern_at(p, 1, 0)));
    assert(t[3] == letter(pattern_at(p, 1, 1)));
    let two = 2int;
    assert(pattern_size(p.len() as int) == Some((two, two)));
    assert(1int % two * two + 0int % two == 2 && 1int % two * two + 1int % two == 3)
        by (nonlinear_arith)
        requires
            two == 2,
    ;
    assert(pattern_at(p, 0, 0) == colour_number(p[0])->0);
    assert(pattern_at(p, 0, 1) == colour_number(p[1])->0);
    assert(pattern_at(p, 1, 0) == colour_number(p[2])->0);
    assert(pattern_at(p, 1, 1) == colour_number(p[3])->0);
    let rggb = seq!['R', 'G', 'G', 'B'];
    let bggr = seq!['B', 'G', 'G', 'R'];
    let grbg = seq!['G', 'R', 'B', 'G'];
    let gbrg = seq!['G', 'B', 'R', 'G'];
    if p == rggb {
        assert(t =~= rggb);
    }
    if p == bggr {
        assert(t =~= bggr);
        assert(t[0] != rggb[0]);
    }
    if p == grbg {
        assert(t =~= grbg);
        assert(t[0] != rggb[0] && t[0] != bggr[0]);
    }
    if p == gbrg {
        assert(t =~= gbrg);
        assert(t[0] != rggb[0] && t[0] != bggr[0] && t[1] != grbg[1]);
    }
    if bayer_of(t) is Some {
        assert(rggb[0] == 'R' && rggb[1] == 'G' && rggb[3] == 'B');
        assert(bggr[3] == 'R' && bggr[1] == 'G' && bggr[0] == 'B');
        assert(grbg[1] == 'R' && grbg[0] == 'G' && grbg[2] == 'B');
        assert(gbrg[2] == 'R' && gbrg[0] == 'G' && gbrg[1] == 'B');
        assert(t == rggb || t == bggr || t == grbg || t == gbrg);
    }
}

proof fn lemma_taps(cfa: Cfa, x: int, y: int, w: int, h: int, n: int, k: int)
    requires
        0 <= x < w,
        0 <= y < h,
        w * h <= usize::MAX,
        0 <= n <= 9,
    ensures
        taps_of(cfa, x, y, w, h, n).len() <= n,
        forall|j: int|
            0 <= j < taps_of(cfa, x, y, w, h, n).len() ==> ({
                let i = (#[trigger] taps_of(cfa, x, y, w, h, n)[j]).0 as int;
                &&& i < w * h
                &&& -1 <= i % w - x <= 1 && -1 <= i / w - y <= 1
                &&& taps_of(cfa, x, y, w, h, n)[j].1 == colour_at(cfa, i % w, i / w)
            }),
        0 <= k < n && 0 <= around(x, y, k).0 < w && 0 <= around(x, y, k).1 < h ==> taps_of(
            cfa,
            x,
            y,
            w,
            h,
            n,
        ).contains(
            (
                grid::cell(around(x, y, k).0, around(x, y, k).1, w) as usize,
                colour_at(cfa, around(x, y, k).0, around(x, y, k).1),
            ),
        ),
        n > 0 ==> taps_of(cfa, x, y, w, h, n).len() > 0 && taps_of(cfa, x, y, w, h, n)[0].0 == y * w
            + x,
    decreases n,
{
    if n > 0 {
        lemma_taps(cfa, x, y, w, h, n - 1, k);
        let front = taps_of(cfa, x, y, w, h, n - 1);
        let all = taps_of(cfa, x, y, w, h, n);
        let (a, b) = around(x, y, n - 1);
        if 0 <= a < w && 0 <= b < h {
            grid::lemma_cell(a, b, w, h);
            crate::region::lemma_place(a, b, w);
        }
        if n == 1 {
            grid::lemma_cell(x, y, w, h);
        }
        assert forall|j: int| 0 <= j < all.len() implies ({
            let i = (#[trigger] all[j]).0 as int;
            &&& i < w * h
            &&& -1 <= i % w - x <= 1 && -1 <= i / w - y <= 1
            &&& all[j].1 == colour_at(cfa, i % w, i / w)
        }) by {
            if j < front.len() {
                assert(all[j] == front[j]);
            }
        }
        if 0 <= k < n && 0 <= around(x, y, k).0 < w && 0 <= around(x, y, k).1 < h {
            let e = (
                grid::cell(around(x, y, k).0, around(x, y, k).1, w) as usize,
                colour_at(cfa, around(x, y, k).0, around(x, y, k).1),
            );
            if k < n - 1 {
                let j = choose|j: int| 0 <= j < front.len() && front[j] == e;
                assert(all[j] == e);
            } else {
                assert(all[front.len() as int] == e);
            }
        }
    }
}

/// Every sample carries the colour that the sensor has at its own pixel, and is
/// at most one column and row away. The pixel itself comes first.
pub proof fn law_samples_keep_their_colour(cfa: Cfa, x: int, y: int, w: int, h: int, j: int)
    requires
        0 <= x < w,
        0 <= y < h,
        w * h <= usize::MAX,
        0 <= j < taps_of(cfa, x, y, w, h, 9).len(),
    ensures
        ({
            let (i, c) = taps_of(cfa, x, y, w, h, 9)[j];
            &&& i < w * h
            &&& -1 <= i as int % w - x <= 1
            &&& -1 <= i as int / w - y <= 1
            &&& c == colour_at(cfa, i as int % w, i as int / w)
        }),
        taps_of(cfa, x, y, w, h, 9)[0] == ((y * w + x) as usize, colour_at(cfa, x, y)),
{
    lemma_taps(cfa, x, y, w, h, 9, 0);
    grid::lemma_cell(x, y, w, h);
    crate::region::lemma_place(x, y, w);
    let first = taps_of(cfa, x, y, w, h, 9)[0];
    assert(first.1 == colour_at(cfa, first.0 as int % w, first.0 as int / w));
}

/// Every pixel of the image at most one column and row away gives a sample.
pub proof fn law_all_neighbours_give_a_sample(
    cfa: Cfa,
    x: int,
    y: int,
    w: int,
    h: int,
    a: int,
    b: int,
)
    requires
        0 <= x < w,
        0 <= y < h,
        w * h <= usize::MAX,
        0 <= a < w,
        0 <= b < h,
        -1 <= a - x <= 1,
        -1 <= b - y <= 1,
    ensures
        taps_of(cfa, x, y, w, h, 9).contains(((b * w + a) as usize, colour_at(cfa, a, b))),
{
    let m = 3 * (b - y + 1) + (a - x + 1);
    let k = if m == 4 {
        0
    } else if m < 4 {
        m + 1
    } else {
        m
    };
    assert(around(x, y, k) == (a, b));
    lemma_taps(cfa, x, y, w, h, 9, k);
}

/// No pixel gives two samples.
pub proof fn law_no_sample_counts_twice(cfa: Cfa, x: int, y: int, w: int, h: int, n: int, i: int, j: int)
    requires
        0 <= x < w,
        0 <= y < h,
        w * h <= usize::MAX,
        0 <= n <= 9,
        0 <= i < j < taps_of(cfa, x, y, w, h, n).len(),
    ensures
        taps_of(cfa, x, y, w, h, n)[i].0 != taps_of(cfa, x, y, w, h, n)[j].0,
    decreases n,
{
    let front = taps_of(cfa, x, y, w, h, n - 1);
    let all = taps_of(cfa, x, y, w, h, n);
    if j < front.len() {
        law_no_sample_counts_twice(cfa, x, y, w, h, n - 1, i, j);
        assert(all[i] == front[i] && all[j] == front[j]);
    } else {
        let (a, b) = around(x, y, n - 1);
        grid::lemma_cell(a, b, w, h);
        crate::region::lemma_place(a, b, w);
        let k = lemma_tap_from(cfa, x, y, w, h, n - 1, i);
        assert(all[i] == front[i]);
        let (c, d) = around(x, y, k);
        grid::lemma_cell(c, d, w, h);
        crate::region::lemma_place(c, d, w);
        assert((a, b) != (c, d));
    }
}

proof fn lemma_tap_from(cfa: Cfa, x: int, y: int, w: int, h: int, n: int, i: int) -> (k: int)
    requires
        0 <= i < taps_of(cfa, x, y, w, h, n).len(),
    ensures
        0 <= k < n,
        0 <= around(x, y, k).0 < w,
        0 <= around(x, y, k).1 < h,
        taps_of(cfa, x, y, w, h, n)[i].0 == grid::cell(
            around(x, y, k).0,
            around(x, y, k).1,
            w,
        ) as usize,
    decreases n,
{
    let front = taps_of(cfa, x, y, w, h, n - 1);
    if i < front.len() {
        lemma_tap_from(cfa, x, y, w, h, n - 1, i)
    } else {
        n - 1
    }
}

/// In an image of at least two by two pixels every pixel has samples of all
/// three colours. The result names the place of one.
pub proof fn law_no_colour_is_missing(cfa: Cfa, x: int, y: int, w: int, h: int, c: Colour) -> (j: int)
    requires
        0 <= x < w,
        0 <= y < h,
        w >= 2,
        h >= 2,
        w * h <= usize::MAX,
    ensures
        0 <= j < taps_of(cfa, x, y, w, h, 9).len(),
        taps_of(cfa, x, y, w, h, 9)[j].1 == c,
{
    let all = taps_of(cfa, x, y, w, h, 9);
    let a = if x + 1 < w {
        x + 1
    } else {
        x - 1
    };
    let b = if y + 1 < h {
        y + 1
    } else {
        y - 1
    };
    law_all_neighbours_give_a_sample(cfa, x, y, w, h, x, y);
    law_all_neighbours_give_a_sample(cfa, x, y, w, h, a, y);
    law_all_neighbours_give_a_sample(cfa, x, y, w, h, x, b);
    law_all_neighbours_give_a_sample(cfa, x, y, w, h, a, b);
    assert(a % 2 == 1 - x % 2 && b % 2 == 1 - y % 2);
    let (p, q) = if colour_at(cfa, x, y) == c {
        (x, y)
    } else if colour_at(cfa, a, y) == c {
        (a, y)
    } else if colour_at(cfa, x, b) == c {
        (x, b)
    } else {
        (a, b)
    };
    assert(colour_at(cfa, p, q) == c);
    let e = ((q * w + p) as usize, c);
    assert(all.contains(e));
    choose|j: int| 0 <= j < all.len() && all[j] == e
}

/// Capital letters become small ones, and nothing else changes.
pub proof fn law_lower_case(c: char)
    ensures
        'A' <= c <= 'Z' ==> lower(c) as int == c as int + 32,
        !('A' <= c <= 'Z') ==> lower(c) == c,
{
}

/// The extensions of RAW files are accepted, those of the common cameras first
/// of all.
pub proof fn law_raw_extensions_are_accepted()
    ensures
        accepted("arw"@) && accepted("nef"@) && accepted("cr2"@) && accepted("dng"@),
        accepted("raf"@) && accepted("orf"@) && accepted("rw2"@) && accepted("pef"@),
        accepted("3fr"@) && accepted("ari"@) && accepted("crw"@) && accepted("dcr"@),
        accepted("dcs"@) && accepted("erf"@) && accepted("fff"@) && accepted("iiq"@),
        accepted("kdc"@) && accepted("mef"@) && accepted("mos"@) && accepted("mrw"@),
        accepted("nrw"@) && accepted("raw"@) && accepted("rwl"@) && accepted("sr2"@),
        accepted("srf"@) && accepted("srw"@) && accepted("x3f"@),
{
    let e = RAW_EXTENSIONS@;
    assert(e[2]@ == "arw"@ && e[15]@ == "nef"@ && e[3]@ == "cr2"@ && e[7]@ == "dng"@);
    assert(e[19]@ == "raf"@ && e[17]@ == "orf"@ && e[21]@ == "rw2"@ && e[18]@ == "pef"@);
    assert(e[0]@ == "3fr"@ && e[1]@ == "ari"@ && e[4]@ == "crw"@ && e[5]@ == "dcr"@);
    assert(e[6]@ == "dcs"@ && e[8]@ == "erf"@ && e[9]@ == "fff"@ && e[10]@ == "iiq"@);
    assert(e[11]@ == "kdc"@ && e[12]@ == "mef"@ && e[13]@ == "mos"@ && e[14]@ == "mrw"@);
    assert(e[16]@ == "nrw"@ && e[20]@ == "raw"@ && e[22]@ == "rwl"@ && e[23]@ == "sr2"@);
    assert(e[24]@ == "srf"@ && e[25]@ == "srw"@ && e[26]@ == "x3f"@);
}

/// All accepted extensions have three letters: nothing longer or shorter is a
/// RAW file, and none is without.
pub proof fn law_extensions_have_three_letters(ext: Seq<char>)
    ensures
        accepted(ext) ==> ext.len() == 3,
{
    reveal_strlit("3fr");
    reveal_strlit("ari");
    reveal_strlit("arw");
    reveal_strlit("cr2");
    reveal_strlit("crw");
    reveal_strlit("dcr");
    reveal_strlit("dcs");
    reveal_strlit("dng");
    reveal_strlit("erf");
    reveal_strlit("fff");
    reveal_strlit("iiq");
    reveal_strlit("kdc");
    reveal_strlit("mef");
    reveal_strlit("mos");
    reveal_strlit("mrw");
    reveal_strlit("nef");
    reveal_strlit("nrw");
    reveal_strlit("orf");
    reveal_strlit("pef");
    reveal_strlit("raf");
    reveal_strlit("raw");
    reveal_strlit("rw2");
    reveal_strlit("rwl");
    reveal_strlit("sr2");
    reveal_strlit("srf");
    reveal_strlit("srw");
    reveal_strlit("x3f");
    if accepted(ext) {
        let k = choose|k: int|
            0 <= k < RAW_EXTENSIONS.len() && lowered(ext) == lowered((#[trigger] RAW_EXTENSIONS@[k])@);
        assert(lowered(ext).len() == ext.len());
        assert(RAW_EXTENSIONS@[k]@.len() == 3);
    }
}

/// A pattern is given by the letters of its colours, two by two, two by eight,
/// six by six or twelve by twelve of them.
pub proof fn law_what_describes_a_pattern(p: Seq<char>, i: int)
    requires
        describes_pattern(p),
        0 <= i < p.len(),
    ensures
        p.len() == 4 || p.len() == 16 || p.len() == 36 || p.len() == 144,
        p[i] == 'R' || p[i] == 'G' || p[i] == 'B' || p[i] == 'E' || p[i] == 'M' || p[i] == 'Y',
{
    assert(colour_number(p[i]) is Some);
}

/// No pattern at all is described by no letters, and four letters among red,
/// green and blue describe one.
pub proof fn law_patterns_of_four(a: char, b: char, c: char, d: char)
    requires
        a == 'R' || a == 'G' || a == 'B',
        b == 'R' || b == 'G' || b == 'B',
        c == 'R' || c == 'G' || c == 'B',
        d == 'R' || d == 'G' || d == 'B',
    ensures
        describes_pattern(Seq::empty()),
        describes_pattern(seq![a, b, c, d]),
{
    let p = seq![a, b, c, d];
    assert forall|i: int| 0 <= i < p.len() implies colour_number(#[trigger] p[i]) is Some by {
        assert(p[i] == a || p[i] == b || p[i] == c || p[i] == d);
    }
}

} // verus!
