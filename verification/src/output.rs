//! What a written DNG says about itself.
use crate::exif;
use crate::exif::{Datum, Value};
use vstd::prelude::*;

verus! {

/// Photometric interpretation of linear raw data, three planes per pixel.
pub const LINEAR_RAW: u16 = 34892;

/// Calibration illuminant D65.
pub const ILLUMINANT_D65: u16 = 21;

/// Largest sample, which is also the white level.
pub const WHITE_LEVEL: u32 = 65535;

/// What exiftool is told to copy and to leave alone: everything, except for
/// the tags that are structural to the file or chosen by it.
pub const METADATA_ARGS: [&'static str; 41] = [
    "-EXIF:all",
    "-MakerNotes:all",
    "-XMP:all",
    "-ICC_Profile:all",
    "--PhotometricInterpretation",
    "--NewSubfileType",
    "--SubfileType",
    "--ImageWidth",
    "--ImageHeight",
    "--ImageLength",
    "--BitsPerSample",
    "--Compression",
    "--SamplesPerPixel",
    "--RowsPerStrip",
    "--StripOffsets",
    "--StripByteCounts",
    "--PlanarConfiguration",
    "--SampleFormat",
    "--CFAPattern",
    "--CFAPattern2",
    "--CFARepeatPatternDim",
    "--CFAPlaneColor",
    "--CFALayout",
    "--BlackLevel",
    "--WhiteLevel",
    "--BlackLevelRepeatDim",
    "--DNGVersion",
    "--DNGBackwardVersion",
    "--UniqueCameraModel",
    "--LocalizedCameraModel",
    "--AsShotNeutral",
    "--ColorMatrix1",
    "--ColorMatrix2",
    "--CalibrationIlluminant1",
    "--CalibrationIlluminant2",
    "--AnalogBalance",
    "--BaselineExposure",
    "--ActiveArea",
    "--DefaultCropOrigin",
    "--DefaultCropSize",
    "-overwrite_original",
];

/// The tags of a DNG of the given size, in the order in which they are
/// written: the structure, the version, the camera, the levels, the area, and
/// the colour. Black is zero and the white balance neutral, for both are
/// already in the data.
pub open spec fn dng_table(w: u32, h: u32, model: Seq<u8>, matrix: Seq<(i32, i32)>) -> Seq<
    (u16, Datum),
> {
    let one = (1u32, 1u32);
    seq![
        (254u16, Datum::Long(seq![0u32])),
        (262u16, Datum::Short(seq![LINEAR_RAW])),
        (50706u16, Datum::Bytes(1, seq![1u8, 4u8, 0u8, 0u8])),
        (50707u16, Datum::Bytes(1, seq![1u8, 4u8, 0u8, 0u8])),
        (50708u16, Datum::Ascii(model)),
        (50713u16, Datum::Long(seq![1u32, 1u32])),
        (50714u16, Datum::Long(seq![0u32, 0u32, 0u32])),
        (50717u16, Datum::Long(seq![WHITE_LEVEL])),
        (50829u16, Datum::Long(seq![0u32, 0u32, h, w])),
        (50719u16, Datum::Rational(seq![(0u32, 1u32), (0u32, 1u32)])),
        (50720u16, Datum::Rational(seq![(w, 1u32), (h, 1u32)])),
        (50778u16, Datum::Short(seq![ILLUMINANT_D65])),
        (50721u16, Datum::SRational(matrix)),
        (50727u16, Datum::Rational(seq![one, one, one])),
        (50728u16, Datum::Rational(seq![one, one, one])),
        (50730u16, Datum::SRational(seq![(0i32, 1i32)])),
    ]
}

fn long1(a: u32) -> (v: Value)
    ensures
        v@ == Datum::Long(seq![a]),
{
    let d: Vec<u32> = vec![a];
    assert(d@ =~= seq![a]);
    Value::Long(d)
}

fn short1(a: u16) -> (v: Value)
    ensures
        v@ == Datum::Short(seq![a]),
{
    let d: Vec<u16> = vec![a];
    assert(d@ =~= seq![a]);
    Value::Short(d)
}

fn longs(d: Vec<u32>) -> (v: Value)
    ensures
        v@ == Datum::Long(d@),
{
    Value::Long(d)
}

fn version() -> (v: Value)
    ensures
        v@ == Datum::Bytes(1, seq![1u8, 4u8, 0u8, 0u8]),
{
    let d: Vec<u8> = vec![1u8, 4u8, 0u8, 0u8];
    assert(d@ =~= seq![1u8, 4u8, 0u8, 0u8]);
    Value::Bytes(1, d)
}

fn ones() -> (v: Value)
    ensures
        v@ == Datum::Rational(seq![(1u32, 1u32), (1u32, 1u32), (1u32, 1u32)]),
{
    let d: Vec<(u32, u32)> = vec![(1u32, 1u32), (1u32, 1u32), (1u32, 1u32)];
    assert(d@ =~= seq![(1u32, 1u32), (1u32, 1u32), (1u32, 1u32)]);
    Value::Rational(d)
}

fn pair(a: (u32, u32), b: (u32, u32)) -> (v: Value)
    ensures
        v@ == Datum::Rational(seq![a, b]),
{
    let d: Vec<(u32, u32)> = vec![a, b];
    assert(d@ =~= seq![a, b]);
    Value::Rational(d)
}

/// The tags of a DNG. `model` is the camera's name in bytes and `matrix` its
/// colour matrix, row by row.
pub fn dng_tags(w: u32, h: u32, model: Vec<u8>, matrix: Vec<(i32, i32)>) -> (r: Vec<(u16, Value)>)
    ensures
        exif::data(r@) == dng_table(w, h, model@, matrix@),
{
    let ghost table = dng_table(w, h, model@, matrix@);
    let mut r: Vec<(u16, Value)> = Vec::new();
    r.push((254, long1(0)));
    r.push((262, short1(LINEAR_RAW)));
    r.push((50706, version()));
    r.push((50707, version()));
    r.push((50708, Value::Ascii(model)));
    let repeat: Vec<u32> = vec![1u32, 1u32];
    assert(repeat@ =~= seq![1u32, 1u32]);
    r.push((50713, longs(repeat)));
    let black: Vec<u32> = vec![0u32, 0u32, 0u32];
    assert(black@ =~= seq![0u32, 0u32, 0u32]);
    r.push((50714, longs(black)));
    r.push((50717, long1(WHITE_LEVEL)));
    let area: Vec<u32> = vec![0u32, 0u32, h, w];
    assert(area@ =~= seq![0u32, 0u32, h, w]);
    r.push((50829, longs(area)));
    r.push((50719, pair((0, 1), (0, 1))));
    r.push((50720, pair((w, 1), (h, 1))));
    r.push((50778, short1(ILLUMINANT_D65)));
    r.push((50721, Value::SRational(matrix)));
    r.push((50727, ones()));
    r.push((50728, ones()));
    let zero: Vec<(i32, i32)> = vec![(0i32, 1i32)];
    assert(zero@ =~= seq![(0i32, 1i32)]);
    r.push((50730, Value::SRational(zero)));
    assert(exif::data(r@) =~= table);
    r
}

/// What a DNG says about itself and what is carried into it never collide:
/// none of its tags is one that is carried across.
pub proof fn law_dng_tags_are_its_own(
    w: u32,
    h: u32,
    model: Seq<u8>,
    matrix: Seq<(i32, i32)>,
    k: int,
)
    requires
        0 <= k < dng_table(w, h, model, matrix).len(),
    ensures
        !exif::IFD0_TAGS@.contains(dng_table(w, h, model, matrix)[k].0),
        dng_table(w, h, model, matrix)[k].0 != exif::TAG_EXIF_IFD,
{
    let t = dng_table(w, h, model, matrix)[k].0;
    assert(exif::IFD0_TAGS@ =~= seq![271u16, 272u16, 305u16, 306u16, 315u16, 33432u16]);
    if exif::IFD0_TAGS@.contains(t) {
        let i = choose|i: int| 0 <= i < 6 && exif::IFD0_TAGS@[i] == t;
        assert(t == 271 || t == 272 || t == 305 || t == 306 || t == 315 || t == 33432);
    }
}

/// The keys above zero and finite, in their order.
pub open spec fn positive(keys: Seq<i64>) -> Seq<i64>
    decreases keys.len(),
{
    if keys.len() == 0 {
        Seq::empty()
    } else if 0 < keys.last() < crate::flatten::INFINITE {
        positive(keys.drop_last()).push(keys.last())
    } else {
        positive(keys.drop_last())
    }
}

/// The samples a stretch is derived from: those above zero and finite.
pub fn stretch_samples(keys: &[i64]) -> (out: Vec<i64>)
    ensures
        out@ == positive(keys@),
{
    let mut out: Vec<i64> = Vec::new();
    let mut i: usize = 0;
    while i < keys.len()
        invariant
            i <= keys@.len(),
            out@ == positive(keys@.take(i as int)),
        decreases keys@.len() - i,
    {
        assert(keys@.take(i + 1).drop_last() =~= keys@.take(i as int));
        if 0 < keys[i] && keys[i] < crate::flatten::INFINITE {
            out.push(keys[i]);
        }
        i = i + 1;
    }
    assert(keys@.take(i as int) =~= keys@);
    out
}

/// The value a DNG has under a tag: that of the first entry with it.
pub open spec fn value_under(tags: Seq<(u16, Datum)>, tag: u16) -> Option<Datum>
    decreases tags.len(),
{
    if tags.len() == 0 {
        None
    } else if tags[0].0 == tag {
        Some(tags[0].1)
    } else {
        value_under(tags.drop_first(), tag)
    }
}

proof fn lemma_value_under(tags: Seq<(u16, Datum)>, k: int)
    requires
        0 <= k < tags.len(),
        forall|j: int| 0 <= j < k ==> (#[trigger] tags[j]).0 != tags[k].0,
    ensures
        value_under(tags, tags[k].0) == Some(tags[k].1),
    decreases k,
{
    if k > 0 {
        let rest = tags.drop_first();
        assert(tags[0].0 != tags[k].0);
        assert(rest[k - 1] == tags[k]);
        assert forall|j: int| 0 <= j < k - 1 implies (#[trigger] rest[j]).0 != rest[k - 1].0 by {
            assert(rest[j] == tags[j + 1]);
        }
        lemma_value_under(rest, k - 1);
    }
}

/// What a DNG says of its levels: white is the largest 16-bit number, black is
/// zero in every plane, and the white balance is neutral, for the data are
/// already scaled and balanced.
pub proof fn law_dng_levels(w: u32, h: u32, model: Seq<u8>, matrix: Seq<(i32, i32)>)
    ensures
        ({
            let t = dng_table(w, h, model, matrix);
            let one = (1u32, 1u32);
            &&& value_under(t, 50717) == Some(Datum::Long(seq![65535u32]))
            &&& value_under(t, 50714) == Some(Datum::Long(seq![0u32, 0u32, 0u32]))
            &&& value_under(t, 50713) == Some(Datum::Long(seq![1u32, 1u32]))
            &&& value_under(t, 50728) == Some(Datum::Rational(seq![one, one, one]))
            &&& value_under(t, 50727) == Some(Datum::Rational(seq![one, one, one]))
            &&& value_under(t, 50730) == Some(Datum::SRational(seq![(0i32, 1i32)]))
        }),
{
    let t = dng_table(w, h, model, matrix);
    lemma_value_under(t, 5);
    lemma_value_under(t, 6);
    lemma_value_under(t, 7);
    lemma_value_under(t, 13);
    lemma_value_under(t, 14);
    lemma_value_under(t, 15);
}

/// What a DNG says of its picture: that it is the main image, of linear data
/// with three planes, and that all of it, from the corner on, is active and to
/// be shown.
pub proof fn law_dng_shows_the_whole_picture(
    w: u32,
    h: u32,
    model: Seq<u8>,
    matrix: Seq<(i32, i32)>,
)
    ensures
        ({
            let t = dng_table(w, h, model, matrix);
            &&& value_under(t, 254) == Some(Datum::Long(seq![0u32]))
            &&& value_under(t, 262) == Some(Datum::Short(seq![34892u16]))
            &&& value_under(t, 50829) == Some(Datum::Long(seq![0u32, 0u32, h, w]))
            &&& value_under(t, 50719) == Some(
                Datum::Rational(seq![(0u32, 1u32), (0u32, 1u32)]),
            )
            &&& value_under(t, 50720) == Some(Datum::Rational(seq![(w, 1u32), (h, 1u32)]))
        }),
{
    let t = dng_table(w, h, model, matrix);
    lemma_value_under(t, 0);
    lemma_value_under(t, 1);
    lemma_value_under(t, 8);
    lemma_value_under(t, 9);
    lemma_value_under(t, 10);
}

/// What a DNG says of its origin: the version it is written in, which is also
/// the oldest that can read it, the camera, and the camera's colours in
/// daylight.
pub proof fn law_dng_names_the_camera(w: u32, h: u32, model: Seq<u8>, matrix: Seq<(i32, i32)>)
    ensures
        ({
            let t = dng_table(w, h, model, matrix);
            &&& value_under(t, 50706) == Some(Datum::Bytes(1, seq![1u8, 4u8, 0u8, 0u8]))
            &&& value_under(t, 50707) == value_under(t, 50706)
            &&& value_under(t, 50708) == Some(Datum::Ascii(model))
            &&& value_under(t, 50778) == Some(Datum::Short(seq![21u16]))
            &&& value_under(t, 50721) == Some(Datum::SRational(matrix))
        }),
{
    let t = dng_table(w, h, model, matrix);
    lemma_value_under(t, 2);
    lemma_value_under(t, 3);
    lemma_value_under(t, 4);
    lemma_value_under(t, 11);
    lemma_value_under(t, 12);
}

/// The samples of a stretch are the keys above zero and below infinity, in
/// their order. The result lists their places.
pub proof fn law_stretch_looks_at_light(keys: Seq<i64>) -> (at: Seq<int>)
    ensures
        positive(keys).len() == at.len(),
        forall|j: int|
            0 <= j < at.len() ==> 0 <= #[trigger] at[j] < keys.len() && 0 < keys[at[j]]
                < 0x7f80_0000 && positive(keys)[j] == keys[at[j]],
        forall|j: int, l: int| 0 <= j < l < at.len() ==> #[trigger] at[j] < #[trigger] at[l],
        forall|k: int|
            0 <= k < keys.len() && 0 < #[trigger] keys[k] < 0x7f80_0000 ==> at.contains(k),
    decreases keys.len(),
{
    if keys.len() == 0 {
        Seq::empty()
    } else {
        let n = keys.len() - 1;
        let s = keys.drop_last();
        let front = law_stretch_looks_at_light(s);
        let at = if 0 < keys.last() < 0x7f80_0000 {
            front.push(n)
        } else {
            front
        };
        assert forall|j: int| 0 <= j < at.len() implies 0 <= #[trigger] at[j] < keys.len() && 0
            < keys[at[j]] < 0x7f80_0000 && positive(keys)[j] == keys[at[j]] by {
            if j < front.len() {
                assert(at[j] == front[j] && s[front[j]] == keys[at[j]]);
            }
        }
        assert forall|k: int| 0 <= k < keys.len() && 0 < #[trigger] keys[k]
            < 0x7f80_0000 implies at.contains(k) by {
            if k < n {
                assert(s[k] == keys[k]);
                let j = choose|j: int| 0 <= j < front.len() && front[j] == k;
                assert(at[j] == k);
            } else {
                assert(at[front.len() as int] == k);
            }
        }
        at
    }
}

/// Whether exiftool is told something.
pub open spec fn is_told(arg: Seq<char>) -> bool {
    exists|k: int| 0 <= k < METADATA_ARGS.len() && (#[trigger] METADATA_ARGS@[k])@ == arg
}

/// Everything is copied but what the written file says of itself: its structure,
/// its levels, its colours and its camera.
pub proof fn law_copied_metadata_leaves_the_file_alone()
    ensures
        is_told("-EXIF:all"@) && is_told("-MakerNotes:all"@) && is_told("-XMP:all"@) && is_told(
            "-ICC_Profile:all"@,
        ),
        is_told("--ImageWidth"@) && is_told("--ImageHeight"@) && is_told("--BitsPerSample"@)
            && is_told("--Compression"@) && is_told("--SamplesPerPixel"@) && is_told(
            "--StripOffsets"@,
        ) && is_told("--StripByteCounts"@) && is_told("--RowsPerStrip"@),
        is_told("--PhotometricInterpretation"@) && is_told("--CFAPattern"@) && is_told(
            "--BlackLevel"@,
        ) && is_told("--WhiteLevel"@) && is_told("--DNGVersion"@) && is_told(
            "--UniqueCameraModel"@,
        ) && is_told("--AsShotNeutral"@) && is_told("--ColorMatrix1"@) && is_told(
            "--ActiveArea"@,
        ) && is_told("--DefaultCropSize"@) && is_told("-overwrite_original"@),
{
    let a = METADATA_ARGS@;
    assert(a[0]@ == "-EXIF:all"@ && a[1]@ == "-MakerNotes:all"@ && a[2]@ == "-XMP:all"@);
    assert(a[3]@ == "-ICC_Profile:all"@ && a[7]@ == "--ImageWidth"@ && a[8]@ == "--ImageHeight"@);
    assert(a[10]@ == "--BitsPerSample"@ && a[11]@ == "--Compression"@);
    assert(a[12]@ == "--SamplesPerPixel"@ && a[13]@ == "--RowsPerStrip"@);
    assert(a[14]@ == "--StripOffsets"@ && a[15]@ == "--StripByteCounts"@);
    assert(a[4]@ == "--PhotometricInterpretation"@ && a[18]@ == "--CFAPattern"@);
    assert(a[23]@ == "--BlackLevel"@ && a[24]@ == "--WhiteLevel"@ && a[26]@ == "--DNGVersion"@);
    assert(a[28]@ == "--UniqueCameraModel"@ && a[30]@ == "--AsShotNeutral"@);
    assert(a[31]@ == "--ColorMatrix1"@ && a[37]@ == "--ActiveArea"@);
    assert(a[39]@ == "--DefaultCropSize"@ && a[40]@ == "-overwrite_original"@);
}

} // verus!
