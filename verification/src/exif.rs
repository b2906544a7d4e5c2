//! Photographic metadata: reading it from the head of a RAW file.
//!
//! The subset carried across is what a raw developer needs to identify the
//! shot: camera and lens, focal length, aperture, exposure, ISO and the time
//! of capture. Tags live in two directories: IFD0 and the Exif IFD it points
//! to.
use crate::codec;
use crate::text;
use vstd::prelude::*;

verus! {

broadcast use {codec::lemma_enc16_len, codec::lemma_enc32_len};

pub const TAG_MODEL: u16 = 272;

pub const TAG_LENS_MODEL: u16 = 42036;

pub const TAG_EXIF_IFD: u16 = 34665;

pub const TAG_DATE_TIME: u16 = 306;

pub const TAG_DATE_TIME_ORIGINAL: u16 = 36867;

pub const TAG_DATE_TIME_DIGITIZED: u16 = 36868;

/// Tags carried across in IFD0: Make, Model, Software, DateTime, Artist and
/// Copyright.
pub const IFD0_TAGS: [u16; 6] = [271, 272, 305, 306, 315, 33432];

/// Tags carried across in the Exif IFD: what a lens profile is matched on
/// (lens model, focal length, aperture), the exposure triangle and the time
/// of capture.
pub const EXIF_TAGS: [u16; 23] = [
    33434,
    33437,
    34850,
    34855,
    36867,
    36868,
    37377,
    37378,
    37380,
    37381,
    37383,
    37384,
    37385,
    37386,
    41986,
    41987,
    41989,
    42032,
    42033,
    42034,
    42035,
    42036,
    42037,
];

/// A tag's value, free of the byte order it was stored in.
#[derive(Debug)]
pub enum Value {
    /// Text; the trailing NUL is part of the value.
    Ascii(Vec<u8>),
    /// Opaque bytes, of type BYTE or UNDEFINED.
    Bytes(u16, Vec<u8>),
    Short(Vec<u16>),
    Long(Vec<u32>),
    Rational(Vec<(u32, u32)>),
    SRational(Vec<(i32, i32)>),
}

/// What a tag's value holds.
pub enum Datum {
    Ascii(Seq<u8>),
    Bytes(u16, Seq<u8>),
    Short(Seq<u16>),
    Long(Seq<u32>),
    Rational(Seq<(u32, u32)>),
    SRational(Seq<(i32, i32)>),
}

impl View for Value {
    type V = Datum;

    open spec fn view(&self) -> Datum {
        match *self {
            Value::Ascii(v) => Datum::Ascii(v@),
            Value::Bytes(t, v) => Datum::Bytes(t, v@),
            Value::Short(v) => Datum::Short(v@),
            Value::Long(v) => Datum::Long(v@),
            Value::Rational(v) => Datum::Rational(v@),
            Value::SRational(v) => Datum::SRational(v@),
        }
    }
}

impl Datum {
    /// The TIFF type of the value.
    pub open spec fn type_id(self) -> u16 {
        match self {
            Datum::Ascii(_) => 2,
            Datum::Bytes(t, _) => t,
            Datum::Short(_) => 3,
            Datum::Long(_) => 4,
            Datum::Rational(_) => 5,
            Datum::SRational(_) => 10,
        }
    }

    /// How many elements the value has.
    pub open spec fn len(self) -> nat {
        match self {
            Datum::Ascii(v) => v.len(),
            Datum::Bytes(_, v) => v.len(),
            Datum::Short(v) => v.len(),
            Datum::Long(v) => v.len(),
            Datum::Rational(v) => v.len(),
            Datum::SRational(v) => v.len(),
        }
    }

    /// The bytes of the value in the given byte order.
    pub open spec fn payload(self, little: bool) -> Seq<u8> {
        match self {
            Datum::Ascii(v) => v,
            Datum::Bytes(_, v) => v,
            Datum::Short(v) => Seq::new(
                2 * v.len(),
                |i: int| codec::enc16(v[i / 2], little)[i % 2],
            ),
            Datum::Long(v) => Seq::new(4 * v.len(), |i: int| codec::enc32(v[i / 4], little)[i % 4]),
            Datum::Rational(v) => Seq::new(
                8 * v.len(),
                |i: int|
                    if i % 8 < 4 {
                        codec::enc32(v[i / 8].0, little)[i % 8]
                    } else {
                        codec::enc32(v[i / 8].1, little)[i % 8 - 4]
                    },
            ),
            Datum::SRational(v) => Seq::new(
                8 * v.len(),
                |i: int|
                    if i % 8 < 4 {
                        codec::enc32(codec::unsigned(v[i / 8].0), little)[i % 8]
                    } else {
                        codec::enc32(codec::unsigned(v[i / 8].1), little)[i % 8 - 4]
                    },
            ),
        }
    }

    /// A value that a file can hold: opaque bytes have one of the two opaque
    /// types, and the number of elements fits its field.
    pub open spec fn storable(self) -> bool {
        &&& self matches Datum::Bytes(t, _) ==> t == 1 || t == 7
        &&& self.len() <= u32::MAX
    }
}

impl Value {
    /// The TIFF type of the value.
    pub fn type_id(&self) -> (t: u16)
        ensures
            t == self@.type_id(),
    {
        match self {
            Value::Ascii(_) => 2,
            Value::Bytes(t, _) => *t,
            Value::Short(_) => 3,
            Value::Long(_) => 4,
            Value::Rational(_) => 5,
            Value::SRational(_) => 10,
        }
    }

    /// The number of elements, as its 32-bit field holds it.
    pub fn count(&self) -> (n: u32)
        ensures
            n == self@.len() % 0x1_0000_0000,
    {
        let n: usize = match self {
            Value::Ascii(v) => v.len(),
            Value::Bytes(_, v) => v.len(),
            Value::Short(v) => v.len(),
            Value::Long(v) => v.len(),
            Value::Rational(v) => v.len(),
            Value::SRational(v) => v.len(),
        };
        (n as u64 % 0x1_0000_0000) as u32
    }

    /// The value in the given byte order, as it goes either into the entry
    /// itself or elsewhere in the file.
    pub fn bytes(&self, little: bool) -> (out: Vec<u8>)
        ensures
            out@ == self@.payload(little),
    {
        let mut out: Vec<u8> = Vec::new();
        match self {
            Value::Ascii(v) => {
                out = codec::copy_bytes(v.as_slice(), 0, v.len());
                assert(v@.subrange(0, v@.len() as int) =~= v@);
            },
            Value::Bytes(_, v) => {
                out = codec::copy_bytes(v.as_slice(), 0, v.len());
                assert(v@.subrange(0, v@.len() as int) =~= v@);
            },
            Value::Short(v) => {
                let mut i: usize = 0;
                while i < v.len()
                    invariant
                        i <= v@.len(),
                        out@ == Datum::Short(v@.take(i as int)).payload(little),
                    decreases v@.len() - i,
                {
                    codec::put16(&mut out, v[i], little);
                    assert(out@ =~= Datum::Short(v@.take(i + 1)).payload(little));
                    i = i + 1;
                }
                assert(v@.take(i as int) =~= v@);
            },
            Value::Long(v) => {
                let mut i: usize = 0;
                while i < v.len()
                    invariant
                        i <= v@.len(),
                        out@ == Datum::Long(v@.take(i as int)).payload(little),
                    decreases v@.len() - i,
                {
                    codec::put32(&mut out, v[i], little);
                    assert(out@ =~= Datum::Long(v@.take(i + 1)).payload(little));
                    i = i + 1;
                }
                assert(v@.take(i as int) =~= v@);
            },
            Value::Rational(v) => {
                let mut i: usize = 0;
                while i < v.len()
                    invariant
                        i <= v@.len(),
                        out@ == Datum::Rational(v@.take(i as int)).payload(little),
                    decreases v@.len() - i,
                {
                    codec::put32(&mut out, v[i].0, little);
                    codec::put32(&mut out, v[i].1, little);
                    assert(out@ =~= Datum::Rational(v@.take(i + 1)).payload(little));
                    i = i + 1;
                }
                assert(v@.take(i as int) =~= v@);
            },
            Value::SRational(v) => {
                let mut i: usize = 0;
                while i < v.len()
                    invariant
                        i <= v@.len(),
                        out@ == Datum::SRational(v@.take(i as int)).payload(little),
                    decreases v@.len() - i,
                {
                    codec::put32(&mut out, codec::to_unsigned(v[i].0), little);
                    codec::put32(&mut out, codec::to_unsigned(v[i].1), little);
                    assert(out@ =~= Datum::SRational(v@.take(i + 1)).payload(little));
                    i = i + 1;
                }
                assert(v@.take(i as int) =~= v@);
            },
        }
        out
    }
}

/// Why a file could not be read as a TIFF container.
#[derive(Clone, Copy, Debug, PartialEq, Eq, Structural)]
pub enum Fault {
    /// Shorter than the header.
    TooShort,
    /// The byte order mark is neither of the two that exist.
    NotTiff,
    /// A number at this offset would reach past the end.
    Truncated(u64),
}

/// Bytes per element of a TIFF type; none for a type that is not carried
/// across.
pub open spec fn elem_size(typ: u16) -> Option<int> {
    if typ == 1 || typ == 2 || typ == 7 {
        Some(1)
    } else if typ == 3 {
        Some(2)
    } else if typ == 4 {
        Some(4)
    } else if typ == 5 || typ == 10 {
        Some(8)
    } else {
        None
    }
}

/// What bytes of a TIFF type stand for; none for a type that is not carried
/// across.
pub open spec fn decode(raw: Seq<u8>, typ: u16, little: bool) -> Option<Datum> {
    if typ == 2 {
        Some(Datum::Ascii(raw))
    } else if typ == 1 || typ == 7 {
        Some(Datum::Bytes(typ, raw))
    } else if typ == 3 {
        Some(Datum::Short(Seq::new(raw.len() / 2, |i: int| codec::word16(raw, 2 * i, little))))
    } else if typ == 4 {
        Some(Datum::Long(Seq::new(raw.len() / 4, |i: int| codec::word32(raw, 4 * i, little))))
    } else if typ == 5 {
        Some(
            Datum::Rational(
                Seq::new(
                    raw.len() / 8,
                    |i: int| (codec::word32(raw, 8 * i, little), codec::word32(raw, 8 * i + 4, little)),
                ),
            ),
        )
    } else if typ == 10 {
        Some(
            Datum::SRational(
                Seq::new(
                    raw.len() / 8,
                    |i: int|
                        (
                            codec::signed(codec::word32(raw, 8 * i, little)),
                            codec::signed(codec::word32(raw, 8 * i + 4, little)),
                        ),
                ),
            ),
        )
    } else {
        None
    }
}

/// The value of a directory entry whose value field is at `field`: up to four
/// bytes stand in the field itself, more stand where it points. A value that
/// is not all there is none, and so is one of a type that is not carried
/// across, whatever its field holds.
pub open spec fn value_at(
    d: Seq<u8>,
    little: bool,
    typ: u16,
    count: u32,
    field: int,
) -> Result<Option<Datum>, Fault> {
    match elem_size(typ) {
        None => Ok(None),
        Some(elem) => {
            let total = elem * count;
            if total > 4 && field + 4 > d.len() {
                Err(Fault::Truncated(field as u64))
            } else {
                let base = if total <= 4 {
                    field
                } else {
                    codec::word32(d, field, little) as int
                };
                if d.len() < base + total {
                    Ok(None)
                } else {
                    Ok(decode(d.subrange(base, base + total), typ, little))
                }
            }
        },
    }
}

/// What one directory entry contributes.
pub enum Entry {
    Skipped,
    ExifPointer(u32),
    Tag(u16, Datum),
}

/// The directory entry at `e`, of which only the tags in `want` matter.
pub open spec fn entry_at(d: Seq<u8>, little: bool, want: Seq<u16>, e: int) -> Result<Entry, Fault> {
    if e + 2 > d.len() {
        Err(Fault::Truncated(e as u64))
    } else if e + 4 > d.len() {
        Err(Fault::Truncated((e + 2) as u64))
    } else if e + 8 > d.len() {
        Err(Fault::Truncated((e + 4) as u64))
    } else {
        let tag = codec::word16(d, e, little);
        if tag == TAG_EXIF_IFD {
            if e + 12 > d.len() {
                Err(Fault::Truncated((e + 8) as u64))
            } else {
                Ok(Entry::ExifPointer(codec::word32(d, e + 8, little)))
            }
        } else if !want.contains(tag) {
            Ok(Entry::Skipped)
        } else {
            match value_at(d, little, codec::word16(d, e + 2, little), codec::word32(d, e + 4, little), e + 8) {
                Err(f) => Err(f),
                Ok(None) => Ok(Entry::Skipped),
                Ok(Some(v)) => Ok(Entry::Tag(tag, v)),
            }
        }
    }
}

/// What the first `n` entries of the directory at `off` contribute: the
/// wanted tags in the order in which they stand, and the last Exif pointer.
pub open spec fn entries(d: Seq<u8>, little: bool, off: int, want: Seq<u16>, n: int) -> Result<
    (Seq<(u16, Datum)>, Option<u32>),
    Fault,
>
    decreases n,
{
    if n <= 0 {
        Ok((Seq::empty(), None))
    } else {
        match entries(d, little, off, want, n - 1) {
            Err(f) => Err(f),
            Ok((tags, ptr)) => match entry_at(d, little, want, off + 2 + 12 * (n - 1)) {
                Err(f) => Err(f),
                Ok(Entry::Skipped) => Ok((tags, ptr)),
                Ok(Entry::ExifPointer(p)) => Ok((tags, Some(p))),
                Ok(Entry::Tag(t, v)) => Ok((tags.push((t, v)), ptr)),
            },
        }
    }
}

/// The directory at `off`.
pub open spec fn directory(d: Seq<u8>, little: bool, off: int, want: Seq<u16>) -> Result<
    (Seq<(u16, Datum)>, Option<u32>),
    Fault,
> {
    if off + 2 > d.len() {
        Err(Fault::Truncated(off as u64))
    } else {
        entries(d, little, off, want, codec::word16(d, off, little) as int)
    }
}

/// A list of tags with what their values hold.
pub open spec fn data(list: Seq<(u16, Value)>) -> Seq<(u16, Datum)> {
    list.map_values(|p: (u16, Value)| (p.0, p.1@))
}

/// Byte order and offset of the first directory, from a file's header.
pub open spec fn header(d: Seq<u8>) -> Result<(bool, u32), Fault> {
    if d.len() < 8 {
        Err(Fault::TooShort)
    } else if d[0] == 0x49 && d[1] == 0x49 {
        Ok((true, codec::word32(d, 4, true)))
    } else if d[0] == 0x4d && d[1] == 0x4d {
        Ok((false, codec::word32(d, 4, false)))
    } else {
        Err(Fault::NotTiff)
    }
}

/// The tags of IFD0 and of the Exif IFD that a file carries.
pub open spec fn source(d: Seq<u8>) -> Result<
    (Seq<(u16, Datum)>, Seq<(u16, Datum)>),
    Fault,
> {
    match header(d) {
        Err(f) => Err(f),
        Ok((little, off)) => match directory(d, little, off as int, IFD0_TAGS@) {
            Err(f) => Err(f),
            Ok((ifd0, None)) => Ok((ifd0, Seq::empty())),
            Ok((ifd0, Some(p))) => match directory(d, little, p as int, EXIF_TAGS@) {
                Err(f) => Err(f),
                Ok((exif, _)) => Ok((ifd0, exif)),
            },
        },
    }
}

/// Reads numbers and values out of a file's bytes.
pub struct Reader<'a> {
    pub d: &'a [u8],
    pub little: bool,
}

impl<'a> Reader<'a> {
    /// The 16-bit number at `off`.
    pub fn u16(&self, off: u64) -> (r: Result<u16, Fault>)
        ensures
            r == if off + 2 > self.d@.len() {
                Err::<u16, Fault>(Fault::Truncated(off))
            } else {
                Ok(codec::word16(self.d@, off as int, self.little))
            },
    {
        let n: u64 = self.d.len() as u64;
        if n < 2 || off > n - 2 {
            return Err(Fault::Truncated(off));
        }
        let i: usize = off as usize;
        let (a, b) = (self.d[i] as u16, self.d[i + 1] as u16);
        proof {
            reveal(codec::word16);
        }
        if self.little {
            Ok(a + 256 * b)
        } else {
            Ok(256 * a + b)
        }
    }

    /// The 32-bit number at `off`.
    pub fn u32(&self, off: u64) -> (r: Result<u32, Fault>)
        ensures
            r == if off + 4 > self.d@.len() {
                Err::<u32, Fault>(Fault::Truncated(off))
            } else {
                Ok(codec::word32(self.d@, off as int, self.little))
            },
    {
        let n: u64 = self.d.len() as u64;
        if n < 4 || off > n - 4 {
            return Err(Fault::Truncated(off));
        }
        let i: usize = off as usize;
        let (a, b) = (self.d[i] as u32, self.d[i + 1] as u32);
        let (c, d) = (self.d[i + 2] as u32, self.d[i + 3] as u32);
        proof {
            reveal(codec::word32);
        }
        if self.little {
            Ok(a + 256 * b + 65536 * c + 16777216 * d)
        } else {
            Ok(16777216 * a + 65536 * b + 256 * c + d)
        }
    }

    /// The signed 32-bit number at `off`.
    pub fn i32(&self, off: u64) -> (r: Result<i32, Fault>)
        ensures
            r == if off + 4 > self.d@.len() {
                Err::<i32, Fault>(Fault::Truncated(off))
            } else {
                Ok(codec::signed(codec::word32(self.d@, off as int, self.little)))
            },
    {
        match self.u32(off) {
            Err(f) => Err(f),
            Ok(v) => Ok(codec::to_signed(v)),
        }
    }

    /// Decodes the bytes `base .. base + total` as a value.
    fn decoded(&self, typ: u16, base: usize, total: usize) -> (r: Option<Value>)
        requires
            base + total <= self.d@.len(),
        ensures
            match r {
                None => decode(
                    self.d@.subrange(base as int, base + total),
                    typ,
                    self.little,
                ) is None,
                Some(v) => decode(
                    self.d@.subrange(base as int, base + total),
                    typ,
                    self.little,
                ) == Some(v@),
            },
    {
        let len: usize = self.d.len();
        assert(base + total <= len);
        let raw = vstd::slice::slice_subrange(self.d, base, base + total);
        let r = Reader { d: raw, little: self.little };
        if typ == 2 {
            Some(Value::Ascii(vstd::slice::slice_to_vec(raw)))
        } else if typ == 1 || typ == 7 {
            Some(Value::Bytes(typ, vstd::slice::slice_to_vec(raw)))
        } else if typ == 3 {
            Some(Value::Short(r.shorts()))
        } else if typ == 4 {
            Some(Value::Long(r.longs()))
        } else if typ == 5 {
            Some(Value::Rational(r.rationals()))
        } else if typ == 10 {
            Some(Value::SRational(r.srationals()))
        } else {
            None
        }
    }

    fn shorts(&self) -> (v: Vec<u16>)
        ensures
            v@ == Seq::new(
                self.d@.len() / 2,
                |i: int| codec::word16(self.d@, 2 * i, self.little),
            ),
    {
        let len: usize = self.d.len();
        let n: usize = len / 2;
        let mut v: Vec<u16> = Vec::new();
        let mut i: usize = 0;
        while i < n
            invariant
                i <= n,
                len == self.d@.len(),
                n == len / 2,
                v@ =~= Seq::new(i as nat, |j: int| codec::word16(self.d@, 2 * j, self.little)),
            decreases n - i,
        {
            if let Ok(x) = self.u16(2 * i as u64) {
                v.push(x);
            }
            i = i + 1;
        }
        v
    }

    fn longs(&self) -> (v: Vec<u32>)
        ensures
            v@ == Seq::new(
                self.d@.len() / 4,
                |i: int| codec::word32(self.d@, 4 * i, self.little),
            ),
    {
        let len: usize = self.d.len();
        let n: usize = len / 4;
        let mut v: Vec<u32> = Vec::new();
        let mut i: usize = 0;
        while i < n
            invariant
                i <= n,
                len == self.d@.len(),
                n == len / 4,
                v@ =~= Seq::new(i as nat, |j: int| codec::word32(self.d@, 4 * j, self.little)),
            decreases n - i,
        {
            if let Ok(x) = self.u32(4 * i as u64) {
                v.push(x);
            }
            i = i + 1;
        }
        v
    }

    fn rationals(&self) -> (v: Vec<(u32, u32)>)
        ensures
            v@ == Seq::new(
                self.d@.len() / 8,
                |i: int|
                    (codec::word32(self.d@, 8 * i, self.little), codec::word32(self.d@, 8 * i + 4, self.little)),
            ),
    {
        let len: usize = self.d.len();
        let n: usize = len / 8;
        let mut v: Vec<(u32, u32)> = Vec::new();
        let mut i: usize = 0;
        while i < n
            invariant
                i <= n,
                len == self.d@.len(),
                n == len / 8,
                v@ =~= Seq::new(
                    i as nat,
                    |j: int|
                        (
                            codec::word32(self.d@, 8 * j, self.little),
                            codec::word32(self.d@, 8 * j + 4, self.little),
                        ),
                ),
            decreases n - i,
        {
            if let (Ok(x), Ok(y)) = (self.u32(8 * i as u64), self.u32(8 * i as u64 + 4)) {
                v.push((x, y));
            }
            i = i + 1;
        }
        v
    }

    fn srationals(&self) -> (v: Vec<(i32, i32)>)
        ensures
            v@ == Seq::new(
                self.d@.len() / 8,
                |i: int|
                    (
                        codec::signed(codec::word32(self.d@, 8 * i, self.little)),
                        codec::signed(codec::word32(self.d@, 8 * i + 4, self.little)),
                    ),
            ),
    {
        let len: usize = self.d.len();
        let n: usize = len / 8;
        let mut v: Vec<(i32, i32)> = Vec::new();
        let mut i: usize = 0;
        while i < n
            invariant
                i <= n,
                len == self.d@.len(),
                n == len / 8,
                v@ =~= Seq::new(
                    i as nat,
                    |j: int|
                        (
                            codec::signed(codec::word32(self.d@, 8 * j, self.little)),
                            codec::signed(codec::word32(self.d@, 8 * j + 4, self.little)),
                        ),
                ),
            decreases n - i,
        {
            if let (Ok(x), Ok(y)) = (self.i32(8 * i as u64), self.i32(8 * i as u64 + 4)) {
                v.push((x, y));
            }
            i = i + 1;
        }
        v
    }

    /// Decodes one directory entry's value. A type that is not carried
    /// across is none rather than a fault.
    pub fn value(&self, typ: u16, count: u32, field_off: u64) -> (r: Result<Option<Value>, Fault>)
        ensures
            match r {
                Err(f) => value_at(self.d@, self.little, typ, count, field_off as int) == Err::<
                    Option<Datum>,
                    Fault,
                >(f),
                Ok(None) => value_at(self.d@, self.little, typ, count, field_off as int) == Ok::<
                    Option<Datum>,
                    Fault,
                >(None),
                Ok(Some(v)) => value_at(self.d@, self.little, typ, count, field_off as int)
                    == Ok::<Option<Datum>, Fault>(Some(v@)),
            },
    {
        let elem: u64 = if typ == 1 || typ == 2 || typ == 7 {
            1
        } else if typ == 3 {
            2
        } else if typ == 4 {
            4
        } else if typ == 5 || typ == 10 {
            8
        } else {
            return Ok(None);
        };
        assert(elem * count <= 8 * 0xffff_ffff) by (nonlinear_arith)
            requires
                0 <= elem <= 8,
                0 <= count <= 0xffff_ffff,
        ;
        let total: u64 = elem * count as u64;
        let base: u64 = if total <= 4 {
            field_off
        } else {
            match self.u32(field_off) {
                Err(f) => {
                    return Err(f);
                },
                Ok(b) => b as u64,
            }
        };
        let n: u64 = self.d.len() as u64;
        if n < total || base > n - total {
            return Ok(None);
        }
        Ok(self.decoded(typ, base as usize, total as usize))
    }

    /// Collects the wanted tags of the directory at `off`, and the offset of
    /// the Exif IFD if the directory points to one.
    pub fn collect(&self, off: u32, want: &[u16]) -> (r: Result<
        (Vec<(u16, Value)>, Option<u32>),
        Fault,
    >)
        ensures
            match r {
                Err(f) => directory(self.d@, self.little, off as int, want@) == Err::<
                    (Seq<(u16, Datum)>, Option<u32>),
                    Fault,
                >(f),
                Ok((tags, ptr)) => directory(self.d@, self.little, off as int, want@) == Ok::<
                    (Seq<(u16, Datum)>, Option<u32>),
                    Fault,
                >((data(tags@), ptr)),
            },
    {
        let n: u64 = match self.u16(off as u64) {
            Err(f) => {
                return Err(f);
            },
            Ok(n) => n as u64,
        };
        let mut out: Vec<(u16, Value)> = Vec::new();
        let mut ptr: Option<u32> = None;
        let mut i: u64 = 0;
        assert(data(out@) =~= Seq::empty());
        while i < n
            invariant
                i <= n <= 0xffff,
                directory(self.d@, self.little, off as int, want@) == entries(
                    self.d@,
                    self.little,
                    off as int,
                    want@,
                    n as int,
                ),
                entries(self.d@, self.little, off as int, want@, i as int) == Ok::<
                    (Seq<(u16, Datum)>, Option<u32>),
                    Fault,
                >((data(out@), ptr)),
            decreases n - i,
        {
            let e: u64 = off as u64 + 2 + 12 * i;
            let ghost next = entries(self.d@, self.little, off as int, want@, i + 1);
            match self.entry(e, want) {
                Err(f) => {
                    proof {
                        lemma_fault_stays(
                            self.d@,
                            self.little,
                            off as int,
                            want@,
                            i + 1,
                            n as int,
                            f,
                        );
                    }
                    return Err(f);
                },
                Ok(Found::Skipped) => {},
                Ok(Found::ExifPointer(p)) => {
                    ptr = Some(p);
                },
                Ok(Found::Tag(t, v)) => {
                    let ghost was = out@;
                    out.push((t, v));
                    assert(data(out@) =~= data(was).push((t, v@)));
                },
            }
            i = i + 1;
        }
        Ok((out, ptr))
    }

    /// One directory entry.
    fn entry(&self, e: u64, want: &[u16]) -> (r: Result<Found, Fault>)
        requires
            e <= 0x2_0000_0000,
        ensures
            match r {
                Err(f) => entry_at(self.d@, self.little, want@, e as int) == Err::<Entry, Fault>(f),
                Ok(x) => entry_at(self.d@, self.little, want@, e as int) == Ok::<Entry, Fault>(x@),
            },
    {
        let tag: u16 = match self.u16(e) {
            Err(f) => {
                return Err(f);
            },
            Ok(t) => t,
        };
        let typ: u16 = match self.u16(e + 2) {
            Err(f) => {
                return Err(f);
            },
            Ok(t) => t,
        };
        let count: u32 = match self.u32(e + 4) {
            Err(f) => {
                return Err(f);
            },
            Ok(c) => c,
        };
        if tag == TAG_EXIF_IFD {
            return match self.u32(e + 8) {
                Err(f) => Err(f),
                Ok(p) => Ok(Found::ExifPointer(p)),
            };
        }
        if !holds(want, tag) {
            return Ok(Found::Skipped);
        }
        match self.value(typ, count, e + 8) {
            Err(f) => Err(f),
            Ok(None) => Ok(Found::Skipped),
            Ok(Some(v)) => Ok(Found::Tag(tag, v)),
        }
    }
}

/// What one directory entry was found to contribute.
enum Found {
    Skipped,
    ExifPointer(u32),
    Tag(u16, Value),
}

impl View for Found {
    type V = Entry;

    closed spec fn view(&self) -> Entry {
        match *self {
            Found::Skipped => Entry::Skipped,
            Found::ExifPointer(p) => Entry::ExifPointer(p),
            Found::Tag(t, v) => Entry::Tag(t, v@),
        }
    }
}

proof fn lemma_fault_stays(
    d: Seq<u8>,
    little: bool,
    off: int,
    want: Seq<u16>,
    i: int,
    n: int,
    f: Fault,
)
    requires
        0 <= i <= n,
        entries(d, little, off, want, i) == Err::<(Seq<(u16, Datum)>, Option<u32>), Fault>(f),
    ensures
        entries(d, little, off, want, n) == Err::<(Seq<(u16, Datum)>, Option<u32>), Fault>(f),
    decreases n - i,
{
    if i < n {
        lemma_fault_stays(d, little, off, want, i, n - 1, f);
    }
}

/// Whether a list of tags has this one.
pub fn holds(list: &[u16], tag: u16) -> (b: bool)
    ensures
        b == list@.contains(tag),
{
    let mut i: usize = 0;
    while i < list.len()
        invariant
            i <= list@.len(),
            forall|j: int| 0 <= j < i ==> list@[j] != tag,
        decreases list@.len() - i,
    {
        if list[i] == tag {
            return true;
        }
        i = i + 1;
    }
    false
}

/// Byte order and first directory of a file, from its first eight bytes.
pub fn first_ifd(d: &[u8]) -> (r: Result<(bool, u32), Fault>)
    ensures
        r == header(d@),
{
    if d.len() < 8 {
        return Err(Fault::TooShort);
    }
    let little: bool = if d[0] == 0x49 && d[1] == 0x49 {
        true
    } else if d[0] == 0x4d && d[1] == 0x4d {
        false
    } else {
        return Err(Fault::NotTiff);
    };
    let r = Reader { d, little };
    match r.u32(4) {
        Err(f) => Err(f),
        Ok(off) => Ok((little, off)),
    }
}

/// The tags read from a RAW file, split by the directory they belong in.
pub struct SourceExif {
    pub ifd0: Vec<(u16, Value)>,
    pub exif: Vec<(u16, Value)>,
}

/// Reads the identifying and photographic tags from the head of a RAW file.
pub fn read_source(d: &[u8]) -> (r: Result<SourceExif, Fault>)
    ensures
        match r {
            Err(f) => source(d@) == Err::<(Seq<(u16, Datum)>, Seq<(u16, Datum)>), Fault>(f),
            Ok(s) => source(d@) == Ok::<(Seq<(u16, Datum)>, Seq<(u16, Datum)>), Fault>(
                (data(s.ifd0@), data(s.exif@)),
            ),
        },
{
    let (little, off) = match first_ifd(d) {
        Err(f) => {
            return Err(f);
        },
        Ok(h) => h,
    };
    let r = Reader { d, little };
    match r.collect(off, &IFD0_TAGS) {
        Err(f) => Err(f),
        Ok((ifd0, None)) => {
            let exif: Vec<(u16, Value)> = Vec::new();
            assert(data(exif@) =~= Seq::empty());
            Ok(SourceExif { ifd0, exif })
        },
        Ok((ifd0, Some(p))) => match r.collect(p, &EXIF_TAGS) {
            Err(f) => Err(f),
            Ok((exif, _)) => Ok(SourceExif { ifd0, exif }),
        },
    }
}

/// The text that bytes stand for when anything that is not UTF-8 is replaced.
pub uninterp spec fn lossy_text(b: Seq<u8>) -> Seq<char>;

/// `String::from_utf8_lossy` of std: the text of the bytes, which is the
/// decoded one wherever the bytes are valid UTF-8. What exactly invalid bytes
/// are replaced by is left to the name.
#[verifier::external_body]
fn utf8_lossy(b: &[u8]) -> (s: String)
    ensures
        s@ == lossy_text(b@),
        vstd::utf8::valid_utf8(b@) ==> s@ == vstd::utf8::decode_utf8(b@),
{
    String::from_utf8_lossy(b).into_owned()
}

/// Stored text without its padding: no NULs at the end, no white space around.
pub open spec fn unpadded(s: Seq<char>) -> Seq<char> {
    text::trim(text::trim_end_of(s, '\0'))
}

/// Takes the padding off stored text.
pub fn unpad(s: &str) -> (r: String)
    ensures
        r@ == unpadded(s@),
{
    let c = text::chars(s);
    let c = text::trimmed_end_of(c.as_slice(), '\0');
    let c = text::trimmed(c.as_slice());
    text::string(c.as_slice())
}

/// The text of the first entry with a tag; none if there is no such entry or
/// it does not hold text.
pub open spec fn text_of(list: Seq<(u16, Datum)>, tag: u16) -> Option<Seq<char>>
    decreases list.len(),
{
    if list.len() == 0 {
        None
    } else if list[0].0 == tag {
        match list[0].1 {
            Datum::Ascii(b) => Some(unpadded(lossy_text(b))),
            _ => None,
        }
    } else {
        text_of(list.drop_first(), tag)
    }
}

/// Looks up the text of a tag.
fn find_text(list: &Vec<(u16, Value)>, tag: u16) -> (r: Option<String>)
    ensures
        r is Some <==> text_of(data(list@), tag) is Some,
        r is Some ==> text_of(data(list@), tag) == Some(r->0@),
{
    let ghost all = data(list@);
    let mut i: usize = 0;
    assert(all.skip(0) =~= all);
    while i < list.len()
        invariant
            i <= list@.len(),
            all == data(list@),
            text_of(all, tag) == text_of(all.skip(i as int), tag),
        decreases list@.len() - i,
    {
        assert(all.skip(i as int).drop_first() =~= all.skip(i + 1));
        assert(all.skip(i as int)[0] == (list@[i as int].0, list@[i as int].1@));
        if list[i].0 == tag {
            return match &list[i].1 {
                Value::Ascii(b) => {
                    let raw = utf8_lossy(b.as_slice());
                    Some(unpad(raw.as_str()))
                },
                _ => None,
            };
        }
        i = i + 1;
    }
    None
}

/// Camera and lens in one line.
pub open spec fn summary_of(model: Option<Seq<char>>, lens: Option<Seq<char>>) -> Seq<char> {
    match (model, lens) {
        (Some(m), Some(l)) => m + " + "@ + l,
        (Some(m), None) => m,
        (None, Some(l)) => l,
        (None, None) => "no identifying tags"@,
    }
}

/// Camera and lens in one line, for reporting.
pub fn summary(model: &Option<String>, lens: &Option<String>) -> (r: String)
    ensures
        r@ == summary_of(
            match model {
                Some(m) => Some(m@),
                None => None,
            },
            match lens {
                Some(l) => Some(l@),
                None => None,
            },
        ),
{
    match (model, lens) {
        (Some(m), Some(l)) => {
            let mut r: String = String::from_str("");
            proof {
                reveal_strlit("");
            }
            r.append(m.as_str());
            r.append(" + ");
            r.append(l.as_str());
            assert(r@ =~= m@ + " + "@ + l@);
            r
        },
        (Some(m), None) => m.clone(),
        (None, Some(l)) => l.clone(),
        (None, None) => String::from_str("no identifying tags"),
    }
}

/// Camera and lens by their tags.
pub open spec fn described(ifd0: Seq<(u16, Datum)>, photo: Seq<(u16, Datum)>) -> Seq<char> {
    summary_of(text_of(ifd0, TAG_MODEL), text_of(photo, TAG_LENS_MODEL))
}

impl SourceExif {
    /// Whether no tag was found.
    pub fn is_empty(&self) -> (b: bool)
        ensures
            b <==> self.ifd0@.len() == 0 && self.exif@.len() == 0,
    {
        self.ifd0.len() == 0 && self.exif.len() == 0
    }

    /// Camera and lens as read, for reporting.
    pub fn describe(&self) -> (r: String)
        ensures
            r@ == described(data(self.ifd0@), data(self.exif@)),
    {
        let model = find_text(&self.ifd0, TAG_MODEL);
        let lens = find_text(&self.exif, TAG_LENS_MODEL);
        summary(&model, &lens)
    }
}

/// The text of the time of capture: when the frame was taken, else when it
/// was digitized, else the file's own date.
pub open spec fn time_text(ifd0: Seq<(u16, Datum)>, photo: Seq<(u16, Datum)>) -> Option<Seq<char>> {
    match text_of(photo, TAG_DATE_TIME_ORIGINAL) {
        Some(s) => Some(s),
        None => match text_of(photo, TAG_DATE_TIME_DIGITIZED) {
            Some(s) => Some(s),
            None => text_of(ifd0, TAG_DATE_TIME),
        },
    }
}

/// The number between two byte positions of a text, white space around it
/// allowed.
pub open spec fn number_between(s: Seq<char>, a: int, z: int) -> Option<int> {
    match text::byte_slice(s, a, z) {
        None => None,
        Some(t) => text::parse_int(text::trim(t)),
    }
}

/// Days from 1970-01-01 to a date of the proleptic Gregorian calendar. A year
/// is counted from March on, so that a leap day is its last.
pub open spec fn civil_days(y: int, mo: int, d: int) -> int {
    let y2 = if mo <= 2 {
        y - 1
    } else {
        y
    };
    let era = y2 / 400;
    let yoe = y2 % 400;
    let month = if mo > 2 {
        mo - 3
    } else {
        mo + 9
    };
    let doy = (153 * month + 2) / 5 + d - 1;
    era * 146_097 + yoe * 365 + yoe / 4 - yoe / 100 + doy - 719_468
}

/// Seconds of a text `YYYY:MM:DD HH:MM:SS`, whatever separates the numbers.
pub open spec fn seconds_of(s: Seq<char>) -> Option<int> {
    if text::bytes_len(s) < 19 {
        None
    } else {
        match (
            number_between(s, 0, 4),
            number_between(s, 5, 7),
            number_between(s, 8, 10),
            number_between(s, 11, 13),
            number_between(s, 14, 16),
            number_between(s, 17, 19),
        ) {
            (Some(y), Some(mo), Some(d), Some(h), Some(mi), Some(se)) => Some(
                civil_days(y, mo, d) * 86_400 + h * 3600 + mi * 60 + se,
            ),
            _ => None,
        }
    }
}

/// A stretch of at most `z - a` bytes holds at most as many characters.
proof fn lemma_short_slice(s: Seq<char>, a: int, z: int)
    requires
        a <= z,
        text::byte_slice(s, a, z) is Some,
    ensures
        text::byte_slice(s, a, z)->0.len() <= z - a,
{
    text::lemma_char_at_byte_is_prefix(s, a);
    text::lemma_char_at_byte_is_prefix(s, z);
    let i = text::char_at_byte(s, a)->0;
    let j = text::char_at_byte(s, z)->0;
    if i <= j {
        text::lemma_bytes_grow(s, i, j);
    } else {
        text::lemma_bytes_grow(s, j, i);
    }
}

fn number_at(s: &[char], a: usize, z: usize) -> (r: Option<i64>)
    requires
        a <= z <= a + 4,
        z <= 19,
    ensures
        r is Some <==> number_between(s@, a as int, z as int) is Some,
        r is Some ==> number_between(s@, a as int, z as int) == Some(r->0 as int) && -9999 <= r->0
            <= 9999 && (z <= a + 2 ==> -9 <= r->0 <= 99),
{
    match text::between_bytes(s, a, z) {
        None => None,
        Some(t) => {
            let t2 = text::trimmed(t.as_slice());
            let r = text::integer(t2.as_slice());
            proof {
                lemma_short_slice(s@, a as int, z as int);
                text::lemma_trim_shortens(t@);
                if r is Some {
                    text::lemma_parse_bound(t2@);
                }
            }
            r
        },
    }
}

/// Seconds of a text `YYYY:MM:DD HH:MM:SS`. The zero point is arbitrary and no
/// time zone is applied: only differences are meant to be used.
pub fn parse_timestamp(s: &str) -> (r: Option<i64>)
    ensures
        r is Some <==> seconds_of(s@) is Some,
        r is Some ==> seconds_of(s@) == Some(r->0 as int),
{
    let c = text::chars(s);
    let c = c.as_slice();
    if !text::at_least_bytes(c, 19) {
        return None;
    }
    match (
        number_at(c, 0, 4),
        number_at(c, 5, 7),
        number_at(c, 8, 10),
        number_at(c, 11, 13),
        number_at(c, 14, 16),
        number_at(c, 17, 19),
    ) {
        (Some(y), Some(mo), Some(d), Some(h), Some(mi), Some(se)) => {
            let y2: i64 = if mo <= 2 {
                y - 1
            } else {
                y
            };
            let up: i64 = y2 + 40_000;
            let era: i64 = up / 400 - 100;
            let yoe: i64 = up % 400;
            assert(era == y2 as int / 400 && yoe == y2 as int % 400);
            let month: i64 = if mo > 2 {
                mo - 3
            } else {
                mo + 9
            };
            let doy: i64 = (153 * month + 2) / 5 + d - 1;
            let days: i64 = era * 146_097 + yoe * 365 + yoe / 4 - yoe / 100 + doy - 719_468;
            Some(days * 86_400 + h * 3600 + mi * 60 + se)
        },
        _ => None,
    }
}

/// When the frame was taken, in seconds.
pub fn capture_seconds(src: &SourceExif) -> (r: Option<i64>)
    ensures
        match time_text(data(src.ifd0@), data(src.exif@)) {
            None => r is None,
            Some(s) => (r is Some <==> seconds_of(s) is Some) && (r is Some ==> seconds_of(s)
                == Some(r->0 as int)),
        },
{
    let s = match find_text(&src.exif, TAG_DATE_TIME_ORIGINAL) {
        Some(s) => s,
        None => match find_text(&src.exif, TAG_DATE_TIME_DIGITIZED) {
            Some(s) => s,
            None => match find_text(&src.ifd0, TAG_DATE_TIME) {
                Some(s) => s,
                None => {
                    return None;
                },
            },
        },
    };
    parse_timestamp(s.as_str())
}

impl Fault {
    /// What is reported for the fault.
    pub open spec fn text(self) -> Seq<char> {
        match self {
            Fault::TooShort => "too short to be a TIFF"@,
            Fault::NotTiff => "not a TIFF/RAW container"@,
            Fault::Truncated(off) => "truncated at "@ + text::decimal(off as nat),
        }
    }

    /// What is reported for the fault.
    pub fn message(&self) -> (r: String)
        ensures
            r@ == self.text(),
    {
        match *self {
            Fault::TooShort => String::from_str("too short to be a TIFF"),
            Fault::NotTiff => String::from_str("not a TIFF/RAW container"),
            Fault::Truncated(off) => {
                let mut c = text::chars("truncated at ");
                text::push_decimal(&mut c, off);
                text::string(c.as_slice())
            },
        }
    }
}

/// A leap year of the Gregorian calendar.
pub open spec fn leap(y: int) -> bool {
    y % 4 == 0 && (y % 100 != 0 || y % 400 == 0)
}

/// Days of a month.
pub open spec fn month_days(y: int, mo: int) -> int {
    if mo == 2 {
        if leap(y) {
            29
        } else {
            28
        }
    } else if mo == 4 || mo == 6 || mo == 9 || mo == 11 {
        30
    } else {
        31
    }
}

/// A date and time that exists: `(year, month, day, second of the day)`.
pub open spec fn valid_time(t: (int, int, int, int)) -> bool {
    1 <= t.1 <= 12 && 1 <= t.2 <= month_days(t.0, t.1) && 0 <= t.3 < 86_400
}

/// One time comes before another on the calendar.
pub open spec fn earlier(a: (int, int, int, int), b: (int, int, int, int)) -> bool {
    ||| a.0 < b.0
    ||| a.0 == b.0 && a.1 < b.1
    ||| a.0 == b.0 && a.1 == b.1 && a.2 < b.2
    ||| a.0 == b.0 && a.1 == b.1 && a.2 == b.2 && a.3 < b.3
}

/// Seconds of a date and time.
pub open spec fn time_seconds(t: (int, int, int, int)) -> int {
    civil_days(t.0, t.1, t.2) * 86_400 + t.3
}

/// Days up to 1 March of a year.
spec fn year_start(y: int) -> int {
    let era = y / 400;
    let yoe = y % 400;
    era * 146_097 + yoe * 365 + yoe / 4 - yoe / 100
}

proof fn lemma_year_step(y: int)
    ensures
        year_start(y + 1) == year_start(y) + if leap(y + 1) {
            366int
        } else {
            365int
        },
{
    let q = y / 400;
    let r = y % 400;
    let k = r + 1;
    assert(y == 400 * q + r);
    vstd::arithmetic::div_mod::lemma_mod_multiples_vanish(100 * q, k, 4);
    vstd::arithmetic::div_mod::lemma_mod_multiples_vanish(4 * q, k, 100);
    vstd::arithmetic::div_mod::lemma_mod_multiples_vanish(q, k, 400);
    assert((y + 1) % 4 == k % 4 && (y + 1) % 100 == k % 100 && (y + 1) % 400 == k % 400);
    if r == 399 {
        assert((y + 1) / 400 == q + 1 && (y + 1) % 400 == 0);
    } else {
        assert((y + 1) / 400 == q && (y + 1) % 400 == k);
        lemma_leap_days(r);
    }
}

/// Leap days within an era of 400 years.
proof fn lemma_leap_days(r: int)
    requires
        0 <= r < 399,
    ensures
        (r + 1) / 4 - (r + 1) / 100 == r / 4 - r / 100 + if (r + 1) % 4 == 0 && (r + 1) % 100 != 0 {
            1int
        } else {
            0int
        },
{
}

proof fn lemma_years_grow(y: int, z: int)
    requires
        y <= z,
    ensures
        year_start(y) <= year_start(z),
    decreases z - y,
{
    if y < z {
        lemma_years_grow(y, z - 1);
        lemma_year_step(z - 1);
    }
}

/// Time never runs backwards: over midnight, a month's end or a leap day, a
/// later time has more seconds.
pub proof fn law_time_is_monotonic(a: (int, int, int, int), b: (int, int, int, int))
    requires
        valid_time(a),
        valid_time(b),
        earlier(a, b),
    ensures
        time_seconds(a) < time_seconds(b),
{
    let ya = if a.1 <= 2 {
        a.0 - 1
    } else {
        a.0
    };
    let yb = if b.1 <= 2 {
        b.0 - 1
    } else {
        b.0
    };
    let doy_a = civil_days(a.0, a.1, a.2) - year_start(ya) + 719_468;
    let doy_b = civil_days(b.0, b.1, b.2) - year_start(yb) + 719_468;
    assert(0 <= doy_a <= if leap(ya + 1) {
        365int
    } else {
        364int
    });
    assert(0 <= doy_b);
    if ya < yb {
        lemma_year_step(ya);
        lemma_years_grow(ya + 1, yb);
    } else {
        assert(ya == yb);
    }
}

/// The types of values are those of TIFF, with the sizes they have there.
pub proof fn law_types_are_those_of_tiff(
    a: Seq<u8>,
    s: Seq<u16>,
    l: Seq<u32>,
    q: Seq<(u32, u32)>,
    z: Seq<(i32, i32)>,
    t: u16,
)
    ensures
        Datum::Ascii(a).type_id() == 2 && Datum::Short(s).type_id() == 3 && Datum::Long(l).type_id()
            == 4 && Datum::Rational(q).type_id() == 5 && Datum::SRational(z).type_id() == 10,
        Datum::Bytes(t, a).type_id() == t,
        elem_size(1) == Some(1int) && elem_size(2) == Some(1int) && elem_size(7) == Some(1int),
        elem_size(3) == Some(2int) && elem_size(4) == Some(4int),
        elem_size(5) == Some(8int) && elem_size(10) == Some(8int),
        t == 0 || t == 6 || t == 8 || t == 9 || t > 10 ==> elem_size(t) is None,
{
}

/// Values stand in a file one after the other, and of a fraction the numerator
/// first.
pub proof fn law_payload_is_in_order(
    a: Seq<u8>,
    t: u16,
    s: Seq<u16>,
    l: Seq<u32>,
    q: Seq<(u32, u32)>,
    z: Seq<(i32, i32)>,
    little: bool,
    k: int,
)
    requires
        0 <= k,
    ensures
        Datum::Ascii(a).payload(little) == a,
        Datum::Bytes(t, a).payload(little) == a,
        Datum::Short(s).payload(little).len() == 2 * s.len(),
        k < s.len() ==> Datum::Short(s).payload(little).subrange(2 * k, 2 * k + 2) == codec::enc16(
            s[k],
            little,
        ),
        Datum::Long(l).payload(little).len() == 4 * l.len(),
        k < l.len() ==> Datum::Long(l).payload(little).subrange(4 * k, 4 * k + 4) == codec::enc32(
            l[k],
            little,
        ),
        Datum::Rational(q).payload(little).len() == 8 * q.len(),
        k < q.len() ==> Datum::Rational(q).payload(little).subrange(8 * k, 8 * k + 4)
            == codec::enc32(q[k].0, little) && Datum::Rational(q).payload(little).subrange(
            8 * k + 4,
            8 * k + 8,
        ) == codec::enc32(q[k].1, little),
        Datum::SRational(z).payload(little).len() == 8 * z.len(),
        k < z.len() ==> Datum::SRational(z).payload(little).subrange(8 * k, 8 * k + 4)
            == codec::enc32(codec::unsigned(z[k].0), little) && Datum::SRational(z).payload(
            little,
        ).subrange(8 * k + 4, 8 * k + 8) == codec::enc32(codec::unsigned(z[k].1), little),
{
    if k < s.len() {
        assert(Datum::Short(s).payload(little).subrange(2 * k, 2 * k + 2) =~= codec::enc16(
            s[k],
            little,
        ));
    }
    if k < l.len() {
        assert(Datum::Long(l).payload(little).subrange(4 * k, 4 * k + 4) =~= codec::enc32(
            l[k],
            little,
        ));
    }
    if k < q.len() {
        let p = Datum::Rational(q).payload(little);
        assert(p.subrange(8 * k, 8 * k + 4) =~= codec::enc32(q[k].0, little));
        assert(p.subrange(8 * k + 4, 8 * k + 8) =~= codec::enc32(q[k].1, little));
    }
    if k < z.len() {
        let p = Datum::SRational(z).payload(little);
        assert(p.subrange(8 * k, 8 * k + 4) =~= codec::enc32(codec::unsigned(z[k].0), little));
        assert(p.subrange(8 * k + 4, 8 * k + 8) =~= codec::enc32(codec::unsigned(z[k].1), little));
    }
}

/// A TIFF begins with its byte order, twice the same letter, and says in the
/// fifth to eighth byte where its first directory stands.
pub proof fn law_headers_tell_the_byte_order(d: Seq<u8>)
    ensures
        d.len() < 8 ==> header(d) == Err::<(bool, u32), Fault>(Fault::TooShort),
        d.len() >= 8 && d[0] == 73 && d[1] == 73 ==> header(d) == Ok::<(bool, u32), Fault>(
            (true, codec::word32(d, 4, true)),
        ),
        d.len() >= 8 && d[0] == 77 && d[1] == 77 ==> header(d) == Ok::<(bool, u32), Fault>(
            (false, codec::word32(d, 4, false)),
        ),
        d.len() >= 8 && !(d[0] == d[1] && (d[0] == 73 || d[0] == 77)) ==> header(d) == Err::<
            (bool, u32),
            Fault,
        >(Fault::NotTiff),
{
}

/// An entry is twelve bytes: tag, type and number of values, and then the
/// values themselves if they fit four bytes, or where they stand. An entry that
/// is wanted and complete gives its tag and the values of that place.
pub proof fn law_entries_are_twelve_bytes(
    d: Seq<u8>,
    little: bool,
    want: Seq<u16>,
    e: int,
    elem: int,
)
    requires
        0 <= e,
        e + 12 <= d.len(),
        want.contains(codec::word16(d, e, little)),
        codec::word16(d, e, little) != 34665,
        elem_size(codec::word16(d, e + 2, little)) == Some(elem),
    ensures
        ({
            let tag = codec::word16(d, e, little);
            let typ = codec::word16(d, e + 2, little);
            let total = elem * codec::word32(d, e + 4, little);
            let at = codec::word32(d, e + 8, little) as int;
            &&& total <= 4 ==> entry_at(d, little, want, e) == Ok::<Entry, Fault>(
                Entry::Tag(tag, decode(d.subrange(e + 8, e + 8 + total), typ, little)->0),
            )
            &&& total > 4 && at + total <= d.len() ==> entry_at(d, little, want, e) == Ok::<
                Entry,
                Fault,
            >(Entry::Tag(tag, decode(d.subrange(at, at + total), typ, little)->0))
            &&& total > 4 && at + total > d.len() ==> entry_at(d, little, want, e) == Ok::<
                Entry,
                Fault,
            >(Entry::Skipped)
        }),
{
}

/// An entry that is not wanted is passed over, and the one that points to the
/// photographic directory says where that stands.
pub proof fn law_unwanted_entries_are_passed_over(d: Seq<u8>, little: bool, want: Seq<u16>, e: int)
    requires
        0 <= e,
        e + 12 <= d.len(),
    ensures
        codec::word16(d, e, little) == 34665 ==> entry_at(d, little, want, e) == Ok::<Entry, Fault>(
            Entry::ExifPointer(codec::word32(d, e + 8, little)),
        ),
        codec::word16(d, e, little) != 34665 && !want.contains(codec::word16(d, e, little))
            ==> entry_at(d, little, want, e) == Ok::<Entry, Fault>(Entry::Skipped),
{
}

/// A directory begins with the number of its entries, which follow one another.
/// What is read are the tags they give, in their order: the result lists the
/// entries that gave one.
pub proof fn law_directories_list_their_entries(
    d: Seq<u8>,
    little: bool,
    off: int,
    want: Seq<u16>,
    n: int,
) -> (at: Seq<int>)
    requires
        entries(d, little, off, want, n) is Ok,
        n >= 0,
    ensures
        ({
            let tags = entries(d, little, off, want, n)->Ok_0.0;
            &&& at.len() == tags.len()
            &&& forall|j: int|
                0 <= j < at.len() ==> 0 <= #[trigger] at[j] < n && entry_at(
                    d,
                    little,
                    want,
                    off + 2 + 12 * at[j],
                ) == Ok::<Entry, Fault>(Entry::Tag(tags[j].0, tags[j].1))
            &&& forall|j: int, l: int| 0 <= j < l < at.len() ==> #[trigger] at[j] < #[trigger] at[l]
        }),
        forall|k: int|
            0 <= k < n ==> {
                let r = #[trigger] entry_at(d, little, want, off + 2 + 12 * k);
                r is Ok && (r->Ok_0 is Tag ==> at.contains(k))
            },
    decreases n,
{
    if n == 0 {
        Seq::empty()
    } else {
        let front = law_directories_list_their_entries(d, little, off, want, n - 1);
        let last = entry_at(d, little, want, off + 2 + 12 * (n - 1));
        let at = if last->Ok_0 is Tag {
            front.push(n - 1)
        } else {
            front
        };
        let tags = entries(d, little, off, want, n)->Ok_0.0;
        let old_tags = entries(d, little, off, want, n - 1)->Ok_0.0;
        assert forall|j: int| 0 <= j < at.len() implies 0 <= #[trigger] at[j] < n && entry_at(
            d,
            little,
            want,
            off + 2 + 12 * at[j],
        ) == Ok::<Entry, Fault>(Entry::Tag(tags[j].0, tags[j].1)) by {
            if j < front.len() {
                assert(at[j] == front[j] && tags[j] == old_tags[j]);
            }
        }
        assert forall|k: int| 0 <= k < n implies {
            let r = #[trigger] entry_at(d, little, want, off + 2 + 12 * k);
            r is Ok && (r->Ok_0 is Tag ==> at.contains(k))
        } by {
            if k < n - 1 {
                let r = entry_at(d, little, want, off + 2 + 12 * k);
                if r->Ok_0 is Tag {
                    assert(front.contains(k));
                    let j = choose|j: int| 0 <= j < front.len() && front[j] == k;
                    assert(at[j] == k);
                }
            } else if last->Ok_0 is Tag {
                assert(at[front.len() as int] == k);
            }
        }
        at
    }
}

/// A directory is read from where it is said to stand, with as many entries as
/// its first two bytes say.
pub proof fn law_directories_count_first(d: Seq<u8>, little: bool, off: int, want: Seq<u16>)
    requires
        0 <= off,
        off + 2 <= d.len(),
    ensures
        directory(d, little, off, want) == entries(
            d,
            little,
            off,
            want,
            codec::word16(d, off, little) as int,
        ),
{
}

/// What describes the picture is carried across: of the first directory the
/// camera, the date and who made it, of the photographic one the exposure, the
/// lens and the times.
pub proof fn law_what_is_carried()
    ensures
        IFD0_TAGS@ == seq![271u16, 272u16, 305u16, 306u16, 315u16, 33432u16],
        EXIF_TAGS@.contains(33434) && EXIF_TAGS@.contains(33437) && EXIF_TAGS@.contains(34850)
            && EXIF_TAGS@.contains(34855),
        EXIF_TAGS@.contains(36867) && EXIF_TAGS@.contains(36868),
        EXIF_TAGS@.contains(37377) && EXIF_TAGS@.contains(37378) && EXIF_TAGS@.contains(37380)
            && EXIF_TAGS@.contains(37381) && EXIF_TAGS@.contains(37383) && EXIF_TAGS@.contains(
            37384,
        ) && EXIF_TAGS@.contains(37385) && EXIF_TAGS@.contains(37386),
        EXIF_TAGS@.contains(41986) && EXIF_TAGS@.contains(41987) && EXIF_TAGS@.contains(41989),
        EXIF_TAGS@.contains(42032) && EXIF_TAGS@.contains(42033) && EXIF_TAGS@.contains(42034)
            && EXIF_TAGS@.contains(42035) && EXIF_TAGS@.contains(42036) && EXIF_TAGS@.contains(
            42037,
        ),
        EXIF_TAGS@.len() == 23,
{
    assert(IFD0_TAGS@ =~= seq![271u16, 272u16, 305u16, 306u16, 315u16, 33432u16]);
    let t = EXIF_TAGS@;
    assert(t[0] == 33434 && t[1] == 33437 && t[2] == 34850 && t[3] == 34855);
    assert(t[4] == 36867 && t[5] == 36868 && t[6] == 37377 && t[7] == 37378);
    assert(t[8] == 37380 && t[9] == 37381 && t[10] == 37383 && t[11] == 37384);
    assert(t[12] == 37385 && t[13] == 37386 && t[14] == 41986 && t[15] == 41987);
    assert(t[16] == 41989 && t[17] == 42032 && t[18] == 42033 && t[19] == 42034);
    assert(t[20] == 42035 && t[21] == 42036 && t[22] == 42037);
}

/// The text under a tag is that of the first entry with it, without the zeros
/// and the white space around it; an entry that is no text gives none.
pub proof fn law_texts_come_from_the_first_entry(list: Seq<(u16, Datum)>, tag: u16, k: int)
    requires
        0 <= k < list.len(),
        list[k].0 == tag,
        forall|j: int| 0 <= j < k ==> (#[trigger] list[j]).0 != tag,
    ensures
        list[k].1 matches Datum::Ascii(b) ==> text_of(list, tag) == Some(unpadded(lossy_text(b))),
        !(list[k].1 is Ascii) ==> text_of(list, tag) is None,
    decreases k,
{
    if k > 0 {
        let rest = list.drop_first();
        assert(list[0].0 != tag);
        assert(rest[k - 1] == list[k]);
        assert forall|j: int| 0 <= j < k - 1 implies (#[trigger] rest[j]).0 != tag by {
            assert(rest[j] == list[j + 1]);
        }
        law_texts_come_from_the_first_entry(rest, tag, k - 1);
    }
}

/// Without an entry there is no text.
pub proof fn law_no_entry_no_text(list: Seq<(u16, Datum)>, tag: u16)
    requires
        forall|j: int| 0 <= j < list.len() ==> (#[trigger] list[j]).0 != tag,
    ensures
        text_of(list, tag) is None,
    decreases list.len(),
{
    if list.len() > 0 {
        let rest = list.drop_first();
        assert(list[0].0 != tag);
        assert forall|j: int| 0 <= j < rest.len() implies (#[trigger] rest[j]).0 != tag by {
            assert(rest[j] == list[j + 1]);
        }
        law_no_entry_no_text(rest, tag);
    }
}

/// Padding is taken off the end, and white space off both.
pub proof fn law_padding_is_taken_off(s: Seq<char>, n: nat)
    requires
        s.len() > 0,
        !text::is_white(s[0]),
        !text::is_white(s.last()),
        s.last() != '\0',
    ensures
        unpadded(s + text::run_of('\0', n as int)) == s,
        unpadded(s + seq![' ']) == s,
        unpadded(seq![' '] + s) == s,
{
    let t = s + text::run_of('\0', n as int);
    let k = text::law_trimming_takes_the_character(t, '\0');
    assert(k == s.len()) by {
        if k < s.len() {
            assert(t[s.len() - 1] == s.last());
        }
        if k > s.len() {
            assert(t[k - 1] == '\0');
        }
    }
    assert(t.take(k) =~= s);
    lemma_nothing_to_trim(s, 0, 0);
    lemma_nothing_to_trim(s, 0, 1);
    lemma_nothing_to_trim(s, 1, 0);
    assert(text::run_of(' ', 0) + s + text::run_of(' ', 0) =~= s);
    assert(text::run_of(' ', 0) + s + text::run_of(' ', 1) =~= s + seq![' ']);
    assert(text::run_of(' ', 1) + s + text::run_of(' ', 0) =~= seq![' '] + s);
    let u = s + seq![' '];
    let v = seq![' '] + s;
    let i = text::law_trimming_takes_the_character(u, '\0');
    assert(u[u.len() - 1] == ' ');
    assert(i == u.len());
    assert(u.take(i) =~= u);
    let j = text::law_trimming_takes_the_character(v, '\0');
    assert(v[v.len() - 1] == s.last());
    assert(j == v.len());
    assert(v.take(j) =~= v);
}

proof fn lemma_nothing_to_trim(s: Seq<char>, a: int, b: int)
    requires
        s.len() > 0,
        !text::is_white(s[0]),
        !text::is_white(s.last()),
        0 <= a,
        0 <= b,
    ensures
        text::trim(text::run_of(' ', a) + s + text::run_of(' ', b)) == s,
{
    let t = text::run_of(' ', a) + s + text::run_of(' ', b);
    let (p, q) = text::law_trimming_takes_white_ends(t);
    assert(t[a] == s[0] && t[a + s.len() - 1] == s.last());
    assert(p <= a && q >= a + s.len());
    assert(p == a) by {
        if p < a {
            assert(t[p] == ' ');
        }
    }
    assert(q == a + s.len()) by {
        if q > a + s.len() {
            assert(t[q - 1] == ' ');
        }
    }
    assert(t.subrange(p, q) =~= s);
}

/// A camera is described by its model and its lens, joined by a plus, or by the
/// one of them that is known.
pub proof fn law_descriptions_name_camera_and_lens(m: Seq<char>, l: Seq<char>)
    ensures
        summary_of(Some(m), Some(l)) == m + " + "@ + l,
        summary_of(Some(m), Some(l)).take(m.len() as int) == m,
        summary_of(Some(m), None) == m,
        summary_of(None, Some(l)) == l,
        summary_of(None, None) == "no identifying tags"@,
{
    assert((m + " + "@ + l).take(m.len() as int) =~= m);
}

/// The time of a picture is when it was taken, or else when it was digitized,
/// or else when the file was changed.
pub proof fn law_capture_time_comes_first(ifd0: Seq<(u16, Datum)>, photo: Seq<(u16, Datum)>)
    ensures
        text_of(photo, 36867) is Some ==> time_text(ifd0, photo) == text_of(photo, 36867),
        text_of(photo, 36867) is None && text_of(photo, 36868) is Some ==> time_text(ifd0, photo)
            == text_of(photo, 36868),
        text_of(photo, 36867) is None && text_of(photo, 36868) is None ==> time_text(ifd0, photo)
            == text_of(ifd0, 306),
{
}

/// Days are counted from the first of January 1970, one by one, through months
/// of their lengths and leap years every four years, but for centuries that
/// are no multiple of 400.
pub proof fn law_calendar(y: int, mo: int, d: int)
    requires
        1 <= mo <= 12,
    ensures
        civil_days(1970, 1, 1) == 0,
        civil_days(y, mo, d + 1) == civil_days(y, mo, d) + 1,
        mo == 1 || mo == 3 || mo == 5 || mo == 7 || mo == 8 || mo == 10 ==> civil_days(
            y,
            mo + 1,
            1,
        ) == civil_days(y, mo, 1) + 31,
        mo == 4 || mo == 6 || mo == 9 || mo == 11 ==> civil_days(y, mo + 1, 1) == civil_days(
            y,
            mo,
            1,
        ) + 30,
        civil_days(y + 1, 1, 1) == civil_days(y, 12, 1) + 31,
        y % 4 != 0 ==> civil_days(y, 3, 1) == civil_days(y, 2, 1) + 28,
        y % 4 == 0 && y % 100 != 0 ==> civil_days(y, 3, 1) == civil_days(y, 2, 1) + 29,
        y % 100 == 0 && y % 400 != 0 ==> civil_days(y, 3, 1) == civil_days(y, 2, 1) + 28,
        y % 400 == 0 ==> civil_days(y, 3, 1) == civil_days(y, 2, 1) + 29,
{
    lemma_year_step(y - 1);
    assert(civil_days(y, 3, 1) == year_start(y) - 719_468);
    assert(civil_days(y, 2, 1) == year_start(y - 1) + 337 - 719_468);
    if y % 400 == 0 {
        assert(y % 4 == 0);
    }
    if y % 100 == 0 {
        assert(y % 4 == 0);
    }
}

/// A part of a time.
pub open spec fn part(s: Seq<char>, a: int, z: int) -> int {
    text::digits_value(s.subrange(a, z)) as int
}

proof fn lemma_part(s: Seq<char>, a: int, z: int)
    requires
        s.len() >= 19,
        forall|i: int| 0 <= i < s.len() ==> (#[trigger] s[i]) as u32 <= 0x7f,
        0 <= a < z <= 19,
        z <= a + 4,
        text::all_digits(s.subrange(a, z)),
    ensures
        number_between(s, a, z) == Some(part(s, a, z)),
{
    text::law_ascii_is_cut_by_characters(s, a, z);
    text::law_few_digits_are_read(s.subrange(a, z));
}

/// A time is written as year, month, day, hour, minute and second, each at its
/// place, whatever stands between them, and counts the seconds since 1970.
pub proof fn law_times_are_read_by_place(s: Seq<char>)
    requires
        s.len() >= 19,
        forall|i: int| 0 <= i < s.len() ==> (#[trigger] s[i]) as u32 <= 0x7f,
        text::all_digits(s.subrange(0, 4)),
        text::all_digits(s.subrange(5, 7)),
        text::all_digits(s.subrange(8, 10)),
        text::all_digits(s.subrange(11, 13)),
        text::all_digits(s.subrange(14, 16)),
        text::all_digits(s.subrange(17, 19)),
    ensures
        seconds_of(s) == Some(
            86_400 * civil_days(part(s, 0, 4), part(s, 5, 7), part(s, 8, 10)) + 3600 * part(
                s,
                11,
                13,
            ) + 60 * part(s, 14, 16) + part(s, 17, 19),
        ),
{
    text::law_ascii_is_cut_by_characters(s, 0, 4);
    lemma_part(s, 0, 4);
    lemma_part(s, 5, 7);
    lemma_part(s, 8, 10);
    lemma_part(s, 11, 13);
    lemma_part(s, 14, 16);
    lemma_part(s, 17, 19);
}

/// A text that is too short is no time.
pub proof fn law_short_texts_are_no_times(s: Seq<char>)
    requires
        s.len() < 19,
        forall|i: int| 0 <= i < s.len() ==> (#[trigger] s[i]) as u32 <= 0x7f,
    ensures
        seconds_of(s) is None,
{
    text::law_ascii_is_cut_by_characters(s, 0, 0);
}

/// The camera is found in the first directory, the lens in the photographic
/// one.
pub proof fn law_cameras_and_lenses_have_their_tags(
    ifd0: Seq<(u16, Datum)>,
    photo: Seq<(u16, Datum)>,
)
    ensures
        described(ifd0, photo) == summary_of(text_of(ifd0, 272), text_of(photo, 42036)),
{
}

/// Opaque bytes are stored as bytes or as undefined, and nothing is stored that
/// a count of 32 bits cannot number.
pub proof fn law_what_can_be_stored(t: u16, b: Seq<u8>)
    ensures
        Datum::Bytes(t, b).storable() <==> (t == 1 || t == 7) && b.len() <= 0xffff_ffff,
{
}

} // verus!
