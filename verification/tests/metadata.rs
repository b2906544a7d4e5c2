use apilaaa::embed::embed;
use apilaaa::exif::{
    capture_seconds, first_ifd, parse_timestamp, read_source, summary, unpad, Fault, Reader,
    SourceExif, Value, TAG_LENS_MODEL, TAG_MODEL,
};

fn u16le(v: u16) -> Vec<u8> {
    v.to_le_bytes().to_vec()
}

fn u32le(v: u32) -> Vec<u8> {
    v.to_le_bytes().to_vec()
}

fn entry(tag: u16, typ: u16, count: u32, field: u32) -> Vec<u8> {
    [u16le(tag), u16le(typ), u32le(count), u32le(field)].concat()
}

/// A file with a model (inline offset), a date and an Exif directory with an
/// ISO value and a lens.
fn sample_file() -> Vec<u8> {
    let mut d = [b"II".to_vec(), u16le(42), u32le(8)].concat();
    // IFD0 at 8: three entries, then the next pointer; values from 50 on.
    d.extend(u16le(3));
    d.extend(entry(272, 2, 8, 50));
    d.extend(entry(306, 2, 20, 58));
    d.extend(entry(34665, 4, 1, 78));
    d.extend(u32le(0));
    assert_eq!(d.len(), 50);
    d.extend(b"ILCE-7\0\0");
    d.extend(b"2024:08:11 23:59:58\0");
    assert_eq!(d.len(), 78);
    d.extend(u16le(2));
    d.extend(entry(34855, 3, 1, 3200));
    d.extend(entry(42036, 2, 9, 108));
    d.extend(u32le(0));
    assert_eq!(d.len(), 108);
    d.extend(b"FE 20mm\0\0");
    d
}

fn ascii(v: &Value) -> Vec<u8> {
    match v {
        Value::Ascii(b) => b.clone(),
        _ => panic!("not a text"),
    }
}

#[test]
fn reads_the_tags_of_a_file() {
    let src = match read_source(&sample_file()) {
        Ok(s) => s,
        Err(_) => panic!("readable"),
    };
    assert!(!src.is_empty());
    assert_eq!(src.ifd0.len(), 2);
    assert_eq!(src.ifd0[0].0, 272);
    assert_eq!(ascii(&src.ifd0[0].1), b"ILCE-7\0\0".to_vec());
    assert_eq!(src.ifd0[1].0, 306);
    assert_eq!(src.exif.len(), 2);
    assert!(matches!(&src.exif[0], (34855, Value::Short(v)) if *v == vec![3200]));
    assert_eq!(src.describe(), "ILCE-7 + FE 20mm");
}

#[test]
fn capture_time_counts_seconds() {
    let src = match read_source(&sample_file()) {
        Ok(s) => s,
        Err(_) => panic!("readable"),
    };
    let t = capture_seconds(&src);
    assert_eq!(t, parse_timestamp("2024:08:11 23:59:58"));
    assert!(t.is_some());
    let none = SourceExif { ifd0: Vec::new(), exif: Vec::new() };
    assert_eq!(capture_seconds(&none), None);
    assert!(none.is_empty());
}

#[test]
fn a_later_time_is_a_larger_number() {
    let a = parse_timestamp("2023:12:31 23:59:59").unwrap();
    let b = parse_timestamp("2024:01:01 00:00:00").unwrap();
    assert_eq!(b - a, 1);
    let feb = parse_timestamp("2024:02:28 12:00:00").unwrap();
    let mar = parse_timestamp("2024:03:01 12:00:00").unwrap();
    assert_eq!(mar - feb, 2 * 86400);
    assert_eq!(parse_timestamp("not a time at all.."), None);
    assert_eq!(parse_timestamp("2024:08"), None);
}

#[test]
fn damaged_headers_are_told_apart() {
    assert!(matches!(first_ifd(b"II*"), Err(Fault::TooShort)));
    assert!(matches!(first_ifd(b"PNG\0abcdefgh"), Err(Fault::NotTiff)));
    assert!(matches!(first_ifd(b"II\x2a\0\x08\0\0\0"), Ok((true, 8))));
    assert!(matches!(first_ifd(b"MM\0\x2a\0\0\0\x08"), Ok((false, 8))));
    let mut d = sample_file();
    d.truncate(40);
    match read_source(&d) {
        Err(f) => assert!(!f.message().is_empty()),
        Ok(_) => panic!("truncated"),
    }
    assert_eq!(Fault::TooShort.message(), "too short to be a TIFF");
    assert_eq!(Fault::NotTiff.message(), "not a TIFF/RAW container");
    assert_eq!(Fault::Truncated(77).message(), "truncated at 77");
}

#[test]
fn words_in_both_orders() {
    let d = [0x12u8, 0x34, 0xff, 0xff, 0xff, 0xfe];
    let be = Reader { d: &d, little: false };
    let le = Reader { d: &d, little: true };
    assert!(matches!(be.u16(0), Ok(0x1234)));
    assert!(matches!(le.u16(0), Ok(0x3412)));
    assert!(matches!(be.i32(2), Ok(-2)));
    assert!(matches!(be.u32(2), Ok(0xffff_fffe)));
    assert!(matches!(be.u32(3), Err(Fault::Truncated(3))));
}

#[test]
fn text_is_unpadded_and_summed_up() {
    assert_eq!(unpad("FE 20mm\0\0"), "FE 20mm");
    assert_eq!(unpad("  a b \0"), "a b");
    let m = Some(String::from("ILCE-7"));
    let l = Some(String::from("FE 20mm"));
    assert_eq!(summary(&m, &l), "ILCE-7 + FE 20mm");
    assert_eq!(summary(&m, &None), "ILCE-7");
    assert_eq!(summary(&None, &l), "FE 20mm");
    assert_eq!(summary(&None, &None), "no identifying tags");
}

#[test]
fn bytes_that_are_no_text_are_replaced() {
    let src = SourceExif {
        ifd0: vec![(TAG_MODEL, Value::Ascii(vec![b'A', 0xff, b'B', 0]))],
        exif: vec![(TAG_LENS_MODEL, Value::Ascii(b"L\0".to_vec()))],
    };
    assert_eq!(src.describe(), "A\u{fffd}B + L");
}

fn relocated(file: &[u8], little: bool, src: &SourceExif) -> Option<Vec<u8>> {
    let r = Reader { d: file, little };
    let off = match first_ifd(file) {
        Ok((_, o)) => o as usize,
        Err(_) => panic!("header"),
    };
    let n = match r.u16(off as u64) {
        Ok(n) => n as usize,
        Err(_) => panic!("count"),
    };
    let existing = &file[off + 2..off + 2 + 12 * n];
    let next = &file[off + 2 + 12 * n..off + 6 + 12 * n];
    let rel = embed(little, existing, next, file.len() as u64, src)?;
    let mut out = file.to_vec();
    out.resize(rel.base as usize, 0);
    out.extend(&rel.bytes);
    out[4..8].copy_from_slice(&rel.pointer);
    Some(out)
}

#[test]
fn embedded_tags_read_back() {
    let src = match read_source(&sample_file()) {
        Ok(s) => s,
        Err(_) => panic!("readable"),
    };
    // A file with one tag of its own: its software.
    let mut plain = [b"II".to_vec(), u16le(42), u32le(8), u16le(1)].concat();
    plain.extend(entry(305, 2, 4, u32::from_le_bytes(*b"abc\0")));
    plain.extend(u32le(0));
    plain.push(7);
    let out = relocated(&plain, true, &src).unwrap();
    let back = match read_source(&out) {
        Ok(s) => s,
        Err(_) => panic!("readable"),
    };
    assert_eq!(back.describe(), src.describe());
    assert_eq!(capture_seconds(&back), capture_seconds(&src));
    let tags: Vec<u16> = back.ifd0.iter().map(|t| t.0).collect();
    assert_eq!(tags, vec![272, 305, 306]);
    // What the file held before stays where it was, but for the pointer.
    assert_eq!(&out[8..plain.len()], &plain[8..]);
    assert_eq!(&out[..4], &plain[..4]);
}

#[test]
fn present_tags_win() {
    let src = SourceExif {
        ifd0: vec![(305, Value::Ascii(b"other\0".to_vec()))],
        exif: vec![(34855, Value::Short(vec![800]))],
    };
    let mut plain = [b"II".to_vec(), u16le(42), u32le(8), u16le(1)].concat();
    plain.extend(entry(305, 2, 4, u32::from_le_bytes(*b"abc\0")));
    plain.extend(u32le(0));
    let out = relocated(&plain, true, &src).unwrap();
    let back = match read_source(&out) {
        Ok(s) => s,
        Err(_) => panic!("readable"),
    };
    assert_eq!(back.ifd0.len(), 1);
    assert_eq!(ascii(&back.ifd0[0].1), b"abc\0".to_vec());
    assert!(matches!(&back.exif[0], (34855, Value::Short(v)) if *v == vec![800]));
}

/// A file with one tag of its own, the software.
fn software_file() -> Vec<u8> {
    let mut plain = [b"II".to_vec(), u16le(42), u32le(8), u16le(1)].concat();
    plain.extend(entry(305, 2, 4, u32::from_le_bytes(*b"abc\0")));
    plain.extend(u32le(0));
    plain
}

#[test]
fn directories_and_values_are_word_aligned() {
    // Two texts of five and seven bytes go before the Exif directory.
    let src = SourceExif {
        ifd0: vec![
            (271, Value::Ascii(b"Sony\0".to_vec())),
            (272, Value::Ascii(b"ILCE-7\0".to_vec())),
        ],
        exif: vec![
            (42036, Value::Ascii(b"FE 20mm F\0\0".to_vec())),
            (33434, Value::Rational(vec![(1, 30)])),
        ],
    };
    let out = relocated(&software_file(), true, &src).unwrap();
    let r = Reader { d: &out, little: true };
    let word = |at: usize| match r.u32(at as u64) {
        Ok(v) => v as usize,
        Err(_) => panic!("truncated"),
    };
    let base = word(4);
    assert_eq!(base % 2, 0);
    // The entries by ascending tag: 271, 272, 305, 34665.
    assert_eq!(word(base + 2 + 8) % 2, 0);
    assert_eq!(word(base + 2 + 12 + 8) % 2, 0);
    let exif = word(base + 2 + 36 + 8);
    assert_eq!(exif % 2, 0);
    assert_eq!(word(exif + 2 + 8) % 2, 0);
    assert_eq!(word(exif + 2 + 12 + 8) % 2, 0);
    match read_source(&out) {
        Ok(b) => assert_eq!(b.describe(), "ILCE-7 + FE 20mm F"),
        Err(_) => panic!("readable"),
    }
}

#[test]
fn embedding_twice_changes_nothing() {
    let src = match read_source(&sample_file()) {
        Ok(s) => s,
        Err(_) => panic!("readable"),
    };
    let once = relocated(&software_file(), true, &src).unwrap();
    assert!(relocated(&once, true, &src).is_none());
    // Nor does a tag that would not be carried across when read.
    let own = SourceExif { ifd0: vec![(60000, Value::Ascii(b"X\0".to_vec()))], exif: Vec::new() };
    let once = relocated(&software_file(), true, &own).unwrap();
    assert!(relocated(&once, true, &own).is_none());
}

#[test]
fn tags_without_an_exif_directory_read_back() {
    let src = SourceExif { ifd0: vec![(272, Value::Ascii(b"X\0".to_vec()))], exif: Vec::new() };
    let out = relocated(&software_file(), true, &src).unwrap();
    match read_source(&out) {
        Ok(b) => {
            assert_eq!(b.ifd0.len(), 2);
            assert_eq!(b.ifd0[0].0, 272);
            assert_eq!(ascii(&b.ifd0[0].1), b"X\0".to_vec());
            assert!(b.exif.is_empty());
        }
        Err(_) => panic!("readable"),
    }
}

#[test]
fn types_that_are_not_carried_are_none() {
    let r = Reader { d: &[], little: true };
    for typ in [0u16, 6, 8, 9, 11, 12, 13] {
        assert!(matches!(r.value(typ, 5, 0), Ok(None)));
    }
    assert!(matches!(r.value(2, 5, 0), Err(Fault::Truncated(0))));
}

#[test]
fn nothing_to_embed_changes_nothing() {
    let none = SourceExif { ifd0: Vec::new(), exif: Vec::new() };
    assert!(embed(true, &[], &[0, 0, 0, 0], 8, &none).is_none());
}

#[test]
fn values_in_bytes() {
    let v = Value::Rational(vec![(1, 30), (2, 4)]);
    assert_eq!(v.type_id(), 5);
    assert_eq!(v.count(), 2);
    assert_eq!(v.bytes(false), vec![0, 0, 0, 1, 0, 0, 0, 30, 0, 0, 0, 2, 0, 0, 0, 4]);
    let s = Value::SRational(vec![(-1, 3)]);
    assert_eq!(s.type_id(), 10);
    assert_eq!(s.bytes(true), vec![255, 255, 255, 255, 3, 0, 0, 0]);
    assert_eq!(Value::Short(vec![7]).type_id(), 3);
    assert_eq!(Value::Long(vec![7]).type_id(), 4);
    assert_eq!(Value::Ascii(b"a\0".to_vec()).type_id(), 2);
    assert_eq!(Value::Bytes(7, vec![1, 2, 3]).count(), 3);
}
