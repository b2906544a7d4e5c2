//! Writing photographic metadata into a finished TIFF by relocating IFD0.
//!
//! The file is not rewritten. A new IFD0 that carries the extra tags, the new
//! Exif IFD and the values that do not fit into their entries are appended to
//! the end of the file, and the header is pointed at them. Every byte of the
//! old file but the header's offset field stays where it was.
use crate::codec;
use crate::exif;
use crate::exif::{Datum, SourceExif, Value, TAG_EXIF_IFD};
use crate::order;
use vstd::prelude::*;

verus! {

broadcast use {codec::lemma_enc16_len, codec::lemma_enc32_len};

/// The tags of a directory's entries, twelve bytes each.
pub open spec fn tags_of(existing: Seq<u8>, little: bool) -> Seq<u16> {
    Seq::new(existing.len() / 12, |i: int| codec::word16(existing, 12 * i, little))
}

/// The tags that are not among those present.
pub open spec fn fresh(tags: Seq<(u16, Datum)>, present: Seq<u16>) -> Seq<(u16, Datum)>
    decreases tags.len(),
{
    if tags.len() == 0 {
        Seq::empty()
    } else if present.contains(tags.last().0) {
        fresh(tags.drop_last(), present)
    } else {
        fresh(tags.drop_last(), present).push(tags.last())
    }
}

/// Bytes padded to an even length.
pub open spec fn evened(raw: Seq<u8>) -> Seq<u8> {
    if raw.len() % 2 == 1 {
        raw.push(0u8)
    } else {
        raw
    }
}

/// The values too long for their entries, one behind the other, each padded so
/// that the next one is word-aligned.
pub open spec fn spill(tags: Seq<(u16, Datum)>, little: bool) -> Seq<u8>
    decreases tags.len(),
{
    if tags.len() == 0 {
        Seq::empty()
    } else {
        let raw = tags.last().1.payload(little);
        spill(tags.drop_last(), little) + if raw.len() <= 4 {
            Seq::empty()
        } else {
            evened(raw)
        }
    }
}

/// The value field of an entry: the value itself, padded with zeros, if four
/// bytes hold it, and else its offset `at`.
pub open spec fn value_field(v: Datum, little: bool, at: int) -> Seq<u8> {
    let raw = v.payload(little);
    if raw.len() <= 4 {
        Seq::new(
            4,
            |i: int|
                if i < raw.len() {
                    raw[i]
                } else {
                    0u8
                },
        )
    } else {
        codec::enc32((at % 0x1_0000_0000) as u32, little)
    }
}

/// The twelve bytes of an entry.
pub open spec fn entry_bytes(tag: u16, v: Datum, little: bool, at: int) -> Seq<u8> {
    codec::enc16(tag, little) + codec::enc16(v.type_id(), little) + codec::enc32(
        (v.len() % 0x1_0000_0000) as u32,
        little,
    ) + value_field(v, little, at)
}

/// One entry per tag, for values that spill to `at` and on.
pub open spec fn rows(tags: Seq<(u16, Datum)>, little: bool, at: int) -> Seq<(u16, Seq<u8>)> {
    Seq::new(
        tags.len(),
        |k: int|
            (
                tags[k].0,
                entry_bytes(tags[k].0, tags[k].1, little, at + spill(tags.take(k), little).len()),
            ),
    )
}

/// The entries a directory already has.
pub open spec fn old_rows(existing: Seq<u8>, little: bool) -> Seq<(u16, Seq<u8>)> {
    Seq::new(
        existing.len() / 12,
        |i: int| (codec::word16(existing, 12 * i, little), existing.subrange(12 * i, 12 * i + 12)),
    )
}

/// The entry that points to the Exif IFD at `at`.
pub open spec fn pointer_row(little: bool, at: int) -> (u16, Seq<u8>) {
    (
        TAG_EXIF_IFD,
        codec::enc16(TAG_EXIF_IFD, little) + codec::enc16(4, little) + codec::enc32(1, little)
            + codec::enc32((at % 0x1_0000_0000) as u32, little),
    )
}

/// The tags of entries as sorting keys.
pub open spec fn row_keys(list: Seq<(u16, Seq<u8>)>) -> Seq<i64> {
    list.map_values(|r: (u16, Seq<u8>)| r.0 as i64)
}

/// Entries one behind the other, taken in the order `p`.
pub open spec fn flat(list: Seq<(u16, Seq<u8>)>, p: Seq<usize>) -> Seq<u8> {
    Seq::new(12 * p.len(), |k: int| list[p[k / 12] as int].1[k % 12])
}

/// A directory: the number of entries, the entries by ascending tag, and the
/// offset of the next directory.
pub open spec fn is_table(
    out: Seq<u8>,
    list: Seq<(u16, Seq<u8>)>,
    next: Seq<u8>,
    little: bool,
) -> bool {
    exists|p: Seq<usize>| #[trigger]
        order::is_order(row_keys(list), p) && out == codec::enc16(
            (list.len() % 0x1_0000) as u16,
            little,
        ) + flat(list, p) + next
}

/// Where everything goes that is appended to a file.
pub struct Layout {
    /// Tags that IFD0 gains.
    pub added: Seq<(u16, Datum)>,
    /// Whether an Exif IFD is written.
    pub with_exif: bool,
    pub base: int,
    pub values0: int,
    pub exif: int,
    pub values1: int,
    pub end: int,
}

/// The layout for a file `end` bytes long whose IFD0 has the entries
/// `existing`.
pub open spec fn layout(
    little: bool,
    existing: Seq<u8>,
    end: int,
    ifd0: Seq<(u16, Datum)>,
    photo: Seq<(u16, Datum)>,
) -> Layout {
    let present = tags_of(existing, little);
    let added = fresh(ifd0, present);
    let with_exif = photo.len() > 0 && !present.contains(TAG_EXIF_IFD);
    let base = end + end % 2;
    let n0 = present.len() + added.len() + if with_exif {
        1int
    } else {
        0int
    };
    let values0 = base + 6 + 12 * n0;
    let exif_at = values0 + spill(added, little).len();
    let values1 = exif_at + 6 + 12 * photo.len();
    Layout {
        added,
        with_exif,
        base,
        values0,
        exif: exif_at,
        values1,
        end: if with_exif {
            values1 + spill(photo, little).len()
        } else {
            exif_at
        },
    }
}

/// The entries of the relocated IFD0, before they are sorted.
pub open spec fn rows0(little: bool, existing: Seq<u8>, l: Layout) -> Seq<(u16, Seq<u8>)> {
    old_rows(existing, little) + rows(l.added, little, l.values0) + if l.with_exif {
        seq![pointer_row(little, l.exif)]
    } else {
        Seq::empty()
    }
}

/// What is appended at `l.base`.
pub open spec fn is_appendix(
    out: Seq<u8>,
    little: bool,
    existing: Seq<u8>,
    next: Seq<u8>,
    photo: Seq<(u16, Datum)>,
    l: Layout,
) -> bool {
    let n0 = l.values0 - l.base;
    let n1 = l.exif - l.base;
    let n2 = l.values1 - l.base;
    &&& out.len() == l.end - l.base
    &&& is_table(out.subrange(0, n0), rows0(little, existing, l), next, little)
    &&& out.subrange(n0, n1) == spill(l.added, little)
    &&& l.with_exif ==> is_table(
        out.subrange(n1, n2),
        rows(photo, little, l.values1),
        codec::enc32(0, little),
        little,
    ) && out.subrange(n2, out.len() as int) == spill(photo, little)
}

/// A relocated IFD0: `bytes` go to offset `base` of the file, and `pointer`
/// into the four bytes at offset four.
pub struct Relocation {
    pub base: u64,
    pub bytes: Vec<u8>,
    pub pointer: Vec<u8>,
}

/// Entries as they are built up.
spec fn list_view(list: Seq<(u16, Vec<u8>)>) -> Seq<(u16, Seq<u8>)> {
    list.map_values(|r: (u16, Vec<u8>)| (r.0, r.1@))
}

proof fn lemma_spill_grows(tags: Seq<(u16, Datum)>, little: bool, k: int, n: int)
    requires
        0 <= k <= n <= tags.len(),
    ensures
        spill(tags.take(k), little).len() <= spill(tags.take(n), little).len(),
    decreases n - k,
{
    if k < n {
        lemma_spill_grows(tags, little, k, n - 1);
        assert(tags.take(n).drop_last() =~= tags.take(n - 1));
    }
}

/// What spills takes an even number of bytes.
proof fn lemma_spill_even(tags: Seq<(u16, Datum)>, little: bool)
    ensures
        spill(tags, little).len() % 2 == 0,
    decreases tags.len(),
{
    if tags.len() > 0 {
        lemma_spill_even(tags.drop_last(), little);
    }
}

/// Tags left out earlier do not come back.
proof fn lemma_fresh_prefix(tags: Seq<(u16, Datum)>, present: Seq<u16>, k: int, n: int)
    requires
        0 <= k <= n <= tags.len(),
    ensures
        fresh(tags.take(k), present).len() <= fresh(tags.take(n), present).len(),
        fresh(tags.take(k), present) == fresh(tags.take(n), present).take(
            fresh(tags.take(k), present).len() as int,
        ),
    decreases n - k,
{
    let short = fresh(tags.take(k), present);
    if k < n {
        lemma_fresh_prefix(tags, present, k, n - 1);
        assert(tags.take(n).drop_last() =~= tags.take(n - 1));
        assert(short =~= fresh(tags.take(n), present).take(short.len() as int));
    } else {
        assert(short =~= short.take(short.len() as int));
    }
}

/// One entry.
fn entry_of(tag: u16, v: &Value, raw: &Vec<u8>, little: bool, at: u64) -> (e: Vec<u8>)
    requires
        raw@ == v@.payload(little),
    ensures
        e@ == entry_bytes(tag, v@, little, at as int),
{
    let mut e: Vec<u8> = Vec::new();
    codec::put16(&mut e, tag, little);
    codec::put16(&mut e, v.type_id(), little);
    codec::put32(&mut e, v.count(), little);
    let ghost front = e@;
    if raw.len() <= 4 {
        let mut i: usize = 0;
        while i < 4
            invariant
                i <= 4,
                raw@.len() <= 4,
                raw@ == v@.payload(little),
                e@ =~= front + value_field(v@, little, at as int).take(i as int),
            decreases 4 - i,
        {
            if i < raw.len() {
                e.push(raw[i]);
            } else {
                e.push(0);
            }
            i = i + 1;
        }
    } else {
        codec::put32(&mut e, (at % 0x1_0000_0000) as u32, little);
    }
    assert(e@ =~= entry_bytes(tag, v@, little, at as int));
    e
}

/// Lays out the entries of the tags that are not present yet, with the values
/// that spill to `at` and on.
fn lay_out(tags: &Vec<(u16, Value)>, present: &Vec<u16>, little: bool, at: u64) -> (r: (
    Vec<(u16, Vec<u8>)>,
    Vec<u8>,
))
    requires
        at + spill(fresh(exif::data(tags@), present@), little).len() <= u64::MAX,
    ensures
        list_view(r.0@) == rows(fresh(exif::data(tags@), present@), little, at as int),
        r.1@ == spill(fresh(exif::data(tags@), present@), little),
{
    let ghost all = exif::data(tags@);
    let mut list: Vec<(u16, Vec<u8>)> = Vec::new();
    let mut vals: Vec<u8> = Vec::new();
    let mut i: usize = 0;
    assert(list_view(list@) =~= rows(fresh(all.take(0), present@), little, at as int));
    while i < tags.len()
        invariant
            i <= tags@.len(),
            all == exif::data(tags@),
            at + spill(fresh(all, present@), little).len() <= u64::MAX,
            list_view(list@) == rows(fresh(all.take(i as int), present@), little, at as int),
            vals@ == spill(fresh(all.take(i as int), present@), little),
        decreases tags@.len() - i,
    {
        let ghost f = fresh(all.take(i as int), present@);
        let ghost g = fresh(all.take(i + 1), present@);
        proof {
            assert(all.take(i + 1).drop_last() =~= all.take(i as int));
            assert(all[i as int] == (tags@[i as int].0, tags@[i as int].1@));
            lemma_fresh_prefix(all, present@, i + 1, all.len() as int);
            assert(all.take(all.len() as int) =~= all);
            let whole = fresh(all, present@);
            lemma_spill_grows(whole, little, f.len() as int, whole.len() as int);
            lemma_fresh_prefix(all, present@, i as int, all.len() as int);
            assert(whole.take(whole.len() as int) =~= whole);
        }
        let tag: u16 = tags[i].0;
        if !exif::holds(present.as_slice(), tag) {
            let raw = tags[i].1.bytes(little);
            let e = entry_of(tag, &tags[i].1, &raw, little, at + vals.len() as u64);
            let ghost was = list@;
            list.push((tag, e));
            proof {
                assert(g == f.push(all[i as int]));
                assert(g.take(f.len() as int) =~= f);
                assert forall|k: int| 0 <= k < f.len() implies #[trigger] g.take(k) == f.take(
                    k,
                ) by {
                    assert(g.take(k) =~= f.take(k));
                }
                assert(list_view(list@) =~= list_view(was).push((tag, e@)));
                assert(list_view(list@) =~= rows(g, little, at as int));
                assert(g.drop_last() =~= f);
            }
            if raw.len() > 4 {
                let mut raw = raw;
                let ghost tail = raw@;
                if raw.len() % 2 == 1 {
                    raw.push(0);
                }
                vals.append(&mut raw);
                assert(vals@ =~= spill(f, little) + evened(tail));
            } else {
                assert(spill(g, little) =~= spill(f, little));
            }
        }
        i = i + 1;
    }
    assert(all.take(i as int) =~= all);
    (list, vals)
}

/// Appends a directory with these entries.
fn push_table(out: &mut Vec<u8>, list: &Vec<(u16, Vec<u8>)>, next: &[u8], little: bool)
    requires
        forall|i: int| 0 <= i < list@.len() ==> (#[trigger] list@[i]).1@.len() == 12,
        next@.len() == 4,
    ensures
        final(out)@.len() == old(out)@.len() + 6 + 12 * list@.len(),
        final(out)@.take(old(out)@.len() as int) == old(out)@,
        is_table(
            final(out)@.skip(old(out)@.len() as int),
            list_view(list@),
            next@,
            little,
        ),
{
    let ghost before = out@;
    let n: usize = list.len();
    let mut keys: Vec<i64> = Vec::new();
    let mut i: usize = 0;
    while i < n
        invariant
            i <= n,
            n == list@.len(),
            keys@ =~= row_keys(list_view(list@)).take(i as int),
        decreases n - i,
    {
        keys.push(list[i].0 as i64);
        i = i + 1;
    }
    assert(keys@ =~= row_keys(list_view(list@)));
    let p = order::order(keys.as_slice());
    codec::put16(out, (n as u64 % 0x1_0000) as u16, little);
    let ghost count = out@;
    let ghost l = list_view(list@);
    let mut k: usize = 0;
    while k < n
        invariant
            k <= n,
            n == list@.len(),
            l == list_view(list@),
            p@.len() == n,
            forall|j: int| 0 <= j < p@.len() ==> #[trigger] p@[j] < n,
            forall|j: int| 0 <= j < list@.len() ==> (#[trigger] list@[j]).1@.len() == 12,
            out@ == count + flat(l, p@.take(k as int)),
        decreases n - k,
    {
        let row = &list[p[k]].1;
        assert(l[p@[k as int] as int].1 == row@);
        let ghost was = out@;
        out.extend_from_slice(row.as_slice());
        assert(flat(l, p@.take(k + 1)) =~= flat(l, p@.take(k as int)) + row@);
        assert(out@ =~= count + flat(l, p@.take(k + 1)));
        k = k + 1;
    }
    assert(p@.take(k as int) =~= p@);
    out.extend_from_slice(next);
    proof {
        let tail = codec::enc16((l.len() % 0x1_0000) as u16, little) + flat(l, p@) + next@;
        assert(out@ =~= before + tail);
        assert(out@.skip(before.len() as int) =~= tail);
        assert(out@.take(before.len() as int) =~= before);
        assert(order::is_order(row_keys(l), p@));
    }
}

/// The entries of a directory are twelve bytes each.
proof fn lemma_row_lengths(tags: Seq<(u16, Datum)>, little: bool, at: int)
    ensures
        forall|k: int| 0 <= k < tags.len() ==> (#[trigger] rows(tags, little, at)[k]).1.len() == 12,
{
    assert forall|k: int| 0 <= k < tags.len() implies (#[trigger] rows(tags, little, at)[k]).1.len()
        == 12 by {
        let v = tags[k].1;
        assert(value_field(v, little, at + spill(tags.take(k), little).len()).len() == 4);
    }
}

proof fn lemma_view_lengths(list: Seq<(u16, Vec<u8>)>)
    ensures
        list_view(list).len() == list.len(),
        forall|k: int|
            0 <= k < list.len() ==> (#[trigger] list[k]).1@.len() == list_view(list)[k].1.len(),
{
}

/// `r` says how a file takes up tags: not at all where there is nothing to add,
/// and otherwise what is appended to it and what its header points to.
pub open spec fn is_relocation(
    little: bool,
    existing: Seq<u8>,
    next: Seq<u8>,
    end: int,
    ifd0: Seq<(u16, Datum)>,
    photo: Seq<(u16, Datum)>,
    r: Option<Relocation>,
) -> bool {
    let l = layout(little, existing, end, ifd0, photo);
    match r {
        None => l.added.len() == 0 && !l.with_exif,
        Some(m) => {
            &&& l.added.len() > 0 || l.with_exif
            &&& m.base == l.base
            &&& l.base % 2 == 0 && l.exif % 2 == 0
            &&& m.pointer@ == codec::enc32((l.base % 0x1_0000_0000) as u32, little)
            &&& is_appendix(m.bytes@, little, existing, next, photo, l)
        },
    }
}

/// Lays out what has to be written to carry the tags of `src` into a file
/// `end` bytes long whose IFD0 has the entries `existing` and the successor
/// `next_ifd`; none where there is nothing to write. Tags the file already
/// carries are left alone.
#[verifier::rlimit(40)]
pub fn embed(
    little: bool,
    existing: &[u8],
    next_ifd: &[u8],
    end: u64,
    src: &SourceExif,
) -> (r: Option<Relocation>)
    requires
        existing@.len() % 12 == 0,
        next_ifd@.len() == 4,
        layout(
            little,
            existing@,
            end as int,
            exif::data(src.ifd0@),
            exif::data(src.exif@),
        ).end <= u64::MAX,
    ensures
        is_relocation(
            little,
            existing@,
            next_ifd@,
            end as int,
            exif::data(src.ifd0@),
            exif::data(src.exif@),
            r,
        ),
{
    let ghost ifd0 = exif::data(src.ifd0@);
    let ghost photo = exif::data(src.exif@);
    let ghost l = layout(little, existing@, end as int, ifd0, photo);
    let n_existing: usize = existing.len() / 12;
    let rd = exif::Reader { d: existing, little };
    let mut present: Vec<u16> = Vec::new();
    let mut list: Vec<(u16, Vec<u8>)> = Vec::new();
    let mut i: usize = 0;
    while i < n_existing
        invariant
            i <= n_existing,
            n_existing == existing@.len() / 12,
            existing@.len() % 12 == 0,
            rd.d@ == existing@,
            rd.little == little,
            present@ =~= tags_of(existing@, little).take(i as int),
            list_view(list@) =~= old_rows(existing@, little).take(i as int),
        decreases n_existing - i,
    {
        let len: usize = existing.len();
        if let Ok(t) = rd.u16(12 * i as u64) {
            present.push(t);
            let e = codec::copy_bytes(existing, 12 * i, 12 * i + 12);
            let ghost was = list@;
            list.push((t, e));
            assert(list_view(list@) =~= list_view(was).push((t, e@)));
        }
        i = i + 1;
    }
    assert(present@ =~= tags_of(existing@, little));
    assert(list_view(list@) =~= old_rows(existing@, little));
    let n_new: usize = fresh_count(&src.ifd0, &present);
    let with_exif: bool = src.exif.len() > 0 && !exif::holds(present.as_slice(), TAG_EXIF_IFD);
    if n_new == 0 && !with_exif {
        return None;
    }
    let base: u64 = end + end % 2;
    let n0: u64 = n_existing as u64 + n_new as u64 + if with_exif {
        1
    } else {
        0
    };
    let values0: u64 = base + 6 + 12 * n0;
    let (mut new_list, mut vals0) = lay_out(&src.ifd0, &present, little, values0);
    let exif_at: u64 = values0 + vals0.len() as u64;
    proof {
        lemma_view_lengths(list@);
        lemma_view_lengths(new_list@);
        lemma_row_lengths(l.added, little, l.values0);
        assert forall|k: int| 0 <= k < list@.len() implies (#[trigger] list@[k]).1@.len() == 12 by {
            assert(list_view(list@)[k].1.len() == 12);
        }
        assert forall|k: int| 0 <= k < new_list@.len() implies (#[trigger] new_list@[k]).1@.len()
            == 12 by {
            assert(list_view(new_list@)[k] == rows(l.added, little, l.values0)[k]);
        }
    }
    let ghost first = list@;
    let ghost second = new_list@;
    list.append(&mut new_list);
    assert(list_view(list@) =~= list_view(first) + list_view(second));
    if with_exif {
        let mut e: Vec<u8> = Vec::new();
        codec::put16(&mut e, TAG_EXIF_IFD, little);
        codec::put16(&mut e, 4, little);
        codec::put32(&mut e, 1, little);
        codec::put32(&mut e, (exif_at % 0x1_0000_0000) as u32, little);
        assert(e@ =~= pointer_row(little, exif_at as int).1);
        let ghost was = list@;
        list.push((TAG_EXIF_IFD, e));
        assert(list_view(list@) =~= list_view(was).push((TAG_EXIF_IFD, e@)));
    }
    assert(list_view(list@) =~= rows0(little, existing@, l));
    let mut out: Vec<u8> = Vec::new();
    push_table(&mut out, &list, next_ifd, little);
    let ghost part0 = out@;
    assert(part0.skip(0) =~= part0);
    let ghost spilled0 = vals0@;
    out.append(&mut vals0);
    let ghost part1 = out@;
    assert(part1 =~= part0 + spilled0);
    let ghost n0 = l.values0 - l.base;
    let ghost n1 = l.exif - l.base;
    let ghost n2 = l.values1 - l.base;
    if with_exif {
        let values1: u64 = exif_at + 6 + 12 * src.exif.len() as u64;
        let none: Vec<u16> = Vec::new();
        proof {
            lemma_fresh_of_none(photo, none@);
        }
        let (exif_list, mut vals1) = lay_out(&src.exif, &none, little, values1);
        proof {
            lemma_view_lengths(exif_list@);
            lemma_row_lengths(photo, little, l.values1);
            assert forall|k: int| 0 <= k < exif_list@.len() implies (#[trigger] exif_list@[k]).1@.len()
                == 12 by {
                assert(list_view(exif_list@)[k] == rows(photo, little, l.values1)[k]);
            }
        }
        let mut zero: Vec<u8> = Vec::new();
        codec::put32(&mut zero, 0, little);
        assert(zero@ =~= codec::enc32(0, little));
        push_table(&mut out, &exif_list, zero.as_slice(), little);
        let ghost part2 = out@;
        let ghost spilled1 = vals1@;
        out.append(&mut vals1);
        proof {
            assert(out@ =~= part2 + spilled1);
            assert(part2.take(part1.len() as int) == part1);
            assert forall|j: int| 0 <= j < part1.len() implies #[trigger] out@[j] == part1[j] by {
                assert(part2.take(part1.len() as int)[j] == part2[j]);
            }
            assert(out@.subrange(0, n0) =~= part0);
            assert(out@.subrange(n0, n1) =~= spilled0);
            assert(out@.subrange(n1, n2) =~= part2.skip(part1.len() as int));
            assert(out@.subrange(n2, out@.len() as int) =~= spilled1);
        }
    } else {
        assert(out@.subrange(0, n0) =~= part0);
        assert(out@.subrange(n0, n1) =~= spilled0);
    }
    let mut pointer: Vec<u8> = Vec::new();
    codec::put32(&mut pointer, (base % 0x1_0000_0000) as u32, little);
    assert(pointer@ =~= codec::enc32((base % 0x1_0000_0000) as u32, little));
    assert(l.base % 2 == 0 && l.exif % 2 == 0) by {
        law_everything_is_word_aligned(little, existing@, end as int, ifd0, photo, 0);
    }
    Some(Relocation { base, bytes: out, pointer })
}

/// Without tags present every tag is new.
proof fn lemma_fresh_of_none(tags: Seq<(u16, Datum)>, present: Seq<u16>)
    requires
        present.len() == 0,
    ensures
        fresh(tags, present) == tags,
    decreases tags.len(),
{
    if tags.len() > 0 {
        lemma_fresh_of_none(tags.drop_last(), present);
    }
    assert(fresh(tags, present) =~= tags);
}

/// How many tags are not present.
fn fresh_count(tags: &Vec<(u16, Value)>, present: &Vec<u16>) -> (n: usize)
    ensures
        n == fresh(exif::data(tags@), present@).len(),
{
    let ghost all = exif::data(tags@);
    let mut n: usize = 0;
    let mut i: usize = 0;
    while i < tags.len()
        invariant
            i <= tags@.len(),
            n <= i,
            all == exif::data(tags@),
            n == fresh(all.take(i as int), present@).len(),
        decreases tags@.len() - i,
    {
        assert(all.take(i + 1).drop_last() =~= all.take(i as int));
        assert(all[i as int].0 == tags@[i as int].0);
        if !exif::holds(present.as_slice(), tags[i].0) {
            n = n + 1;
        }
        i = i + 1;
    }
    assert(all.take(i as int) =~= all);
    n
}

/// A file once `bytes` are written at `base`, at or past its end, and
/// `pointer` into its header. What lies between the old end and `base` is
/// zero.
pub open spec fn relocated(file: Seq<u8>, base: int, bytes: Seq<u8>, pointer: Seq<u8>) -> Seq<u8> {
    Seq::new(
        (base + bytes.len()) as nat,
        |i: int|
            if 4 <= i < 8 {
                pointer[i - 4]
            } else if i < file.len() {
                file[i]
            } else if i < base {
                0u8
            } else {
                bytes[i - base]
            },
    )
}

/// Tags that can be carried across: wanted ones, with values a file can hold.
pub open spec fn carried(tags: Seq<(u16, Datum)>, want: Seq<u16>) -> bool {
    forall|k: int|
        0 <= k < tags.len() ==> want.contains((#[trigger] tags[k]).0) && tags[k].0 != TAG_EXIF_IFD
            && tags[k].1.storable()
}

/// Tags in the order `p`.
pub open spec fn arranged(tags: Seq<(u16, Datum)>, p: Seq<usize>) -> Seq<(u16, Datum)> {
    Seq::new(p.len(), |i: int| tags[p[i] as int])
}

/// The tags of a list as sorting keys.
pub open spec fn tag_keys(tags: Seq<(u16, Datum)>) -> Seq<i64> {
    tags.map_values(|t: (u16, Datum)| t.0 as i64)
}

/// A value written in a byte order reads back in it.
pub proof fn law_value_reads_back(v: Datum, little: bool)
    requires
        v.storable(),
    ensures
        exif::decode(v.payload(little), v.type_id(), little) == Some(v),
        exif::elem_size(v.type_id()) is Some,
        exif::elem_size(v.type_id())->0 * v.len() == v.payload(little).len(),
{
    let raw = v.payload(little);
    match v {
        Datum::Ascii(s) => {
            assert(exif::elem_size(v.type_id())->0 == 1);
        },
        Datum::Bytes(t, s) => {
            assert(exif::elem_size(v.type_id())->0 == 1);
        },
        Datum::Short(s) => {
            let back = Seq::new(raw.len() / 2, |i: int| codec::word16(raw, 2 * i, little));
            assert forall|i: int| 0 <= i < s.len() implies #[trigger] back[i] == s[i] by {
                codec::lemma_words(raw, 2 * i, little, s[i], 0);
            }
            assert(back =~= s);
        },
        Datum::Long(s) => {
            let back = Seq::new(raw.len() / 4, |i: int| codec::word32(raw, 4 * i, little));
            assert forall|i: int| 0 <= i < s.len() implies #[trigger] back[i] == s[i] by {
                codec::lemma_words(raw, 4 * i, little, 0, s[i]);
            }
            assert(back =~= s);
        },
        Datum::Rational(s) => {
            let back = Seq::new(
                raw.len() / 8,
                |i: int|
                    (codec::word32(raw, 8 * i, little), codec::word32(raw, 8 * i + 4, little)),
            );
            assert forall|i: int| 0 <= i < s.len() implies #[trigger] back[i] == s[i] by {
                codec::lemma_words(raw, 8 * i, little, 0, s[i].0);
                codec::lemma_words(raw, 8 * i + 4, little, 0, s[i].1);
            }
            assert(back =~= s);
        },
        Datum::SRational(s) => {
            let back = Seq::new(
                raw.len() / 8,
                |i: int|
                    (
                        codec::signed(codec::word32(raw, 8 * i, little)),
                        codec::signed(codec::word32(raw, 8 * i + 4, little)),
                    ),
            );
            assert forall|i: int| 0 <= i < s.len() implies #[trigger] back[i] == s[i] by {
                codec::lemma_words(raw, 8 * i, little, 0, codec::unsigned(s[i].0));
                codec::lemma_words(raw, 8 * i + 4, little, 0, codec::unsigned(s[i].1));
            }
            assert(back =~= s);
        },
    }
}

/// Where a value lies among those that spill.
proof fn lemma_spill_at(tags: Seq<(u16, Datum)>, little: bool, k: int)
    requires
        0 <= k < tags.len(),
        tags[k].1.payload(little).len() > 4,
    ensures
        ({
            let from = spill(tags.take(k), little).len();
            let raw = tags[k].1.payload(little);
            from + raw.len() <= spill(tags, little).len() && spill(tags, little).subrange(
                from as int,
                (from + raw.len()) as int,
            ) == raw
        }),
    decreases tags.len(),
{
    let from = spill(tags.take(k), little).len();
    let raw = tags[k].1.payload(little);
    if k == tags.len() - 1 {
        assert(tags.take(k) =~= tags.drop_last());
        assert(spill(tags, little).subrange(from as int, (from + raw.len()) as int) =~= raw);
    } else {
        let front = tags.drop_last();
        lemma_spill_at(front, little, k);
        assert(front.take(k) =~= tags.take(k));
        assert(spill(tags, little).subrange(from as int, (from + raw.len()) as int) =~= spill(
            front,
            little,
        ).subrange(from as int, (from + raw.len()) as int));
    }
}

/// An entry that was written reads back.
proof fn lemma_entry_reads(
    d: Seq<u8>,
    little: bool,
    want: Seq<u16>,
    e: int,
    tag: u16,
    v: Datum,
    at: int,
)
    requires
        0 <= e,
        e + 12 <= d.len(),
        d.subrange(e, e + 12) == entry_bytes(tag, v, little, at),
        want.contains(tag),
        tag != TAG_EXIF_IFD,
        v.storable(),
        v.payload(little).len() > 4 ==> 0 <= at <= u32::MAX && at + v.payload(little).len()
            <= d.len() && d.subrange(at, at + v.payload(little).len()) == v.payload(little),
    ensures
        exif::entry_at(d, little, want, e) == Ok::<exif::Entry, exif::Fault>(
            exif::Entry::Tag(tag, v),
        ),
{
    let raw = v.payload(little);
    let row = d.subrange(e, e + 12);
    assert forall|j: int| 0 <= j < 12 implies #[trigger] d[e + j] == row[j] by {}
    let count = v.len() as u32;
    assert(d[e] == row[0] && d[e + 1] == row[1]);
    assert(d[e + 2] == row[2] && d[e + 3] == row[3]);
    assert(d[e + 4] == row[4] && d[e + 5] == row[5] && d[e + 6] == row[6] && d[e + 7] == row[7]);
    assert(d[e + 8] == row[8] && d[e + 9] == row[9] && d[e + 10] == row[10] && d[e + 11]
        == row[11]);
    codec::lemma_words(d, e, little, tag, 0);
    codec::lemma_words(d, e + 2, little, v.type_id(), 0);
    codec::lemma_words(d, e + 4, little, 0, count);
    law_value_reads_back(v, little);
    if raw.len() <= 4 {
        assert forall|j: int| 0 <= j < raw.len() implies #[trigger] d[e + 8 + j] == raw[j] by {
            assert(d[e + (8 + j)] == row[8 + j]);
            assert(row[8 + j] == value_field(v, little, at)[j]);
        }
        assert(d.subrange(e + 8, e + 8 + raw.len()) =~= raw);
    } else {
        codec::lemma_words(d, e + 8, little, 0, at as u32);
    }
}

/// The twelve bytes of row `i` of a directory.
proof fn lemma_table_row(
    out: Seq<u8>,
    list: Seq<(u16, Seq<u8>)>,
    p: Seq<usize>,
    next: Seq<u8>,
    little: bool,
    i: int,
)
    requires
        order::is_order(row_keys(list), p),
        out == codec::enc16((list.len() % 0x1_0000) as u16, little) + flat(list, p) + next,
        0 <= i < list.len(),
        forall|k: int| 0 <= k < list.len() ==> (#[trigger] list[k]).1.len() == 12,
    ensures
        p.len() == list.len(),
        0 <= p[i] < list.len(),
        out.subrange(2 + 12 * i, 14 + 12 * i) == list[p[i] as int].1,
{
    assert(list[p[i] as int].1.len() == 12);
    let row = out.subrange(2 + 12 * i, 14 + 12 * i);
    assert forall|j: int| 0 <= j < 12 implies #[trigger] row[j] == list[p[i] as int].1[j] by {
        assert(out[2 + 12 * i + j] == flat(list, p)[12 * i + j]);
    }
    assert(row =~= list[p[i] as int].1);
}

/// The facts that make a relocated file one that can be read: the header of
/// the file it came from, whole entries, and offsets and a number of entries
/// that fit their fields.
pub open spec fn was_relocated(
    file: Seq<u8>,
    little: bool,
    off: u32,
    existing: Seq<u8>,
    next: Seq<u8>,
    ifd0: Seq<(u16, Datum)>,
    photo: Seq<(u16, Datum)>,
    bytes: Seq<u8>,
) -> bool {
    let l = layout(little, existing, file.len() as int, ifd0, photo);
    &&& exif::header(file) == Ok::<(bool, u32), exif::Fault>((little, off))
    &&& existing.len() == 12 * (existing.len() / 12)
    &&& next.len() == 4
    &&& is_appendix(bytes, little, existing, next, photo, l)
    &&& l.end <= 0x1_0000_0000
    &&& rows0(little, existing, l).len() <= u16::MAX
}

/// The facts that the tags of a relocated file are read back from.
pub open spec fn was_embedded(
    file: Seq<u8>,
    little: bool,
    off: u32,
    existing: Seq<u8>,
    next: Seq<u8>,
    ifd0: Seq<(u16, Datum)>,
    photo: Seq<(u16, Datum)>,
    bytes: Seq<u8>,
) -> bool {
    &&& was_relocated(file, little, off, existing, next, ifd0, photo, bytes)
    &&& photo.len() <= u16::MAX
    &&& carried(ifd0, exif::IFD0_TAGS@)
    &&& carried(photo, exif::EXIF_TAGS@)
}

proof fn lemma_fresh_carried(tags: Seq<(u16, Datum)>, present: Seq<u16>, want: Seq<u16>)
    requires
        carried(tags, want),
    ensures
        carried(fresh(tags, present), want),
    decreases tags.len(),
{
    if tags.len() > 0 {
        let front = tags.drop_last();
        assert(carried(front, want));
        lemma_fresh_carried(front, present, want);
        assert(tags.last() == tags[tags.len() - 1]);
    }
}

/// Reads the first `n` entries of the relocated IFD0.
proof fn lemma_ifd0_entries(
    d: Seq<u8>,
    little: bool,
    l: Layout,
    existing: Seq<u8>,
    p: Seq<usize>,
    n: int,
)
    requires
        l.base >= 8,
        0 <= n <= rows0(little, existing, l).len(),
        p.len() == rows0(little, existing, l).len(),
        l.base + 6 + 12 * p.len() <= d.len(),
        forall|i: int| 0 <= i < p.len() ==> 0 <= #[trigger] p[i] < p.len(),
        forall|i: int|
            0 <= i < p.len() ==> d.subrange(l.base + 2 + 12 * i, l.base + 14 + 12 * i) == rows0(
                little,
                existing,
                l,
            )[(#[trigger] p[i]) as int].1,
        carried(l.added, exif::IFD0_TAGS@),
        l.with_exif ==> !tags_of(existing, little).contains(TAG_EXIF_IFD),
        l.with_exif ==> 0 <= l.exif <= u32::MAX,
        l.values0 + spill(l.added, little).len() <= d.len(),
        d.len() <= 0x1_0000_0000,
        l.values0 >= 0,
        d.subrange(l.values0, l.values0 + spill(l.added, little).len()) == spill(l.added, little),
    ensures
        ({
            let r = exif::entries(d, little, l.base, exif::IFD0_TAGS@, n);
            let m = tags_of(existing, little).len() as int;
            &&& r is Ok
            &&& forall|i: int|
                0 <= i < n && m <= #[trigger] p[i] < m + l.added.len() ==> r->Ok_0.0.contains(
                    l.added[p[i] - m],
                )
            &&& l.with_exif ==> match r->Ok_0.1 {
                Some(x) => x == l.exif,
                None => forall|i: int| 0 <= i < n ==> #[trigger] p[i] != m + l.added.len(),
            }
            &&& !l.with_exif && !tags_of(existing, little).contains(TAG_EXIF_IFD)
                ==> r->Ok_0.1 is None
        }),
    decreases n,
{
    if n > 0 {
        let want = exif::IFD0_TAGS@;
        let all = rows0(little, existing, l);
        let m = tags_of(existing, little).len() as int;
        lemma_ifd0_entries(d, little, l, existing, p, n - 1);
        let before = exif::entries(d, little, l.base, want, n - 1);
        let r = exif::entries(d, little, l.base, want, n);
        let i = n - 1;
        let e = l.base + 2 + 12 * i;
        let k = p[i] as int;
        let row = d.subrange(e, e + 12);
        assert(row == all[k].1);
        assert(d[e] == row[0] && d[e + 1] == row[1]);
        assert(d[e + 8] == row[8] && d[e + 9] == row[9] && d[e + 10] == row[10] && d[e + 11]
            == row[11]);
        if k < m {
            assert(all[k] == old_rows(existing, little)[k]);
            codec::lemma_same_words(d, e, existing, 12 * k, little);
            assert(codec::word16(d, e, little) == tags_of(existing, little)[k]);
            assert(tags_of(existing, little).contains(tags_of(existing, little)[k]));
            assert(exif::entry_at(d, little, want, e) is Ok);
            assert(r is Ok);
        } else if k < m + l.added.len() {
            let j = k - m;
            assert(all[k] == rows(l.added, little, l.values0)[j]);
            let v = l.added[j].1;
            let at = l.values0 + spill(l.added.take(j), little).len();
            let len = v.payload(little).len();
            if len > 4 {
                lemma_spill_at(l.added, little, j);
                assert(d.subrange(at, at + len) =~= d.subrange(
                    l.values0,
                    l.values0 + spill(l.added, little).len(),
                ).subrange(at - l.values0, at - l.values0 + len));
            }
            lemma_entry_reads(d, little, want, e, l.added[j].0, v, at);
            let tags = before->Ok_0.0;
            assert(r->Ok_0.0 == tags.push(l.added[j]));
            assert(tags.push(l.added[j])[tags.len() as int] == l.added[j]);
        } else {
            assert(all[k] == pointer_row(little, l.exif));
            codec::lemma_words(d, e, little, TAG_EXIF_IFD, 0);
            codec::lemma_words(d, e + 8, little, 0, l.exif as u32);
            assert(exif::entry_at(d, little, want, e) == Ok::<exif::Entry, exif::Fault>(
                exif::Entry::ExifPointer(l.exif as u32),
            ));
        }
        assert forall|h: int| 0 <= h < n && m <= #[trigger] p[h] < m + l.added.len() implies r->Ok_0.0.contains(
            l.added[p[h] - m],
        ) by {
            if h < i {
                let tags = before->Ok_0.0;
                let x = l.added[p[h] - m];
                assert(tags.contains(x));
                let at = choose|at: int| 0 <= at < tags.len() && tags[at] == x;
                assert(r->Ok_0.0[at] == x);
            }
        }
    }
}

/// Reads the first `n` entries of the new Exif IFD.
proof fn lemma_exif_entries(
    d: Seq<u8>,
    little: bool,
    l: Layout,
    photo: Seq<(u16, Datum)>,
    p: Seq<usize>,
    n: int,
)
    requires
        0 <= n <= photo.len(),
        p.len() == photo.len(),
        l.exif >= 0,
        l.exif + 6 + 12 * p.len() <= d.len(),
        forall|i: int| 0 <= i < p.len() ==> 0 <= #[trigger] p[i] < p.len(),
        forall|i: int|
            0 <= i < p.len() ==> d.subrange(l.exif + 2 + 12 * i, l.exif + 14 + 12 * i) == rows(
                photo,
                little,
                l.values1,
            )[(#[trigger] p[i]) as int].1,
        carried(photo, exif::EXIF_TAGS@),
        l.values1 + spill(photo, little).len() <= d.len(),
        d.len() <= 0x1_0000_0000,
        l.values1 >= 0,
        d.subrange(l.values1, l.values1 + spill(photo, little).len()) == spill(photo, little),
    ensures
        exif::entries(d, little, l.exif, exif::EXIF_TAGS@, n) == Ok::<
            (Seq<(u16, Datum)>, Option<u32>),
            exif::Fault,
        >((arranged(photo, p.take(n)), None)),
    decreases n,
{
    let want = exif::EXIF_TAGS@;
    if n > 0 {
        lemma_exif_entries(d, little, l, photo, p, n - 1);
        let i = n - 1;
        let e = l.exif + 2 + 12 * i;
        let k = p[i] as int;
        let at = l.values1 + spill(photo.take(k), little).len();
        let v = photo[k].1;
        let len = v.payload(little).len();
        if len > 4 {
            lemma_spill_at(photo, little, k);
            assert(d.subrange(at, at + len) =~= d.subrange(
                l.values1,
                l.values1 + spill(photo, little).len(),
            ).subrange(at - l.values1, at - l.values1 + len));
        }
        lemma_entry_reads(d, little, want, e, photo[k].0, v, at);
        assert(arranged(photo, p.take(n)) =~= arranged(photo, p.take(n - 1)).push(photo[k]));
    } else {
        assert(arranged(photo, p.take(0)) =~= Seq::empty());
    }
}

/// The file after its tags were embedded.
pub open spec fn embedded_file(
    file: Seq<u8>,
    little: bool,
    existing: Seq<u8>,
    ifd0: Seq<(u16, Datum)>,
    photo: Seq<(u16, Datum)>,
    bytes: Seq<u8>,
) -> Seq<u8> {
    let l = layout(little, existing, file.len() as int, ifd0, photo);
    relocated(file, l.base, bytes, codec::enc32((l.base % 0x1_0000_0000) as u32, little))
}

proof fn lemma_new_header(
    file: Seq<u8>,
    little: bool,
    off: u32,
    existing: Seq<u8>,
    next: Seq<u8>,
    ifd0: Seq<(u16, Datum)>,
    photo: Seq<(u16, Datum)>,
    bytes: Seq<u8>,
)
    requires
        was_relocated(file, little, off, existing, next, ifd0, photo, bytes),
    ensures
        ({
            let l = layout(little, existing, file.len() as int, ifd0, photo);
            let d = embedded_file(file, little, existing, ifd0, photo, bytes);
            &&& exif::header(d) == Ok::<(bool, u32), exif::Fault>((little, l.base as u32))
            &&& d.len() == l.end
            &&& forall|i: int, j: int|
                0 <= i <= j <= bytes.len() ==> #[trigger] d.subrange(l.base + i, l.base + j)
                    == bytes.subrange(i, j)
        }),
{
    let l = layout(little, existing, file.len() as int, ifd0, photo);
    let d = embedded_file(file, little, existing, ifd0, photo, bytes);
    codec::lemma_words(d, 4, little, 0, l.base as u32);
    assert forall|i: int, j: int| 0 <= i <= j <= bytes.len() implies #[trigger] d.subrange(
        l.base + i,
        l.base + j,
    ) == bytes.subrange(i, j) by {
        assert(d.subrange(l.base + i, l.base + j) =~= bytes.subrange(i, j));
    }
}

/// The rows of the relocated IFD0, as they stand in the file.
proof fn lemma_new_rows(
    file: Seq<u8>,
    little: bool,
    off: u32,
    existing: Seq<u8>,
    next: Seq<u8>,
    ifd0: Seq<(u16, Datum)>,
    photo: Seq<(u16, Datum)>,
    bytes: Seq<u8>,
) -> (p: Seq<usize>)
    requires
        was_relocated(file, little, off, existing, next, ifd0, photo, bytes),
    ensures
        ({
            let l = layout(little, existing, file.len() as int, ifd0, photo);
            let d = embedded_file(file, little, existing, ifd0, photo, bytes);
            let all = rows0(little, existing, l);
            &&& p.len() == all.len()
            &&& forall|i: int| 0 <= i < p.len() ==> 0 <= #[trigger] p[i] < p.len()
            &&& forall|k: usize| k < all.len() ==> #[trigger] p.contains(k)
            &&& forall|k: int| 0 <= k < all.len() ==> (#[trigger] all[k]).1.len() == 12
            &&& forall|i: int|
                0 <= i < p.len() ==> d.subrange(l.base + 2 + 12 * i, l.base + 14 + 12 * i) == all[(
                #[trigger] p[i]) as int].1
            &&& codec::word16(d, l.base, little) == all.len()
        }),
{
    let l = layout(little, existing, file.len() as int, ifd0, photo);
    let d = embedded_file(file, little, existing, ifd0, photo, bytes);
    lemma_new_header(file, little, off, existing, next, ifd0, photo, bytes);
    let m = tags_of(existing, little).len() as int;
    let all = rows0(little, existing, l);
    let n0 = l.values0 - l.base;
    lemma_row_lengths(l.added, little, l.values0);
    assert forall|k: int| 0 <= k < all.len() implies (#[trigger] all[k]).1.len() == 12 by {
        if m <= k < m + l.added.len() {
            assert(all[k] == rows(l.added, little, l.values0)[k - m]);
        }
    }
    let out0 = bytes.subrange(0, n0);
    let p = choose|p: Seq<usize>| #[trigger]
        order::is_order(row_keys(all), p) && out0 == codec::enc16(
            (all.len() % 0x1_0000) as u16,
            little,
        ) + flat(all, p) + next;
    assert forall|i: int| 0 <= i < p.len() implies d.subrange(
        l.base + 2 + 12 * i,
        l.base + 14 + 12 * i,
    ) == all[(#[trigger] p[i]) as int].1 by {
        lemma_table_row(out0, all, p, next, little, i);
        assert(d.subrange(l.base + (2 + 12 * i), l.base + (14 + 12 * i)) == bytes.subrange(
            2 + 12 * i,
            14 + 12 * i,
        ));
        assert(out0.subrange(2 + 12 * i, 14 + 12 * i) =~= bytes.subrange(2 + 12 * i, 14 + 12 * i));
    }
    let two = d.subrange(l.base + 0, l.base + 2);
    assert(two == bytes.subrange(0, 2));
    assert(d[l.base] == two[0] && d[l.base + 1] == two[1]);
    assert(two[0] == out0[0] && two[1] == out0[1]);
    codec::lemma_words(d, l.base, little, all.len() as u16, 0);
    p
}

proof fn lemma_read_ifd0(
    file: Seq<u8>,
    little: bool,
    off: u32,
    existing: Seq<u8>,
    next: Seq<u8>,
    ifd0: Seq<(u16, Datum)>,
    photo: Seq<(u16, Datum)>,
    bytes: Seq<u8>,
)
    requires
        was_embedded(file, little, off, existing, next, ifd0, photo, bytes),
    ensures
        ({
            let l = layout(little, existing, file.len() as int, ifd0, photo);
            let d = embedded_file(file, little, existing, ifd0, photo, bytes);
            let r = exif::directory(d, little, l.base, exif::IFD0_TAGS@);
            &&& r is Ok
            &&& forall|k: int|
                0 <= k < l.added.len() ==> r->Ok_0.0.contains(#[trigger] l.added[k])
            &&& l.with_exif ==> r->Ok_0.1 == Some(l.exif as u32)
            &&& !l.with_exif && !tags_of(existing, little).contains(TAG_EXIF_IFD)
                ==> r->Ok_0.1 is None
        }),
{
    let l = layout(little, existing, file.len() as int, ifd0, photo);
    let d = embedded_file(file, little, existing, ifd0, photo, bytes);
    lemma_new_header(file, little, off, existing, next, ifd0, photo, bytes);
    let m = tags_of(existing, little).len() as int;
    let all = rows0(little, existing, l);
    let n0 = l.values0 - l.base;
    let n1 = l.exif - l.base;
    lemma_fresh_carried(ifd0, tags_of(existing, little), exif::IFD0_TAGS@);
    let p = lemma_new_rows(file, little, off, existing, next, ifd0, photo, bytes);
    assert(d.subrange(l.base + n0, l.base + n1) == bytes.subrange(n0, n1));
    lemma_ifd0_entries(d, little, l, existing, p, all.len() as int);
    let r0 = exif::entries(d, little, l.base, exif::IFD0_TAGS@, all.len() as int);
    assert forall|k: int| 0 <= k < l.added.len() implies r0->Ok_0.0.contains(
        #[trigger] l.added[k],
    ) by {
        let v = (m + k) as usize;
        assert(p.contains(v));
        let i = choose|i: int| 0 <= i < p.len() && p[i] == v;
        assert(m <= p[i] < m + l.added.len());
    }
    if l.with_exif {
        let v = (m + l.added.len()) as usize;
        assert(p.contains(v));
        let i = choose|i: int| 0 <= i < p.len() && p[i] == v;
        assert(p[i] == m + l.added.len());
    }
}

#[verifier::rlimit(40)]
proof fn lemma_read_exif(
    file: Seq<u8>,
    little: bool,
    off: u32,
    existing: Seq<u8>,
    next: Seq<u8>,
    ifd0: Seq<(u16, Datum)>,
    photo: Seq<(u16, Datum)>,
    bytes: Seq<u8>,
)
    requires
        was_embedded(file, little, off, existing, next, ifd0, photo, bytes),
        layout(little, existing, file.len() as int, ifd0, photo).with_exif,
    ensures
        ({
            let l = layout(little, existing, file.len() as int, ifd0, photo);
            let d = embedded_file(file, little, existing, ifd0, photo, bytes);
            let r = exif::directory(d, little, l.exif, exif::EXIF_TAGS@);
            &&& r is Ok
            &&& exists|p: Seq<usize>| #[trigger]
                order::is_order(tag_keys(photo), p) && r->Ok_0.0 == arranged(photo, p)
        }),
{
    let l = layout(little, existing, file.len() as int, ifd0, photo);
    let d = embedded_file(file, little, existing, ifd0, photo, bytes);
    lemma_new_header(file, little, off, existing, next, ifd0, photo, bytes);
    let n1 = l.exif - l.base;
    let n2 = l.values1 - l.base;
    let n3 = bytes.len() as int;
    lemma_row_lengths(photo, little, l.values1);
    let zero = codec::enc32(0, little);
    let list1 = rows(photo, little, l.values1);
    let out1 = bytes.subrange(n1, n2);
    let q = choose|q: Seq<usize>| #[trigger]
        order::is_order(row_keys(list1), q) && out1 == codec::enc16(
            (list1.len() % 0x1_0000) as u16,
            little,
        ) + flat(list1, q) + zero;
    assert forall|i: int| 0 <= i < q.len() implies d.subrange(
        l.exif + 2 + 12 * i,
        l.exif + 14 + 12 * i,
    ) == list1[(#[trigger] q[i]) as int].1 by {
        lemma_table_row(out1, list1, q, zero, little, i);
        assert(d.subrange(l.base + (n1 + 2 + 12 * i), l.base + (n1 + 14 + 12 * i))
            == bytes.subrange(n1 + 2 + 12 * i, n1 + 14 + 12 * i));
        assert(out1.subrange(2 + 12 * i, 14 + 12 * i) =~= bytes.subrange(
            n1 + 2 + 12 * i,
            n1 + 14 + 12 * i,
        ));
    }
    assert(d.subrange(l.base + n2, l.base + n3) == bytes.subrange(n2, n3));
    lemma_exif_entries(d, little, l, photo, q, photo.len() as int);
    assert(q.take(photo.len() as int) =~= q);
    let two = d.subrange(l.base + n1, l.base + (n1 + 2));
    assert(two == bytes.subrange(n1, n1 + 2));
    assert(d[l.exif] == two[0] && d[l.exif + 1] == two[1]);
    assert(two[0] == out1[0] && two[1] == out1[1]);
    codec::lemma_words(d, l.exif, little, photo.len() as u16, 0);
    assert(row_keys(list1) =~= tag_keys(photo));
    assert(order::is_order(tag_keys(photo), q));
}

/// Reading a file after its tags were embedded gives them back. The header
/// leads to an IFD0 in which every added tag stands with its value, and so
/// every tag that was not there before. Where the file had no Exif IFD of its
/// own the whole file reads, and its Exif tags are exactly the photographic
/// ones, by ascending tag.
///
/// Offsets and entry counts have fixed-width fields, so this is stated of
/// files that stay within them, and of tags as they are read from a source.
pub proof fn law_embedded_tags_read_back(
    file: Seq<u8>,
    little: bool,
    off: u32,
    existing: Seq<u8>,
    next: Seq<u8>,
    ifd0: Seq<(u16, Datum)>,
    photo: Seq<(u16, Datum)>,
    bytes: Seq<u8>,
)
    requires
        was_embedded(file, little, off, existing, next, ifd0, photo, bytes),
    ensures
        ({
            let l = layout(little, existing, file.len() as int, ifd0, photo);
            let d = embedded_file(file, little, existing, ifd0, photo, bytes);
            let r = exif::directory(d, little, l.base, exif::IFD0_TAGS@);
            let whole = exif::source(d);
            &&& exif::header(d) == Ok::<(bool, u32), exif::Fault>((little, l.base as u32))
            &&& r is Ok
            &&& forall|k: int|
                0 <= k < l.added.len() ==> r->Ok_0.0.contains(#[trigger] l.added[k])
            &&& forall|k: int|
                0 <= k < ifd0.len() && !tags_of(existing, little).contains((#[trigger] ifd0[k]).0)
                    ==> r->Ok_0.0.contains(ifd0[k])
            &&& !tags_of(existing, little).contains(TAG_EXIF_IFD) ==> whole is Ok
                && whole->Ok_0.0 == r->Ok_0.0 && exists|p: Seq<usize>| #[trigger]
                order::is_order(tag_keys(photo), p) && whole->Ok_0.1 == arranged(photo, p)
        }),
{
    let l = layout(little, existing, file.len() as int, ifd0, photo);
    let d = embedded_file(file, little, existing, ifd0, photo, bytes);
    let r = exif::directory(d, little, l.base, exif::IFD0_TAGS@);
    lemma_new_header(file, little, off, existing, next, ifd0, photo, bytes);
    lemma_read_ifd0(file, little, off, existing, next, ifd0, photo, bytes);
    lemma_fresh_members(ifd0, tags_of(existing, little));
    assert forall|k: int|
        0 <= k < ifd0.len() && !tags_of(existing, little).contains(
            (#[trigger] ifd0[k]).0,
        ) implies r->Ok_0.0.contains(ifd0[k]) by {
        assert(l.added.contains(ifd0[k]));
        let j = choose|j: int| 0 <= j < l.added.len() && l.added[j] == ifd0[k];
        assert(r->Ok_0.0.contains(l.added[j]));
    }
    if l.with_exif {
        lemma_read_exif(file, little, off, existing, next, ifd0, photo, bytes);
    } else if !tags_of(existing, little).contains(TAG_EXIF_IFD) {
        let none: Seq<usize> = Seq::empty();
        assert(tag_keys(photo) =~= Seq::empty());
        assert(order::is_order(tag_keys(photo), none));
        assert(arranged(photo, none) =~= Seq::empty());
    }
}

/// Directories and the values they point to start at even offsets.
pub proof fn law_everything_is_word_aligned(
    little: bool,
    existing: Seq<u8>,
    end: int,
    ifd0: Seq<(u16, Datum)>,
    photo: Seq<(u16, Datum)>,
    k: int,
)
    requires
        end >= 0,
    ensures
        ({
            let l = layout(little, existing, end, ifd0, photo);
            &&& l.base % 2 == 0
            &&& l.exif % 2 == 0
            &&& 0 <= k <= l.added.len() ==> (l.values0 + spill(l.added.take(k), little).len()) % 2
                == 0
            &&& 0 <= k <= photo.len() ==> (l.values1 + spill(photo.take(k), little).len()) % 2 == 0
        }),
{
    let l = layout(little, existing, end, ifd0, photo);
    lemma_spill_even(l.added, little);
    lemma_spill_even(l.added.take(k), little);
    lemma_spill_even(photo.take(k), little);
}

/// The tag of an entry stands in its first two bytes.
proof fn lemma_row_tag(little: bool, existing: Seq<u8>, l: Layout, k: int)
    requires
        0 <= k < rows0(little, existing, l).len(),
        existing.len() == 12 * (existing.len() / 12),
    ensures
        codec::word16(rows0(little, existing, l)[k].1, 0, little) == rows0(little, existing, l)[k].0,
        rows0(little, existing, l)[k].1.len() == 12,
{
    let all = rows0(little, existing, l);
    let m = tags_of(existing, little).len() as int;
    let row = all[k].1;
    lemma_row_lengths(l.added, little, l.values0);
    if k < m {
        assert(all[k] == old_rows(existing, little)[k]);
        codec::lemma_same_words(row, 0, existing, 12 * k, little);
    } else if k < m + l.added.len() {
        assert(all[k] == rows(l.added, little, l.values0)[k - m]);
        codec::lemma_words(row, 0, little, all[k].0, 0);
    } else {
        assert(all[k] == pointer_row(little, l.exif));
        codec::lemma_words(row, 0, little, TAG_EXIF_IFD, 0);
    }
}

/// Embedding the same tags a second time leaves the file as it is: the entries
/// that the new IFD0 has already carry all of them, so that there is nothing
/// to add and no Exif IFD to write.
pub proof fn law_embedding_twice_changes_nothing(
    file: Seq<u8>,
    little: bool,
    off: u32,
    existing: Seq<u8>,
    next: Seq<u8>,
    ifd0: Seq<(u16, Datum)>,
    photo: Seq<(u16, Datum)>,
    bytes: Seq<u8>,
)
    requires
        was_relocated(file, little, off, existing, next, ifd0, photo, bytes),
    ensures
        ({
            let l = layout(little, existing, file.len() as int, ifd0, photo);
            let d = embedded_file(file, little, existing, ifd0, photo, bytes);
            let n = codec::word16(d, l.base, little) as int;
            let again = d.subrange(l.base + 2, l.base + 2 + 12 * n);
            let second = layout(little, again, d.len() as int, ifd0, photo);
            &&& exif::header(d) == Ok::<(bool, u32), exif::Fault>((little, l.base as u32))
            &&& l.base + 6 + 12 * n <= d.len()
            &&& second.added.len() == 0
            &&& !second.with_exif
        }),
{
    let l = layout(little, existing, file.len() as int, ifd0, photo);
    let d = embedded_file(file, little, existing, ifd0, photo, bytes);
    let all = rows0(little, existing, l);
    let m = tags_of(existing, little).len() as int;
    let n = all.len() as int;
    lemma_new_header(file, little, off, existing, next, ifd0, photo, bytes);
    let p = lemma_new_rows(file, little, off, existing, next, ifd0, photo, bytes);
    let again = d.subrange(l.base + 2, l.base + 2 + 12 * n);
    let present = tags_of(again, little);
    assert forall|k: int| 0 <= k < n implies present.contains((#[trigger] all[k]).0) by {
        assert(p.contains(k as usize));
        let i = choose|i: int| 0 <= i < p.len() && p[i] == k as usize;
        lemma_row_tag(little, existing, l, k);
        let row = d.subrange(l.base + 2 + 12 * i, l.base + 14 + 12 * i);
        assert(row == all[p[i] as int].1);
        assert(again[12 * i] == row[0] && again[12 * i + 1] == row[1]);
        codec::lemma_same_words(again, 12 * i, row, 0, little);
        assert(present[i] == all[k].0);
    }
    lemma_fresh_members(ifd0, present);
    lemma_fresh_members(ifd0, tags_of(existing, little));
    let rest = fresh(ifd0, present);
    if rest.len() > 0 {
        let t = rest[0];
        assert(ifd0.contains(t));
        let j = choose|j: int| 0 <= j < ifd0.len() && ifd0[j] == t;
        if tags_of(existing, little).contains(t.0) {
            let k = choose|k: int| 0 <= k < m && tags_of(existing, little)[k] == t.0;
            assert(all[k] == old_rows(existing, little)[k]);
            assert(present.contains(all[k].0));
        } else {
            assert(l.added.contains(ifd0[j]));
            let k = choose|k: int| 0 <= k < l.added.len() && l.added[k] == t;
            assert(all[m + k] == rows(l.added, little, l.values0)[k]);
            assert(present.contains(all[m + k].0));
        }
        assert(false);
    }
    if photo.len() > 0 {
        if l.with_exif {
            assert(all[m + l.added.len()] == pointer_row(little, l.exif));
            assert(present.contains(all[m + l.added.len()].0));
        } else {
            let k = choose|k: int| 0 <= k < m && tags_of(existing, little)[k] == TAG_EXIF_IFD;
            assert(all[k] == old_rows(existing, little)[k]);
            assert(present.contains(all[k].0));
        }
    }
}

/// Embedding leaves every byte of the old file but the header's offset field
/// where and as it was.
pub proof fn law_embedding_moves_nothing(
    file: Seq<u8>,
    base: int,
    bytes: Seq<u8>,
    pointer: Seq<u8>,
    i: int,
)
    requires
        file.len() <= base,
        0 <= i < file.len(),
        !(4 <= i < 8),
    ensures
        relocated(file, base, bytes, pointer)[i] == file[i],
{
}

/// A tag the file already carries is never written over: what is added to
/// IFD0 has tags that were not there, and an Exif IFD is written only where
/// there was none.
pub proof fn law_present_tags_win(
    little: bool,
    existing: Seq<u8>,
    end: int,
    ifd0: Seq<(u16, Datum)>,
    photo: Seq<(u16, Datum)>,
)
    ensures
        ({
            let l = layout(little, existing, end, ifd0, photo);
            let present = tags_of(existing, little);
            &&& forall|k: int|
                0 <= k < l.added.len() ==> !present.contains((#[trigger] l.added[k]).0)
                    && ifd0.contains(l.added[k])
            &&& forall|k: int|
                0 <= k < ifd0.len() && !present.contains((#[trigger] ifd0[k]).0) ==> l.added.contains(
                    ifd0[k],
                )
            &&& l.with_exif ==> !present.contains(TAG_EXIF_IFD)
        }),
{
    lemma_fresh_members(ifd0, tags_of(existing, little));
}

proof fn lemma_fresh_members(tags: Seq<(u16, Datum)>, present: Seq<u16>)
    ensures
        forall|k: int|
            0 <= k < fresh(tags, present).len() ==> !present.contains(
                (#[trigger] fresh(tags, present)[k]).0,
            ) && tags.contains(fresh(tags, present)[k]),
        forall|k: int|
            0 <= k < tags.len() && !present.contains((#[trigger] tags[k]).0) ==> fresh(
                tags,
                present,
            ).contains(tags[k]),
    decreases tags.len(),
{
    if tags.len() > 0 {
        let front = tags.drop_last();
        let f = fresh(tags, present);
        let g = fresh(front, present);
        lemma_fresh_members(front, present);
        assert forall|k: int| 0 <= k < f.len() implies !present.contains((#[trigger] f[k]).0)
            && tags.contains(f[k]) by {
            if k < g.len() {
                assert(f[k] == g[k]);
                assert(front.contains(g[k]));
                let j = choose|j: int| 0 <= j < front.len() && front[j] == g[k];
                assert(tags[j] == f[k]);
            } else {
                assert(tags[tags.len() - 1] == f[k]);
            }
        }
        assert forall|k: int| 0 <= k < tags.len() && !present.contains(
            (#[trigger] tags[k]).0,
        ) implies f.contains(tags[k]) by {
            if k < front.len() {
                assert(front[k] == tags[k]);
                assert(g.contains(tags[k]));
                let j = choose|j: int| 0 <= j < g.len() && g[j] == tags[k];
                assert(f[j] == tags[k]);
            } else {
                assert(f[f.len() - 1] == tags[k]);
            }
        }
    }
}

/// Tags as they are read from a file can be carried across, and there are no
/// more of them than a directory can list.
pub proof fn law_read_tags_can_be_carried(d: Seq<u8>)
    requires
        exif::source(d) is Ok,
    ensures
        carried(exif::source(d)->Ok_0.0, exif::IFD0_TAGS@),
        carried(exif::source(d)->Ok_0.1, exif::EXIF_TAGS@),
        exif::source(d)->Ok_0.0.len() <= u16::MAX,
        exif::source(d)->Ok_0.1.len() <= u16::MAX,
{
    let (little, off) = exif::header(d)->Ok_0;
    let n = codec::word16(d, off as int, little) as int;
    lemma_entries_carried(d, little, off as int, exif::IFD0_TAGS@, n);
    if let Some(p) = exif::directory(d, little, off as int, exif::IFD0_TAGS@)->Ok_0.1 {
        let m = codec::word16(d, p as int, little) as int;
        lemma_entries_carried(d, little, p as int, exif::EXIF_TAGS@, m);
    }
}

proof fn lemma_entries_carried(d: Seq<u8>, little: bool, off: int, want: Seq<u16>, n: int)
    requires
        exif::entries(d, little, off, want, n) is Ok,
        off >= 0,
    ensures
        carried(exif::entries(d, little, off, want, n)->Ok_0.0, want),
        n >= 0 ==> exif::entries(d, little, off, want, n)->Ok_0.0.len() <= n,
    decreases n,
{
    if n > 0 {
        lemma_entries_carried(d, little, off, want, n - 1);
        let e = off + 2 + 12 * (n - 1);
        if let Ok(exif::Entry::Tag(t, v)) = exif::entry_at(d, little, want, e) {
            let typ = codec::word16(d, e + 2, little);
            let count = codec::word32(d, e + 4, little);
            let elem = exif::elem_size(typ)->0;
            let total = elem * count;
            assert(0 <= total) by (nonlinear_arith)
                requires
                    total == elem * count,
                    elem >= 0,
                    count >= 0,
            ;
            assert(v.len() <= count) by {
                if elem == 1 {
                    assert(total == count) by (nonlinear_arith)
                        requires
                            total == elem * count,
                            elem == 1,
                    ;
                } else if elem == 2 {
                    assert(total == 2 * count) by (nonlinear_arith)
                        requires
                            total == elem * count,
                            elem == 2,
                    ;
                } else if elem == 4 {
                    assert(total == 4 * count) by (nonlinear_arith)
                        requires
                            total == elem * count,
                            elem == 4,
                    ;
                } else {
                    assert(total == 8 * count) by (nonlinear_arith)
                        requires
                            total == elem * count,
                            elem == 8,
                    ;
                }
            }
        }
    }
}

/// An entry is twelve bytes: its tag, its type, the number of its values, and
/// these themselves, filled up with zeros, if they fit four bytes. Otherwise it
/// says where they stand.
pub proof fn law_entries_are_laid_out(tag: u16, v: Datum, little: bool, at: int, i: int)
    requires
        v.len() <= u32::MAX,
        0 <= at <= u32::MAX,
    ensures
        ({
            let e = entry_bytes(tag, v, little, at);
            let raw = v.payload(little);
            &&& e.len() == 12
            &&& codec::word16(e, 0, little) == tag
            &&& codec::word16(e, 2, little) == v.type_id()
            &&& codec::word32(e, 4, little) == v.len()
            &&& raw.len() > 4 ==> codec::word32(e, 8, little) == at
            &&& raw.len() <= 4 && 0 <= i < raw.len() ==> e[8 + i] == raw[i]
            &&& raw.len() <= 4 && raw.len() <= i < 4 ==> e[8 + i] == 0
        }),
{
    let e = entry_bytes(tag, v, little, at);
    codec::lemma_words(e, 0, little, tag, 0);
    codec::lemma_words(e, 2, little, v.type_id(), 0);
    codec::lemma_words(e, 4, little, 0, v.len() as u32);
    codec::lemma_words(e, 8, little, 0, at as u32);
    let raw = v.payload(little);
    assert(value_field(v, little, at).len() == 4);
    if 0 <= i < 4 {
        assert(e[8 + i] == value_field(v, little, at)[i]);
    }
}

/// The entry of the photographic directory is one number of 32 bits, which says
/// where that stands.
pub proof fn law_pointers_are_laid_out(little: bool, at: int)
    requires
        0 <= at <= u32::MAX,
    ensures
        ({
            let (t, e) = pointer_row(little, at);
            &&& t == 34665
            &&& e.len() == 12
            &&& codec::word16(e, 0, little) == 34665
            &&& codec::word16(e, 2, little) == 4
            &&& codec::word32(e, 4, little) == 1
            &&& codec::word32(e, 8, little) == at
        }),
{
    let e = pointer_row(little, at).1;
    codec::lemma_words(e, 0, little, TAG_EXIF_IFD, 0);
    codec::lemma_words(e, 2, little, 4, 0);
    codec::lemma_words(e, 4, little, 0, 1);
    codec::lemma_words(e, 8, little, 0, at as u32);
}

/// A directory is the number of its entries, the entries by ascending tag, and
/// what comes next.
pub proof fn law_tables_are_sorted(
    out: Seq<u8>,
    list: Seq<(u16, Seq<u8>)>,
    next: Seq<u8>,
    little: bool,
    i: int,
    j: int,
) -> (r: (int, int))
    requires
        is_table(out, list, next, little),
        forall|k: int| 0 <= k < list.len() ==> (#[trigger] list[k]).1.len() == 12,
        list.len() <= u16::MAX,
        0 <= i < j < list.len(),
    ensures
        out.len() == 2 + 12 * list.len() + next.len(),
        codec::word16(out, 0, little) == list.len(),
        out.skip(2 + 12 * list.len() as int) == next,
        0 <= r.0 < list.len() && 0 <= r.1 < list.len() && r.0 != r.1,
        list[r.0].0 <= list[r.1].0,
        out.subrange(2 + 12 * i, 14 + 12 * i) == list[r.0].1,
        out.subrange(2 + 12 * j, 14 + 12 * j) == list[r.1].1,
{
    let p = choose|p: Seq<usize>| #[trigger]
        order::is_order(row_keys(list), p) && out == codec::enc16(
            (list.len() % 0x1_0000) as u16,
            little,
        ) + flat(list, p) + next;
    codec::lemma_words(out, 0, little, list.len() as u16, 0);
    assert(out.skip(2 + 12 * list.len() as int) =~= next);
    lemma_table_row(out, list, p, next, little, i);
    lemma_table_row(out, list, p, next, little, j);
    assert(order::before(row_keys(list), p[i] as int, p[j] as int));
    (p[i] as int, p[j] as int)
}

/// The new directory is written behind the file, at an even place, and the
/// header points to it.
pub proof fn law_relocation_appends(
    file: Seq<u8>,
    base: int,
    bytes: Seq<u8>,
    pointer: Seq<u8>,
    i: int,
)
    requires
        8 <= file.len() <= base,
        pointer.len() == 4,
    ensures
        relocated(file, base, bytes, pointer).len() == base + bytes.len(),
        relocated(file, base, bytes, pointer).subrange(4, 8) == pointer,
        relocated(file, base, bytes, pointer).skip(base) == bytes,
        file.len() <= i < base ==> relocated(file, base, bytes, pointer)[i] == 0,
{
    assert(relocated(file, base, bytes, pointer).subrange(4, 8) =~= pointer);
    assert(relocated(file, base, bytes, pointer).skip(base) =~= bytes);
}

/// What is appended follows without gaps: the new first directory with all that
/// was there, what is added and the pointer; its values; and, where there is
/// none yet, the photographic directory and its values.
pub proof fn law_layout_has_no_gaps(
    little: bool,
    existing: Seq<u8>,
    end: int,
    ifd0: Seq<(u16, Datum)>,
    photo: Seq<(u16, Datum)>,
)
    requires
        end >= 0,
        existing.len() % 12 == 0,
    ensures
        ({
            let l = layout(little, existing, end, ifd0, photo);
            let n = rows0(little, existing, l).len();
            &&& end <= l.base <= end + 1
            &&& l.values0 == l.base + 6 + 12 * n
            &&& l.exif == l.values0 + spill(l.added, little).len()
            &&& l.with_exif ==> l.end == l.exif + 6 + 12 * photo.len() + spill(photo, little).len()
            &&& !l.with_exif ==> l.end == l.exif
            &&& n == existing.len() / 12 + l.added.len() + if l.with_exif {
                1int
            } else {
                0int
            }
            &&& l.with_exif <==> photo.len() > 0 && !tags_of(existing, little).contains(34665)
        }),
{
}

/// Values that do not fit an entry are written out one after the other, each
/// filled up to an even length.
pub proof fn law_values_are_written_out(tags: Seq<(u16, Datum)>, t: u16, v: Datum, little: bool)
    ensures
        v.payload(little).len() <= 4 ==> spill(tags.push((t, v)), little) == spill(tags, little),
        v.payload(little).len() > 4 && v.payload(little).len() % 2 == 0 ==> spill(
            tags.push((t, v)),
            little,
        ) == spill(tags, little) + v.payload(little),
        v.payload(little).len() > 4 && v.payload(little).len() % 2 == 1 ==> spill(
            tags.push((t, v)),
            little,
        ) == spill(tags, little) + v.payload(little) + seq![0u8],
        spill(Seq::<(u16, Datum)>::empty(), little) == Seq::<u8>::empty(),
{
    let all = tags.push((t, v));
    assert(all.drop_last() =~= tags);
    let raw = v.payload(little);
    assert(spill(tags, little) + Seq::<u8>::empty() =~= spill(tags, little));
    assert(spill(tags, little) + raw.push(0u8) =~= spill(tags, little) + raw + seq![0u8]);
}

/// The entries that were there keep their bytes.
pub proof fn law_old_entries_are_kept(existing: Seq<u8>, little: bool, l: Layout, i: int)
    requires
        existing.len() % 12 == 0,
        0 <= i < existing.len() / 12,
    ensures
        rows0(little, existing, l)[i].1 == existing.subrange(12 * i, 12 * i + 12),
        rows0(little, existing, l)[i].0 == codec::word16(existing, 12 * i, little),
        tags_of(existing, little)[i] == codec::word16(existing, 12 * i, little),
        tags_of(existing, little).len() == existing.len() / 12,
{
}

/// A file is left alone exactly if it has all the tags and no photographic
/// directory is to be added. Otherwise the new directory is appended at an even
/// place right behind its end, and the header points there.
pub proof fn law_files_grow_only_by_what_is_missing(
    little: bool,
    existing: Seq<u8>,
    next: Seq<u8>,
    end: int,
    ifd0: Seq<(u16, Datum)>,
    photo: Seq<(u16, Datum)>,
    r: Option<Relocation>,
)
    requires
        end >= 0,
        is_relocation(little, existing, next, end, ifd0, photo, r),
    ensures
        r is None <==> (forall|k: int|
            0 <= k < ifd0.len() ==> tags_of(existing, little).contains((#[trigger] ifd0[k]).0)) && (
        photo.len() == 0 || tags_of(existing, little).contains(34665)),
        r matches Some(m) ==> {
            &&& end <= m.base <= end + 1
            &&& m.base % 2 == 0
            &&& m.pointer@.len() == 4
            &&& m.base <= u32::MAX ==> codec::word32(m.pointer@, 0, little) == m.base
            &&& is_appendix(
                m.bytes@,
                little,
                existing,
                next,
                photo,
                layout(little, existing, end, ifd0, photo),
            )
        },
{
    let present = tags_of(existing, little);
    let l = layout(little, existing, end, ifd0, photo);
    lemma_fresh_members(ifd0, present);
    if l.added.len() > 0 {
        assert(ifd0.contains(l.added[0]));
        let j = choose|j: int| 0 <= j < ifd0.len() && ifd0[j] == l.added[0];
        assert(!present.contains(ifd0[j].0));
    } else {
        assert forall|k: int| 0 <= k < ifd0.len() implies present.contains(
            (#[trigger] ifd0[k]).0,
        ) by {
            if !present.contains(ifd0[k].0) {
                assert(l.added.contains(ifd0[k]));
            }
        }
    }
    if let Some(m) = r {
        if m.base <= u32::MAX {
            codec::lemma_words(m.pointer@, 0, little, 0, m.base as u32);
        }
    }
}

} // verus!
