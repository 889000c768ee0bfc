//! A new `Exif` item for a HEIC file that has none: an `infe` entry at the end of the
//! `iinf` box, an `iloc` entry at the end of the `iloc` box, and the item's bytes at the
//! end of the media data. The `meta` box grows, so the extents of the items, which lie
//! after it, move by as much. The new item is not linked to the primary image by an
//! `iref` box: the `meta` box gains no box of its own.

use vstd::prelude::*;

use crate::bytes::{be16, be32, push_range, push_slice, read_u16_be, read_u32_be, u16_bytes, u32_bytes};
use crate::error::ExifError;
use crate::heic::boxes::{
    ev_position, ev_value, ev_width, field_sizes, read_data, ExtentValue, FieldSizes,
    ItemInfoBox, ItemInfoBoxView, ItemInfoEntryView, ItemLocationBox, ItemLocationBoxView,
    ItemLocationEntry, ItemLocationEntryView, MetaBox, MetaBoxView, Ptr, RawBox,
};
use crate::heic::boxes::{entries_within, extents_within, iloc_within_meta, ItemInfoEntry};
use crate::heic::copy_with_exif::{
    field_bytes, field_modulus, overwrite, overwrite_extent, value_bytes,
};

verus! {

/// `n` zero bytes.
pub open spec fn zero_bytes(n: int) -> Seq<u8> {
    Seq::new(n as nat, |i: int| 0u8)
}

/// The largest item id among the `iinf` entries `es` (0 where there are none).
pub open spec fn max_info_id(es: Seq<ItemInfoEntryView>) -> int
    decreases es.len(),
{
    if es.len() == 0 {
        0
    } else {
        let m = max_info_id(es.drop_last());
        if es.last().item_id > m {
            es.last().item_id as int
        } else {
            m
        }
    }
}

/// The largest item id among the `iloc` entries `es` (0 where there are none).
pub open spec fn max_loc_id(es: Seq<ItemLocationEntryView>) -> int
    decreases es.len(),
{
    if es.len() == 0 {
        0
    } else {
        let m = max_loc_id(es.drop_last());
        if es.last().item_id > m {
            es.last().item_id as int
        } else {
            m
        }
    }
}

/// The id of the new item: one more than the largest id in the `iinf` and `iloc` boxes.
pub open spec fn new_item_id(ii: ItemInfoBoxView, il: ItemLocationBoxView) -> int {
    let a = max_info_id(ii.entries);
    let b = max_loc_id(il.entries);
    (if a > b {
        a
    } else {
        b
    }) + 1
}

/// The `infe` box (version 2) of the new item `id`, of type `Exif`.
pub open spec fn new_infe(id: u16) -> Seq<u8> {
    u32_bytes(21) + seq![0x69u8, 0x6eu8, 0x66u8, 0x65u8] + seq![2u8, 0u8, 0u8, 0u8] + u16_bytes(id)
        + u16_bytes(0) + seq![0x45u8, 0x78u8, 0x69u8, 0x66u8, 0u8]
}

/// The length of an `iloc` entry of one extent, in the box's `version` and field sizes.
pub open spec fn entry_len(version: u8, sz: FieldSizes) -> int {
    (if version == 2 {
        4int
    } else {
        2int
    }) + (if version == 0 {
        0int
    } else {
        2int
    }) + 2 + sz.base_offset_size + 2 + (if version == 0 {
        0int
    } else {
        sz.index_size as int
    }) + sz.offset_size + sz.length_size
}

/// The `iloc` entry of the new item `id`: its data in the file itself, no base offset, and
/// one extent of `len` bytes at `off`.
pub open spec fn new_iloc_entry(version: u8, sz: FieldSizes, id: u16, off: u64, len: u64) -> Seq<u8> {
    (if version == 2 {
        u32_bytes(id as u32)
    } else {
        u16_bytes(id)
    }) + (if version == 0 {
        Seq::empty()
    } else {
        u16_bytes(0)
    }) + u16_bytes(0) + zero_bytes(sz.base_offset_size as int) + u16_bytes(1) + (if version == 0 {
        Seq::empty()
    } else {
        zero_bytes(sz.index_size as int)
    }) + value_bytes(off, sz.offset_size as int) + value_bytes(len, sz.length_size as int)
}

/// The field `f` moved `delta` bytes further.
pub open spec fn moved_field(f: ExtentValue, delta: int) -> ExtentValue {
    match f {
        ExtentValue::U8(p, v) => ExtentValue::U8((p + delta) as u64, v),
        ExtentValue::U16(p, v) => ExtentValue::U16((p + delta) as u64, v),
        ExtentValue::U32(p, v) => ExtentValue::U32((p + delta) as u64, v),
        ExtentValue::U64(p, v) => ExtentValue::U64((p + delta) as u64, v),
    }
}

/// `buf` with the offset field of every extent of the entries `es` whose data lie in the
/// file (construction method 0), from the `j`-th extent of the `i`-th entry on, raised by
/// `sh`, each field standing `delta` bytes after its place in `es`. `None` where a raised
/// offset does not fit its field.
pub open spec fn shift_extents(buf: Seq<u8>, es: Seq<ItemLocationEntryView>, i: int, j: int, sh: int, delta: int) -> Option<
    Seq<u8>,
>
    decreases es.len() - i, if 0 <= i < es.len() {
        es[i].extents.len() - j
    } else {
        0
    },
{
    if i < 0 || i >= es.len() {
        Some(buf)
    } else if es[i].construction_method != 0 || j < 0 || j >= es[i].extents.len() {
        shift_extents(buf, es, i + 1, 0, sh, delta)
    } else {
        let f = es[i].extents[j].extent_offset;
        if ev_value(f) + sh >= field_modulus(ev_width(f)) {
            None
        } else {
            shift_extents(overwrite(buf, moved_field(f, delta), (ev_value(f) + sh) as u64), es, i, j + 1, sh, delta)
        }
    }
}

/// `buf` with `bytes` put in at `at`.
pub open spec fn insert_bytes(buf: Seq<u8>, at: int, bytes: Seq<u8>) -> Seq<u8> {
    buf.subrange(0, at) + bytes + buf.subrange(at, buf.len() as int)
}

/// The positions in the bytes of the `meta` box `m` that the new item touches: where the
/// children start, where the `iinf` box starts, ends and has its data, and the same for
/// the `iloc` box.
pub struct AddPlaces {
    pub iinf_start: int,
    pub iinf_end: int,
    pub iinf_data: int,
    pub iloc_start: int,
    pub iloc_end: int,
    pub iloc_data: int,
}

/// The places of the `iinf` box `ii` and the `iloc` box `il` in the bytes of `m`.
pub open spec fn add_places(m: MetaBoxView, ii: ItemInfoBoxView, il: ItemLocationBoxView) -> AddPlaces {
    let cb = m.data_ptr.offset - m.full_ptr.offset + 4;
    AddPlaces {
        iinf_start: cb + ii.full_ptr.offset,
        iinf_end: cb + ii.full_ptr.offset + ii.full_ptr.length,
        iinf_data: cb + ii.data_ptr.offset,
        iloc_start: cb + il.full_ptr.offset,
        iloc_end: cb + il.full_ptr.offset + il.full_ptr.length,
        iloc_data: cb + il.data_ptr.offset,
    }
}

/// The width of the entry count of an `iinf` box of `version`.
pub open spec fn iinf_count_width(version: u8) -> int {
    if version == 0 {
        2
    } else {
        4
    }
}

/// The width of the item count of an `iloc` box of `version`.
pub open spec fn iloc_count_width(version: u8) -> int {
    if version < 2 {
        2
    } else {
        4
    }
}

/// The big-endian value of the `w` bytes (2 or 4) of `s` at `i`.
pub open spec fn count_at(s: Seq<u8>, i: int, w: int) -> int {
    if w == 2 {
        be16(s, i)
    } else {
        be32(s, i)
    }
}

/// The field of width `w` (2 or 4) at `p`, for [`overwrite`].
pub open spec fn count_field(p: int, w: int) -> ExtentValue {
    if w == 2 {
        ExtentValue::U16(p as u64, 0)
    } else {
        ExtentValue::U32(p as u64, 0)
    }
}

/// Where the new item's bytes go in the copy: after the media data, which the `meta` box's
/// growth `d` and a 16-byte `mdat` header move.
pub open spec fn new_item_offset(media: RawBox, d: int) -> int {
    media.full_ptr.offset + d + 16 + media.data_ptr.length
}

/// The copy's `meta` box (of bytes `mb`) can take the new item of `n` bytes: its header and
/// those of its `iinf` and `iloc` boxes are plain 8-byte headers whose size fields hold the
/// boxes' lengths, the two boxes lie apart within it, the `iloc` box gives its offsets and
/// lengths 4 or 8 bytes, and every new size, count, id, offset and length fits its field.
#[verifier::opaque]
pub open spec fn can_add(
    mb: Seq<u8>,
    m: MetaBoxView,
    ii: ItemInfoBoxView,
    il: ItemLocationBoxView,
    media: RawBox,
    n: int,
) -> bool {
    let q = add_places(m, ii, il);
    let sz = field_sizes(mb.subrange(q.iloc_data + 4, q.iloc_data + 6));
    let el = entry_len(il.version, sz);
    let d = 21 + el;
    &&& m.data_ptr.offset == m.full_ptr.offset + 8
    &&& ii.data_ptr.offset == ii.full_ptr.offset + 8
    &&& il.data_ptr.offset == il.full_ptr.offset + 8
    &&& 0 <= q.iinf_start
    &&& 0 <= q.iloc_start
    &&& q.iinf_end <= mb.len()
    &&& q.iloc_end <= mb.len()
    &&& q.iinf_end <= q.iloc_start || q.iloc_end <= q.iinf_start
    &&& q.iinf_data + 8 <= mb.len()
    &&& q.iloc_data + 10 <= mb.len()
    &&& mb.len() >= 4
    &&& be32(mb, 0) == mb.len()
    &&& be32(mb, q.iinf_start) == ii.full_ptr.length
    &&& be32(mb, q.iloc_start) == il.full_ptr.length
    &&& il.version <= 2
    &&& sz.offset_size == 4 || sz.offset_size == 8
    &&& sz.length_size == 4 || sz.length_size == 8
    &&& sz.base_offset_size == 0 || sz.base_offset_size == 4 || sz.base_offset_size == 8
    &&& sz.index_size == 0 || sz.index_size == 4 || sz.index_size == 8
    &&& new_item_id(ii, il) <= 0xffff
    &&& mb.len() + d < 0x1_0000_0000
    &&& count_at(mb, q.iinf_data + 4, iinf_count_width(ii.version)) + 1 < field_modulus(
        iinf_count_width(ii.version),
    )
    &&& count_at(mb, q.iloc_data + 6, iloc_count_width(il.version)) + 1 < field_modulus(
        iloc_count_width(il.version),
    )
    &&& media.data_ptr.offset <= media.full_ptr.offset + d + 16
    &&& new_item_offset(media, d) < field_modulus(sz.offset_size as int)
    &&& n < field_modulus(sz.length_size as int)
}

/// The bytes of the `meta` box `m` (of bytes `mb`) grown to take a new `Exif` item of
/// bytes `item`, before any extent moves: the sizes of the `meta`, `iinf` and `iloc` boxes
/// and the counts of entries grow, and the new `infe` and `iloc` entries end the `iinf`
/// and `iloc` boxes.
#[verifier::opaque]
pub open spec fn grown_meta(
    mb: Seq<u8>,
    m: MetaBoxView,
    ii: ItemInfoBoxView,
    il: ItemLocationBoxView,
    media: RawBox,
    item: Seq<u8>,
) -> Seq<u8> {
    let q = add_places(m, ii, il);
    let sz = field_sizes(mb.subrange(q.iloc_data + 4, q.iloc_data + 6));
    let el = entry_len(il.version, sz);
    let d = 21 + el;
    let wi = iinf_count_width(ii.version);
    let wl = iloc_count_width(il.version);
    let b2 = overwrite(
        overwrite(
            overwrite(
                overwrite(
                    overwrite(mb, ExtentValue::U32(0, 0), (mb.len() + d) as u64),
                    ExtentValue::U32(q.iinf_start as u64, 0),
                    (ii.full_ptr.length + 21) as u64,
                ),
                count_field(q.iinf_data + 4, wi),
                (count_at(mb, q.iinf_data + 4, wi) + 1) as u64,
            ),
            ExtentValue::U32(q.iloc_start as u64, 0),
            (il.full_ptr.length + el) as u64,
        ),
        count_field(q.iloc_data + 6, wl),
        (count_at(mb, q.iloc_data + 6, wl) + 1) as u64,
    );
    let id = new_item_id(ii, il) as u16;
    let infe = new_infe(id);
    let entry = new_iloc_entry(il.version, sz, id, new_item_offset(media, d) as u64, item.len() as u64);
    if q.iinf_end >= q.iloc_end {
        insert_bytes(insert_bytes(b2, q.iinf_end, infe), q.iloc_end, entry)
    } else {
        insert_bytes(insert_bytes(b2, q.iloc_end, entry), q.iinf_end, infe)
    }
}

/// The outcome of making the bytes of the `meta` box `m` of `file` take a new `Exif` item
/// of bytes `item`, placed after the media data of `media`: the sizes of the `meta`,
/// `iinf` and `iloc` boxes and the counts of entries grow, the new `infe` and `iloc`
/// entries end the `iinf` and `iloc` boxes, and then every extent in the file, its field
/// now standing where the `iloc` box moved to, moves by the growth of the `meta` box and
/// the change of the `mdat` header.
pub open spec fn add_meta_bytes(file: Seq<u8>, m: MetaBoxView, media: RawBox, item: Seq<u8>) -> Result<
    Seq<u8>,
    ExifError,
> {
    match (m.iinf, m.iloc) {
        (_, None) => Err(ExifError::ItemLocationBoxNotFound),
        (None, Some(_)) => Err(ExifError::CannotAddExifItem),
        (Some(ii), Some(il)) => match read_data(file, m.full_ptr) {
            Err(e) => Err(e),
            Ok(mb) => {
                if !can_add(mb, m, ii, il, media, item.len() as int) {
                    Err(ExifError::CannotAddExifItem)
                } else {
                    let q = add_places(m, ii, il);
                    let sz = field_sizes(mb.subrange(q.iloc_data + 4, q.iloc_data + 6));
                    let el = entry_len(il.version, sz);
                    let d = 21 + el;
                    let sh = media.full_ptr.offset + d + 16 - media.data_ptr.offset;
                    let grown = grown_meta(mb, m, ii, il, media, item);
                    match shift_extents(grown, il.entries, 0, 0, sh, iloc_moved_by(q)) {
                        None => Err(ExifError::CannotAddExifItem),
                        Some(b) => Ok(b),
                    }
                }
            },
        },
    }
}

/// How far the `iloc` box moves once the new `infe` box is put in: 21 bytes where the
/// `iinf` box comes first.
pub open spec fn iloc_moved_by(q: AddPlaces) -> int {
    if q.iinf_end >= q.iloc_end {
        0
    } else {
        21
    }
}

fn max_id(ii: &ItemInfoBox, il: &ItemLocationBox) -> (r: u64)
    ensures
        r == new_item_id(ii@, il@),
{
    let ghost ie = ii@.entries;
    let mut a: u32 = 0;
    let mut i: usize = 0;
    while i < ii.entries.len()
        invariant
            i <= ii.entries@.len(),
            ie == ii.entries@.map_values(|e: ItemInfoEntry| e@),
            a == max_info_id(ie.subrange(0, i as int)),
        decreases ii.entries@.len() - i,
    {
        assert(ie.subrange(0, i + 1).drop_last() =~= ie.subrange(0, i as int));
        if ii.entries[i].item_id > a {
            a = ii.entries[i].item_id;
        }
        i = i + 1;
    }
    assert(ie.subrange(0, i as int) =~= ie);
    let ghost le = il@.entries;
    let mut b: u32 = 0;
    let mut j: usize = 0;
    while j < il.entries.len()
        invariant
            j <= il.entries@.len(),
            le == il.entries@.map_values(|e: ItemLocationEntry| e@),
            b == max_loc_id(le.subrange(0, j as int)),
        decreases il.entries@.len() - j,
    {
        assert(le.subrange(0, j + 1).drop_last() =~= le.subrange(0, j as int));
        if il.entries[j].item_id > b {
            b = il.entries[j].item_id;
        }
        j = j + 1;
    }
    assert(le.subrange(0, j as int) =~= le);
    let c: u32 = if a > b {
        a
    } else {
        b
    };
    c as u64 + 1
}

/// Raises the offset field of every extent in the file by `sh`, each field standing
/// `delta` bytes after its place in `entries`, as [`shift_extents`] says; `false` where a
/// raised offset does not fit its field.
fn shift_all(buf: &mut Vec<u8>, entries: &Vec<ItemLocationEntry>, sh: u64, delta: u64, limit: Ghost<int>) -> (r: bool)
    requires
        entries_within(entries@.map_values(|e: ItemLocationEntry| e@), limit@),
        limit@ + delta <= old(buf)@.len(),
    ensures
        final(buf)@.len() == old(buf)@.len(),
        r == (shift_extents(old(buf)@, entries@.map_values(|e: ItemLocationEntry| e@), 0, 0, sh as int, delta as int)
            is Some),
        r ==> shift_extents(old(buf)@, entries@.map_values(|e: ItemLocationEntry| e@), 0, 0, sh as int, delta as int)
            == Some(final(buf)@),
{
    let ghost es = entries@.map_values(|e: ItemLocationEntry| e@);
    let ghost target = shift_extents(buf@, es, 0, 0, sh as int, delta as int);
    let mut i: usize = 0;
    while i < entries.len()
        invariant
            i <= entries@.len(),
            es == entries@.map_values(|e: ItemLocationEntry| e@),
            entries_within(es, limit@),
            limit@ + delta <= buf@.len(),
            buf@.len() == old(buf)@.len(),
            shift_extents(buf@, es, i as int, 0, sh as int, delta as int) == target,
            target == shift_extents(old(buf)@, es, 0, 0, sh as int, delta as int),
        decreases entries@.len() - i,
    {
        let e = &entries[i];
        assert(es[i as int] == e@);
        if e.construction_method == 0 {
            let mut j: usize = 0;
            while j < e.extents.len()
                invariant
                    i < entries@.len(),
                    es == entries@.map_values(|e: ItemLocationEntry| e@),
                    e@ == es[i as int],
                    es[i as int].construction_method == 0,
                    j <= e.extents@.len(),
                    entries_within(es, limit@),
                    limit@ + delta <= buf@.len(),
                    buf@.len() == old(buf)@.len(),
                    shift_extents(buf@, es, i as int, j as int, sh as int, delta as int) == target,
                    target == shift_extents(old(buf)@, es, 0, 0, sh as int, delta as int),
                decreases e.extents@.len() - j,
            {
                let f = e.extents[j].extent_offset;
                assert(f == es[i as int].extents[j as int].extent_offset);
                let v = f.value();
                let fits = match f {
                    ExtentValue::U8(..) => v < 0x100 && sh < 0x100 - v,
                    ExtentValue::U16(..) => v < 0x1_0000 && sh < 0x1_0000 - v,
                    ExtentValue::U32(..) => v < 0x1_0000_0000 && sh < 0x1_0000_0000 - v,
                    ExtentValue::U64(..) => sh <= u64::MAX - v,
                };
                if !fits {
                    assert(es[i as int].extents.len() == e.extents@.len());
                    assert(ev_value(f) + sh >= field_modulus(ev_width(f)));
                    assert(shift_extents(buf@, es, i as int, j as int, sh as int, delta as int) is None);
                    return false;
                }
                assert(extents_within(es[i as int].extents, limit@));
                assert(ev_position(f) + ev_width(f) <= limit@);
                let _bl = buf.len();
                assert(ev_position(f) + delta <= buf@.len());
                let g = match f {
                    ExtentValue::U8(p, x) => ExtentValue::U8(p + delta, x),
                    ExtentValue::U16(p, x) => ExtentValue::U16(p + delta, x),
                    ExtentValue::U32(p, x) => ExtentValue::U32(p + delta, x),
                    ExtentValue::U64(p, x) => ExtentValue::U64(p + delta, x),
                };
                assert(g == moved_field(f, delta as int));
                let _bl = buf.len();
                overwrite_extent(buf, &g, v + sh);
                j = j + 1;
            }
        }
        i = i + 1;
    }
    true
}

/// `buf` with `bytes` put in at `at`.
fn insert_at(buf: &Vec<u8>, at: usize, bytes: &Vec<u8>) -> (r: Vec<u8>)
    requires
        at <= buf@.len(),
    ensures
        r@ == insert_bytes(buf@, at as int, bytes@),
{
    let mut out: Vec<u8> = Vec::new();
    push_range(&mut out, buf.as_slice(), 0, at);
    push_slice(&mut out, bytes.as_slice());
    push_range(&mut out, buf.as_slice(), at, buf.len());
    out
}

fn infe_bytes(id: u16) -> (r: Vec<u8>)
    ensures
        r@ == new_infe(id),
{
    let mut v: Vec<u8> = Vec::new();
    crate::bytes::push_u32_be(&mut v, 21);
    let head: [u8; 8] = [0x69, 0x6e, 0x66, 0x65, 2, 0, 0, 0];
    push_slice(&mut v, head.as_slice());
    crate::bytes::push_u16_be(&mut v, id);
    crate::bytes::push_u16_be(&mut v, 0);
    let ty: [u8; 5] = [0x45, 0x78, 0x69, 0x66, 0];
    push_slice(&mut v, ty.as_slice());
    assert(v@ =~= new_infe(id));
    v
}

/// `n` zero bytes appended.
fn push_zero_bytes(v: &mut Vec<u8>, n: u8)
    ensures
        final(v)@ == old(v)@ + zero_bytes(n as int),
{
    crate::bytes::push_zeros(v, n as usize);
    assert(Seq::new((n as usize) as nat, |k: int| 0u8) =~= zero_bytes(n as int));
}

fn entry_bytes(version: u8, sz: FieldSizes, id: u16, off: u64, len: u64) -> (r: Vec<u8>)
    requires
        sz.offset_size == 4 || sz.offset_size == 8,
        sz.length_size == 4 || sz.length_size == 8,
    ensures
        r@ == new_iloc_entry(version, sz, id, off, len),
{
    let mut v: Vec<u8> = Vec::new();
    if version == 2 {
        crate::bytes::push_u32_be(&mut v, id as u32);
    } else {
        crate::bytes::push_u16_be(&mut v, id);
    }
    if version != 0 {
        crate::bytes::push_u16_be(&mut v, 0);
    }
    crate::bytes::push_u16_be(&mut v, 0);
    push_zero_bytes(&mut v, sz.base_offset_size);
    crate::bytes::push_u16_be(&mut v, 1);
    if version != 0 {
        push_zero_bytes(&mut v, sz.index_size);
    }
    let fo = if sz.offset_size == 4 {
        ExtentValue::U32(0, 0)
    } else {
        ExtentValue::U64(0, 0)
    };
    let ob = field_bytes(&fo, off);
    push_slice(&mut v, ob.as_slice());
    let fl = if sz.length_size == 4 {
        ExtentValue::U32(0, 0)
    } else {
        ExtentValue::U64(0, 0)
    };
    let lb = field_bytes(&fl, len);
    push_slice(&mut v, lb.as_slice());
    assert(v@ =~= new_iloc_entry(version, sz, id, off, len));
    v
}


fn count_value(mb: &Vec<u8>, p: usize, w: u8) -> (r: u64)
    requires
        w == 2 || w == 4,
        p + w <= mb@.len(),
    ensures
        r == count_at(mb@, p as int, w as int),
{
    if w == 2 {
        read_u16_be(mb.as_slice(), p) as u64
    } else {
        read_u32_be(mb.as_slice(), p) as u64
    }
}

fn count_field_exec(p: usize, w: u8) -> (r: ExtentValue)
    requires
        w == 2 || w == 4,
    ensures
        r == count_field(p as int, w as int),
{
    if w == 2 {
        ExtentValue::U16(p as u64, 0)
    } else {
        ExtentValue::U32(p as u64, 0)
    }
}

/// The places, sizes and values of [`add_meta_bytes`] for a `meta` box that can take the
/// new item.
struct AddPlan {
    iinf_end: usize,
    iloc_end: usize,
    iinf_start: usize,
    iloc_start: usize,
    iinf_data: usize,
    iloc_data: usize,
    sz: FieldSizes,
    id: u64,
    el: u64,
    wi: u8,
    wl: u8,
    ci: u64,
    cl: u64,
    nb: u64,
    off: u64,
}

/// The places, sizes and values that `a` holds are those [`add_meta_bytes`] computes for
/// the `meta` box `m` of bytes `mb`.
spec fn plan_of(a: AddPlan, mb: Seq<u8>, m: MetaBoxView, ii: ItemInfoBoxView, il: ItemLocationBoxView, media: RawBox) -> bool {
    let q = add_places(m, ii, il);
    &&& a.iinf_start == q.iinf_start
    &&& a.iinf_end == q.iinf_end
    &&& a.iinf_data == q.iinf_data
    &&& a.iloc_start == q.iloc_start
    &&& a.iloc_end == q.iloc_end
    &&& a.iloc_data == q.iloc_data
    &&& a.sz == field_sizes(mb.subrange(q.iloc_data + 4, q.iloc_data + 6))
    &&& a.id == new_item_id(ii, il)
    &&& a.el == entry_len(il.version, a.sz)
    &&& a.wi == iinf_count_width(ii.version)
    &&& a.wl == iloc_count_width(il.version)
    &&& a.ci == count_at(mb, q.iinf_data + 4, a.wi as int)
    &&& a.cl == count_at(mb, q.iloc_data + 6, a.wl as int)
    &&& a.nb == media.full_ptr.offset + 21 + a.el + 16
    &&& a.off == new_item_offset(media, 21 + a.el)
}

/// The bytes of the `meta` box grown to take the new item (see [`grown_meta`]).
#[verifier::spinoff_prover]
#[verifier::rlimit(60)]
fn grow_meta(
    mb: Vec<u8>,
    meta: &MetaBox,
    ii: &ItemInfoBox,
    il: &ItemLocationBox,
    media: &RawBox,
    item: &[u8],
    a: &AddPlan,
) -> (r: Vec<u8>)
    requires
        mb@.len() == meta@.full_ptr.length,
        meta@.iinf == Some(ii@),
        meta@.iloc == Some(il@),
        can_add(mb@, meta@, ii@, il@, *media, item@.len() as int),
        plan_of(*a, mb@, meta@, ii@, il@, *media),
    ensures
        r@ == grown_meta(mb@, meta@, ii@, il@, *media, item@),
        r@.len() == mb@.len() + 21 + a.el,
{
    proof {
        reveal(can_add);
        reveal(grown_meta);
    }
    let ghost mb0 = mb@;
    let mut mb = mb;
    let ml = mb.len();
    let d = 21 + a.el;
    overwrite_extent(&mut mb, &ExtentValue::U32(0, 0), ml as u64 + d);
    overwrite_extent(&mut mb, &ExtentValue::U32(a.iinf_start as u64, 0), ii.full_ptr.length as u64 + 21);
    overwrite_extent(&mut mb, &count_field_exec(a.iinf_data + 4, a.wi), a.ci + 1);
    overwrite_extent(&mut mb, &ExtentValue::U32(a.iloc_start as u64, 0), il.full_ptr.length as u64 + a.el);
    overwrite_extent(&mut mb, &count_field_exec(a.iloc_data + 6, a.wl), a.cl + 1);
    let infe = infe_bytes(a.id as u16);
    let entry = entry_bytes(il.version, a.sz, a.id as u16, a.off, item.len() as u64);
    if a.iinf_end >= a.iloc_end {
        let b = insert_at(&mb, a.iinf_end, &infe);
        insert_at(&b, a.iloc_end, &entry)
    } else {
        let b = insert_at(&mb, a.iloc_end, &entry);
        insert_at(&b, a.iinf_end, &infe)
    }
}

/// Whether the `meta` box of bytes `mb` can take the new item of `item`'s length, with
/// what [`add_meta_bytes`] computes for it.
#[verifier::spinoff_prover]
#[verifier::rlimit(60)]
fn plan_add(
    mb: &Vec<u8>,
    meta: &MetaBox,
    ii: &ItemInfoBox,
    il: &ItemLocationBox,
    media: &RawBox,
    item: &[u8],
) -> (r: Option<AddPlan>)
    requires
        mb@.len() == meta@.full_ptr.length,
    ensures
        r is Some == can_add(mb@, meta@, ii@, il@, *media, item@.len() as int),
        r matches Some(a) ==> plan_of(a, mb@, meta@, ii@, il@, *media),
{
    proof {
        reveal(can_add);
    }
    let ghost m = meta@;
    let ghost q = add_places(m, ii@, il@);
    let ghost n = item@.len() as int;
    let _item_len = item.len();
    let ml = mb.len();
    if ml < 16 || meta.full_ptr.offset > u64::MAX - 8 || meta.data_ptr.offset != meta.full_ptr.offset + 8 {
        return None;
    }
    let lim = (ml - 12) as u64;
    if ii.full_ptr.offset > lim || ii.full_ptr.length as u64 > lim - ii.full_ptr.offset
        || il.full_ptr.offset > lim || il.full_ptr.length as u64 > lim - il.full_ptr.offset {
        return None;
    }
    let is_ = 12 + ii.full_ptr.offset as usize;
    let ie = is_ + ii.full_ptr.length;
    let ls_ = 12 + il.full_ptr.offset as usize;
    let le = ls_ + il.full_ptr.length;
    assert(q.iinf_start == is_ && q.iinf_end == ie && q.iloc_start == ls_ && q.iloc_end == le);
    if ii.full_ptr.offset > u64::MAX - 8 || ii.data_ptr.offset != ii.full_ptr.offset + 8
        || il.full_ptr.offset > u64::MAX - 8 || il.data_ptr.offset != il.full_ptr.offset + 8 {
        return None;
    }
    if is_ > ml - 16 || ls_ > ml - 18 || !(ie <= ls_ || le <= is_) {
        return None;
    }
    let id_ = is_ + 8;
    let ld = ls_ + 8;
    assert(q.iinf_data == id_ && q.iloc_data == ld);
    if read_u32_be(mb.as_slice(), 0) as usize != ml || read_u32_be(mb.as_slice(), is_) as usize
        != ii.full_ptr.length || read_u32_be(mb.as_slice(), ls_) as usize != il.full_ptr.length {
        return None;
    }
    let c0 = mb[ld + 4];
    let c1 = mb[ld + 5];
    let sz = FieldSizes {
        offset_size: c0 / 16,
        length_size: c0 % 16,
        base_offset_size: c1 / 16,
        index_size: c1 % 16,
    };
    assert(sz == field_sizes(mb@.subrange(q.iloc_data + 4, q.iloc_data + 6)));
    if il.version > 2 || !(sz.offset_size == 4 || sz.offset_size == 8) || !(sz.length_size == 4
        || sz.length_size == 8) || !(sz.base_offset_size == 0 || sz.base_offset_size == 4
        || sz.base_offset_size == 8) || !(sz.index_size == 0 || sz.index_size == 4
        || sz.index_size == 8) {
        return None;
    }
    let id = max_id(ii, il);
    if id > 0xffff {
        return None;
    }
    let el: u64 = (if il.version == 2 {
        4u64
    } else {
        2u64
    }) + (if il.version == 0 {
        0u64
    } else {
        2u64
    }) + 2 + sz.base_offset_size as u64 + 2 + (if il.version == 0 {
        0u64
    } else {
        sz.index_size as u64
    }) + sz.offset_size as u64 + sz.length_size as u64;
    assert(el == entry_len(il.version, sz));
    let d = 21 + el;
    if ml as u64 >= 0x1_0000_0000 - d {
        return None;
    }
    let wi: u8 = if ii.version == 0 {
        2
    } else {
        4
    };
    let wl: u8 = if il.version < 2 {
        2
    } else {
        4
    };
    let ci = count_value(&mb, id_ + 4, wi);
    let cl = count_value(&mb, ld + 6, wl);
    let mi: u64 = if wi == 2 {
        0x1_0000
    } else {
        0x1_0000_0000
    };
    let mlm: u64 = if wl == 2 {
        0x1_0000
    } else {
        0x1_0000_0000
    };
    assert(mi == field_modulus(wi as int) && mlm == field_modulus(wl as int));
    if ci + 1 >= mi || cl + 1 >= mlm {
        return None;
    }
    if media.full_ptr.offset > u64::MAX - (d + 16) {
        return None;
    }
    let nb = media.full_ptr.offset + d + 16;
    if media.data_ptr.offset > nb || media.data_ptr.length as u64 > u64::MAX - nb {
        return None;
    }
    let off = nb + media.data_ptr.length as u64;
    assert(off == new_item_offset(*media, d as int));
    if (sz.offset_size == 4 && off >= 0x1_0000_0000) || (sz.length_size == 4 && item.len() as u64
        >= 0x1_0000_0000) {
        return None;
    }
    Some(
        AddPlan {
            iinf_end: ie,
            iloc_end: le,
            iinf_start: is_,
            iloc_start: ls_,
            iinf_data: id_,
            iloc_data: ld,
            sz,
            id,
            el,
            wi,
            wl,
            ci,
            cl,
            nb,
            off,
        },
    )
}

/// The bytes of the `meta` box of `file` made to take a new `Exif` item of bytes `item`
/// (see [`add_meta_bytes`]).
#[verifier::spinoff_prover]
#[verifier::rlimit(80)]
pub fn add_meta(file: &[u8], meta: &MetaBox, media: &RawBox, item: &[u8]) -> (r: Result<Vec<u8>, ExifError>)
    requires
        iloc_within_meta(meta@),
    ensures
        match r {
            Ok(v) => add_meta_bytes(file@, meta@, *media, item@) == Ok::<Seq<u8>, ExifError>(v@),
            Err(e) => add_meta_bytes(file@, meta@, *media, item@) == Err::<Seq<u8>, ExifError>(e),
        },
{
    let il = match &meta.iloc_box {
        None => {
            return Err(ExifError::ItemLocationBoxNotFound);
        },
        Some(il) => il,
    };
    let ii = match &meta.iinf_box {
        None => {
            return Err(ExifError::CannotAddExifItem);
        },
        Some(ii) => ii,
    };
    let mb = match meta.full_ptr.read_data(file) {
        Err(e) => {
            return Err(e);
        },
        Ok(b) => b,
    };
    assert(meta@.iinf == Some(ii@) && meta@.iloc == Some(il@));
    let no = Err(ExifError::CannotAddExifItem);
    let a = match plan_add(&mb, meta, ii, il, media, item) {
        None => {
            return no;
        },
        Some(a) => a,
    };
    let ml = mb.len();
    proof {
        reveal(can_add);
    }
    let sh = a.nb - media.data_ptr.offset;
    let delta: u64 = if a.iinf_end >= a.iloc_end {
        0
    } else {
        21
    };
    let mut grown = grow_meta(mb, meta, ii, il, media, item, &a);
    let shifted = shift_all(&mut grown, &il.entries, sh, delta, Ghost(ml as int));
    if !shifted {
        return no;
    }
    Ok(grown)
}

} // verus!
