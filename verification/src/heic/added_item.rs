//! Reading back a copy that adds an `Exif` item.
//!
//! For a file with no `Exif` item, the copy grows the `meta` box by one `infe` box and one
//! `iloc` entry, puts the item's bytes at the end of the media data, and moves the other
//! items' offsets by the growth. This module proves that such a copy decodes again, that its
//! `iinf` and `iloc` boxes hold the old entries and the new one, and that extracting from it
//! gives back the payload that was added.

use vstd::prelude::*;

use crate::bytes::{
    be16, be32, be64, lemma_u16_bytes_read_back, lemma_u32_bytes_read_back,
    lemma_u64_bytes_read_back, u16_bytes, u32_bytes, u64_bytes,
};
use crate::error::ExifError;
use crate::heic::add_exif::{
    add_places, can_add, count_at, count_field, entry_len, grown_meta, iinf_count_width,
    iloc_count_width, iloc_moved_by, insert_bytes, max_loc_id, moved_field, new_iloc_entry,
    new_infe, new_item_id, new_item_offset, shift_extents, zero_bytes, AddPlaces,
};
use crate::heic::boxes::{
    data_end, entry_header_at, ev_position, ev_value, ev_width, extent_at, extents_at,
    field_at, field_sizes, file_type_box, find_entry, find_entry_from, find_info_from,
    insert_box, insert_entry, is_field_size, item_id_of, item_info_box, item_info_entries,
    item_info_entry, item_location_box, item_location_entries, item_location_entry,
    lemma_find_entry_bounds, lemma_raw_box_at_in, meta_box, meta_child, meta_children,
    optional_uint_at, raw_box_at, read_data, remaining, shifted, version_and_flags,
    ExtentValue, FieldSizes, ItemInfoBoxView, ItemInfoEntryView, ItemLocationBoxView,
    ItemLocationEntryView, ItemLocationExtent, MetaBoxView, MetaChildren, Ptr, RawBox, IINF,
    ILOC, MDAT, META,
};
use crate::heic::copy_with_exif::{
    field_modulus, field_value, lemma_overwrite_reads_back, mdat_content, mdat_header,
    overwrite, sources_total, value_bytes,
};
use crate::heic::{
    added_sources, exif_header, exif_item_bytes, exif_type, full_box, heic_copy, heic_extract,
    top_boxes, FullBoxView, TopBoxes, MAX_EXIF_LEN,
};
use crate::heic::reparse::{set_entries, set_entry, set_extent, set_meta};
use crate::heic::rewrite::{
    ftyp_raw, lemma_be32_written, lemma_be64_written, lemma_raw_box_end, lemma_raw_box_moved,
    lemma_raw_box_translated, lemma_top_visits, lemma_written_with_meta, meta_raw, moved_box,
    with_meta,
};
use crate::text::lemma_exif_text;

verus! {

/// Where the copy's `meta` bytes hold the new `iloc` entry.
pub open spec fn added_entry_place(q: AddPlaces) -> int {
    if q.iinf_end >= q.iloc_end {
        q.iloc_end
    } else {
        q.iloc_end + 21
    }
}

/// Where the copy's `meta` bytes hold the new `infe` box, after an `iloc` entry of `el`
/// bytes was put in.
pub open spec fn added_infe_place(q: AddPlaces, el: int) -> int {
    if q.iinf_end >= q.iloc_end {
        q.iinf_end + el
    } else {
        q.iinf_end
    }
}

/// The header of the new `infe` box where it stands at `at`.
pub open spec fn infe_box(at: int) -> RawBox {
    RawBox {
        box_type: 0x696e_6665,
        full_ptr: Ptr { offset: at as u64, length: 21 },
        data_ptr: Ptr { offset: (at + 8) as u64, length: 13 },
    }
}

/// Two pieces put in at `ie` and `le` (in the order the copy puts them in) stand at the
/// places [`added_infe_place`] and [`added_entry_place`] name.
proof fn lemma_inserted_places(b: Seq<u8>, q: AddPlaces, infe: Seq<u8>, entry: Seq<u8>)
    requires
        0 <= q.iinf_end <= b.len(),
        0 <= q.iloc_end <= b.len(),
        infe.len() == 21,
    ensures
        ({
            let out = if q.iinf_end >= q.iloc_end {
                insert_bytes(insert_bytes(b, q.iinf_end, infe), q.iloc_end, entry)
            } else {
                insert_bytes(insert_bytes(b, q.iloc_end, entry), q.iinf_end, infe)
            };
            let e = added_entry_place(q);
            let i = added_infe_place(q, entry.len() as int);
            &&& out.len() == b.len() + 21 + entry.len()
            &&& out.subrange(e, e + entry.len()) == entry
            &&& out.subrange(i, i + 21) == infe
        }),
{
    let ie = q.iinf_end;
    let le = q.iloc_end;
    let n = entry.len() as int;
    if ie >= le {
        let b3 = insert_bytes(b, ie, infe);
        let out = insert_bytes(b3, le, entry);
        assert(out.subrange(le, le + n) =~= entry);
        assert forall|k: int| 0 <= k < 21 implies #[trigger] out.subrange(ie + n, ie + n + 21)[k]
            == infe[k] by {
            assert(out[ie + n + k] == b3[ie + k]);
            assert(b3[ie + k] == infe[k]);
        }
        assert(out.subrange(ie + n, ie + n + 21) =~= infe);
    } else {
        let b3 = insert_bytes(b, le, entry);
        let out = insert_bytes(b3, ie, infe);
        assert(out.subrange(ie, ie + 21) =~= infe);
        assert forall|k: int| 0 <= k < n implies #[trigger] out.subrange(le + 21, le + 21 + n)[k]
            == entry[k] by {
            assert(out[le + 21 + k] == b3[le + k]);
            assert(b3[le + k] == entry[k]);
        }
        assert(out.subrange(le + 21, le + 21 + n) =~= entry);
    }
}

/// The new `infe` box, where it stands at `at` in `s`, reads as a 21-byte box whose entry
/// is item `id` of type `Exif`.
#[verifier::spinoff_prover]
proof fn lemma_infe_reads(s: Seq<u8>, at: int, id: u16)
    requires
        0 <= at,
        at + 21 <= s.len(),
        s.len() <= u64::MAX,
        s.subrange(at, at + 21) == new_infe(id),
    ensures
        raw_box_at(s, at) == Some(Ok::<Option<RawBox>, ExifError>(Some(infe_box(at)))),
        item_info_entry(s, infe_box(at)) == Ok::<ItemInfoEntryView, ExifError>(
            ItemInfoEntryView {
                version: 2,
                flags: 0,
                item_id: id as u32,
                protection_index: 0,
                item_type: exif_type(),
            },
        ),
{
    reveal(raw_box_at);
    let x = new_infe(id);
    assert forall|k: int| 0 <= k < 21 implies #[trigger] s[at + k] == x[k] by {
        assert(s.subrange(at, at + 21)[k] == x[k]);
    }
    lemma_u16_bytes_read_back(id);
    let ib = u16_bytes(id);
    assert(x.len() == 21);
    assert(x[0] == 0 && x[1] == 0 && x[2] == 0 && x[3] == 21);
    assert(x[4] == 0x69 && x[5] == 0x6e && x[6] == 0x66 && x[7] == 0x65);
    assert(x[8] == 2 && x[9] == 0 && x[10] == 0 && x[11] == 0);
    assert(x[12] == ib[0] && x[13] == ib[1]);
    assert(x[14] == 0 && x[15] == 0);
    assert(x[16] == 0x45 && x[17] == 0x78 && x[18] == 0x69 && x[19] == 0x66 && x[20] == 0);
    assert(s[at] == 0 && s[at + 1] == 0 && s[at + 2] == 0 && s[at + 3] == 21);
    assert(s[at + 4] == 0x69 && s[at + 5] == 0x6e && s[at + 6] == 0x66 && s[at + 7] == 0x65);
    let t = s.subrange(at + 4, at + 8);
    assert(t =~= seq![0x69u8, 0x6eu8, 0x66u8, 0x65u8]);
    assert forall|k: int| 0 <= k < t.len() implies #[trigger] t[k] < 0x80 by {}
    crate::text::lemma_ascii_text(t);
    assert(be32(s, at) == 21);
    assert(be32(s, at + 4) == 0x696e_6665);
    let d = s.subrange(at + 8, at + 21);
    assert(read_data(s, infe_box(at).data_ptr) == Ok::<Seq<u8>, ExifError>(d));
    assert(d[0] == 2 && d[1] == 0 && d[2] == 0 && d[3] == 0);
    assert(be16(d, 4) == be16(ib, 0));
    assert(be16(d, 6) == 0);
    assert(d.subrange(8, 12) =~= seq![0x45u8, 0x78u8, 0x69u8, 0x66u8]);
    lemma_exif_text();
}

/// The bytes of `piece`, standing at `p` in `s`, read as they read in `piece`.
proof fn lemma_be_at(s: Seq<u8>, p: int, piece: Seq<u8>)
    requires
        0 <= p,
        p + piece.len() <= s.len(),
        s.subrange(p, p + piece.len()) == piece,
    ensures
        piece.len() >= 1 ==> s[p] == piece[0],
        piece.len() >= 2 ==> be16(s, p) == be16(piece, 0),
        piece.len() >= 4 ==> be32(s, p) == be32(piece, 0),
        piece.len() >= 8 ==> be64(s, p) == be64(piece, 0),
{
    let n = piece.len() as int;
    assert forall|k: int| 0 <= k < n implies #[trigger] s[p + k] == piece[k] by {
        assert(s.subrange(p, p + n)[k] == piece[k]);
    }
    if n >= 8 {
        assert(s[p + 4] == piece[4] && s[p + 5] == piece[5] && s[p + 6] == piece[6] && s[p + 7]
            == piece[7]);
    }
    if n >= 4 {
        assert(s[p + 2] == piece[2] && s[p + 3] == piece[3]);
    }
    if n >= 2 {
        assert(s[p] == piece[0] && s[p + 1] == piece[1]);
    }
    if n >= 1 {
        assert(s[p] == piece[0]);
    }
}

/// Zeros read as zero.
proof fn lemma_zeros_read(n: int)
    requires
        n == 4 || n == 8,
    ensures
        n == 4 ==> be32(zero_bytes(n), 0) == 0,
        n == 8 ==> be64(zero_bytes(n), 0) == 0,
{
    let z = zero_bytes(n);
    assert(z[0] == 0 && z[1] == 0 && z[2] == 0 && z[3] == 0);
    if n == 8 {
        assert(z[4] == 0 && z[5] == 0 && z[6] == 0 && z[7] == 0);
    }
}

/// A value written in a field of width 4 or 8 that it fits reads back as itself.
proof fn lemma_value_read(v: u64, w: int)
    requires
        w == 4 || w == 8,
        v < field_modulus(w),
    ensures
        value_bytes(v, w).len() == w,
        w == 4 ==> be32(value_bytes(v, w), 0) == v,
        w == 8 ==> be64(value_bytes(v, w), 0) == v,
{
    if w == 4 {
        lemma_u32_bytes_read_back(v as u32);
    } else {
        lemma_u64_bytes_read_back(v);
    }
}

/// The bytes standing at `at` in `s` that make `x` hold its stretch from `i` to `j` at
/// `at + i`.
proof fn lemma_sub_sub(s: Seq<u8>, at: int, x: Seq<u8>, i: int, j: int)
    requires
        0 <= at,
        at + x.len() <= s.len(),
        s.subrange(at, at + x.len()) == x,
        0 <= i <= j <= x.len(),
    ensures
        s.subrange(at + i, at + j) == x.subrange(i, j),
{
    assert(s.subrange(at + i, at + j) =~= s.subrange(at, at + x.len()).subrange(i, j));
}

/// The width of the item id of an `iloc` entry of `version` (1 or 2).
pub open spec fn id_width(version: u8) -> int {
    if version == 2 {
        4
    } else {
        2
    }
}

/// The bytes of the id `id` in an `iloc` entry of `version`.
pub open spec fn id_bytes(version: u8, id: u16) -> Seq<u8> {
    if version == 2 {
        u32_bytes(id as u32)
    } else {
        u16_bytes(id)
    }
}

/// The new `iloc` entry (of a box of version 1 or 2) is its fields one after the other.
#[verifier::spinoff_prover]
#[verifier::rlimit(60)]
proof fn lemma_entry_pieces(version: u8, sz: FieldSizes, id: u16, off: u64, len: u64)
    requires
        version == 1 || version == 2,
        sz.offset_size == 4 || sz.offset_size == 8,
        sz.length_size == 4 || sz.length_size == 8,
    ensures
        ({
            let x = new_iloc_entry(version, sz, id, off, len);
            let p1 = id_width(version);
            let p3 = p1 + 4;
            let p4 = p3 + sz.base_offset_size;
            let p5 = p4 + 2;
            let p6 = p5 + sz.index_size;
            let p7 = p6 + sz.offset_size;
            let p8 = p7 + sz.length_size;
            &&& x.len() == p8
            &&& p8 == entry_len(version, sz)
            &&& x.subrange(0, p1) == id_bytes(version, id)
            &&& x.subrange(p1, p1 + 2) == u16_bytes(0)
            &&& x.subrange(p1 + 2, p3) == u16_bytes(0)
            &&& x.subrange(p3, p4) == zero_bytes(sz.base_offset_size as int)
            &&& x.subrange(p4, p5) == u16_bytes(1)
            &&& x.subrange(p5, p6) == zero_bytes(sz.index_size as int)
            &&& x.subrange(p6, p7) == value_bytes(off, sz.offset_size as int)
            &&& x.subrange(p7, p8) == value_bytes(len, sz.length_size as int)
        }),
{
    let os = sz.offset_size as int;
    let ls = sz.length_size as int;
    lemma_u16_bytes_read_back(id);
    lemma_u32_bytes_read_back(id as u32);
    lemma_u16_bytes_read_back(0);
    lemma_u16_bytes_read_back(1);
    if os == 4 {
        lemma_u32_bytes_read_back(off as u32);
    } else {
        lemma_u64_bytes_read_back(off);
    }
    if ls == 4 {
        lemma_u32_bytes_read_back(len as u32);
    } else {
        lemma_u64_bytes_read_back(len);
    }
    let x = new_iloc_entry(version, sz, id, off, len);
    let a = id_bytes(version, id);
    let z1 = zero_bytes(sz.base_offset_size as int);
    let z2 = zero_bytes(sz.index_size as int);
    let fo = value_bytes(off, os);
    let fl = value_bytes(len, ls);
    let y = a + u16_bytes(0) + u16_bytes(0) + z1 + u16_bytes(1) + z2 + fo + fl;
    assert(x =~= y);
    let p1 = id_width(version);
    let p3 = p1 + 4;
    let p4 = p3 + sz.base_offset_size;
    let p5 = p4 + 2;
    let p6 = p5 + sz.index_size;
    let p7 = p6 + os;
    let p8 = p7 + ls;
    assert(y.subrange(0, p1) =~= a);
    assert(y.subrange(p1, p1 + 2) =~= u16_bytes(0));
    assert(y.subrange(p1 + 2, p3) =~= u16_bytes(0));
    assert(y.subrange(p3, p4) =~= z1);
    assert(y.subrange(p4, p5) =~= u16_bytes(1));
    assert(y.subrange(p5, p6) =~= z2);
    assert(y.subrange(p6, p7) =~= fo);
    assert(y.subrange(p7, p8) =~= fl);
}

/// The conditions under which the copy writes a new `iloc` entry: a box of version 1 or 2
/// whose offsets and lengths take 4 or 8 bytes, and whose base offsets and indices take 0,
/// 4 or 8.
pub open spec fn entry_sizes_ok(version: u8, sz: FieldSizes) -> bool {
    &&& version == 1 || version == 2
    &&& sz.offset_size == 4 || sz.offset_size == 8
    &&& sz.length_size == 4 || sz.length_size == 8
    &&& sz.base_offset_size == 0 || sz.base_offset_size == 4 || sz.base_offset_size == 8
    &&& sz.index_size == 0 || sz.index_size == 4 || sz.index_size == 8
}

/// The fields that open the new `iloc` entry, where it stands at `at` in `s`, read as
/// item `id`, construction method and data reference 0, no base offset, one extent.
#[verifier::spinoff_prover]
#[verifier::rlimit(40)]
proof fn lemma_entry_header_reads(s: Seq<u8>, at: int, version: u8, sz: FieldSizes, id: u16, off: u64, len: u64)
    requires
        0 <= at,
        entry_sizes_ok(version, sz),
        at + entry_len(version, sz) <= s.len(),
        s.subrange(at, at + entry_len(version, sz)) == new_iloc_entry(version, sz, id, off, len),
    ensures
        entry_header_at(s, at, version, sz) matches Ok(h) && h.item_id == id && h.construction_method
            == 0 && h.data_reference_index == 0 && h.base_offset == 0 && h.extent_count == 1 && h.end
            == at + id_width(version) + 6 + sz.base_offset_size,
{
    let x = new_iloc_entry(version, sz, id, off, len);
    lemma_entry_pieces(version, sz, id, off, len);
    let p1 = id_width(version);
    let p3 = p1 + 4;
    let p4 = p3 + sz.base_offset_size;
    let p5 = p4 + 2;
    lemma_u16_bytes_read_back(id);
    lemma_u32_bytes_read_back(id as u32);
    lemma_u16_bytes_read_back(0);
    lemma_u16_bytes_read_back(1);
    lemma_sub_sub(s, at, x, 0, p1);
    lemma_sub_sub(s, at, x, p1, p1 + 2);
    lemma_sub_sub(s, at, x, p1 + 2, p3);
    lemma_sub_sub(s, at, x, p3, p4);
    lemma_sub_sub(s, at, x, p4, p5);
    lemma_be_at(s, at, id_bytes(version, id));
    lemma_be_at(s, at + p1, u16_bytes(0));
    lemma_be_at(s, at + p1 + 2, u16_bytes(0));
    lemma_be_at(s, at + p3, zero_bytes(sz.base_offset_size as int));
    lemma_be_at(s, at + p4, u16_bytes(1));
    if sz.base_offset_size > 0 {
        lemma_zeros_read(sz.base_offset_size as int);
    }
}

/// The fields of an extent read at `pos` lie at `pos` or after.
proof fn lemma_extent_positions(c: Seq<u8>, pos: int, sizes: FieldSizes, base: int)
    requires
        0 <= pos,
        0 <= base,
        base + c.len() <= u64::MAX,
        extent_at(c, pos, sizes, base) is Ok,
    ensures
        ev_position(extent_at(c, pos, sizes, base)->Ok_0.0.extent_offset) >= base + pos,
        ev_position(extent_at(c, pos, sizes, base)->Ok_0.0.extent_length) >= base + pos,
{
}

/// The extent of the new `iloc` entry, where it stands in `s`, reads as `len` bytes at
/// `off`.
#[verifier::spinoff_prover]
#[verifier::rlimit(80)]
proof fn lemma_entry_extent_value(s: Seq<u8>, at: int, version: u8, sz: FieldSizes, id: u16, off: u64, len: u64, base: int)
    requires
        0 <= at,
        entry_sizes_ok(version, sz),
        off < field_modulus(sz.offset_size as int),
        len < field_modulus(sz.length_size as int),
        at + entry_len(version, sz) <= s.len(),
        s.subrange(at, at + entry_len(version, sz)) == new_iloc_entry(version, sz, id, off, len),
    ensures
        extent_at(s, at + id_width(version) + 6 + sz.base_offset_size, sz, base) matches Ok((x, p)) && p == at
            + entry_len(version, sz) && ev_value(x.extent_offset) == off && ev_value(x.extent_length) == len,
{
    let x = new_iloc_entry(version, sz, id, off, len);
    lemma_entry_pieces(version, sz, id, off, len);
    let os = sz.offset_size as int;
    let ls = sz.length_size as int;
    let p5 = id_width(version) + 6 + sz.base_offset_size;
    let p6 = p5 + sz.index_size;
    let p7 = p6 + os;
    let p8 = p7 + ls;
    lemma_value_read(off, os);
    lemma_value_read(len, ls);
    lemma_sub_sub(s, at, x, p5, p6);
    lemma_sub_sub(s, at, x, p6, p7);
    lemma_sub_sub(s, at, x, p7, p8);
    lemma_be_at(s, at + p5, zero_bytes(sz.index_size as int));
    lemma_be_at(s, at + p6, value_bytes(off, os));
    lemma_be_at(s, at + p7, value_bytes(len, ls));
    if sz.index_size > 0 {
        lemma_zeros_read(sz.index_size as int);
    }
}

/// The extent of the new `iloc` entry, where it stands in `s`, reads as `len` bytes at
/// `off`, and ends the entry.
proof fn lemma_entry_extent_reads(s: Seq<u8>, at: int, version: u8, sz: FieldSizes, id: u16, off: u64, len: u64, base: int)
    requires
        0 <= at,
        0 <= base,
        base + s.len() <= u64::MAX,
        entry_sizes_ok(version, sz),
        off < field_modulus(sz.offset_size as int),
        len < field_modulus(sz.length_size as int),
        at + entry_len(version, sz) <= s.len(),
        s.subrange(at, at + entry_len(version, sz)) == new_iloc_entry(version, sz, id, off, len),
    ensures
        extents_at(s, at + id_width(version) + 6 + sz.base_offset_size, 1, sz, base, Seq::empty())
            matches Ok((xs, p)) && p == at + entry_len(version, sz) && xs.len() == 1 && ev_value(
            xs[0].extent_offset,
        ) == off && ev_value(xs[0].extent_length) == len && ev_position(xs[0].extent_offset) >= base + at
            && ev_position(xs[0].extent_length) >= base + at,
{
    let p5 = at + id_width(version) + 6 + sz.base_offset_size;
    lemma_entry_extent_value(s, at, version, sz, id, off, len, base);
    lemma_extent_positions(s, p5, sz, base);
    let (xx, q) = extent_at(s, p5, sz, base)->Ok_0;
    assert(extents_at(s, p5, 1, sz, base, Seq::empty()) == extents_at(s, q, 0, sz, base, Seq::empty().push(xx)));
}

/// The new `iloc` entry, where it stands at `at` in `s`, reads as the entry of item `id`,
/// its data in the file with no base offset, and one extent of `len` bytes at `off`.
proof fn lemma_entry_reads(s: Seq<u8>, at: int, version: u8, sz: FieldSizes, id: u16, off: u64, len: u64, base: int)
    requires
        0 <= at,
        0 <= base,
        base + s.len() <= u64::MAX,
        entry_sizes_ok(version, sz),
        off < field_modulus(sz.offset_size as int),
        len < field_modulus(sz.length_size as int),
        at + entry_len(version, sz) <= s.len(),
        s.subrange(at, at + entry_len(version, sz)) == new_iloc_entry(version, sz, id, off, len),
    ensures
        item_location_entry(s, at, version, sz, base) matches Ok((e, p)) && p == at + entry_len(
            version,
            sz,
        ) && e.item_id == id && e.base_offset == 0 && e.extents.len() == 1 && ev_value(
            e.extents[0].extent_offset,
        ) == off && ev_value(e.extents[0].extent_length) == len && ev_position(e.extents[0].extent_offset)
            >= base + at && ev_position(e.extents[0].extent_length) >= base + at,
{
    lemma_entry_header_reads(s, at, version, sz, id, off, len);
    lemma_entry_extent_reads(s, at, version, sz, id, off, len, base);
}

/// Where `count` `iinf` entries read from `pos` in `c` end (-1 where a header cannot be
/// read).
pub open spec fn info_entries_end(c: Seq<u8>, pos: int, count: int) -> int
    decreases count,
{
    if count <= 0 {
        pos
    } else {
        match raw_box_at(c, pos) {
            Some(Ok(Some(b))) => info_entries_end(c, data_end(b), count - 1),
            _ => -1,
        }
    }
}

/// Entries read from `c` read the same from `c` with bytes after it, and the reading
/// goes on where they end.
proof fn lemma_info_entries_prefix(
    c: Seq<u8>,
    y: Seq<u8>,
    pos: int,
    n: int,
    k: int,
    acc: Seq<ItemInfoEntryView>,
    r: Seq<ItemInfoEntryView>,
)
    requires
        0 <= pos,
        0 <= n,
        0 <= k,
        c.len() + y.len() <= u64::MAX,
        item_info_entries(c, pos, n, acc) == Some(Ok::<Seq<ItemInfoEntryView>, ExifError>(r)),
    ensures
        item_info_entries(c + y, pos, n + k, acc) == item_info_entries(
            c + y,
            info_entries_end(c, pos, n),
            k,
            r,
        ),
    decreases n,
{
    if n == 0 {
        assert(r == acc);
    } else {
        let b = raw_box_at(c, pos)->Some_0->Ok_0->Some_0;
        lemma_raw_box_at_in(c, pos);
        let e = item_info_entry(c, b)->Ok_0;
        let cy = c + y;
        assert(cy.subrange(pos, b.data_ptr.offset as int) =~= c.subrange(pos, b.data_ptr.offset as int));
        lemma_raw_box_moved(c, cy, pos, b);
        assert(read_data(cy, b.data_ptr) == read_data(c, b.data_ptr)) by {
            let o = b.data_ptr.offset as int;
            let l = b.data_ptr.length as int;
            assert(cy.subrange(o, o + l) =~= c.subrange(o, o + l));
        }
        lemma_info_entries_prefix(c, y, data_end(b), n - 1, k, acc.push(e), r);
    }
}

/// The entry of the new item `id`: an `infe` box of version 2 for an item of type `Exif`.
pub open spec fn new_info_view(id: u16) -> ItemInfoEntryView {
    ItemInfoEntryView { version: 2, flags: 0, item_id: id as u32, protection_index: 0, item_type: exif_type() }
}

/// The `iinf` data `d` (of version 0) holds its entries up to its end.
pub open spec fn info_fills(d: Seq<u8>) -> bool {
    &&& d.len() >= 6
    &&& d[0] == 0
    &&& info_entries_end(d.subrange(6, d.len() as int), 0, be16(d, 4)) == d.len() - 6
}

/// An `iinf` box of version 0 whose entries fill it, read again with its count one more
/// and the new `infe` box after its entries, reads as the same box with the new entry at
/// the end.
#[verifier::rlimit(40)]
proof fn lemma_iinf_grows(c: Seq<u8>, t: RawBox, ii: ItemInfoBoxView, c2: Seq<u8>, t2: RawBox, dd: Seq<u8>, id: u16)
    requires
        c.len() <= u64::MAX,
        c2.len() <= u64::MAX,
        item_info_box(c, t) == Some(Ok::<ItemInfoBoxView, ExifError>(ii)),
        read_data(c, t.data_ptr) matches Ok(d) && info_fills(d) && dd.len() == d.len() && (forall|k: int|
            0 <= k < d.len() && k != 4 && k != 5 ==> #[trigger] dd[k] == d[k]) && be16(dd, 4) == be16(d, 4) + 1,
        read_data(c2, t2.data_ptr) == Ok::<Seq<u8>, ExifError>(dd + new_infe(id)),
    ensures
        item_info_box(c2, t2) == Some(
            Ok::<ItemInfoBoxView, ExifError>(
                ItemInfoBoxView {
                    version: ii.version,
                    flags: ii.flags,
                    entries: ii.entries.push(new_info_view(id)),
                    full_ptr: t2.full_ptr,
                    data_ptr: t2.data_ptr,
                },
            ),
        ),
{
    reveal(item_info_box);
    let d = read_data(c, t.data_ptr)->Ok_0;
    let d2 = dd + new_infe(id);
    let n = be16(d, 4);
    let e = d.subrange(6, d.len() as int);
    let e2 = d2.subrange(6, d2.len() as int);
    assert(e2 =~= e + new_infe(id)) by {
        assert forall|k: int| 0 <= k < e.len() implies #[trigger] e2[k] == e[k] by {
            assert(dd[6 + k] == d[6 + k]);
        }
    }
    assert(d2[0] == d[0] && d2[1] == d[1] && d2[2] == d[2] && d2[3] == d[3]);
    assert(version_and_flags(d2) == version_and_flags(d));
    assert(be16(d2, 4) == n + 1);
    let r = item_info_entries(e, 0, n, Seq::empty())->Some_0->Ok_0;
    assert(r == ii.entries);
    lemma_info_entries_prefix(e, new_infe(id), 0, n, 1, Seq::empty(), r);
    let at = e.len() as int;
    assert(e2.subrange(at, at + 21) =~= new_infe(id));
    lemma_infe_reads(e2, at, id);
    assert(item_info_entries(e2, at, 1, r) == item_info_entries(e2, at + 21, 0, r.push(new_info_view(id))));
}

/// `c2` holds the bytes of `c` from `lo` on, and may hold more after them.
pub open spec fn agree_from(c: Seq<u8>, c2: Seq<u8>, lo: int) -> bool {
    &&& c2.len() >= c.len()
    &&& forall|k: int| lo <= k < c.len() ==> #[trigger] c2[k] == c[k]
}

/// The extent `x` with its fields `delta` bytes further.
pub open spec fn moved_extent(x: ItemLocationExtent, delta: int) -> ItemLocationExtent {
    ItemLocationExtent {
        extent_index: x.extent_index,
        extent_offset: moved_field(x.extent_offset, delta),
        extent_length: moved_field(x.extent_length, delta),
    }
}

/// The entry `e` with the fields of its extents `delta` bytes further.
pub open spec fn moved_entry(e: ItemLocationEntryView, delta: int) -> ItemLocationEntryView {
    ItemLocationEntryView {
        extents: e.extents.map_values(|x: ItemLocationExtent| moved_extent(x, delta)),
        ..e
    }
}

/// The entries `es` with the fields of their extents `delta` bytes further.
pub open spec fn moved_entries(es: Seq<ItemLocationEntryView>, delta: int) -> Seq<ItemLocationEntryView> {
    es.map_values(|e: ItemLocationEntryView| moved_entry(e, delta))
}

/// Where `count` `iloc` entries read from `pos` in `c` end (-1 where one cannot be read).
pub open spec fn loc_entries_end(c: Seq<u8>, pos: int, count: int, version: u8, sizes: FieldSizes) -> int
    decreases count,
{
    if count <= 0 {
        pos
    } else {
        match item_location_entry(c, pos, version, sizes, 0) {
            Ok((_, p)) => loc_entries_end(c, p, count - 1, version, sizes),
            Err(_) => -1,
        }
    }
}

/// A field read from `c` reads the same from `c2`, which holds the bytes of `c` from `lo` on, at a place counted
/// from `delta` bytes further.
proof fn lemma_field_moved(c: Seq<u8>, c2: Seq<u8>, lo: int, pos: int, size: u8, base: int, delta: int)
    requires
        is_field_size(size),
        0 <= lo <= pos,
        agree_from(c, c2, lo),
        0 <= base,
        base + c.len() <= u64::MAX,
        0 <= base + delta,
        base + delta + c.len() <= u64::MAX,
        field_at(c, pos, size, base) is Ok,
    ensures
        field_at(c2, pos, size, base + delta) == Ok::<ExtentValue, ExifError>(
            moved_field(field_at(c, pos, size, base)->Ok_0, delta),
        ),
{
    assert(pos + size <= c.len());
    assert(c2[pos] == c[pos]);
    if size >= 2 {
        assert(c2[pos + 1] == c[pos + 1]);
    }
    if size >= 4 {
        assert(c2[pos + 2] == c[pos + 2] && c2[pos + 3] == c[pos + 3]);
    }
    if size >= 8 {
        assert(c2[pos + 4] == c[pos + 4] && c2[pos + 5] == c[pos + 5] && c2[pos + 6] == c[pos + 6]
            && c2[pos + 7] == c[pos + 7]);
    }
}

/// An optional size-coded integer read from `c` reads the same from `c` with bytes after
/// it.
proof fn lemma_optional_prefix(c: Seq<u8>, c2: Seq<u8>, lo: int, pos: int, size: u8, bad: ExifError)
    requires
        0 <= lo <= pos,
        agree_from(c, c2, lo),
        c.len() <= u64::MAX,
        optional_uint_at(c, pos, size, bad) is Ok,
    ensures
        optional_uint_at(c2, pos, size, bad) == optional_uint_at(c, pos, size, bad),
{
    if size != 0 {
        lemma_field_moved(c, c2, lo, pos, size, 0, 0);
    }
}

/// An extent read from `c` reads the same from `c2`, which holds the bytes of `c` from `lo` on, its fields
/// counted from `delta` bytes further.
proof fn lemma_extent_moved(c: Seq<u8>, c2: Seq<u8>, lo: int, pos: int, sizes: FieldSizes, base: int, delta: int)
    requires
        0 <= lo <= pos,
        agree_from(c, c2, lo),
        0 <= base,
        base + c.len() <= u64::MAX,
        0 <= base + delta,
        base + delta + c.len() <= u64::MAX,
        extent_at(c, pos, sizes, base) is Ok,
    ensures
        extent_at(c2, pos, sizes, base + delta) == Ok::<(ItemLocationExtent, int), ExifError>(
            (
                moved_extent(extent_at(c, pos, sizes, base)->Ok_0.0, delta),
                extent_at(c, pos, sizes, base)->Ok_0.1,
            ),
        ),
{
    let bad = ExifError::InvalidIndexSize(sizes.index_size);
    lemma_optional_prefix(c, c2, lo, pos, sizes.index_size, bad);
    let (_, p1) = optional_uint_at(c, pos, sizes.index_size, bad)->Ok_0;
    lemma_field_moved(c, c2, lo, p1, sizes.offset_size, base, delta);
    lemma_field_moved(c, c2, lo, p1 + sizes.offset_size, sizes.length_size, base, delta);
}

/// Extents read from `c` read the same from `c2`, which holds the bytes of `c` from `lo` on, their fields counted
/// from `delta` bytes further.
proof fn lemma_extents_moved(
    c: Seq<u8>,
    c2: Seq<u8>,
    lo: int,
    pos: int,
    count: int,
    sizes: FieldSizes,
    base: int,
    delta: int,
    acc: Seq<ItemLocationExtent>,
)
    requires
        0 <= lo <= pos,
        agree_from(c, c2, lo),
        0 <= base,
        base + c.len() <= u64::MAX,
        0 <= base + delta,
        base + delta + c.len() <= u64::MAX,
        extents_at(c, pos, count, sizes, base, acc) is Ok,
    ensures
        extents_at(c2, pos, count, sizes, base + delta, acc.map_values(|x: ItemLocationExtent| moved_extent(x, delta)))
            == Ok::<(Seq<ItemLocationExtent>, int), ExifError>(
            (
                extents_at(c, pos, count, sizes, base, acc)->Ok_0.0.map_values(
                    |x: ItemLocationExtent| moved_extent(x, delta),
                ),
                extents_at(c, pos, count, sizes, base, acc)->Ok_0.1,
            ),
        ),
    decreases count,
{
    if count > 0 {
        let (x, p) = extent_at(c, pos, sizes, base)->Ok_0;
        lemma_extent_moved(c, c2, lo, pos, sizes, base, delta);
        assert(p >= pos);
        assert(acc.push(x).map_values(|x: ItemLocationExtent| moved_extent(x, delta)) =~= acc.map_values(
            |x: ItemLocationExtent| moved_extent(x, delta),
        ).push(moved_extent(x, delta)));
        lemma_extents_moved(c, c2, lo, p, count - 1, sizes, base, delta, acc.push(x));
    }
}

/// Extents read from `pos` end after it.
proof fn lemma_extents_after(c: Seq<u8>, pos: int, count: int, sizes: FieldSizes, base: int, acc: Seq<ItemLocationExtent>)
    requires
        extents_at(c, pos, count, sizes, base, acc) is Ok,
    ensures
        extents_at(c, pos, count, sizes, base, acc)->Ok_0.1 >= pos,
    decreases count,
{
    if count > 0 {
        let (x, p) = extent_at(c, pos, sizes, base)->Ok_0;
        assert(p >= pos);
        lemma_extents_after(c, p, count - 1, sizes, base, acc.push(x));
    }
}

/// The fields that open an `iloc` entry read from `c` read the same from `c2`, which holds the
/// bytes of `c` from `lo` on.
proof fn lemma_header_prefix(c: Seq<u8>, c2: Seq<u8>, lo: int, pos: int, version: u8, sizes: FieldSizes)
    requires
        0 <= lo <= pos,
        agree_from(c, c2, lo),
        c.len() <= u64::MAX,
        entry_header_at(c, pos, version, sizes) is Ok,
    ensures
        entry_header_at(c2, pos, version, sizes) == entry_header_at(c, pos, version, sizes),
{
    let id_size: u8 = if version == 1 {
        2
    } else {
        4
    };
    lemma_field_moved(c, c2, lo, pos, id_size, 0, 0);
    let p1 = pos + id_size;
    lemma_field_moved(c, c2, lo, p1, 2, 0, 0);
    lemma_field_moved(c, c2, lo, p1 + 2, 2, 0, 0);
    let bad = ExifError::InvalidBaseOffsetSize(sizes.base_offset_size);
    lemma_optional_prefix(c, c2, lo, p1 + 4, sizes.base_offset_size, bad);
    let (_, p2) = optional_uint_at(c, p1 + 4, sizes.base_offset_size, bad)->Ok_0;
    lemma_field_moved(c, c2, lo, p2, 2, 0, 0);
}

/// An `iloc` entry read from `c` reads the same from `c2`, which holds the bytes of `c` from `lo` on, the fields of
/// its extents counted from `delta` bytes further.
proof fn lemma_entry_moved(c: Seq<u8>, c2: Seq<u8>, lo: int, pos: int, version: u8, sizes: FieldSizes, base: int, delta: int)
    requires
        0 <= lo <= pos,
        agree_from(c, c2, lo),
        0 <= base,
        base + c.len() <= u64::MAX,
        0 <= base + delta,
        base + delta + c.len() <= u64::MAX,
        item_location_entry(c, pos, version, sizes, base) is Ok,
    ensures
        item_location_entry(c2, pos, version, sizes, base + delta) == Ok::<(ItemLocationEntryView, int), ExifError>(
            (
                moved_entry(item_location_entry(c, pos, version, sizes, base)->Ok_0.0, delta),
                item_location_entry(c, pos, version, sizes, base)->Ok_0.1,
            ),
        ),
        item_location_entry(c, pos, version, sizes, base)->Ok_0.1 >= pos,
{
    lemma_header_prefix(c, c2, lo, pos, version, sizes);
    let h = entry_header_at(c, pos, version, sizes)->Ok_0;
    assert(h.end >= pos);
    lemma_extents_after(c, h.end, h.extent_count as int, sizes, base, Seq::empty());
    lemma_extents_moved(c, c2, lo, h.end, h.extent_count as int, sizes, base, delta, Seq::empty());
    assert(Seq::<ItemLocationExtent>::empty().map_values(|x: ItemLocationExtent| moved_extent(x, delta))
        =~= Seq::<ItemLocationExtent>::empty());
}

/// Moving fields leaves the items of the entries, and so the entry found for an item, as
/// they were.
proof fn lemma_find_moved(es: Seq<ItemLocationEntryView>, id: u32, i: int, delta: int)
    requires
        0 <= i,
    ensures
        find_entry_from(moved_entries(es, delta), id, i) == find_entry_from(es, id, i),
    decreases es.len() - i,
{
    if i < es.len() {
        assert(moved_entries(es, delta)[i].item_id == es[i].item_id);
        lemma_find_moved(es, id, i + 1, delta);
    }
}

/// Putting in an entry and moving fields can be done in either order.
proof fn lemma_insert_moved(es: Seq<ItemLocationEntryView>, e: ItemLocationEntryView, delta: int)
    ensures
        insert_entry(moved_entries(es, delta), moved_entry(e, delta)) == moved_entries(insert_entry(es, e), delta),
{
    lemma_find_moved(es, e.item_id, 0, delta);
    let j = find_entry(es, e.item_id);
    if j >= 0 {
        lemma_find_entry_bounds(es, e.item_id, 0);
        assert(insert_entry(moved_entries(es, delta), moved_entry(e, delta)) =~= moved_entries(
            insert_entry(es, e),
            delta,
        ));
    } else {
        assert(insert_entry(moved_entries(es, delta), moved_entry(e, delta)) =~= moved_entries(
            insert_entry(es, e),
            delta,
        ));
    }
}

/// One entry read: the entries read from `pos` are those read after it, with it put in.
proof fn lemma_entries_step(
    c: Seq<u8>,
    pos: int,
    n: int,
    version: u8,
    sizes: FieldSizes,
    base: int,
    acc: Seq<ItemLocationEntryView>,
    e: ItemLocationEntryView,
    p: int,
)
    requires
        n > 0,
        item_location_entry(c, pos, version, sizes, base) == Ok::<(ItemLocationEntryView, int), ExifError>((e, p)),
    ensures
        item_location_entries(c, pos, n, version, sizes, base, acc) == item_location_entries(
            c,
            p,
            n - 1,
            version,
            sizes,
            base,
            insert_entry(acc, e),
        ),
{
}

/// One entry read: the entries from `pos` end where those after it end.
proof fn lemma_end_step(c: Seq<u8>, pos: int, n: int, version: u8, sizes: FieldSizes, e: ItemLocationEntryView, p: int)
    requires
        n > 0,
        item_location_entry(c, pos, version, sizes, 0) == Ok::<(ItemLocationEntryView, int), ExifError>((e, p)),
    ensures
        loc_entries_end(c, pos, n, version, sizes) == loc_entries_end(c, p, n - 1, version, sizes),
{
}

/// `iloc` entries read from `c` read the same from `c2`, which holds the bytes of `c` from `lo`
/// on, the fields of
/// their extents counted from `delta` bytes further, and the reading goes on where they
/// end.
#[verifier::spinoff_prover]
#[verifier::rlimit(40)]
proof fn lemma_entries_moved(
    c: Seq<u8>,
    c2: Seq<u8>,
    lo: int,
    pos: int,
    n: int,
    k: int,
    version: u8,
    sizes: FieldSizes,
    base: int,
    delta: int,
    acc: Seq<ItemLocationEntryView>,
    r: Seq<ItemLocationEntryView>,
)
    requires
        0 <= lo <= pos,
        agree_from(c, c2, lo),
        0 <= n,
        0 <= k,
        0 <= base,
        base + c.len() <= u64::MAX,
        0 <= base + delta,
        base + delta + c.len() <= u64::MAX,
        item_location_entries(c, pos, n, version, sizes, base, acc) == Ok::<Seq<ItemLocationEntryView>, ExifError>(r),
    ensures
        item_location_entries(c2, pos, n + k, version, sizes, base + delta, moved_entries(acc, delta))
            == item_location_entries(
            c2,
            loc_entries_end(c, pos, n, version, sizes),
            k,
            version,
            sizes,
            base + delta,
            moved_entries(r, delta),
        ),
    decreases n,
{
    if n == 0 {
        assert(r == acc);
    } else {
        let res = item_location_entry(c, pos, version, sizes, base);
        assert(res is Ok);
        let (e, p) = res->Ok_0;
        lemma_entries_step(c, pos, n, version, sizes, base, acc, e, p);
        lemma_entry_moved(c, c2, lo, pos, version, sizes, base, delta);
        lemma_entry_moved(c, c, pos, pos, version, sizes, base, -base);
        let e0 = moved_entry(e, -base);
        lemma_end_step(c, pos, n, version, sizes, e0, p);
        lemma_insert_moved(acc, e, delta);
        lemma_entries_step(c2, pos, n + k, version, sizes, base + delta, moved_entries(acc, delta), moved_entry(e, delta), p);
        lemma_entries_moved(c, c2, lo, p, n - 1, k, version, sizes, base, delta, insert_entry(acc, e), r);
    }
}
/// Where the entries of an `iloc` box of `version` start in its data after the version
/// and flags.
pub open spec fn loc_first(version: u8) -> int {
    if version == 1 {
        4
    } else {
        6
    }
}

/// The entry count of an `iloc` box of `version`, in its data `cc` after the version and
/// flags.
pub open spec fn loc_count(cc: Seq<u8>, version: u8) -> int {
    if version == 1 {
        be16(cc, 2)
    } else {
        be32(cc, 2)
    }
}

/// The `iloc` data `d` (of version 1 or 2) holds its entries up to its end.
pub open spec fn loc_fills(d: Seq<u8>) -> bool {
    let cc = d.subrange(4, d.len() as int);
    &&& d.len() >= 4 + loc_first(d[0])
    &&& d[0] == 1 || d[0] == 2
    &&& loc_entries_end(cc, loc_first(d[0]), loc_count(cc, d[0]), d[0], field_sizes(cc)) == cc.len()
}

/// No entry of `es` is for the item `id`.
proof fn lemma_find_absent(es: Seq<ItemLocationEntryView>, id: u32, i: int)
    requires
        0 <= i,
        forall|k: int| 0 <= k < es.len() ==> #[trigger] es[k].item_id != id,
    ensures
        find_entry_from(es, id, i) == -1,
    decreases es.len() - i,
{
    if i < es.len() {
        lemma_find_absent(es, id, i + 1);
    }
}

/// The entries of `iloc` data `cc` that fill it, read again from `cc2` (which holds the
/// bytes of `cc` from where the entries start) with one more entry to read and the new
/// entry after them, read as the same entries, their fields moved, and the new entry.
#[verifier::spinoff_prover]
#[verifier::rlimit(60)]
proof fn lemma_loc_entries_grow(
    cc: Seq<u8>,
    cc2: Seq<u8>,
    v: u8,
    sz: FieldSizes,
    base: int,
    base2: int,
    r: Seq<ItemLocationEntryView>,
    id: u16,
    off: u64,
    len: u64,
)
    requires
        0 <= base,
        base + cc.len() <= u64::MAX,
        0 <= base2,
        base2 + cc2.len() <= u64::MAX,
        entry_sizes_ok(v, sz),
        off < field_modulus(sz.offset_size as int),
        len < field_modulus(sz.length_size as int),
        cc.len() >= loc_first(v),
        item_location_entries(cc, loc_first(v), loc_count(cc, v), v, sz, base, Seq::empty()) == Ok::<
            Seq<ItemLocationEntryView>,
            ExifError,
        >(r),
        loc_entries_end(cc, loc_first(v), loc_count(cc, v), v, sz) == cc.len(),
        forall|k: int| 0 <= k < r.len() ==> #[trigger] r[k].item_id != id,
        agree_from(cc, cc2, loc_first(v)),
        cc2.len() == cc.len() + entry_len(v, sz),
        cc2.subrange(cc.len() as int, cc2.len() as int) == new_iloc_entry(v, sz, id, off, len),
        loc_count(cc, v) >= 0,
    ensures
        item_location_entries(cc2, loc_first(v), loc_count(cc, v) + 1, v, sz, base2, Seq::empty()) matches Ok(
            es,
        ) && es.len() == r.len() + 1 && es.subrange(0, r.len() as int) == moved_entries(r, base2 - base)
            && es.last().item_id == id && es.last().base_offset == 0 && es.last().extents.len() == 1
            && ev_value(es.last().extents[0].extent_offset) == off && ev_value(
            es.last().extents[0].extent_length,
        ) == len && ev_position(es.last().extents[0].extent_offset) >= base2 + cc.len() && ev_position(
            es.last().extents[0].extent_length,
        ) >= base2 + cc.len(),
{
    let first = loc_first(v);
    let n = loc_count(cc, v);
    let delta = base2 - base;
    lemma_entries_moved(cc, cc2, first, first, n, 1, v, sz, base, delta, Seq::empty(), r);
    assert(moved_entries(Seq::<ItemLocationEntryView>::empty(), delta) =~= Seq::<ItemLocationEntryView>::empty());
    let at = cc.len() as int;
    lemma_entry_reads(cc2, at, v, sz, id, off, len, base2);
    let (e, p) = item_location_entry(cc2, at, v, sz, base2)->Ok_0;
    lemma_entries_step(cc2, at, 1, v, sz, base2, moved_entries(r, delta), e, p);
    lemma_find_absent(r, e.item_id, 0);
    lemma_find_moved(r, e.item_id, 0, delta);
    let res = moved_entries(r, delta).push(e);
    assert(insert_entry(moved_entries(r, delta), e) == res);
    assert(res.subrange(0, r.len() as int) =~= moved_entries(r, delta));
}

/// What a decoded `iloc` box was read from: its data, of version 1 or 2, and the entries
/// read from it.
#[verifier::spinoff_prover]
proof fn lemma_iloc_box_facts(buf: Seq<u8>, b: RawBox, bim: int, il: ItemLocationBoxView)
    requires
        item_location_box(buf, b, bim) == Ok::<ItemLocationBoxView, ExifError>(il),
    ensures
        read_data(buf, b.data_ptr) matches Ok(d) && d.len() >= 4 + loc_first(d[0]) && (d[0] == 1 || d[0]
            == 2) && il.version == d[0] && version_and_flags(d) == Ok::<(u8, u32), ExifError>((d[0], il.flags))
            && il.full_ptr == b.full_ptr && il.data_ptr == b.data_ptr && item_location_entries(
            d.subrange(4, d.len() as int),
            loc_first(d[0]),
            loc_count(d.subrange(4, d.len() as int), d[0]),
            d[0],
            field_sizes(d.subrange(4, d.len() as int)),
            bim + b.data_ptr.offset + 4,
            Seq::empty(),
        ) == Ok::<Seq<ItemLocationEntryView>, ExifError>(il.entries),
{
    reveal(item_location_box);
}

/// An `iloc` box whose data, of version 1 or 2, holds entries that read.
#[verifier::spinoff_prover]
proof fn lemma_iloc_box_unfold(buf: Seq<u8>, b: RawBox, bim: int)
    requires
        read_data(buf, b.data_ptr) matches Ok(d) && d.len() >= 4 + loc_first(d[0]) && (d[0] == 1 || d[0]
            == 2) && item_location_entries(
            d.subrange(4, d.len() as int),
            loc_first(d[0]),
            loc_count(d.subrange(4, d.len() as int), d[0]),
            d[0],
            field_sizes(d.subrange(4, d.len() as int)),
            bim + b.data_ptr.offset + 4,
            Seq::empty(),
        ) is Ok,
    ensures
        ({
            let d = read_data(buf, b.data_ptr)->Ok_0;
            item_location_box(buf, b, bim) == Ok::<ItemLocationBoxView, ExifError>(
                ItemLocationBoxView {
                    version: d[0],
                    flags: version_and_flags(d)->Ok_0.1,
                    entries: item_location_entries(
                        d.subrange(4, d.len() as int),
                        loc_first(d[0]),
                        loc_count(d.subrange(4, d.len() as int), d[0]),
                        d[0],
                        field_sizes(d.subrange(4, d.len() as int)),
                        bim + b.data_ptr.offset + 4,
                        Seq::empty(),
                    )->Ok_0,
                    full_ptr: b.full_ptr,
                    data_ptr: b.data_ptr,
                },
            )
        }),
{
    reveal(item_location_box);
}

/// The data `dd + entry` of the grown `iloc` box: the version, flags and field sizes of
/// `d`, one more entry to read, the bytes of `d` from where its entries start, then the
/// entry.
#[verifier::spinoff_prover]
proof fn lemma_grown_iloc_bytes(d: Seq<u8>, dd: Seq<u8>, entry: Seq<u8>)
    requires
        d.len() >= 4 + loc_first(d[0]),
        d[0] == 1 || d[0] == 2,
        dd.len() == d.len(),
        forall|k: int| 0 <= k < d.len() && !(6 <= k < 6 + loc_first(d[0]) - 2) ==> #[trigger] dd[k] == d[k],
        loc_count(dd.subrange(4, dd.len() as int), d[0]) == loc_count(d.subrange(4, d.len() as int), d[0]) + 1,
    ensures
        ({
            let d2 = dd + entry;
            let cc = d.subrange(4, d.len() as int);
            let cc2 = d2.subrange(4, d2.len() as int);
            &&& d2.len() >= 4 + loc_first(d2[0])
            &&& d2[0] == d[0]
            &&& version_and_flags(d2) == version_and_flags(d)
            &&& field_sizes(cc2) == field_sizes(cc)
            &&& loc_count(cc2, d[0]) == loc_count(cc, d[0]) + 1
            &&& agree_from(cc, cc2, loc_first(d[0]))
            &&& cc2.len() == cc.len() + entry.len()
            &&& cc2.subrange(cc.len() as int, cc2.len() as int) == entry
        }),
{
    let v = d[0];
    let d2 = dd + entry;
    let cc = d.subrange(4, d.len() as int);
    let cc2 = d2.subrange(4, d2.len() as int);
    let first = loc_first(v);
    assert(d2[0] == d[0] && d2[1] == d[1] && d2[2] == d[2] && d2[3] == d[3]);
    assert(cc2[0] == cc[0] && cc2[1] == cc[1]) by {
        assert(dd[4] == d[4] && dd[5] == d[5]);
    }
    let ddc = dd.subrange(4, dd.len() as int);
    assert(cc2[2] == ddc[2] && cc2[3] == ddc[3]);
    if v == 2 {
        assert(cc2[4] == ddc[4] && cc2[5] == ddc[5]);
    }
    assert forall|k: int| first <= k < cc.len() implies #[trigger] cc2[k] == cc[k] by {
        assert(dd[k + 4] == d[k + 4]);
    }
    assert(cc2.subrange(cc.len() as int, cc2.len() as int) =~= entry);
}

/// An `iloc` box of version 1 or 2 whose entries fill it, read again elsewhere with its
/// count one more and a new entry after its entries, reads as the same entries, their
/// fields moved with the box, and the new entry at the end.
#[verifier::spinoff_prover]
#[verifier::rlimit(60)]
proof fn lemma_iloc_grows(
    c: Seq<u8>,
    t: RawBox,
    bim: int,
    il: ItemLocationBoxView,
    c2: Seq<u8>,
    t2: RawBox,
    bim2: int,
    dd: Seq<u8>,
    id: u16,
    off: u64,
    len: u64,
)
    requires
        0 <= bim,
        bim + c.len() <= u64::MAX,
        0 <= bim2,
        bim2 + c2.len() <= u64::MAX,
        item_location_box(c, t, bim) == Ok::<ItemLocationBoxView, ExifError>(il),
        forall|k: int| 0 <= k < il.entries.len() ==> #[trigger] il.entries[k].item_id != id,
        read_data(c, t.data_ptr) matches Ok(d) && loc_fills(d) && dd.len() == d.len() && (forall|k: int|
            0 <= k < d.len() && !(6 <= k < 6 + loc_first(d[0]) - 2) ==> #[trigger] dd[k] == d[k])
            && loc_count(dd.subrange(4, dd.len() as int), d[0]) == loc_count(d.subrange(4, d.len() as int), d[0]) + 1
            && entry_sizes_ok(d[0], field_sizes(d.subrange(4, d.len() as int))) && off < field_modulus(
            field_sizes(d.subrange(4, d.len() as int)).offset_size as int,
        ) && len < field_modulus(field_sizes(d.subrange(4, d.len() as int)).length_size as int)
            && read_data(c2, t2.data_ptr) == Ok::<Seq<u8>, ExifError>(
            dd + new_iloc_entry(d[0], field_sizes(d.subrange(4, d.len() as int)), id, off, len),
        ),
    ensures
        item_location_box(c2, t2, bim2) matches Ok(il2) && il2.version == il.version && il2.flags
            == il.flags && il2.full_ptr == t2.full_ptr && il2.data_ptr == t2.data_ptr
            && il2.entries.len() == il.entries.len() + 1 && il2.entries.subrange(
            0,
            il.entries.len() as int,
        ) == moved_entries(il.entries, (bim2 + t2.data_ptr.offset) - (bim + t.data_ptr.offset))
            && il2.entries.last().item_id == id && il2.entries.last().base_offset == 0
            && il2.entries.last().extents.len() == 1 && ev_value(
            il2.entries.last().extents[0].extent_offset,
        ) == off && ev_value(il2.entries.last().extents[0].extent_length) == len && ev_position(
            il2.entries.last().extents[0].extent_offset,
        ) >= bim2 + t2.data_ptr.offset + t.data_ptr.length && ev_position(
            il2.entries.last().extents[0].extent_length,
        ) >= bim2 + t2.data_ptr.offset + t.data_ptr.length,
{
    lemma_iloc_box_facts(c, t, bim, il);
    let d = read_data(c, t.data_ptr)->Ok_0;
    let v = d[0];
    let sz = field_sizes(d.subrange(4, d.len() as int));
    let entry = new_iloc_entry(v, sz, id, off, len);
    let cc = d.subrange(4, d.len() as int);
    let base = bim + t.data_ptr.offset + 4;
    let base2 = bim2 + t2.data_ptr.offset + 4;
    lemma_grown_iloc_bytes(d, dd, entry);
    let d2 = dd + entry;
    let cc2 = d2.subrange(4, d2.len() as int);
    lemma_entry_pieces(v, sz, id, off, len);
    lemma_loc_entries_grow(cc, cc2, v, sz, base, base2, il.entries, id, off, len);
    lemma_iloc_box_unfold(c2, t2, bim2);
}

/// The child boxes of a `meta` box's children `c`, from `pos` on, each end within `c`.
pub open spec fn children_within(c: Seq<u8>, pos: int) -> bool
    decreases remaining(c.len() as int, pos),
{
    if c.len() > u64::MAX {
        true
    } else {
        match raw_box_at(c, pos) {
            Some(Ok(Some(b))) => {
                proof {
                    lemma_raw_box_at_in(c, pos);
                }
                b.full_ptr.offset + b.full_ptr.length <= c.len() && children_within(
                    c,
                    b.full_ptr.offset + b.full_ptr.length,
                )
            },
            _ => true,
        }
    }
}

/// The `iinf` and `iloc` boxes that decoding the children from `pos` keeps are those found
/// before, or were read from `pos` on.
#[verifier::spinoff_prover]
proof fn lemma_children_skip(c: Seq<u8>, pos: int, bim: int, o: int, acc: MetaChildren, res: MetaChildren)
    requires
        meta_children(c, pos, bim, o, acc) == Some(Ok::<MetaChildren, ExifError>(res)),
    ensures
        res.iinf == acc.iinf || (res.iinf matches Some(v) && v.full_ptr.offset >= pos),
        res.iloc == acc.iloc || (res.iloc matches Some(w) && w.full_ptr.offset >= pos),
    decreases remaining(c.len() as int, pos),
{
    if let Some(Ok(Some(b))) = raw_box_at(c, pos) {
        lemma_raw_box_at_in(c, pos);
        let (ii, il, p) = meta_child(c, b, bim, acc.iinf, acc.iloc)->Some_0->Ok_0;
        if b.box_type == IINF {
            reveal(item_info_box);
        } else if b.box_type == ILOC {
            lemma_iloc_box_facts(c, b, bim, il->Some_0);
        }
        assert(p >= pos);
        lemma_children_skip(c, p, bim, o, MetaChildren { boxes: insert_box(acc.boxes, shifted(b, o)), iinf: ii, iloc: il }, res);
    }
}

/// An `iinf` box whose data is copied elsewhere decodes there into the same entries.
proof fn lemma_iinf_moved(c: Seq<u8>, b: RawBox, c2: Seq<u8>, b2: RawBox)
    requires
        read_data(c2, b2.data_ptr) == read_data(c, b.data_ptr),
        item_info_box(c, b) matches Some(Ok(_)),
    ensures
        item_info_box(c2, b2) == Some(
            Ok::<ItemInfoBoxView, ExifError>(
                ItemInfoBoxView {
                    full_ptr: b2.full_ptr,
                    data_ptr: b2.data_ptr,
                    ..item_info_box(c, b)->Some_0->Ok_0
                },
            ),
        ),
{
    reveal(item_info_box);
}

/// An `iloc` box whose data is copied elsewhere decodes there into the same entries, their
/// fields moved with the box.
#[verifier::spinoff_prover]
proof fn lemma_iloc_moved(c: Seq<u8>, b: RawBox, bim: int, c2: Seq<u8>, b2: RawBox, il: ItemLocationBoxView)
    requires
        0 <= bim,
        bim + c.len() <= u64::MAX,
        bim + c2.len() <= u64::MAX,
        read_data(c2, b2.data_ptr) == read_data(c, b.data_ptr),
        item_location_box(c, b, bim) == Ok::<ItemLocationBoxView, ExifError>(il),
    ensures
        item_location_box(c2, b2, bim) is Ok,
{
    lemma_iloc_box_facts(c, b, bim, il);
    let d = read_data(c, b.data_ptr)->Ok_0;
    let cc = d.subrange(4, d.len() as int);
    let v = d[0];
    let first = loc_first(v);
    let base = bim + b.data_ptr.offset + 4;
    let base2 = bim + b2.data_ptr.offset + 4;
    assert(agree_from(cc, cc, first));
    lemma_entries_moved(cc, cc, first, first, loc_count(cc, v), 0, v, field_sizes(cc), base, base2 - base, Seq::empty(), il.entries);
    assert(moved_entries(Seq::<ItemLocationEntryView>::empty(), base2 - base) =~= Seq::<ItemLocationEntryView>::empty());
    lemma_iloc_box_unfold(c2, b2, bim);
}

/// Where the `iinf` and `iloc` boxes lie among the children of a `meta` box, and how long
/// the new `iloc` entry is: the `infe` box goes in at `ei`, the entry at `el`.
pub struct Growth {
    pub ti: int,
    pub ei: int,
    pub tl: int,
    pub el: int,
    pub entry_len: int,
}

/// Where the byte at `k` of the children stands once the new `infe` box and `iloc` entry
/// are put in.
pub open spec fn gpos(g: Growth, k: int) -> int {
    k + (if k >= g.ei {
        21int
    } else {
        0int
    }) + (if k >= g.el {
        g.entry_len
    } else {
        0int
    })
}

/// The children `c2` are the children `c` with the new `infe` box and `iloc` entry put in,
/// their `iinf` and `iloc` boxes being the two boxes of `g`, which lie apart: every other
/// byte of `c` stands in `c2` where [`gpos`] says.
pub open spec fn grown_children(c: Seq<u8>, c2: Seq<u8>, g: Growth) -> bool {
    &&& c.len() <= u64::MAX
    &&& c2.len() <= u64::MAX
    &&& g.entry_len >= 0
    &&& c2.len() == c.len() + 21 + g.entry_len
    &&& 0 <= g.ti && g.ti + 8 <= g.ei <= c.len()
    &&& 0 <= g.tl && g.tl + 8 <= g.el <= c.len()
    &&& g.ei <= g.tl || g.el <= g.ti
    &&& forall|k: int|
        0 <= k < c.len() && !(g.ti <= k < g.ei) && !(g.tl <= k < g.el) ==> #[trigger] c2[gpos(g, k)] == c[k]
}

/// A stretch `[a, b]` of the children that holds no insertion place inside it stands in
/// the grown children as one stretch.
proof fn lemma_gpos_run(g: Growth, a: int, b: int, k: int)
    requires
        a <= k <= b,
        !(a < g.ei <= b),
        !(a < g.el <= b),
    ensures
        gpos(g, k) == gpos(g, a) + (k - a),
{
}

/// A child box `b` at `pos` other than the two that grow, within the children `c`, reads
/// in the grown children where it moved to, as it read, its `iinf` or `iloc` box decoded
/// from the same data.
#[verifier::spinoff_prover]
#[verifier::rlimit(60)]
proof fn lemma_other_child(
    c: Seq<u8>,
    c2: Seq<u8>,
    g: Growth,
    pos: int,
    b: RawBox,
    bim: int,
    i1: Option<ItemInfoBoxView>,
    l1: Option<ItemLocationBoxView>,
    i2: Option<ItemInfoBoxView>,
    l2: Option<ItemLocationBoxView>,
)
    requires
        grown_children(c, c2, g),
        0 <= bim,
        bim + c2.len() <= u64::MAX,
        0 <= pos,
        raw_box_at(c, pos) == Some(Ok::<Option<RawBox>, ExifError>(Some(b))),
        b.full_ptr.offset + b.full_ptr.length <= c.len(),
        b.full_ptr.offset + b.full_ptr.length <= g.ti || g.ei <= pos,
        b.full_ptr.offset + b.full_ptr.length <= g.tl || g.el <= pos,
        meta_child(c, b, bim, i1, l1) is Some && meta_child(c, b, bim, i1, l1)->Some_0 is Ok,
    ensures
        ({
            let e = b.full_ptr.offset + b.full_ptr.length;
            let q = gpos(g, pos);
            &&& raw_box_at(c2, q) == Some(Ok::<Option<RawBox>, ExifError>(Some(moved_box(b, q))))
            &&& meta_child(c2, moved_box(b, q), bim, i2, l2) matches Some(Ok((i3, l3, p3)))
            &&& p3 == gpos(g, e)
            &&& meta_child(c, b, bim, i1, l1)->Some_0->Ok_0.2 == e
            &&& (b.box_type != IINF ==> i3 == i2 && meta_child(c, b, bim, i1, l1)->Some_0->Ok_0.0 == i1)
            &&& (b.box_type == IINF ==> (meta_child(c, b, bim, i1, l1)->Some_0->Ok_0.0 matches Some(v)
                && v.full_ptr.offset == pos))
            &&& (b.box_type != ILOC ==> l3 == l2 && meta_child(c, b, bim, i1, l1)->Some_0->Ok_0.1 == l1)
            &&& (b.box_type == ILOC ==> (meta_child(c, b, bim, i1, l1)->Some_0->Ok_0.1 matches Some(w)
                && w.full_ptr.offset == pos))
        }),
{
    lemma_raw_box_at_in(c, pos);
    let e = b.full_ptr.offset + b.full_ptr.length;
    let q = gpos(g, pos);
    let h = b.data_ptr.offset - pos;
    assert forall|k: int| pos <= k <= e implies gpos(g, k) == q + (k - pos) by {
        lemma_gpos_run(g, pos, e, k);
    }
    assert forall|k: int| pos <= k < e implies #[trigger] c2[q + (k - pos)] == c[k] by {
        assert(c2[gpos(g, k)] == c[k]);
    }
    assert(c2.subrange(q, q + h) =~= c.subrange(pos, b.data_ptr.offset as int)) by {
        assert forall|j: int| 0 <= j < h implies #[trigger] c2.subrange(q, q + h)[j] == c.subrange(
            pos,
            b.data_ptr.offset as int,
        )[j] by {
            assert(c2[q + ((pos + j) - pos)] == c[pos + j]);
        }
    }
    assert(gpos(g, e) <= c2.len()) by {
        lemma_gpos_run(g, pos, e, e);
        if e < c.len() {
            assert(gpos(g, e) <= gpos(g, c.len() as int));
        }
    }
    lemma_raw_box_translated(c, c2, pos, q, b);
    let b2 = moved_box(b, q);
    if b.box_type == IINF || b.box_type == ILOC {
        let o = b.data_ptr.offset as int;
        let l = b.data_ptr.length as int;
        assert(read_data(c2, b2.data_ptr) == read_data(c, b.data_ptr)) by {
            if b.box_type == IINF {
                reveal(item_info_box);
            } else {
                reveal(item_location_box);
            }
            assert(c2.subrange(q + (o - pos), q + (o - pos) + l) =~= c.subrange(o, o + l)) by {
                assert forall|j: int| 0 <= j < l implies #[trigger] c2.subrange(q + (o - pos), q + (o - pos) + l)[j]
                    == c.subrange(o, o + l)[j] by {
                    assert(c2[q + ((o + j) - pos)] == c[o + j]);
                }
            }
        }
        if b.box_type == IINF {
            lemma_iinf_moved(c, b, c2, b2);
            reveal(item_info_box);
        } else {
            let il = item_location_box(c, b, bim)->Ok_0;
            lemma_iloc_moved(c, b, bim, c2, b2, il);
            lemma_iloc_box_facts(c, b, bim, il);
        }
    }
}

/// Where no child box is left to read in the children, none is left in the grown children
/// past both places where they grew.
proof fn lemma_grow_end(c: Seq<u8>, c2: Seq<u8>, g: Growth, pos: int)
    requires
        grown_children(c, c2, g),
        0 <= pos,
        g.ei <= pos,
        g.el <= pos,
        raw_box_at(c, pos) == Some(Ok::<Option<RawBox>, ExifError>(None)),
    ensures
        raw_box_at(c2, gpos(g, pos)) == Some(Ok::<Option<RawBox>, ExifError>(None)),
{
    reveal(raw_box_at);
}

/// A decoded `iinf` box lies where its header was read.
proof fn lemma_iinf_place(c: Seq<u8>, b: RawBox)
    requires
        item_info_box(c, b) is Some,
        item_info_box(c, b)->Some_0 is Ok,
    ensures
        item_info_box(c, b)->Some_0->Ok_0.full_ptr == b.full_ptr,
        item_info_box(c, b)->Some_0->Ok_0.data_ptr == b.data_ptr,
{
    reveal(item_info_box);
}

/// Decoding the grown children `c2` from where the children `c` are decoded from `pos`
/// (past or before each growing box) finds the grown `iinf` and `iloc` boxes `ii2` and
/// `il2`, where decoding `c` finds the boxes at `g.ti` and `g.tl`.
#[verifier::spinoff_prover]
#[verifier::rlimit(80)]
proof fn lemma_children_grow(
    c: Seq<u8>,
    c2: Seq<u8>,
    g: Growth,
    pos: int,
    bim: int,
    o1: int,
    o2: int,
    a1: MetaChildren,
    a2: MetaChildren,
    res1: MetaChildren,
    t2i: RawBox,
    ii2: ItemInfoBoxView,
    t2l: RawBox,
    il2: ItemLocationBoxView,
)
    requires
        grown_children(c, c2, g),
        0 <= bim,
        bim + c2.len() <= u64::MAX,
        0 <= pos,
        children_within(c, pos),
        meta_children(c, pos, bim, o1, a1) == Some(Ok::<MetaChildren, ExifError>(res1)),
        res1.iinf matches Some(v) && v.full_ptr.offset == g.ti,
        res1.iloc matches Some(w) && w.full_ptr.offset == g.tl,
        pos <= g.ti || g.ei <= pos,
        pos <= g.tl || g.el <= pos,
        a1.iinf matches Some(v) ==> v.full_ptr.offset < pos,
        a1.iloc matches Some(w) ==> w.full_ptr.offset < pos,
        (a1.iinf matches Some(v) && v.full_ptr.offset == g.ti) ==> a2.iinf == Some(ii2),
        (a1.iloc matches Some(w) && w.full_ptr.offset == g.tl) ==> a2.iloc == Some(il2),
        raw_box_at(c, g.ti) matches Some(Ok(Some(bi))) && bi.box_type == IINF && data_end(bi) == g.ei,
        raw_box_at(c, g.tl) matches Some(Ok(Some(bl))) && bl.box_type == ILOC && data_end(bl) == g.el,
        raw_box_at(c2, gpos(g, g.ti)) == Some(Ok::<Option<RawBox>, ExifError>(Some(t2i))),
        t2i.box_type == IINF,
        data_end(t2i) == gpos(g, g.ei),
        item_info_box(c2, t2i) == Some(Ok::<ItemInfoBoxView, ExifError>(ii2)),
        raw_box_at(c2, gpos(g, g.tl)) == Some(Ok::<Option<RawBox>, ExifError>(Some(t2l))),
        t2l.box_type == ILOC,
        data_end(t2l) == gpos(g, g.el),
        item_location_box(c2, t2l, bim) == Ok::<ItemLocationBoxView, ExifError>(il2),
    ensures
        meta_children(c2, gpos(g, pos), bim, o2, a2) matches Some(Ok(r2)) && r2.iinf == Some(ii2)
            && r2.iloc == Some(il2),
    decreases remaining(c.len() as int, pos),
{
    lemma_raw_box_at_in(c, pos);
    match raw_box_at(c, pos) {
        Some(Ok(Some(b))) => {
            let e = b.full_ptr.offset + b.full_ptr.length;
            let (i1, l1, p) = meta_child(c, b, bim, a1.iinf, a1.iloc)->Some_0->Ok_0;
            let a1n = MetaChildren { boxes: insert_box(a1.boxes, shifted(b, o1)), iinf: i1, iloc: l1 };
            assert(meta_children(c, pos, bim, o1, a1) == meta_children(c, p, bim, o1, a1n));
            if pos == g.ti {
                lemma_iinf_place(c, b);
                let q = gpos(g, pos);
                assert(gpos(g, g.ei) == q + (g.ei - g.ti) + 21) by {
                    assert(g.ti >= g.el <==> g.ei >= g.el);
                }
                let a2n = MetaChildren {
                    boxes: insert_box(a2.boxes, shifted(t2i, o2)),
                    iinf: Some(ii2),
                    iloc: a2.iloc,
                };
                assert(meta_children(c2, q, bim, o2, a2) == meta_children(c2, gpos(g, g.ei), bim, o2, a2n));
                lemma_children_grow(c, c2, g, p, bim, o1, o2, a1n, a2n, res1, t2i, ii2, t2l, il2);
            } else if pos == g.tl {
                lemma_iloc_box_facts(c, b, bim, l1->Some_0);
                let q = gpos(g, pos);
                let a2n = MetaChildren {
                    boxes: insert_box(a2.boxes, shifted(t2l, o2)),
                    iinf: a2.iinf,
                    iloc: Some(il2),
                };
                assert(meta_children(c2, q, bim, o2, a2) == meta_children(c2, gpos(g, g.el), bim, o2, a2n));
                lemma_children_grow(c, c2, g, p, bim, o1, o2, a1n, a2n, res1, t2i, ii2, t2l, il2);
            } else {
                assert(e <= c.len());
                if b.box_type == IINF {
                    lemma_iinf_place(c, b);
                } else if b.box_type == ILOC {
                    lemma_iloc_box_facts(c, b, bim, l1->Some_0);
                }
                assert(p == e);
                if pos < g.ti && e > g.ti {
                    lemma_children_skip(c, p, bim, o1, a1n, res1);
                    assert(false);
                }
                if pos < g.tl && e > g.tl {
                    lemma_children_skip(c, p, bim, o1, a1n, res1);
                    assert(false);
                }
                lemma_other_child(c, c2, g, pos, b, bim, a1.iinf, a1.iloc, a2.iinf, a2.iloc);
                let q = gpos(g, pos);
                let b2 = moved_box(b, q);
                let (i3, l3, p3) = meta_child(c2, b2, bim, a2.iinf, a2.iloc)->Some_0->Ok_0;
                let a2n = MetaChildren { boxes: insert_box(a2.boxes, shifted(b2, o2)), iinf: i3, iloc: l3 };
                assert(meta_children(c2, q, bim, o2, a2) == meta_children(c2, gpos(g, e), bim, o2, a2n));
                lemma_children_grow(c, c2, g, p, bim, o1, o2, a1n, a2n, res1, t2i, ii2, t2l, il2);
            }
        },
        _ => {
            assert(res1 == a1);
            assert(g.ei <= pos && g.el <= pos);
            lemma_grow_end(c, c2, g, pos);
        },
    }
}

/// Where the byte at `k` of the `meta` bytes stands once the new `infe` box goes in at
/// `ie` and the new `iloc` entry, of `n` bytes, at `le`.
pub open spec fn grown_at(ie: int, le: int, n: int, k: int) -> int {
    k + (if k >= ie {
        21int
    } else {
        0int
    }) + (if k >= le {
        n
    } else {
        0int
    })
}

/// Putting the two pieces in moves every byte where [`grown_at`] says.
proof fn lemma_insert_map(b: Seq<u8>, ie: int, le: int, infe: Seq<u8>, entry: Seq<u8>)
    requires
        0 <= ie <= b.len(),
        0 <= le <= b.len(),
        infe.len() == 21,
    ensures
        ({
            let out = if ie >= le {
                insert_bytes(insert_bytes(b, ie, infe), le, entry)
            } else {
                insert_bytes(insert_bytes(b, le, entry), ie, infe)
            };
            &&& out.len() == b.len() + 21 + entry.len()
            &&& forall|k: int| 0 <= k < b.len() ==> #[trigger] out[grown_at(ie, le, entry.len() as int, k)] == b[k]
        }),
{
    let n = entry.len() as int;
    if ie >= le {
        let b3 = insert_bytes(b, ie, infe);
        let out = insert_bytes(b3, le, entry);
        assert forall|k: int| 0 <= k < b.len() implies #[trigger] out[grown_at(ie, le, n, k)] == b[k] by {
            let k1 = if k >= ie { k + 21 } else { k };
            assert(b3[k1] == b[k]);
            let k2 = if k1 >= le { k1 + n } else { k1 };
            assert(out[k2] == b3[k1]);
        }
    } else {
        let b3 = insert_bytes(b, le, entry);
        let out = insert_bytes(b3, ie, infe);
        assert forall|k: int| 0 <= k < b.len() implies #[trigger] out[grown_at(ie, le, n, k)] == b[k] by {
            let k1 = if k >= le { k + n } else { k };
            assert(b3[k1] == b[k]);
            let k2 = if k1 >= ie { k1 + 21 } else { k1 };
            assert(out[k2] == b3[k1]);
        }
    }
}

/// The `meta` bytes `mb` with the sizes of the `meta`, `iinf` and `iloc` boxes and the
/// counts of entries grown, before the new entries go in.
#[verifier::opaque]
pub open spec fn resized_meta(mb: Seq<u8>, m: MetaBoxView, ii: ItemInfoBoxView, il: ItemLocationBoxView) -> Seq<u8> {
    let q = add_places(m, ii, il);
    let sz = field_sizes(mb.subrange(q.iloc_data + 4, q.iloc_data + 6));
    let el = entry_len(il.version, sz);
    let d = 21 + el;
    let wi = iinf_count_width(ii.version);
    let wl = iloc_count_width(il.version);
    overwrite(
        overwrite(
            overwrite(
                overwrite(
                    overwrite(mb, ExtentValue::U32(0, 0), (mb.len() + d) as u64),
                    ExtentValue::U32(q.iinf_start as u64, 0),
                    (ii.full_ptr.length + 21) as u64,
                ),
                count_field(q.iinf_data + 4, wi),
                (count_at(mb, q.iinf_data + 4, wi) + 1) as u64,
            ),
            ExtentValue::U32(q.iloc_start as u64, 0),
            (il.full_ptr.length + el) as u64,
        ),
        count_field(q.iloc_data + 6, wl),
        (count_at(mb, q.iloc_data + 6, wl) + 1) as u64,
    )
}

/// Whether the byte at `k` of the `meta` bytes is one of the sizes or counts that grow.
pub open spec fn resized_at(q: AddPlaces, wi: int, wl: int, k: int) -> bool {
    ||| 0 <= k < 4
    ||| q.iinf_start <= k < q.iinf_start + 4
    ||| q.iinf_data + 4 <= k < q.iinf_data + 4 + wi
    ||| q.iloc_start <= k < q.iloc_start + 4
    ||| q.iloc_data + 6 <= k < q.iloc_data + 6 + wl
}

/// The stretch of the field `f`.
pub open spec fn in_field(f: ExtentValue, k: int) -> bool {
    ev_position(f) <= k < ev_position(f) + ev_width(f)
}

/// Two buffers that agree on the bytes of a field of width `w` at `p` read the same there.
proof fn lemma_same_field(a: Seq<u8>, b: Seq<u8>, p: int, w: int)
    requires
        w == 2 || w == 4,
        0 <= p,
        p + w <= a.len(),
        p + w <= b.len(),
        forall|k: int| p <= k < p + w ==> #[trigger] a[k] == b[k],
    ensures
        field_value(a, p, w) == field_value(b, p, w),
        count_at(a, p, w) == count_at(b, p, w),
{
    assert(a[p] == b[p] && a[p + 1] == b[p + 1]);
    if w == 4 {
        assert(a[p + 2] == b[p + 2] && a[p + 3] == b[p + 3]);
    }
}

/// The fields `f` and `g` lie apart.
pub open spec fn fields_apart(f: ExtentValue, g: ExtentValue) -> bool {
    ev_position(f) + ev_width(f) <= ev_position(g) || ev_position(g) + ev_width(g) <= ev_position(f)
}

/// Five fields, apart from each other, written one after the other: each holds the value
/// written into it, and every other byte is as it was.
#[verifier::spinoff_prover]
#[verifier::rlimit(60)]
proof fn lemma_five_writes(
    mb: Seq<u8>,
    f0: ExtentValue,
    v0: u64,
    f1: ExtentValue,
    v1: u64,
    f2: ExtentValue,
    v2: u64,
    f3: ExtentValue,
    v3: u64,
    f4: ExtentValue,
    v4: u64,
)
    requires
        ev_width(f0) == 4 && ev_width(f1) == 4 && ev_width(f3) == 4,
        ev_width(f2) == 2 || ev_width(f2) == 4,
        ev_width(f4) == 2 || ev_width(f4) == 4,
        fields_apart(f0, f1) && fields_apart(f0, f2) && fields_apart(f0, f3) && fields_apart(f0, f4),
        fields_apart(f1, f2) && fields_apart(f1, f3) && fields_apart(f1, f4),
        fields_apart(f2, f3) && fields_apart(f2, f4),
        fields_apart(f3, f4),
        ev_position(f0) + 4 <= mb.len(),
        ev_position(f1) + 4 <= mb.len(),
        ev_position(f2) + ev_width(f2) <= mb.len(),
        ev_position(f3) + 4 <= mb.len(),
        ev_position(f4) + ev_width(f4) <= mb.len(),
        v0 < field_modulus(4),
        v1 < field_modulus(4),
        v2 < field_modulus(ev_width(f2)),
        v3 < field_modulus(4),
        v4 < field_modulus(ev_width(f4)),
    ensures
        ({
            let b4 = overwrite(overwrite(overwrite(overwrite(overwrite(mb, f0, v0), f1, v1), f2, v2), f3, v3), f4, v4);
            &&& b4.len() == mb.len()
            &&& forall|k: int|
                0 <= k < mb.len() && !in_field(f0, k) && !in_field(f1, k) && !in_field(f2, k) && !in_field(f3, k)
                    && !in_field(f4, k) ==> #[trigger] b4[k] == mb[k]
            &&& field_value(b4, ev_position(f0) as int, 4) == v0
            &&& field_value(b4, ev_position(f1) as int, 4) == v1
            &&& field_value(b4, ev_position(f2) as int, ev_width(f2)) == v2
            &&& field_value(b4, ev_position(f3) as int, 4) == v3
            &&& field_value(b4, ev_position(f4) as int, ev_width(f4)) == v4
        }),
{
    let b0 = overwrite(mb, f0, v0);
    let b1 = overwrite(b0, f1, v1);
    let bb2 = overwrite(b1, f2, v2);
    let b3 = overwrite(bb2, f3, v3);
    let b4 = overwrite(b3, f4, v4);
    lemma_overwrite_reads_back(mb, f0, v0);
    lemma_overwrite_reads_back(b0, f1, v1);
    lemma_overwrite_reads_back(b1, f2, v2);
    lemma_overwrite_reads_back(bb2, f3, v3);
    lemma_overwrite_reads_back(b3, f4, v4);
    assert forall|k: int|
        0 <= k < mb.len() && !in_field(f0, k) && !in_field(f1, k) && !in_field(f2, k) && !in_field(f3, k)
            && !in_field(f4, k) implies #[trigger] b4[k] == mb[k] by {
        assert(b4[k] == b3[k] && b3[k] == bb2[k] && bb2[k] == b1[k] && b1[k] == b0[k] && b0[k] == mb[k]);
    }
    let p0 = ev_position(f0) as int;
    let p1 = ev_position(f1) as int;
    let p2 = ev_position(f2) as int;
    let p3 = ev_position(f3) as int;
    let p4 = ev_position(f4) as int;
    assert forall|k: int| p0 <= k < p0 + 4 implies #[trigger] b4[k] == b0[k] by {
        assert(b4[k] == b3[k] && b3[k] == bb2[k] && bb2[k] == b1[k] && b1[k] == b0[k]);
    }
    assert forall|k: int| p1 <= k < p1 + 4 implies #[trigger] b4[k] == b1[k] by {
        assert(b4[k] == b3[k] && b3[k] == bb2[k] && bb2[k] == b1[k]);
    }
    assert forall|k: int| p2 <= k < p2 + ev_width(f2) implies #[trigger] b4[k] == bb2[k] by {
        assert(b4[k] == b3[k] && b3[k] == bb2[k]);
    }
    assert forall|k: int| p3 <= k < p3 + 4 implies #[trigger] b4[k] == b3[k] by {
        assert(b4[k] == b3[k]);
    }
    lemma_same_field(b4, b0, p0, 4);
    lemma_same_field(b4, b1, p1, 4);
    lemma_same_field(b4, bb2, p2, ev_width(f2));
    lemma_same_field(b4, b3, p3, 4);
}

/// The resized `meta` bytes are `mb` but for the sizes and counts, which hold their new
/// values.
#[verifier::spinoff_prover]
#[verifier::rlimit(60)]
proof fn lemma_resized_facts(mb: Seq<u8>, m: MetaBoxView, ii: ItemInfoBoxView, il: ItemLocationBoxView, media: RawBox, n: int)
    requires
        can_add(mb, m, ii, il, media, n),
        ii.full_ptr.length >= 12 + iinf_count_width(ii.version),
        il.full_ptr.length >= 14 + iloc_count_width(il.version),
    ensures
        ({
            let q = add_places(m, ii, il);
            let sz = field_sizes(mb.subrange(q.iloc_data + 4, q.iloc_data + 6));
            let el = entry_len(il.version, sz);
            let wi = iinf_count_width(ii.version);
            let wl = iloc_count_width(il.version);
            let b2 = resized_meta(mb, m, ii, il);
            &&& b2.len() == mb.len()
            &&& forall|k: int| 0 <= k < mb.len() && !resized_at(q, wi, wl, k) ==> #[trigger] b2[k] == mb[k]
            &&& be32(b2, 0) == mb.len() + 21 + el
            &&& be32(b2, q.iinf_start) == ii.full_ptr.length + 21
            &&& count_at(b2, q.iinf_data + 4, wi) == count_at(mb, q.iinf_data + 4, wi) + 1
            &&& be32(b2, q.iloc_start) == il.full_ptr.length + el
            &&& count_at(b2, q.iloc_data + 6, wl) == count_at(mb, q.iloc_data + 6, wl) + 1
        }),
{
    reveal(can_add);
    reveal(resized_meta);
    let q = add_places(m, ii, il);
    let sz = field_sizes(mb.subrange(q.iloc_data + 4, q.iloc_data + 6));
    let el = entry_len(il.version, sz);
    let d = 21 + el;
    let wi = iinf_count_width(ii.version);
    let wl = iloc_count_width(il.version);
    let f0 = ExtentValue::U32(0, 0);
    let f1 = ExtentValue::U32(q.iinf_start as u64, 0);
    let f2 = count_field(q.iinf_data + 4, wi);
    let f3 = ExtentValue::U32(q.iloc_start as u64, 0);
    let f4 = count_field(q.iloc_data + 6, wl);
    let v0 = (mb.len() + d) as u64;
    let v1 = (ii.full_ptr.length + 21) as u64;
    let v2 = (count_at(mb, q.iinf_data + 4, wi) + 1) as u64;
    let v3 = (il.full_ptr.length + el) as u64;
    let v4 = (count_at(mb, q.iloc_data + 6, wl) + 1) as u64;
    assert(q.iinf_start >= 12 && q.iloc_start >= 12);
    lemma_five_writes(mb, f0, v0, f1, v1, f2, v2, f3, v3, f4, v4);
    assert forall|k: int| 0 <= k < mb.len() && !resized_at(q, wi, wl, k) implies !in_field(f0, k) && !in_field(f1, k)
        && !in_field(f2, k) && !in_field(f3, k) && !in_field(f4, k) by {}
}

/// Each of the `iinf` and `iloc` boxes that decoding the children keeps is the one found
/// before, or was read, as a box of its type, where it lies.
#[verifier::spinoff_prover]
proof fn lemma_children_visits(c: Seq<u8>, pos: int, bim: int, o: int, acc: MetaChildren, res: MetaChildren)
    requires
        meta_children(c, pos, bim, o, acc) == Some(Ok::<MetaChildren, ExifError>(res)),
    ensures
        res.iinf == acc.iinf || (res.iinf matches Some(v) && raw_box_at(c, v.full_ptr.offset as int) matches Some(
            Ok(Some(b)),
        ) && b.box_type == IINF && b.full_ptr == v.full_ptr && item_info_box(c, b) == Some(
            Ok::<ItemInfoBoxView, ExifError>(v),
        )),
        res.iloc == acc.iloc || (res.iloc matches Some(w) && raw_box_at(c, w.full_ptr.offset as int) matches Some(
            Ok(Some(b)),
        ) && b.box_type == ILOC && b.full_ptr == w.full_ptr && item_location_box(c, b, bim) == Ok::<
            ItemLocationBoxView,
            ExifError,
        >(w)),
    decreases remaining(c.len() as int, pos),
{
    if let Some(Ok(Some(b))) = raw_box_at(c, pos) {
        lemma_raw_box_at_in(c, pos);
        let (ii, il, p) = meta_child(c, b, bim, acc.iinf, acc.iloc)->Some_0->Ok_0;
        if b.box_type == IINF {
            lemma_iinf_place(c, b);
        } else if b.box_type == ILOC {
            lemma_iloc_box_facts(c, b, bim, il->Some_0);
        }
        assert(p >= pos);
        lemma_children_visits(c, p, bim, o, MetaChildren { boxes: insert_box(acc.boxes, shifted(b, o)), iinf: ii, iloc: il }, res);
    }
}

/// A box header whose size field is written over reads as the same box with the new size.
proof fn lemma_header_resized(c: Seq<u8>, p: int, b: RawBox, c2: Seq<u8>, p2: int, len: int)
    requires
        c.len() <= u64::MAX,
        c2.len() <= u64::MAX,
        0 <= p,
        0 <= p2,
        raw_box_at(c, p) == Some(Ok::<Option<RawBox>, ExifError>(Some(b))),
        b.data_ptr.offset == p + 8,
        p2 + 8 <= c2.len(),
        forall|j: int| 4 <= j < 8 ==> #[trigger] c2[p2 + j] == c[p + j],
        be32(c2, p2) == len,
        16 <= len < 0x1_0000_0000,
    ensures
        raw_box_at(c2, p2) == Some(
            Ok::<Option<RawBox>, ExifError>(
                Some(
                    RawBox {
                        box_type: b.box_type,
                        full_ptr: Ptr { offset: p2 as u64, length: len as usize },
                        data_ptr: Ptr { offset: (p2 + 8) as u64, length: (len - 8) as usize },
                    },
                ),
            ),
        ),
{
    lemma_raw_box_at_in(c, p);
    reveal(raw_box_at);
    assert(c2[p2 + 4] == c[p + 4] && c2[p2 + 5] == c[p + 5] && c2[p2 + 6] == c[p + 6] && c2[p2 + 7] == c[p + 7]);
    assert(c2.subrange(p2 + 4, p2 + 8) =~= c.subrange(p + 4, p + 8));
    assert(be32(c2, p2 + 4) == be32(c, p + 4));
    assert(be32(c, p) as usize != 1);
}

/// What the copy's check that the `meta` box can take the new item says of the places of
/// the boxes.
proof fn lemma_can_add_places(mb: Seq<u8>, m: MetaBoxView, ii: ItemInfoBoxView, il: ItemLocationBoxView, media: RawBox, n: int)
    requires
        can_add(mb, m, ii, il, media, n),
    ensures
        ({
            let q = add_places(m, ii, il);
            &&& m.data_ptr.offset == m.full_ptr.offset + 8
            &&& ii.data_ptr.offset == ii.full_ptr.offset + 8
            &&& il.data_ptr.offset == il.full_ptr.offset + 8
            &&& q.iinf_start == 12 + ii.full_ptr.offset
            &&& q.iinf_end == q.iinf_start + ii.full_ptr.length
            &&& q.iinf_data == q.iinf_start + 8
            &&& q.iloc_start == 12 + il.full_ptr.offset
            &&& q.iloc_end == q.iloc_start + il.full_ptr.length
            &&& q.iloc_data == q.iloc_start + 8
            &&& q.iinf_end <= mb.len()
            &&& q.iloc_end <= mb.len()
            &&& q.iinf_data + 8 <= mb.len()
            &&& q.iloc_data + 10 <= mb.len()
            &&& mb.len() >= 4
            &&& be32(mb, 0) == mb.len()
            &&& q.iinf_end <= q.iloc_start || q.iloc_end <= q.iinf_start
            &&& mb.len() + 21 + entry_len(il.version, field_sizes(mb.subrange(q.iloc_data + 4, q.iloc_data + 6)))
                < 0x1_0000_0000
        }),
{
    reveal(can_add);
}

/// What the copy's check that the `meta` box can take the new item says of the sizes of
/// the new entry's fields and the values they hold.
proof fn lemma_can_add_sizes(mb: Seq<u8>, m: MetaBoxView, ii: ItemInfoBoxView, il: ItemLocationBoxView, media: RawBox, n: int)
    requires
        can_add(mb, m, ii, il, media, n),
    ensures
        ({
            let q = add_places(m, ii, il);
            let sz = field_sizes(mb.subrange(q.iloc_data + 4, q.iloc_data + 6));
            let el = entry_len(il.version, sz);
            &&& il.version <= 2
            &&& sz.offset_size == 4 || sz.offset_size == 8
            &&& sz.length_size == 4 || sz.length_size == 8
            &&& sz.base_offset_size == 0 || sz.base_offset_size == 4 || sz.base_offset_size == 8
            &&& sz.index_size == 0 || sz.index_size == 4 || sz.index_size == 8
            &&& new_item_offset(media, 21 + el) < field_modulus(sz.offset_size as int)
            &&& n < field_modulus(sz.length_size as int)
            &&& new_item_id(ii, il) <= 0xffff
        }),
{
    reveal(can_add);
}

/// The grown `meta` bytes are the resized bytes with the new `infe` box and `iloc` entry
/// put in.
proof fn lemma_grown_is(mb: Seq<u8>, m: MetaBoxView, ii: ItemInfoBoxView, il: ItemLocationBoxView, media: RawBox, item: Seq<u8>)
    requires
        can_add(mb, m, ii, il, media, item.len() as int),
    ensures
        ({
            let q = add_places(m, ii, il);
            let sz = field_sizes(mb.subrange(q.iloc_data + 4, q.iloc_data + 6));
            let el = entry_len(il.version, sz);
            let b2 = resized_meta(mb, m, ii, il);
            let id = new_item_id(ii, il) as u16;
            let entry = new_iloc_entry(il.version, sz, id, new_item_offset(media, 21 + el) as u64, item.len() as u64);
            &&& entry.len() == el
            &&& new_infe(id).len() == 21
            &&& grown_meta(mb, m, ii, il, media, item) == (if q.iinf_end >= q.iloc_end {
                insert_bytes(insert_bytes(b2, q.iinf_end, new_infe(id)), q.iloc_end, entry)
            } else {
                insert_bytes(insert_bytes(b2, q.iloc_end, entry), q.iinf_end, new_infe(id))
            })
        }),
{
    reveal(can_add);
    reveal(grown_meta);
    reveal(resized_meta);
    let q = add_places(m, ii, il);
    let sz = field_sizes(mb.subrange(q.iloc_data + 4, q.iloc_data + 6));
    let el = entry_len(il.version, sz);
    let off = new_item_offset(media, 21 + el) as u64;
    let len = item.len() as u64;
    lemma_u16_bytes_read_back(0);
    lemma_u16_bytes_read_back(1);
    lemma_u16_bytes_read_back(new_item_id(ii, il) as u16);
    lemma_u32_bytes_read_back(new_item_id(ii, il) as u16 as u32);
    lemma_u32_bytes_read_back(21);
    if sz.offset_size == 4 {
        lemma_u32_bytes_read_back(off as u32);
    } else {
        lemma_u64_bytes_read_back(off);
    }
    if sz.length_size == 4 {
        lemma_u32_bytes_read_back(len as u32);
    } else {
        lemma_u64_bytes_read_back(len);
    }
}

/// Every byte of the resized bytes stands in the grown bytes where [`grown_at`] says.
#[verifier::spinoff_prover]
proof fn lemma_grown_map(mb: Seq<u8>, m: MetaBoxView, ii: ItemInfoBoxView, il: ItemLocationBoxView, media: RawBox, item: Seq<u8>)
    requires
        can_add(mb, m, ii, il, media, item.len() as int),
    ensures
        ({
            let q = add_places(m, ii, il);
            let el = entry_len(il.version, field_sizes(mb.subrange(q.iloc_data + 4, q.iloc_data + 6)));
            let big = grown_meta(mb, m, ii, il, media, item);
            let b2 = resized_meta(mb, m, ii, il);
            let id = new_item_id(ii, il) as u16;
            let sz = field_sizes(mb.subrange(q.iloc_data + 4, q.iloc_data + 6));
            &&& big.len() == mb.len() + 21 + el
            &&& forall|k: int| 0 <= k < mb.len() ==> #[trigger] big[grown_at(q.iinf_end, q.iloc_end, el, k)] == b2[k]
            &&& big.subrange(added_infe_place(q, el), added_infe_place(q, el) + 21) == new_infe(id)
            &&& big.subrange(added_entry_place(q), added_entry_place(q) + el) == new_iloc_entry(
                il.version,
                sz,
                id,
                new_item_offset(media, 21 + el) as u64,
                item.len() as u64,
            )
        }),
{
    lemma_can_add_places(mb, m, ii, il, media, item.len() as int);
    lemma_grown_is(mb, m, ii, il, media, item);
    let q = add_places(m, ii, il);
    let sz = field_sizes(mb.subrange(q.iloc_data + 4, q.iloc_data + 6));
    let el = entry_len(il.version, sz);
    let id = new_item_id(ii, il) as u16;
    let entry = new_iloc_entry(il.version, sz, id, new_item_offset(media, 21 + el) as u64, item.len() as u64);
    lemma_resized_len(mb, m, ii, il);
    lemma_insert_map(resized_meta(mb, m, ii, il), q.iinf_end, q.iloc_end, new_infe(id), entry);
    lemma_inserted_places(resized_meta(mb, m, ii, il), q, new_infe(id), entry);
}

/// Resizing keeps the length of the `meta` bytes.
proof fn lemma_resized_len(mb: Seq<u8>, m: MetaBoxView, ii: ItemInfoBoxView, il: ItemLocationBoxView)
    requires
        mb.len() >= 4,
        ({
            let q = add_places(m, ii, il);
            &&& 0 <= q.iinf_start && q.iinf_start + 4 <= mb.len()
            &&& 0 <= q.iloc_start && q.iloc_start + 4 <= mb.len()
            &&& 0 <= q.iinf_data && q.iinf_data + 8 <= mb.len()
            &&& 0 <= q.iloc_data && q.iloc_data + 10 <= mb.len()
        }),
    ensures
        resized_meta(mb, m, ii, il).len() == mb.len(),
{
    reveal(resized_meta);
    let q = add_places(m, ii, il);
    let sz = field_sizes(mb.subrange(q.iloc_data + 4, q.iloc_data + 6));
    let el = entry_len(il.version, sz);
    let d = 21 + el;
    let wi = iinf_count_width(ii.version);
    let wl = iloc_count_width(il.version);
    let b0 = overwrite(mb, ExtentValue::U32(0, 0), (mb.len() + d) as u64);
    lemma_overwrite_reads_back(mb, ExtentValue::U32(0, 0), (mb.len() + d) as u64);
    let b1 = overwrite(b0, ExtentValue::U32(q.iinf_start as u64, 0), (ii.full_ptr.length + 21) as u64);
    lemma_overwrite_reads_back(b0, ExtentValue::U32(q.iinf_start as u64, 0), (ii.full_ptr.length + 21) as u64);
    let b2 = overwrite(b1, count_field(q.iinf_data + 4, wi), (count_at(mb, q.iinf_data + 4, wi) + 1) as u64);
    lemma_overwrite_reads_back(b1, count_field(q.iinf_data + 4, wi), (count_at(mb, q.iinf_data + 4, wi) + 1) as u64);
    let b3 = overwrite(b2, ExtentValue::U32(q.iloc_start as u64, 0), (il.full_ptr.length + el) as u64);
    lemma_overwrite_reads_back(b2, ExtentValue::U32(q.iloc_start as u64, 0), (il.full_ptr.length + el) as u64);
    lemma_overwrite_reads_back(b3, count_field(q.iloc_data + 6, wl), (count_at(mb, q.iloc_data + 6, wl) + 1) as u64);
}

/// The places of the `iinf` and `iloc` boxes among the children of the `meta` box `m`,
/// and the length of the new entry.
pub open spec fn growth_of(mb: Seq<u8>, m: MetaBoxView, ii: ItemInfoBoxView, il: ItemLocationBoxView) -> Growth {
    let q = add_places(m, ii, il);
    let sz = field_sizes(mb.subrange(q.iloc_data + 4, q.iloc_data + 6));
    Growth {
        ti: q.iinf_start - 12,
        ei: q.iinf_end - 12,
        tl: q.iloc_start - 12,
        el: q.iloc_end - 12,
        entry_len: entry_len(il.version, sz),
    }
}

/// The children of the grown `meta` bytes are the children of `mb` grown as
/// [`grown_children`] says, every byte of the resized bytes standing where [`gpos`] puts
/// it.
#[verifier::spinoff_prover]
#[verifier::rlimit(80)]
proof fn lemma_grown_children(mb: Seq<u8>, m: MetaBoxView, ii: ItemInfoBoxView, il: ItemLocationBoxView, media: RawBox, item: Seq<u8>)
    requires
        mb.len() <= u64::MAX,
        can_add(mb, m, ii, il, media, item.len() as int),
        ii.full_ptr.length >= 12 + iinf_count_width(ii.version),
        il.full_ptr.length >= 14 + iloc_count_width(il.version),
    ensures
        ({
            let g = growth_of(mb, m, ii, il);
            let big = grown_meta(mb, m, ii, il, media, item);
            let b2 = resized_meta(mb, m, ii, il);
            &&& mb.len() >= 12
            &&& big.len() == mb.len() + 21 + g.entry_len
            &&& grown_children(mb.subrange(12, mb.len() as int), big.subrange(12, big.len() as int), g)
            &&& forall|k: int| 0 <= k < mb.len() - 12 ==> #[trigger] big[12 + gpos(g, k)] == b2[12 + k]
        }),
{
    lemma_can_add_places(mb, m, ii, il, media, item.len() as int);
    let q = add_places(m, ii, il);
    let sz = field_sizes(mb.subrange(q.iloc_data + 4, q.iloc_data + 6));
    let el = entry_len(il.version, sz);
    let wi = iinf_count_width(ii.version);
    let wl = iloc_count_width(il.version);
    let g = growth_of(mb, m, ii, il);
    let b2 = resized_meta(mb, m, ii, il);
    lemma_grown_map(mb, m, ii, il, media, item);
    lemma_resized_facts(mb, m, ii, il, media, item.len() as int);
    let big = grown_meta(mb, m, ii, il, media, item);
    let c = mb.subrange(12, mb.len() as int);
    let c2 = big.subrange(12, big.len() as int);
    assert forall|k: int| 0 <= k < mb.len() - 12 implies #[trigger] big[12 + gpos(g, k)] == b2[12 + k] by {
        assert(12 + gpos(g, k) == grown_at(q.iinf_end, q.iloc_end, el, 12 + k));
    }
    assert forall|k: int|
        0 <= k < c.len() && !(g.ti <= k < g.ei) && !(g.tl <= k < g.el) implies #[trigger] c2[gpos(g, k)] == c[k] by {
        assert(big[12 + gpos(g, k)] == b2[12 + k]);
        assert(!resized_at(q, wi, wl, 12 + k));
        assert(b2[12 + k] == mb[12 + k]);
    }
}

/// The grown `iinf` box: where the `iinf` box moved to in the grown children, its header
/// reads as the box grown by the new `infe` box, and it decodes into the same entries with
/// the new entry at the end.
#[verifier::spinoff_prover]
#[verifier::rlimit(80)]
proof fn lemma_iinf_target(
    mb: Seq<u8>,
    m: MetaBoxView,
    ii: ItemInfoBoxView,
    il: ItemLocationBoxView,
    media: RawBox,
    item: Seq<u8>,
    bi: RawBox,
)
    requires
        mb.len() <= u64::MAX,
        can_add(mb, m, ii, il, media, item.len() as int),
        ii.version == 0,
        ii.full_ptr.length >= 14,
        il.full_ptr.length >= 14 + iloc_count_width(il.version),
        raw_box_at(mb.subrange(12, mb.len() as int), ii.full_ptr.offset as int) == Some(Ok::<Option<RawBox>, ExifError>(Some(bi))),
        bi.box_type == IINF,
        bi.full_ptr == ii.full_ptr,
        item_info_box(mb.subrange(12, mb.len() as int), bi) == Some(Ok::<ItemInfoBoxView, ExifError>(ii)),
        read_data(mb.subrange(12, mb.len() as int), bi.data_ptr) matches Ok(d) && info_fills(d),
    ensures
        ({
            let g = growth_of(mb, m, ii, il);
            let big = grown_meta(mb, m, ii, il, media, item);
            let c2 = big.subrange(12, big.len() as int);
            let p = gpos(g, g.ti);
            let t2 = RawBox {
                box_type: IINF,
                full_ptr: Ptr { offset: p as u64, length: (ii.full_ptr.length + 21) as usize },
                data_ptr: Ptr { offset: (p + 8) as u64, length: (ii.full_ptr.length + 13) as usize },
            };
            &&& raw_box_at(c2, p) == Some(Ok::<Option<RawBox>, ExifError>(Some(t2)))
            &&& data_end(t2) == gpos(g, g.ei)
            &&& item_info_box(c2, t2) == Some(
                Ok::<ItemInfoBoxView, ExifError>(
                    ItemInfoBoxView {
                        version: ii.version,
                        flags: ii.flags,
                        entries: ii.entries.push(new_info_view(new_item_id(ii, il) as u16)),
                        full_ptr: t2.full_ptr,
                        data_ptr: t2.data_ptr,
                    },
                ),
            )
        }),
{
    let q = add_places(m, ii, il);
    let sz = field_sizes(mb.subrange(q.iloc_data + 4, q.iloc_data + 6));
    let el = entry_len(il.version, sz);
    let wi = iinf_count_width(ii.version);
    let wl = iloc_count_width(il.version);
    let g = growth_of(mb, m, ii, il);
    let big = grown_meta(mb, m, ii, il, media, item);
    let b2 = resized_meta(mb, m, ii, il);
    let c = mb.subrange(12, mb.len() as int);
    let c2 = big.subrange(12, big.len() as int);
    let id = new_item_id(ii, il) as u16;
    lemma_can_add_places(mb, m, ii, il, media, item.len() as int);
    lemma_grown_children(mb, m, ii, il, media, item);
    lemma_grown_map(mb, m, ii, il, media, item);
    lemma_resized_facts(mb, m, ii, il, media, item.len() as int);
    lemma_iinf_place(c, bi);
    let ti = g.ti;
    let li = ii.full_ptr.length as int;
    let p = gpos(g, ti);
    lemma_raw_box_at_in(c, ti);
    assert forall|k: int| p <= k < p + li implies #[trigger] c2[k] == b2[12 + ti + (k - p)] by {
        let j = k - p;
        lemma_gpos_run(g, ti, ti + li - 1, ti + j);
        assert(big[12 + gpos(g, ti + j)] == b2[12 + (ti + j)]);
    }
    // the header
    assert(be32(c2, p) == be32(b2, q.iinf_start)) by {
        assert(c2[p] == b2[12 + ti] && c2[p + 1] == b2[12 + ti + 1] && c2[p + 2] == b2[12 + ti + 2] && c2[p + 3]
            == b2[12 + ti + 3]);
    }
    assert forall|j: int| 4 <= j < 8 implies #[trigger] c2[p + j] == c[ti + j] by {
        assert(c2[p + j] == b2[12 + ti + j]);
        assert(!resized_at(q, wi, wl, 12 + ti + j));
        assert(b2[12 + ti + j] == mb[12 + ti + j]);
    }
    lemma_header_resized(c, ti, bi, c2, p, li + 21);
    // the data
    let d = read_data(c, bi.data_ptr)->Ok_0;
    let dd = c2.subrange(p + 8, p + li);
    assert(d.len() == li - 8);
    assert forall|k: int| 0 <= k < d.len() && k != 4 && k != 5 implies #[trigger] dd[k] == d[k] by {
        assert(c2[p + (8 + k)] == b2[12 + ti + (8 + k)]);
        assert(!resized_at(q, wi, wl, 12 + ti + 8 + k));
        assert(b2[12 + ti + 8 + k] == mb[12 + ti + 8 + k]);
        assert(d[k] == c[ti + 8 + k]);
    }
    assert(be16(dd, 4) == be16(d, 4) + 1) by {
        assert(c2[p + 12] == b2[12 + ti + 12] && c2[p + 13] == b2[12 + ti + 13]);
        assert(d[4] == mb[12 + ti + 12] && d[5] == mb[12 + ti + 13]);
    }
    assert(12 + p + li == added_infe_place(q, el));
    assert(c2.subrange(p + li, p + li + 21) =~= big.subrange(added_infe_place(q, el), added_infe_place(q, el) + 21));
    assert(c2.subrange(p + 8, p + li + 21) =~= dd + new_infe(id));
    lemma_iinf_grows(c, bi, ii, c2, RawBox {
        box_type: IINF,
        full_ptr: Ptr { offset: p as u64, length: (li + 21) as usize },
        data_ptr: Ptr { offset: (p + 8) as u64, length: (li + 13) as usize },
    }, dd, id);
}

/// No `iloc` entry is for an item past the largest id.
proof fn lemma_max_loc(es: Seq<ItemLocationEntryView>)
    ensures
        forall|k: int| 0 <= k < es.len() ==> #[trigger] es[k].item_id <= max_loc_id(es),
        max_loc_id(es) >= 0,
    decreases es.len(),
{
    if es.len() > 0 {
        lemma_max_loc(es.drop_last());
        assert forall|k: int| 0 <= k < es.len() implies #[trigger] es[k].item_id <= max_loc_id(es) by {
            if k < es.len() - 1 {
                assert(es[k] == es.drop_last()[k]);
            }
        }
    }
}

/// The bytes of the grown `iloc` box: its header holds the grown size, and its data is
/// the box's data with the count one more, then the new entry.
#[verifier::spinoff_prover]
#[verifier::rlimit(80)]
proof fn lemma_iloc_target_bytes(
    mb: Seq<u8>,
    m: MetaBoxView,
    ii: ItemInfoBoxView,
    il: ItemLocationBoxView,
    media: RawBox,
    item: Seq<u8>,
    bl: RawBox,
    d: Seq<u8>,
)
    requires
        mb.len() <= u64::MAX,
        can_add(mb, m, ii, il, media, item.len() as int),
        ii.full_ptr.length >= 12 + iinf_count_width(ii.version),
        raw_box_at(mb.subrange(12, mb.len() as int), il.full_ptr.offset as int) == Some(Ok::<Option<RawBox>, ExifError>(Some(bl))),
        bl.full_ptr == il.full_ptr,
        bl.data_ptr == il.data_ptr,
        read_data(mb.subrange(12, mb.len() as int), bl.data_ptr) == Ok::<Seq<u8>, ExifError>(d),
        d.len() >= 4 + loc_first(d[0]),
        d[0] == il.version,
        il.version == 1 || il.version == 2,
    ensures
        ({
            let q = add_places(m, ii, il);
            let sz = field_sizes(mb.subrange(q.iloc_data + 4, q.iloc_data + 6));
            let g = growth_of(mb, m, ii, il);
            let big = grown_meta(mb, m, ii, il, media, item);
            let c2 = big.subrange(12, big.len() as int);
            let p = gpos(g, g.tl);
            let ll = il.full_ptr.length as int;
            let dd = c2.subrange(p + 8, p + ll);
            let t2 = RawBox {
                box_type: bl.box_type,
                full_ptr: Ptr { offset: p as u64, length: (ll + g.entry_len) as usize },
                data_ptr: Ptr { offset: (p + 8) as u64, length: (ll + g.entry_len - 8) as usize },
            };
            &&& raw_box_at(c2, p) == Some(Ok::<Option<RawBox>, ExifError>(Some(t2)))
            &&& data_end(t2) == gpos(g, g.el)
            &&& p >= g.tl
            &&& c2.len() <= u64::MAX
            &&& dd.len() == d.len()
            &&& (forall|k: int| 0 <= k < d.len() && !(6 <= k < 6 + loc_first(d[0]) - 2) ==> #[trigger] dd[k] == d[k])
            &&& loc_count(dd.subrange(4, dd.len() as int), d[0]) == loc_count(d.subrange(4, d.len() as int), d[0]) + 1
            &&& field_sizes(d.subrange(4, d.len() as int)) == sz
            &&& read_data(c2, t2.data_ptr) == Ok::<Seq<u8>, ExifError>(
                dd + new_iloc_entry(
                    il.version,
                    sz,
                    new_item_id(ii, il) as u16,
                    new_item_offset(media, 21 + g.entry_len) as u64,
                    item.len() as u64,
                ),
            )
        }),
{
    let q = add_places(m, ii, il);
    let sz = field_sizes(mb.subrange(q.iloc_data + 4, q.iloc_data + 6));
    let el = entry_len(il.version, sz);
    let wi = iinf_count_width(ii.version);
    let wl = iloc_count_width(il.version);
    let g = growth_of(mb, m, ii, il);
    let big = grown_meta(mb, m, ii, il, media, item);
    let b2 = resized_meta(mb, m, ii, il);
    let c = mb.subrange(12, mb.len() as int);
    let c2 = big.subrange(12, big.len() as int);
    let id = new_item_id(ii, il) as u16;
    let off = new_item_offset(media, 21 + el) as u64;
    let len = item.len() as u64;
    lemma_can_add_places(mb, m, ii, il, media, item.len() as int);
    lemma_raw_box_at_in(c, g.tl);
    assert(il.full_ptr.length >= 14 + wl);
    lemma_grown_children(mb, m, ii, il, media, item);
    lemma_grown_map(mb, m, ii, il, media, item);
    lemma_resized_facts(mb, m, ii, il, media, item.len() as int);
    let tl = g.tl;
    let ll = il.full_ptr.length as int;
    let p = gpos(g, tl);
    assert forall|k: int| p <= k < p + ll implies #[trigger] c2[k] == b2[12 + tl + (k - p)] by {
        let j = k - p;
        lemma_gpos_run(g, tl, tl + ll - 1, tl + j);
        assert(big[12 + gpos(g, tl + j)] == b2[12 + (tl + j)]);
    }
    assert(be32(c2, p) == be32(b2, q.iloc_start)) by {
        assert(c2[p] == b2[12 + tl] && c2[p + 1] == b2[12 + tl + 1] && c2[p + 2] == b2[12 + tl + 2] && c2[p + 3]
            == b2[12 + tl + 3]);
    }
    assert forall|j: int| 4 <= j < 8 implies #[trigger] c2[p + j] == c[tl + j] by {
        assert(c2[p + j] == b2[12 + tl + j]);
        assert(!resized_at(q, wi, wl, 12 + tl + j));
        assert(b2[12 + tl + j] == mb[12 + tl + j]);
    }
    lemma_header_resized(c, tl, bl, c2, p, ll + el);
    let dd = c2.subrange(p + 8, p + ll);
    assert forall|k: int| 0 <= k < d.len() && !(6 <= k < 6 + loc_first(d[0]) - 2) implies #[trigger] dd[k] == d[k] by {
        assert(c2[p + (8 + k)] == b2[12 + tl + (8 + k)]);
        assert(!resized_at(q, wi, wl, 12 + tl + 8 + k));
        assert(b2[12 + tl + 8 + k] == mb[12 + tl + 8 + k]);
        assert(d[k] == c[tl + 8 + k]);
    }
    assert(d.subrange(4, d.len() as int).subrange(0, 2) =~= mb.subrange(q.iloc_data + 4, q.iloc_data + 6)) by {
        assert(d[4] == mb[q.iloc_data + 4] && d[5] == mb[q.iloc_data + 5]);
    }
    assert(loc_count(dd.subrange(4, dd.len() as int), d[0]) == loc_count(d.subrange(4, d.len() as int), d[0]) + 1) by {
        let base = 12 + tl + 14;
        assert(c2[p + 14] == b2[base] && c2[p + 15] == b2[base + 1]);
        assert(d[6] == mb[base] && d[7] == mb[base + 1]);
        if wl == 4 {
            assert(c2[p + 16] == b2[base + 2] && c2[p + 17] == b2[base + 3]);
            assert(d[8] == mb[base + 2] && d[9] == mb[base + 3]);
        }
    }
    assert(12 + p + ll == added_entry_place(q));
    assert(c2.subrange(p + ll, p + ll + el) =~= big.subrange(added_entry_place(q), added_entry_place(q) + el));
    assert(c2.subrange(p + 8, p + ll + el) =~= dd + new_iloc_entry(il.version, sz, id, off, len));
}

/// The grown `iloc` box: where the `iloc` box moved to in the grown children, its header
/// reads as the box grown by the new entry, and it decodes into the same entries, their
/// fields moved with it, with the new entry at the end.
#[verifier::spinoff_prover]
#[verifier::rlimit(80)]
proof fn lemma_iloc_target(
    mb: Seq<u8>,
    m: MetaBoxView,
    ii: ItemInfoBoxView,
    il: ItemLocationBoxView,
    media: RawBox,
    item: Seq<u8>,
    bl: RawBox,
)
    requires
        mb.len() <= u64::MAX,
        can_add(mb, m, ii, il, media, item.len() as int),
        ii.full_ptr.length >= 12 + iinf_count_width(ii.version),
        raw_box_at(mb.subrange(12, mb.len() as int), il.full_ptr.offset as int) == Some(Ok::<Option<RawBox>, ExifError>(Some(bl))),
        bl.box_type == ILOC,
        bl.full_ptr == il.full_ptr,
        item_location_box(mb.subrange(12, mb.len() as int), bl, 12) == Ok::<ItemLocationBoxView, ExifError>(il),
        read_data(mb.subrange(12, mb.len() as int), bl.data_ptr) matches Ok(d) && loc_fills(d),
    ensures
        ({
            let g = growth_of(mb, m, ii, il);
            let big = grown_meta(mb, m, ii, il, media, item);
            let c2 = big.subrange(12, big.len() as int);
            let p = gpos(g, g.tl);
            let t2 = RawBox {
                box_type: ILOC,
                full_ptr: Ptr { offset: p as u64, length: (il.full_ptr.length + g.entry_len) as usize },
                data_ptr: Ptr { offset: (p + 8) as u64, length: (il.full_ptr.length + g.entry_len - 8) as usize },
            };
            &&& raw_box_at(c2, p) == Some(Ok::<Option<RawBox>, ExifError>(Some(t2)))
            &&& data_end(t2) == gpos(g, g.el)
            &&& item_location_box(c2, t2, 12) matches Ok(il2) && il2.entries.len() == il.entries.len() + 1
                && il2.entries.subrange(0, il.entries.len() as int) == moved_entries(il.entries, p - g.tl)
                && il2.entries.last().item_id == new_item_id(ii, il) && il2.entries.last().base_offset == 0
                && il2.entries.last().extents.len() == 1 && ev_value(il2.entries.last().extents[0].extent_offset)
                == new_item_offset(media, 21 + g.entry_len) && ev_value(il2.entries.last().extents[0].extent_length)
                == item.len() && ev_position(il2.entries.last().extents[0].extent_offset) >= 12 + p
                + il.full_ptr.length && ev_position(il2.entries.last().extents[0].extent_length) >= 12 + p
                + il.full_ptr.length
        }),
{
    let c = mb.subrange(12, mb.len() as int);
    lemma_iloc_box_facts(c, bl, 12, il);
    let d = read_data(c, bl.data_ptr)->Ok_0;
    lemma_iloc_target_bytes(mb, m, ii, il, media, item, bl, d);
    let id = new_item_id(ii, il) as u16;
    lemma_can_add_sizes(mb, m, ii, il, media, item.len() as int);
    lemma_can_add_places(mb, m, ii, il, media, item.len() as int);
    lemma_grown_map(mb, m, ii, il, media, item);
    lemma_max_loc(il.entries);
    assert forall|k: int| 0 <= k < il.entries.len() implies #[trigger] il.entries[k].item_id != id by {
        assert(il.entries[k].item_id <= max_loc_id(il.entries));
    }
    let g = growth_of(mb, m, ii, il);
    let p = gpos(g, g.tl);
    let ll = il.full_ptr.length as int;
    let big = grown_meta(mb, m, ii, il, media, item);
    let c2 = big.subrange(12, big.len() as int);
    lemma_iloc_grows(c, bl, 12, il, c2, RawBox {
        box_type: ILOC,
        full_ptr: Ptr { offset: p as u64, length: (ll + g.entry_len) as usize },
        data_ptr: Ptr { offset: (p + 8) as u64, length: (ll + g.entry_len - 8) as usize },
    }, 12, c2.subrange(p + 8, p + ll), id, new_item_offset(media, 21 + g.entry_len) as u64, item.len() as u64);
}

/// No child box found yet.
pub open spec fn empty_children() -> MetaChildren {
    MetaChildren { boxes: Seq::empty(), iinf: None, iloc: None }
}

/// The entries of the `iinf` box that the copy puts in: those of `ii` and the new one.
pub open spec fn grown_iinf(ii: ItemInfoBoxView, id: u16, t2: RawBox) -> ItemInfoBoxView {
    ItemInfoBoxView {
        version: ii.version,
        flags: ii.flags,
        entries: ii.entries.push(new_info_view(id)),
        full_ptr: t2.full_ptr,
        data_ptr: t2.data_ptr,
    }
}

/// The `iinf` box `i2` holds the entries of `ii` and the new one, and the `iloc` box `l2`
/// the entries of `il`, their fields `delta` bytes further, and the new one: one extent of
/// `n` bytes after the media data of `media`, its fields at `lim` or after.
pub open spec fn added_children(
    i2: Option<ItemInfoBoxView>,
    l2: Option<ItemLocationBoxView>,
    ii: ItemInfoBoxView,
    il: ItemLocationBoxView,
    media: RawBox,
    n: int,
    delta: int,
    el: int,
    lim: int,
) -> bool {
    &&& i2 matches Some(ii2) && ii2.entries == ii.entries.push(new_info_view(new_item_id(ii, il) as u16))
    &&& l2 matches Some(il2) && ev_position(il2.entries.last().extents[0].extent_offset) >= lim
    &&& l2 matches Some(il2) && ev_position(il2.entries.last().extents[0].extent_length) >= lim
    &&& l2 matches Some(il2) && il2.entries.len() == il.entries.len() + 1
    &&& l2 matches Some(il2) && il2.entries.subrange(0, il.entries.len() as int) == moved_entries(il.entries, delta)
    &&& l2 matches Some(il2) && il2.entries.last().item_id == new_item_id(ii, il)
    &&& l2 matches Some(il2) && il2.entries.last().base_offset == 0
    &&& l2 matches Some(il2) && il2.entries.last().extents.len() == 1
    &&& l2 matches Some(il2) && ev_value(il2.entries.last().extents[0].extent_offset) == new_item_offset(media, 21 + el)
    &&& l2 matches Some(il2) && ev_value(il2.entries.last().extents[0].extent_length) == n
}

/// The children of the grown `meta` bytes decode into the grown `iinf` box and an `iloc`
/// box whose entries are those of the file, their fields moved, and the new one.
#[verifier::spinoff_prover]
#[verifier::rlimit(80)]
proof fn lemma_grown_children_decode(
    mb: Seq<u8>,
    m: MetaBoxView,
    ii: ItemInfoBoxView,
    il: ItemLocationBoxView,
    media: RawBox,
    item: Seq<u8>,
    o1: int,
    o2: int,
    res1: MetaChildren,
)
    requires
        mb.len() <= u64::MAX,
        can_add(mb, m, ii, il, media, item.len() as int),
        mb.len() >= 12,
        meta_children(mb.subrange(12, mb.len() as int), 0, 12, o1, MetaChildren { boxes: Seq::empty(), iinf: None, iloc: None })
            == Some(Ok::<MetaChildren, ExifError>(res1)),
        res1.iinf == Some(ii),
        res1.iloc == Some(il),
        ii.version == 0,
        children_within(mb.subrange(12, mb.len() as int), 0),
        read_data(mb.subrange(12, mb.len() as int), ii.data_ptr) matches Ok(d) && info_fills(d),
        read_data(mb.subrange(12, mb.len() as int), il.data_ptr) matches Ok(d) && loc_fills(d),
    ensures
        ({
            let g = growth_of(mb, m, ii, il);
            let big = grown_meta(mb, m, ii, il, media, item);
            let c2 = big.subrange(12, big.len() as int);
            meta_children(c2, 0, 12, o2, MetaChildren { boxes: Seq::empty(), iinf: None, iloc: None }) matches Some(
                Ok(r2),
            ) && added_children(
                r2.iinf,
                r2.iloc,
                ii,
                il,
                media,
                item.len() as int,
                gpos(g, g.tl) - g.tl,
                g.entry_len,
                12 + gpos(g, g.tl) + il.full_ptr.length,
            )
        }),
        ii.full_ptr.length >= 12 + iinf_count_width(ii.version),
        il.full_ptr.length >= 14 + iloc_count_width(il.version),
{
    let c = mb.subrange(12, mb.len() as int);
    let empty = MetaChildren { boxes: Seq::empty(), iinf: None, iloc: None };
    lemma_children_visits(c, 0, 12, o1, empty, res1);
    let bi = raw_box_at(c, ii.full_ptr.offset as int)->Some_0->Ok_0->Some_0;
    let bl = raw_box_at(c, il.full_ptr.offset as int)->Some_0->Ok_0->Some_0;
    lemma_raw_box_at_in(c, ii.full_ptr.offset as int);
    lemma_raw_box_at_in(c, il.full_ptr.offset as int);
    lemma_iinf_place(c, bi);
    lemma_iloc_box_facts(c, bl, 12, il);
    lemma_can_add_places(mb, m, ii, il, media, item.len() as int);
    let g = growth_of(mb, m, ii, il);
    let big = grown_meta(mb, m, ii, il, media, item);
    let c2 = big.subrange(12, big.len() as int);
    lemma_iinf_target(mb, m, ii, il, media, item, bi);
    lemma_iloc_target(mb, m, ii, il, media, item, bl);
    lemma_grown_children(mb, m, ii, il, media, item);
    let p1 = gpos(g, g.ti);
    let t2i = RawBox {
        box_type: IINF,
        full_ptr: Ptr { offset: p1 as u64, length: (ii.full_ptr.length + 21) as usize },
        data_ptr: Ptr { offset: (p1 + 8) as u64, length: (ii.full_ptr.length + 13) as usize },
    };
    let p2 = gpos(g, g.tl);
    let t2l = RawBox {
        box_type: ILOC,
        full_ptr: Ptr { offset: p2 as u64, length: (il.full_ptr.length + g.entry_len) as usize },
        data_ptr: Ptr { offset: (p2 + 8) as u64, length: (il.full_ptr.length + g.entry_len - 8) as usize },
    };
    let ii2 = grown_iinf(ii, new_item_id(ii, il) as u16, t2i);
    let il2 = item_location_box(c2, t2l, 12)->Ok_0;
    assert(gpos(g, 0) == 0);
    lemma_children_grow(c, c2, g, 0, 12, o1, o2, empty, empty, res1, t2i, ii2, t2l, il2);
}

/// What a decoded `meta` box was read from: its data, its version and flags, and the
/// children decoded from the rest.
#[verifier::spinoff_prover]
proof fn lemma_meta_facts(buf: Seq<u8>, b: RawBox, m: MetaBoxView)
    requires
        meta_box(buf, b) == Some(Ok::<MetaBoxView, ExifError>(m)),
    ensures
        read_data(buf, b.data_ptr) is Ok,
        ({
            let d = read_data(buf, b.data_ptr)->Ok_0;
            &&& d.len() >= 4
            &&& version_and_flags(d) == Ok::<(u8, u32), ExifError>((m.version, m.flags))
            &&& meta_children(
                d.subrange(4, d.len() as int),
                0,
                b.data_ptr.offset - b.full_ptr.offset + 4,
                b.data_ptr.offset + 4,
                MetaChildren { boxes: Seq::empty(), iinf: None, iloc: None },
            ) matches Some(Ok(ch)) && ch.iinf == m.iinf && ch.iloc == m.iloc
        }),
        m.full_ptr == b.full_ptr,
        m.data_ptr == b.data_ptr,
{
    reveal(meta_box);
}

/// A `meta` box whose data reads, with its version and flags, and whose children decode.
#[verifier::spinoff_prover]
proof fn lemma_meta_unfold(buf: Seq<u8>, b: RawBox)
    requires
        read_data(buf, b.data_ptr) matches Ok(d) && version_and_flags(d) is Ok && meta_children(
            d.subrange(4, d.len() as int),
            0,
            b.data_ptr.offset - b.full_ptr.offset + 4,
            b.data_ptr.offset + 4,
            MetaChildren { boxes: Seq::empty(), iinf: None, iloc: None },
        ) is Some && meta_children(
            d.subrange(4, d.len() as int),
            0,
            b.data_ptr.offset - b.full_ptr.offset + 4,
            b.data_ptr.offset + 4,
            MetaChildren { boxes: Seq::empty(), iinf: None, iloc: None },
        )->Some_0 is Ok,
    ensures
        ({
            let d = read_data(buf, b.data_ptr)->Ok_0;
            let ch = meta_children(
                d.subrange(4, d.len() as int),
                0,
                b.data_ptr.offset - b.full_ptr.offset + 4,
                b.data_ptr.offset + 4,
                MetaChildren { boxes: Seq::empty(), iinf: None, iloc: None },
            )->Some_0->Ok_0;
            meta_box(buf, b) matches Some(Ok(m2)) && m2.iinf == ch.iinf && m2.iloc == ch.iloc && m2.full_ptr
                == b.full_ptr && m2.data_ptr == b.data_ptr
        }),
{
    reveal(meta_box);
}

/// The conditions on the `meta` box `m` of `file` under which the copy's new `Exif` item
/// can be read back: the `iinf` box is of version 0 and its entries fill it, the entries
/// of the `iloc` box fill it, and every child box ends within the `meta` box.
pub open spec fn add_domain(file: Seq<u8>, m: MetaBoxView) -> bool {
    &&& m.iinf matches Some(ii) && ii.version == 0
    &&& read_data(file, m.full_ptr) matches Ok(mb) && mb.len() >= 12 && children_within(mb.subrange(12, mb.len() as int), 0)
    &&& read_data(file, m.full_ptr) matches Ok(mb) && (m.iinf matches Some(ii) && read_data(
        mb.subrange(12, mb.len() as int),
        ii.data_ptr,
    ) matches Ok(d) && info_fills(d))
    &&& read_data(file, m.full_ptr) matches Ok(mb) && (m.iloc matches Some(il) && read_data(
        mb.subrange(12, mb.len() as int),
        il.data_ptr,
    ) matches Ok(d) && loc_fills(d))
}

/// The grown `meta` bytes, standing at `at` in `x`, read as a `meta` box that decodes into
/// the grown `iinf` and `iloc` boxes.
#[verifier::spinoff_prover]
#[verifier::rlimit(80)]
proof fn lemma_grown_meta_decodes(
    file: Seq<u8>,
    m: MetaBoxView,
    media: RawBox,
    item: Seq<u8>,
    x: Seq<u8>,
    at: int,
)
    requires
        file.len() <= u64::MAX,
        raw_box_at(file, m.full_ptr.offset as int) == Some(Ok::<Option<RawBox>, ExifError>(Some(meta_raw(m)))),
        meta_box(file, meta_raw(m)) == Some(Ok::<MetaBoxView, ExifError>(m)),
        add_domain(file, m),
        m.iloc is Some,
        can_add(read_data(file, m.full_ptr)->Ok_0, m, m.iinf->Some_0, m.iloc->Some_0, media, item.len() as int),
        x.len() <= u64::MAX,
        0 <= at,
        ({
            let mb = read_data(file, m.full_ptr)->Ok_0;
            let big = grown_meta(mb, m, m.iinf->Some_0, m.iloc->Some_0, media, item);
            at + big.len() <= x.len() && x.subrange(at, at + big.len()) == big
        }),
    ensures
        ({
            let mb = read_data(file, m.full_ptr)->Ok_0;
            let ii = m.iinf->Some_0;
            let il = m.iloc->Some_0;
            let g = growth_of(mb, m, ii, il);
            let big = grown_meta(mb, m, ii, il, media, item);
            let b = RawBox {
                box_type: META,
                full_ptr: Ptr { offset: at as u64, length: big.len() as usize },
                data_ptr: Ptr { offset: (at + 8) as u64, length: (big.len() - 8) as usize },
            };
            &&& raw_box_at(x, at) == Some(Ok::<Option<RawBox>, ExifError>(Some(b)))
            &&& meta_box(x, b) matches Some(Ok(m2)) && added_children(
                m2.iinf,
                m2.iloc,
                ii,
                il,
                media,
                item.len() as int,
                gpos(g, g.tl) - g.tl,
                g.entry_len,
                12 + gpos(g, g.tl) + il.full_ptr.length,
            )
        }),
{
    let mb = read_data(file, m.full_ptr)->Ok_0;
    let ii = m.iinf->Some_0;
    let il = m.iloc->Some_0;
    let g = growth_of(mb, m, ii, il);
    let big = grown_meta(mb, m, ii, il, media, item);
    let q = add_places(m, ii, il);
    let el = entry_len(il.version, field_sizes(mb.subrange(q.iloc_data + 4, q.iloc_data + 6)));
    let wi = iinf_count_width(ii.version);
    let wl = iloc_count_width(il.version);
    let mo = m.full_ptr.offset as int;
    let ml = m.full_ptr.length as int;
    lemma_can_add_places(mb, m, ii, il, media, item.len() as int);
    lemma_raw_box_at_in(file, mo);
    lemma_meta_facts(file, meta_raw(m), m);
    let d = read_data(file, m.data_ptr)->Ok_0;
    assert(d.subrange(4, d.len() as int) =~= mb.subrange(12, mb.len() as int));
    let res1 = meta_children(
        mb.subrange(12, mb.len() as int),
        0,
        12,
        mo + 12,
        MetaChildren { boxes: Seq::empty(), iinf: None, iloc: None },
    )->Some_0->Ok_0;
    lemma_grown_children_decode(mb, m, ii, il, media, item, mo + 12, at + 12, res1);
    lemma_grown_map(mb, m, ii, il, media, item);
    lemma_resized_facts(mb, m, ii, il, media, item.len() as int);
    let b2 = resized_meta(mb, m, ii, il);
    assert forall|k: int| at <= k < at + 12 implies #[trigger] x[k] == b2[k - at] by {
        assert(grown_at(q.iinf_end, q.iloc_end, el, k - at) == k - at);
        assert(x.subrange(at, at + big.len())[k - at] == big[k - at]);
    }
    assert forall|k: int| 4 <= k < 12 implies #[trigger] b2[k] == mb[k] by {
        assert(!resized_at(q, wi, wl, k));
    }
    assert(be32(x, at) == be32(b2, 0)) by {
        assert(x[at] == b2[0] && x[at + 1] == b2[1] && x[at + 2] == b2[2] && x[at + 3] == b2[3]);
    }
    assert forall|j: int| 4 <= j < 8 implies #[trigger] x[at + j] == file[mo + j] by {
        assert(x[at + j] == b2[(at + j) - at]);
        assert(mb[j] == file[mo + j]);
    }
    lemma_header_resized(file, mo, meta_raw(m), x, at, big.len() as int);
    let rb = RawBox {
        box_type: META,
        full_ptr: Ptr { offset: at as u64, length: big.len() as usize },
        data_ptr: Ptr { offset: (at + 8) as u64, length: (big.len() - 8) as usize },
    };
    let d2 = read_data(x, rb.data_ptr)->Ok_0;
    assert(d2 =~= big.subrange(8, big.len() as int)) by {
        assert forall|k: int| 0 <= k < d2.len() implies d2[k] == big[8 + k] by {
            assert(x.subrange(at, at + big.len())[8 + k] == big[8 + k]);
        }
    }
    assert(d2[0] == d[0] && d2[1] == d[1] && d2[2] == d[2] && d2[3] == d[3]) by {
        assert(d2[0] == x[at + 8] && d2[1] == x[at + 9] && d2[2] == x[at + 10] && d2[3] == x[at + 11]);
        assert(x[at + 8] == b2[8] && x[at + 9] == b2[9] && x[at + 10] == b2[10] && x[at + 11] == b2[11]);
        assert(d[0] == mb[8] && d[1] == mb[9] && d[2] == mb[10] && d[3] == mb[11]);
    }
    assert(version_and_flags(d2) == version_and_flags(d));
    assert(d2.subrange(4, d2.len() as int) =~= big.subrange(12, big.len() as int));
    lemma_meta_unfold(x, rb);
}

/// The fields of the extents of the first entries of `l` are those of `es`, `delta` bytes
/// further, with the same widths, and each entry is for the same item.
pub open spec fn fields_moved(l: Seq<ItemLocationEntryView>, es: Seq<ItemLocationEntryView>, delta: int) -> bool {
    &&& l.len() >= es.len()
    &&& forall|jj: int| 0 <= jj < es.len() ==> (#[trigger] l[jj]).extents.len() == es[jj].extents.len() && l[jj].item_id == es[jj].item_id
    &&& forall|jj: int, k: int|
        0 <= jj < es.len() && 0 <= k < es[jj].extents.len() ==> ev_position((#[trigger] l[jj].extents[k]).extent_offset)
            == ev_position(es[jj].extents[k].extent_offset) + delta && ev_width(l[jj].extents[k].extent_offset)
            == ev_width(es[jj].extents[k].extent_offset)
}

/// Every offset field of the entries `es`, `delta` bytes further, ends by `lim`.
pub open spec fn offsets_before(es: Seq<ItemLocationEntryView>, delta: int, lim: int) -> bool {
    forall|jj: int, k: int|
        0 <= jj < es.len() && 0 <= k < es[jj].extents.len() ==> 0 <= ev_position((#[trigger] es[jj].extents[k]).extent_offset) + delta
            && ev_position(es[jj].extents[k].extent_offset) + delta + ev_width(es[jj].extents[k].extent_offset) <= lim
}

/// Writing a field leaves the fields of an entry where they were, and an entry whose fields
/// lie elsewhere as it was.
proof fn lemma_set_entry_shape(e: ItemLocationEntryView, q: int, val: u64)
    ensures
        set_entry(e, q, val).item_id == e.item_id,
        set_entry(e, q, val).base_offset == e.base_offset,
        set_entry(e, q, val).extents.len() == e.extents.len(),
        forall|k: int|
            0 <= k < e.extents.len() ==> ev_position((#[trigger] set_entry(e, q, val).extents[k]).extent_offset) == ev_position(
                e.extents[k].extent_offset,
            ) && ev_width(set_entry(e, q, val).extents[k].extent_offset) == ev_width(e.extents[k].extent_offset),
        (forall|k: int|
            0 <= k < e.extents.len() ==> ev_position(#[trigger] e.extents[k].extent_offset) != q && ev_position(
                e.extents[k].extent_length,
            ) != q) ==> set_entry(e, q, val) == e,
{
    assert forall|k: int| 0 <= k < e.extents.len() implies ev_position(
        (#[trigger] set_entry(e, q, val).extents[k]).extent_offset,
    ) == ev_position(e.extents[k].extent_offset) && ev_width(set_entry(e, q, val).extents[k].extent_offset) == ev_width(
        e.extents[k].extent_offset,
    ) by {
        let f = e.extents[k].extent_offset;
        assert(set_entry(e, q, val).extents[k] == set_extent(e.extents[k], q, val));
    }
    if forall|k: int|
        0 <= k < e.extents.len() ==> ev_position(#[trigger] e.extents[k].extent_offset) != q && ev_position(
            e.extents[k].extent_length,
        ) != q {
        assert(set_entry(e, q, val).extents =~= e.extents) by {
            assert forall|k: int| 0 <= k < e.extents.len() implies set_entry(e, q, val).extents[k] == e.extents[k] by {
                assert(set_entry(e, q, val).extents[k] == set_extent(e.extents[k], q, val));
                assert(ev_position(e.extents[k].extent_offset) != q);
            }
        }
    }
}

/// The `iloc` entries `l` with the field at `q` holding `val`: the fields stay where they
/// were and the last entry, whose fields lie at `lim` or after, stays as it was.
proof fn lemma_set_keeps(l: Seq<ItemLocationEntryView>, es: Seq<ItemLocationEntryView>, delta: int, q: int, val: u64, lim: int)
    requires
        fields_moved(l, es, delta),
        l.len() == es.len() + 1,
        l.last().extents.len() >= 1 ==> ev_position(l.last().extents[0].extent_offset) >= lim,
        forall|k: int| 0 <= k < l.last().extents.len() ==> ev_position(#[trigger] l.last().extents[k].extent_offset) >= lim
            && ev_position(l.last().extents[k].extent_length) >= lim,
        q < lim,
    ensures
        fields_moved(set_entries(l, q, val), es, delta),
        set_entries(l, q, val).len() == l.len(),
        set_entries(l, q, val).last() == l.last(),
{
    let l2 = set_entries(l, q, val);
    assert forall|jj: int| 0 <= jj < l.len() implies #[trigger] l2[jj] == set_entry(l[jj], q, val) by {}
    assert forall|jj: int| 0 <= jj < es.len() implies (#[trigger] l2[jj]).extents.len() == es[jj].extents.len() && l2[jj].item_id
        == es[jj].item_id by {
        lemma_set_entry_shape(l[jj], q, val);
    }
    assert forall|jj: int, k: int|
        0 <= jj < es.len() && 0 <= k < es[jj].extents.len() implies ev_position((#[trigger] l2[jj].extents[k]).extent_offset)
        == ev_position(es[jj].extents[k].extent_offset) + delta && ev_width(l2[jj].extents[k].extent_offset) == ev_width(
        es[jj].extents[k].extent_offset,
    ) by {
        lemma_set_entry_shape(l[jj], q, val);
        assert(ev_position(l2[jj].extents[k].extent_offset) == ev_position(l[jj].extents[k].extent_offset));
    }
    lemma_set_entry_shape(l.last(), q, val);
    assert(l2.last() == set_entry(l.last(), q, val));
}

/// Raising the offsets of the extents of the entries `es` in the `meta` bytes `buf`, which
/// stand at `at` in `x` and decode there into `m`, keeps the `meta` box decoding: into the
/// same `iinf` box and an `iloc` box whose entries are for the same items, with the last
/// entry as it was.
#[verifier::spinoff_prover]
#[verifier::rlimit(80)]
proof fn lemma_shift_chain(
    x: Seq<u8>,
    at: int,
    b: RawBox,
    buf: Seq<u8>,
    es: Seq<ItemLocationEntryView>,
    i: int,
    j: int,
    sh: int,
    delta: int,
    m: MetaBoxView,
    lim: int,
)
    requires
        x.len() <= u64::MAX,
        0 <= at,
        at + buf.len() <= x.len(),
        x.subrange(at, at + buf.len()) == buf,
        b.full_ptr.offset == at,
        b.full_ptr.offset <= b.data_ptr.offset,
        meta_box(x, b) == Some(Ok::<MetaBoxView, ExifError>(m)),
        0 <= i,
        0 <= j,
        shift_extents(buf, es, i, j, sh, delta) is Some,
        m.iloc matches Some(l) && l.entries.len() == es.len() + 1 && fields_moved(l.entries, es, delta) && (forall|k: int|
            0 <= k < l.entries.last().extents.len() ==> ev_position(#[trigger] l.entries.last().extents[k].extent_offset)
                >= lim && ev_position(l.entries.last().extents[k].extent_length) >= lim),
        offsets_before(es, delta, lim),
        lim <= buf.len(),
    ensures
        ({
            let bf = shift_extents(buf, es, i, j, sh, delta)->Some_0;
            &&& bf.len() == buf.len()
            &&& meta_box(with_meta(x, at, bf), b) matches Some(Ok(m2)) && m2.iinf == m.iinf && (m2.iloc matches Some(l2)
                && m.iloc matches Some(l) && l2.entries.len() == l.entries.len() && l2.entries.last() == l.entries.last()
                && fields_moved(l2.entries, es, delta))
        }),
    decreases es.len() - i, if 0 <= i < es.len() {
        es[i].extents.len() - j
    } else {
        0
    },
{
    let l = m.iloc->Some_0;
    if i >= es.len() {
        assert(with_meta(x, at, buf) =~= x);
    } else if es[i].construction_method != 0 || j >= es[i].extents.len() {
        lemma_shift_chain(x, at, b, buf, es, i + 1, 0, sh, delta, m, lim);
    } else {
        let f = es[i].extents[j].extent_offset;
        let val = (ev_value(f) + sh) as u64;
        let w = ev_width(f);
        let mf = moved_field(f, delta);
        let p = ev_position(f) + delta;
        assert(ev_position(mf) == p && ev_width(mf) == w);
        let bytes = value_bytes(val, w);
        assert(bytes.len() == w) by {
            if w == 2 {
                lemma_u16_bytes_read_back(val as u16);
            } else if w == 4 {
                lemma_u32_bytes_read_back(val as u32);
            } else if w == 8 {
                lemma_u64_bytes_read_back(val);
            }
        }
        let buf2 = overwrite(buf, mf, val);
        assert(buf2 == crate::heic::copy_with_exif::write_at(buf, p, bytes));
        assert(with_meta(x, at, buf) =~= x);
        lemma_written_with_meta(x, at, buf, p, bytes);
        let x2 = with_meta(x, at, buf2);
        assert(crate::heic::reparse::iloc_has_field(m.iloc, p, w)) by {
            assert(crate::heic::reparse::field_of_extent(l.entries[i].extents[j], p, w));
            assert(crate::heic::reparse::field_of_entry(l.entries[i], p, w));
        }
        crate::heic::reparse::lemma_meta_reread(x, x2, p, val, w, b, m);
        let m2 = set_meta(m, p, val);
        lemma_set_keeps(l.entries, es, delta, p, val, lim);
        assert(x2.subrange(at, at + buf2.len()) =~= buf2);
        lemma_shift_chain(x2, at, b, buf2, es, i, j + 1, sh, delta, m2, lim);
        let bf = shift_extents(buf, es, i, j, sh, delta)->Some_0;
        assert(with_meta(x2, at, bf) =~= with_meta(x, at, bf));
    }
}

/// An `ftyp` box whose data is copied elsewhere decodes there too.
proof fn lemma_ftyp_moved(c: Seq<u8>, b: RawBox, c2: Seq<u8>, b2: RawBox)
    requires
        read_data(c2, b2.data_ptr) == read_data(c, b.data_ptr),
        file_type_box(c, b) is Ok,
    ensures
        file_type_box(c2, b2) is Ok,
{
    reveal(file_type_box);
}

/// The 64-bit `mdat` header for `t` bytes, standing at `at`, reads as an `mdat` box of `t`
/// bytes of data.
#[verifier::spinoff_prover]
proof fn lemma_mdat_at(out: Seq<u8>, at: int, t: int)
    requires
        out.len() <= u64::MAX,
        0 <= at,
        0 <= t,
        t + 16 <= usize::MAX,
        at + 16 <= out.len(),
        out.subrange(at, at + 16) == mdat_header(t),
    ensures
        raw_box_at(out, at) == Some(
            Ok::<Option<RawBox>, ExifError>(
                Some(
                    RawBox {
                        box_type: MDAT,
                        full_ptr: Ptr { offset: at as u64, length: (t + 16) as usize },
                        data_ptr: Ptr { offset: (at + 16) as u64, length: t as usize },
                    },
                ),
            ),
        ),
{
    reveal(raw_box_at);
    let h = mdat_header(t);
    let one = u32_bytes(1);
    let ty = u32_bytes(MDAT);
    let ln = u64_bytes((t + 16) as u64);
    lemma_u32_bytes_read_back(1);
    lemma_u32_bytes_read_back(MDAT);
    lemma_u64_bytes_read_back((t + 16) as u64);
    assert(h =~= one + ty + ln);
    assert(out.subrange(at, at + 4) =~= one) by {
        assert forall|k: int| 0 <= k < 4 implies #[trigger] out.subrange(at, at + 4)[k] == one[k] by {
            assert(out.subrange(at, at + 16)[k] == h[k]);
        }
    }
    assert(out.subrange(at + 4, at + 8) =~= ty) by {
        assert forall|k: int| 0 <= k < 4 implies #[trigger] out.subrange(at + 4, at + 8)[k] == ty[k] by {
            assert(out.subrange(at, at + 16)[4 + k] == h[4 + k]);
        }
    }
    assert(out.subrange(at + 8, at + 16) =~= ln) by {
        assert forall|k: int| 0 <= k < 8 implies #[trigger] out.subrange(at + 8, at + 16)[k] == ln[k] by {
            assert(out.subrange(at, at + 16)[8 + k] == h[8 + k]);
        }
    }
    lemma_be32_written(out, at, 1);
    lemma_be32_written(out, at + 4, MDAT);
    lemma_be64_written(out, at + 8, (t + 16) as u64);
    assert(ty =~= seq![0x6du8, 0x64u8, 0x61u8, 0x74u8]);
    assert forall|k: int| 0 <= k < ty.len() implies #[trigger] ty[k] < 0x80 by {}
    crate::text::lemma_ascii_text(ty);
}

/// The bytes of the `free` box of the file, if it has one.
pub open spec fn free_of(file: Seq<u8>, fb: FullBoxView) -> Result<Seq<u8>, ExifError> {
    match fb.free {
        None => Ok(Seq::<u8>::empty()),
        Some(f) => read_data(file, f.full_ptr),
    }
}

/// A box of `file` copied to `q` in `out` reads there as the same box.
proof fn lemma_box_copied(file: Seq<u8>, p: int, b: RawBox, out: Seq<u8>, q: int)
    requires
        file.len() <= u64::MAX,
        out.len() <= u64::MAX,
        0 <= p,
        0 <= q,
        raw_box_at(file, p) == Some(Ok::<Option<RawBox>, ExifError>(Some(b))),
        read_data(file, b.full_ptr) is Ok,
        q + b.full_ptr.length <= out.len(),
        out.subrange(q, q + b.full_ptr.length) == read_data(file, b.full_ptr)->Ok_0,
    ensures
        raw_box_at(out, q) == Some(Ok::<Option<RawBox>, ExifError>(Some(moved_box(b, q)))),
        read_data(out, moved_box(b, q).data_ptr) == read_data(file, b.data_ptr),
        data_end(moved_box(b, q)) == q + b.full_ptr.length,
{
    lemma_raw_box_at_in(file, p);
    let l = b.full_ptr.length as int;
    let h = b.data_ptr.offset - p;
    assert forall|k: int| 0 <= k < l implies #[trigger] out[q + k] == file[p + k] by {
        assert(out.subrange(q, q + l)[k] == file.subrange(p, p + l)[k]);
    }
    assert(out.subrange(q, q + h) =~= file.subrange(p, b.data_ptr.offset as int)) by {
        assert forall|k: int| 0 <= k < h implies #[trigger] out.subrange(q, q + h)[k] == file.subrange(p, b.data_ptr.offset as int)[k] by {
            assert(out[q + k] == file[p + k]);
        }
    }
    lemma_raw_box_translated(file, out, p, q, b);
    let dl = b.data_ptr.length as int;
    assert(out.subrange(q + h, q + h + dl) =~= file.subrange(p + h, p + h + dl)) by {
        assert forall|k: int| 0 <= k < dl implies #[trigger] out.subrange(q + h, q + h + dl)[k] == file.subrange(p + h, p + h + dl)[k] by {
            assert(out[q + (h + k)] == file[p + (h + k)]);
        }
    }
}

/// The copy's boxes: the file's `ftyp` box, the `meta` box `mb2` that decodes into `mf`,
/// the file's `free` box, and an `mdat` box of `t` bytes, one after the other, decode into
/// those boxes.
#[verifier::spinoff_prover]
#[verifier::rlimit(80)]
proof fn lemma_added_top(file: Seq<u8>, fb: FullBoxView, mlen: int, mb2: RawBox, mf: MetaBoxView, out: Seq<u8>, t: int)
    requires
        file.len() <= u64::MAX,
        full_box(file) == Some(Ok::<FullBoxView, ExifError>(fb)),
        read_data(file, fb.ftyp.full_ptr) is Ok,
        free_of(file, fb) is Ok,
        0 <= mlen,
        ({
            let fl = fb.ftyp.full_ptr.length as int;
            let fr = free_of(file, fb)->Ok_0;
            let p = fl + mlen + fr.len();
            &&& out.len() == p + 16 + t
            &&& out.len() <= u64::MAX
            &&& 0 <= t
            &&& t + 16 <= usize::MAX
            &&& out.subrange(0, fl) == read_data(file, fb.ftyp.full_ptr)->Ok_0
            &&& out.subrange(fl + mlen, p) == fr
            &&& out.subrange(p, p + 16) == mdat_header(t)
            &&& raw_box_at(out, fl) == Some(Ok::<Option<RawBox>, ExifError>(Some(mb2)))
            &&& mb2.box_type == META
            &&& data_end(mb2) == fl + mlen
            &&& meta_box(out, mb2) == Some(Ok::<MetaBoxView, ExifError>(mf))
        }),
    ensures
        full_box(out) matches Some(Ok(fb2)) && fb2.meta == mf && fb2.media == (RawBox {
            box_type: MDAT,
            full_ptr: Ptr {
                offset: (fb.ftyp.full_ptr.length + mlen + free_of(file, fb)->Ok_0.len()) as u64,
                length: (t + 16) as usize,
            },
            data_ptr: Ptr {
                offset: (fb.ftyp.full_ptr.length + mlen + free_of(file, fb)->Ok_0.len() + 16) as u64,
                length: t as usize,
            },
        }),
{
    let empty = TopBoxes { ftyp: None, meta: None, free: None, media: None };
    let res = top_boxes(file, 0, empty)->Some_0->Ok_0;
    lemma_top_visits(file, 0, empty, res);
    let fl = fb.ftyp.full_ptr.length as int;
    let fr = free_of(file, fb)->Ok_0;
    let p = fl + mlen + fr.len();
    let bf = ftyp_raw(fb.ftyp);
    let fo = fb.ftyp.full_ptr.offset as int;
    lemma_box_copied(file, fo, bf, out, 0);
    lemma_ftyp_moved(file, bf, out, moved_box(bf, 0));
    let f2 = file_type_box(out, moved_box(bf, 0))->Ok_0;
    let acc1 = TopBoxes { ftyp: Some(f2), ..empty };
    assert(top_boxes(out, 0, empty) == top_boxes(out, fl, acc1));
    let acc2 = TopBoxes { meta: Some(mf), ..acc1 };
    assert(top_boxes(out, fl, acc1) == top_boxes(out, fl + mlen, acc2));
    let acc3 = match fb.free {
        Some(fr_box) => {
            let q = fl + mlen;
            lemma_box_copied(file, fr_box.full_ptr.offset as int, fr_box, out, q);
            let a3 = TopBoxes { free: Some(moved_box(fr_box, q)), ..acc2 };
            assert(top_boxes(out, q, acc2) == top_boxes(out, p, a3));
            a3
        },
        None => {
            acc2
        },
    };
    assert(top_boxes(out, fl + mlen, acc2) == top_boxes(out, p, acc3));
    lemma_mdat_at(out, p, t);
    let md = RawBox {
        box_type: MDAT,
        full_ptr: Ptr { offset: p as u64, length: (t + 16) as usize },
        data_ptr: Ptr { offset: (p + 16) as u64, length: t as usize },
    };
    let acc4 = TopBoxes { media: Some(md), ..acc3 };
    lemma_raw_box_end(out);
    assert(top_boxes(out, p, acc3) == top_boxes(out, out.len() as int, acc4));
}

/// The index that [`find_info_from`] gives is -1 or at least where the search starts.
proof fn lemma_find_info_range(es: Seq<ItemInfoEntryView>, t: Seq<char>, i: int)
    requires
        0 <= i,
    ensures
        find_info_from(es, t, i) == -1 || find_info_from(es, t, i) >= i,
    decreases es.len() - i,
{
    if i < es.len() && es[i].item_type != t {
        lemma_find_info_range(es, t, i + 1);
    }
}

/// An entry of type `t` put after entries of which none is of type `t` is the first found.
proof fn lemma_find_info_push(es: Seq<ItemInfoEntryView>, x: ItemInfoEntryView, t: Seq<char>, i: int)
    requires
        0 <= i <= es.len(),
        find_info_from(es, t, i) == -1,
        x.item_type == t,
    ensures
        find_info_from(es.push(x), t, i) == es.len(),
    decreases es.len() - i,
{
    if i < es.len() {
        assert(es.push(x)[i] == es[i]);
        lemma_find_info_push(es, x, t, i + 1);
    }
}

/// The entry of an item found only in the last entry is the last entry.
proof fn lemma_find_last(es: Seq<ItemLocationEntryView>, id: u32, i: int)
    requires
        es.len() >= 1,
        0 <= i <= es.len() - 1,
        forall|k: int| 0 <= k < es.len() - 1 ==> #[trigger] es[k].item_id != id,
        es.last().item_id == id,
    ensures
        find_entry_from(es, id, i) == es.len() - 1,
    decreases es.len() - i,
{
    if i < es.len() - 1 {
        lemma_find_last(es, id, i + 1);
    }
}

/// Reading the copy, decoded into `fb2` with the new `Exif` item located where the copy
/// holds its bytes, gives the payload back.
#[verifier::spinoff_prover]
#[verifier::rlimit(60)]
proof fn lemma_extract_added(
    out: Seq<u8>,
    fb2: FullBoxView,
    ii: ItemInfoBoxView,
    il: ItemLocationBoxView,
    exif: Seq<u8>,
    off: int,
)
    requires
        find_info_from(ii.entries, exif_type(), 0) == -1,
        new_item_id(ii, il) <= 0xffff,
        fb2.meta.iinf matches Some(i2) && i2.entries == ii.entries.push(new_info_view(new_item_id(ii, il) as u16)),
        fb2.meta.iloc matches Some(l2) && l2.entries.len() == il.entries.len() + 1 && (forall|k: int|
            0 <= k < il.entries.len() ==> #[trigger] l2.entries[k].item_id == il.entries[k].item_id)
            && l2.entries.last().item_id == new_item_id(ii, il) && l2.entries.last().base_offset == 0
            && l2.entries.last().extents.len() == 1 && ev_value(l2.entries.last().extents[0].extent_offset) == off
            && ev_value(l2.entries.last().extents[0].extent_length) == exif_item_bytes(exif).len(),
        0 <= off,
        out.len() <= u64::MAX,
        off + exif_item_bytes(exif).len() <= out.len(),
        out.subrange(off, off + exif_item_bytes(exif).len()) == exif_item_bytes(exif),
        exif.len() + 6 <= MAX_EXIF_LEN,
    ensures
        heic_extract(out, fb2) == Some(Ok::<Option<Seq<u8>>, ExifError>(Some(exif))),
{
    let id = new_item_id(ii, il) as u16;
    let i2 = fb2.meta.iinf->Some_0;
    let l2 = fb2.meta.iloc->Some_0;
    lemma_find_info_push(ii.entries, new_info_view(id), exif_type(), 0);
    assert(item_id_of(fb2.meta, exif_type()) == Some(id as u32));
    lemma_max_loc(il.entries);
    assert forall|k: int| 0 <= k < l2.entries.len() - 1 implies #[trigger] l2.entries[k].item_id != id as u32 by {
        assert(l2.entries[k].item_id == il.entries[k].item_id);
        assert(il.entries[k].item_id <= max_loc_id(il.entries));
    }
    lemma_find_last(l2.entries, id as u32, 0);
    let item = exif_item_bytes(exif);
    let n = item.len() as int;
    assert(item.len() == 10 + exif.len());
    let d = out.subrange(off + 4, off + n);
    assert(d =~= item.subrange(4, n)) by {
        assert forall|k: int| 0 <= k < n - 4 implies #[trigger] d[k] == item.subrange(4, n)[k] by {
            assert(out.subrange(off, off + n)[4 + k] == item[4 + k]);
        }
    }
    assert(d.subrange(0, 6) =~= exif_header());
    assert(d.subrange(6, d.len() as int) =~= exif);
    let e = l2.entries.last();
    let x = e.extents[0];
    assert(crate::heic::boxes::location_of(fb2.meta, id as u32) == Some(e));
    assert(crate::heic::boxes::item_entry(fb2.meta, exif_type()) == Some(e));
    let pp = crate::heic::boxes::extent_ptr(0, x);
    assert(pp == Ptr { offset: off as u64, length: n as usize });
    assert(crate::heic::boxes::item_extents(fb2.meta, exif_type()) == Some(
        e.extents.map_values(|y: ItemLocationExtent| (crate::heic::boxes::extent_ptr(e.base_offset, y), y)),
    ));
    assert(crate::heic::boxes::item_extents_fit(fb2.meta, exif_type()));
    assert(crate::heic::exif_location(fb2.meta) == Some((id as u32, (pp, x))));
    assert(read_data(out, Ptr { offset: (off + 4) as u64, length: (n - 4) as usize }) == Ok::<Seq<u8>, ExifError>(d));
}

/// Raising the offsets keeps the length of the bytes, and the bytes before every offset
/// field.
proof fn lemma_shift_frame(buf: Seq<u8>, es: Seq<ItemLocationEntryView>, i: int, j: int, sh: int, delta: int, lo: int, lim: int)
    requires
        0 <= i,
        0 <= j,
        shift_extents(buf, es, i, j, sh, delta) is Some,
        offsets_before(es, delta, lim),
        forall|jj: int, k: int|
            0 <= jj < es.len() && 0 <= k < es[jj].extents.len() ==> lo <= ev_position((#[trigger] es[jj].extents[k]).extent_offset) + delta,
        lim <= buf.len(),
        buf.len() <= u64::MAX,
    ensures
        shift_extents(buf, es, i, j, sh, delta)->Some_0.len() == buf.len(),
        forall|k: int| 0 <= k < lo && k < buf.len() ==> #[trigger] shift_extents(buf, es, i, j, sh, delta)->Some_0[k] == buf[k],
    decreases es.len() - i, if 0 <= i < es.len() {
        es[i].extents.len() - j
    } else {
        0
    },
{
    if i >= es.len() {
    } else if es[i].construction_method != 0 || j >= es[i].extents.len() {
        lemma_shift_frame(buf, es, i + 1, 0, sh, delta, lo, lim);
    } else {
        let f = es[i].extents[j].extent_offset;
        let val = (ev_value(f) + sh) as u64;
        let mf = moved_field(f, delta);
        assert(ev_position(mf) == ev_position(f) + delta && ev_width(mf) == ev_width(f));
        let buf2 = overwrite(buf, mf, val);
        lemma_overwrite_reads_back(buf, mf, val);
        lemma_shift_frame(buf2, es, i, j + 1, sh, delta, lo, lim);
    }
}

/// Entries whose fields are those of `es` moved by `delta` have the fields [`fields_moved`]
/// speaks of.
proof fn lemma_moved_fields(l: Seq<ItemLocationEntryView>, es: Seq<ItemLocationEntryView>, delta: int)
    requires
        l.len() >= es.len(),
        l.subrange(0, es.len() as int) == moved_entries(es, delta),
        forall|jj: int, k: int|
            0 <= jj < es.len() && 0 <= k < es[jj].extents.len() ==> 0 <= ev_position((#[trigger] es[jj].extents[k]).extent_offset)
                + delta <= u64::MAX,
    ensures
        fields_moved(l, es, delta),
{
    assert forall|jj: int| 0 <= jj < es.len() implies (#[trigger] l[jj]).extents.len() == es[jj].extents.len() && l[jj].item_id
        == es[jj].item_id by {
        assert(l[jj] == l.subrange(0, es.len() as int)[jj]);
    }
    assert forall|jj: int, k: int|
        0 <= jj < es.len() && 0 <= k < es[jj].extents.len() implies ev_position((#[trigger] l[jj].extents[k]).extent_offset)
        == ev_position(es[jj].extents[k].extent_offset) + delta && ev_width(l[jj].extents[k].extent_offset) == ev_width(
        es[jj].extents[k].extent_offset,
    ) by {
        assert(l[jj] == l.subrange(0, es.len() as int)[jj]);
        assert(l[jj] == moved_entry(es[jj], delta));
        assert(l[jj].extents[k] == moved_extent(es[jj].extents[k], delta));
    }
}

/// What a copy `out` that adds an `Exif` item is made of: the file's `ftyp` box, its
/// `meta` bytes grown and with the extents moved, its `free` box, and an `mdat` box of its
/// media data followed by the item.
pub open spec fn copy_shape(file: Seq<u8>, fb: FullBoxView, exif: Seq<u8>, out: Seq<u8>) -> bool {
    let m = fb.meta;
    let item = exif_item_bytes(exif);
    &&& m.iinf is Some
    &&& m.iloc is Some
    &&& read_data(file, m.full_ptr) is Ok
    &&& read_data(file, fb.ftyp.full_ptr) is Ok
    &&& free_of(file, fb) is Ok
    &&& read_data(file, fb.media.data_ptr) is Ok
    &&& ({
        let ii = m.iinf->Some_0;
        let il = m.iloc->Some_0;
        let mb = read_data(file, m.full_ptr)->Ok_0;
        let q = add_places(m, ii, il);
        let el = entry_len(il.version, field_sizes(mb.subrange(q.iloc_data + 4, q.iloc_data + 6)));
        let sh = fb.media.full_ptr.offset + 21 + el + 16 - fb.media.data_ptr.offset;
        let grown = grown_meta(mb, m, ii, il, fb.media, item);
        let md = read_data(file, fb.media.data_ptr)->Ok_0;
        &&& can_add(mb, m, ii, il, fb.media, item.len() as int)
        &&& shift_extents(grown, il.entries, 0, 0, sh, iloc_moved_by(q)) is Some
        &&& out == read_data(file, fb.ftyp.full_ptr)->Ok_0 + shift_extents(grown, il.entries, 0, 0, sh, iloc_moved_by(q))->Some_0
            + free_of(file, fb)->Ok_0 + (mdat_header((md.len() + item.len()) as int) + (md + item))
        &&& md.len() + item.len() + 16 <= u64::MAX
        &&& md.len() + item.len() <= usize::MAX
        &&& md.len() == fb.media.data_ptr.length
    })
}

/// A copy that adds an `Exif` item has the shape [`copy_shape`] says.
#[verifier::spinoff_prover]
#[verifier::rlimit(60)]
proof fn lemma_copy_parts(file: Seq<u8>, fb: FullBoxView, exif: Seq<u8>)
    requires
        item_id_of(fb.meta, exif_type()) is None,
        heic_copy(file, fb, exif) matches Some(Ok(_)),
    ensures
        copy_shape(file, fb, exif, heic_copy(file, fb, exif)->Some_0->Ok_0),
{
    let m = fb.meta;
    let item = exif_item_bytes(exif);
    let srcs = added_sources(fb.media, item);
    let s0 = Seq::<crate::heic::copy_with_exif::SourceView>::empty();
    let s1 = seq![srcs[0]];
    assert(srcs.drop_last() =~= s1);
    assert(s1.drop_last() =~= s0);
    assert(mdat_content(file, s0) == Ok::<Seq<u8>, ExifError>(Seq::empty()));
    assert(sources_total(s0) == 0);
    let md = read_data(file, fb.media.data_ptr);
    assert(s1.last() == srcs[0]);
    assert(mdat_content(file, s1) == (match md {
        Err(e) => Err(e),
        Ok(x) => Ok(Seq::<u8>::empty() + x),
    }));
    if let Ok(x) = md {
        assert(Seq::<u8>::empty() + x =~= x);
    }
    assert(sources_total(s1) == fb.media.data_ptr.length);
}

/// The files a copy that adds an `Exif` item reads back from: a file without an `Exif`
/// item that decodes, whose `meta` box meets [`add_domain`], whose `mdat` box comes right
/// after its `ftyp`, `meta` and `free` boxes (in either order), and whose new payload is
/// not too large to be read.
pub open spec fn add_read_back_domain(file: Seq<u8>, fb: FullBoxView, exif: Seq<u8>) -> bool {
    &&& file.len() + exif.len() + 0x100 <= usize::MAX
    &&& full_box(file) == Some(Ok::<FullBoxView, ExifError>(fb))
    &&& item_id_of(fb.meta, exif_type()) is None
    &&& add_domain(file, fb.meta)
    &&& free_of(file, fb) matches Ok(fr) && fb.media.full_ptr.offset == fb.ftyp.full_ptr.length
        + fb.meta.full_ptr.length + fr.len()
    &&& exif.len() + 6 <= MAX_EXIF_LEN
}

/// The offset fields of the file's `iloc` entries, moved with the `iloc` box, lie before
/// the new entry and after the `meta` box's version and flags.
#[verifier::spinoff_prover]
#[verifier::rlimit(60)]
proof fn lemma_iloc_fields(file: Seq<u8>, m: MetaBoxView, mb: Seq<u8>, ii: ItemInfoBoxView, il: ItemLocationBoxView, media: RawBox, n: int)
    requires
        file.len() <= u64::MAX,
        raw_box_at(file, m.full_ptr.offset as int) == Some(Ok::<Option<RawBox>, ExifError>(Some(meta_raw(m)))),
        meta_box(file, meta_raw(m)) == Some(Ok::<MetaBoxView, ExifError>(m)),
        m.iinf == Some(ii),
        m.iloc == Some(il),
        read_data(file, m.full_ptr) == Ok::<Seq<u8>, ExifError>(mb),
        can_add(mb, m, ii, il, media, n),
    ensures
        ({
            let q = add_places(m, ii, il);
            let g = growth_of(mb, m, ii, il);
            let lim = 12 + gpos(g, g.tl) + il.full_ptr.length;
            &&& iloc_moved_by(q) == gpos(g, g.tl) - g.tl
            &&& offsets_before(il.entries, iloc_moved_by(q), lim)
            &&& forall|jj: int, k: int|
                0 <= jj < il.entries.len() && 0 <= k < il.entries[jj].extents.len() ==> 12 <= ev_position(
                    (#[trigger] il.entries[jj].extents[k]).extent_offset,
                ) + iloc_moved_by(q)
            &&& lim <= mb.len() + 21 + g.entry_len
        }),
{
    let mo = m.full_ptr.offset as int;
    lemma_can_add_places(mb, m, ii, il, media, n);
    let c = mb.subrange(12, mb.len() as int);
    lemma_meta_facts(file, meta_raw(m), m);
    let dm = read_data(file, m.data_ptr)->Ok_0;
    lemma_raw_box_at_in(file, mo);
    assert(dm.subrange(4, dm.len() as int) =~= c) by {
        assert forall|k: int| 0 <= k < c.len() implies #[trigger] dm.subrange(4, dm.len() as int)[k] == c[k] by {
            assert(dm[4 + k] == file[mo + 12 + k]);
            assert(c[k] == mb[12 + k]);
        }
    }
    let ch = meta_children(c, 0, 12, mo + 12, empty_children())->Some_0->Ok_0;
    lemma_children_visits(c, 0, 12, mo + 12, empty_children(), ch);
    let bl = raw_box_at(c, il.full_ptr.offset as int)->Some_0->Ok_0->Some_0;
    lemma_raw_box_at_in(c, il.full_ptr.offset as int);
    crate::heic::reparse::lemma_iloc_layout(c, bl, 12, il);
    lemma_iloc_box_facts(c, bl, 12, il);
    let q = add_places(m, ii, il);
    let g = growth_of(mb, m, ii, il);
    let delta = iloc_moved_by(q);
    let lim = 12 + gpos(g, g.tl) + il.full_ptr.length;
    assert(delta == gpos(g, g.tl) - g.tl);
    assert forall|jj: int, k: int|
        0 <= jj < il.entries.len() && 0 <= k < il.entries[jj].extents.len() implies 12 <= ev_position(
        (#[trigger] il.entries[jj].extents[k]).extent_offset,
    ) + delta && ev_position(il.entries[jj].extents[k].extent_offset) + delta + ev_width(
        il.entries[jj].extents[k].extent_offset,
    ) <= lim by {
        let x = il.entries[jj].extents[k];
        let pos = ev_position(x.extent_offset) as int;
        let w = ev_width(x.extent_offset);
        assert(crate::heic::reparse::field_of_extent(x, pos, w));
        assert(crate::heic::reparse::field_of_entry(il.entries[jj], pos, w));
        assert(crate::heic::reparse::field_of_entries(il.entries, pos, w));
        assert(crate::heic::reparse::extent_fields_in(x, 0, 12 + bl.data_ptr.offset + bl.data_ptr.length));
    }
}

/// The grown `meta` bytes of the file with the extents moved, standing at `at` in `out`,
/// decode into the file's `iinf` entries and the new one, and into the file's `iloc`
/// entries, for the same items, and the new one.
#[verifier::spinoff_prover]
#[verifier::rlimit(100)]
proof fn lemma_moved_meta_decodes(
    file: Seq<u8>,
    m: MetaBoxView,
    media: RawBox,
    item: Seq<u8>,
    out: Seq<u8>,
    at: int,
    sh: int,
)
    requires
        file.len() <= u64::MAX,
        raw_box_at(file, m.full_ptr.offset as int) == Some(Ok::<Option<RawBox>, ExifError>(Some(meta_raw(m)))),
        meta_box(file, meta_raw(m)) == Some(Ok::<MetaBoxView, ExifError>(m)),
        add_domain(file, m),
        m.iloc is Some,
        ({
            let ii = m.iinf->Some_0;
            let il = m.iloc->Some_0;
            let mb = read_data(file, m.full_ptr)->Ok_0;
            let q = add_places(m, ii, il);
            let g = growth_of(mb, m, ii, il);
            let lim = 12 + gpos(g, g.tl) + il.full_ptr.length;
            let grown = grown_meta(mb, m, ii, il, media, item);
            &&& can_add(mb, m, ii, il, media, item.len() as int)
            &&& iloc_moved_by(q) == gpos(g, g.tl) - g.tl
            &&& offsets_before(il.entries, iloc_moved_by(q), lim)
            &&& (forall|jj: int, k: int|
                0 <= jj < il.entries.len() && 0 <= k < il.entries[jj].extents.len() ==> 12 <= ev_position(
                    (#[trigger] il.entries[jj].extents[k]).extent_offset,
                ) + iloc_moved_by(q))
            &&& lim <= grown.len()
            &&& shift_extents(grown, il.entries, 0, 0, sh, iloc_moved_by(q)) is Some
            &&& out.len() <= u64::MAX
            &&& 0 <= at
            &&& at + grown.len() <= out.len()
            &&& out.subrange(at, at + grown.len()) == shift_extents(grown, il.entries, 0, 0, sh, iloc_moved_by(q))->Some_0
        }),
    ensures
        ({
            let ii = m.iinf->Some_0;
            let il = m.iloc->Some_0;
            let mb = read_data(file, m.full_ptr)->Ok_0;
            let g = growth_of(mb, m, ii, il);
            let grown = grown_meta(mb, m, ii, il, media, item);
            let mb2 = RawBox {
                box_type: META,
                full_ptr: Ptr { offset: at as u64, length: grown.len() as usize },
                data_ptr: Ptr { offset: (at + 8) as u64, length: (grown.len() - 8) as usize },
            };
            &&& raw_box_at(out, at) == Some(Ok::<Option<RawBox>, ExifError>(Some(mb2)))
            &&& meta_box(out, mb2) matches Some(Ok(_))
            &&& meta_box(out, mb2)->Some_0->Ok_0.iinf matches Some(i2) && i2.entries == ii.entries.push(
                new_info_view(new_item_id(ii, il) as u16),
            )
            &&& meta_box(out, mb2)->Some_0->Ok_0.iloc matches Some(l2) && l2.entries.len() == il.entries.len() + 1
                && (forall|k: int| 0 <= k < il.entries.len() ==> #[trigger] l2.entries[k].item_id == il.entries[k].item_id)
                && l2.entries.last().item_id == new_item_id(ii, il) && l2.entries.last().base_offset == 0
                && l2.entries.last().extents.len() == 1 && ev_value(l2.entries.last().extents[0].extent_offset)
                == new_item_offset(media, 21 + g.entry_len) && ev_value(l2.entries.last().extents[0].extent_length)
                == item.len()
        }),
{
    let ii = m.iinf->Some_0;
    let il = m.iloc->Some_0;
    let mb = read_data(file, m.full_ptr)->Ok_0;
    let q = add_places(m, ii, il);
    let g = growth_of(mb, m, ii, il);
    let lim = 12 + gpos(g, g.tl) + il.full_ptr.length;
    let grown = grown_meta(mb, m, ii, il, media, item);
    let delta = iloc_moved_by(q);
    let mbf = shift_extents(grown, il.entries, 0, 0, sh, delta)->Some_0;
    lemma_grown_map(mb, m, ii, il, media, item);
    lemma_can_add_places(mb, m, ii, il, media, item.len() as int);
    lemma_shift_frame(grown, il.entries, 0, 0, sh, delta, 12, lim);
    let x_g = out.subrange(0, at) + grown + out.subrange(at + grown.len(), out.len() as int);
    assert(x_g.subrange(at, at + grown.len()) =~= grown);
    lemma_grown_meta_decodes(file, m, media, item, x_g, at);
    let mb2 = RawBox {
        box_type: META,
        full_ptr: Ptr { offset: at as u64, length: grown.len() as usize },
        data_ptr: Ptr { offset: (at + 8) as u64, length: (grown.len() - 8) as usize },
    };
    let mg = meta_box(x_g, mb2)->Some_0->Ok_0;
    let lg = mg.iloc->Some_0;
    lemma_moved_fields(lg.entries, il.entries, delta);
    lemma_shift_chain(x_g, at, mb2, grown, il.entries, 0, 0, sh, delta, mg, lim);
    assert(with_meta(x_g, at, mbf) =~= out);
    assert(out.subrange(at, at + 8) =~= x_g.subrange(at, at + 8)) by {
        assert forall|k: int| 0 <= k < 8 implies #[trigger] out.subrange(at, at + 8)[k] == x_g.subrange(at, at + 8)[k] by {
            assert(out.subrange(at, at + grown.len())[k] == mbf[k]);
            assert(x_g[at + k] == grown[k]);
        }
    }
    lemma_raw_box_moved(x_g, out, at, mb2);
    let mf = meta_box(out, mb2)->Some_0->Ok_0;
    let lf = mf.iloc->Some_0;
    assert forall|k: int| 0 <= k < il.entries.len() implies #[trigger] lf.entries[k].item_id == il.entries[k].item_id by {}
}

/// A copy that adds an `Exif` item is no longer than the file by more than the item and a
/// few hundred bytes.
#[verifier::spinoff_prover]
#[verifier::rlimit(60)]
proof fn lemma_copy_len(file: Seq<u8>, fb: FullBoxView, exif: Seq<u8>, out: Seq<u8>)
    requires
        add_read_back_domain(file, fb, exif),
        copy_shape(file, fb, exif, out),
    ensures
        out.len() <= usize::MAX,
{
    let m = fb.meta;
    let item = exif_item_bytes(exif);
    let ii = m.iinf->Some_0;
    let il = m.iloc->Some_0;
    let mb = read_data(file, m.full_ptr)->Ok_0;
    lemma_can_add_sizes(mb, m, ii, il, fb.media, item.len() as int);
    lemma_can_add_places(mb, m, ii, il, fb.media, item.len() as int);
    let q = add_places(m, ii, il);
    let el = entry_len(il.version, field_sizes(mb.subrange(q.iloc_data + 4, q.iloc_data + 6)));
    let grown = grown_meta(mb, m, ii, il, fb.media, item);
    let g = growth_of(mb, m, ii, il);
    let empty = TopBoxes { ftyp: None, meta: None, free: None, media: None };
    let res = top_boxes(file, 0, empty)->Some_0->Ok_0;
    lemma_top_visits(file, 0, empty, res);
    lemma_raw_box_at_in(file, fb.media.full_ptr.offset as int);
    lemma_iloc_fields(file, m, mb, ii, il, fb.media, item.len() as int);
    lemma_grown_map(mb, m, ii, il, fb.media, item);
    let sh = fb.media.full_ptr.offset + 21 + el + 16 - fb.media.data_ptr.offset;
    let lim = 12 + gpos(g, g.tl) + il.full_ptr.length;
    lemma_shift_frame(grown, il.entries, 0, 0, sh, iloc_moved_by(q), 12, lim);
    assert(el <= 42);
}

/// A copy of the shape [`copy_shape`] says decodes, and reading it gives the payload back.
#[verifier::spinoff_prover]
#[verifier::rlimit(100)]
proof fn lemma_added_copy_reads(file: Seq<u8>, fb: FullBoxView, exif: Seq<u8>, out: Seq<u8>)
    requires
        add_read_back_domain(file, fb, exif),
        copy_shape(file, fb, exif, out),
    ensures
        full_box(out) matches Some(Ok(fb2)) && heic_extract(out, fb2) == Some(Ok::<Option<Seq<u8>>, ExifError>(Some(exif))),
        ({
            let fb2 = full_box(out)->Some_0->Ok_0;
            let ii = fb.meta.iinf->Some_0;
            let il = fb.meta.iloc->Some_0;
            &&& fb2.meta.iinf matches Some(i2) && i2.entries.drop_last() == ii.entries && i2.entries.last().item_type
                == exif_type()
            &&& fb2.meta.iloc matches Some(l2) && l2.entries.len() == il.entries.len() + 1 && forall|k: int|
                0 <= k < il.entries.len() ==> #[trigger] l2.entries[k].item_id == il.entries[k].item_id
        }),
{
    let m = fb.meta;
    let item = exif_item_bytes(exif);
    lemma_copy_len(file, fb, exif, out);
    lemma_can_add_places(read_data(file, fb.meta.full_ptr)->Ok_0, fb.meta, fb.meta.iinf->Some_0, fb.meta.iloc->Some_0, fb.media, exif_item_bytes(exif).len() as int);
    let ii = m.iinf->Some_0;
    let il = m.iloc->Some_0;
    let mb = read_data(file, m.full_ptr)->Ok_0;
    let q = add_places(m, ii, il);
    let el = entry_len(il.version, field_sizes(mb.subrange(q.iloc_data + 4, q.iloc_data + 6)));
    let sh = fb.media.full_ptr.offset + 21 + el + 16 - fb.media.data_ptr.offset;
    let grown = grown_meta(mb, m, ii, il, fb.media, item);
    let mbf = shift_extents(grown, il.entries, 0, 0, sh, iloc_moved_by(q))->Some_0;
    let md = read_data(file, fb.media.data_ptr)->Ok_0;
    let fty = read_data(file, fb.ftyp.full_ptr)->Ok_0;
    let fr = free_of(file, fb)->Ok_0;
    let fl = fb.ftyp.full_ptr.length as int;
    let empty = TopBoxes { ftyp: None, meta: None, free: None, media: None };
    let res = top_boxes(file, 0, empty)->Some_0->Ok_0;
    lemma_top_visits(file, 0, empty, res);
    lemma_iloc_fields(file, m, mb, ii, il, fb.media, item.len() as int);
    lemma_grown_map(mb, m, ii, il, fb.media, item);
    let g = growth_of(mb, m, ii, il);
    let lim = 12 + gpos(g, g.tl) + il.full_ptr.length;
    lemma_shift_frame(grown, il.entries, 0, 0, sh, iloc_moved_by(q), 12, lim);
    assert(out.subrange(fl, fl + grown.len()) =~= mbf);
    lemma_moved_meta_decodes(file, m, fb.media, item, out, fl, sh);
    let mb2 = RawBox {
        box_type: META,
        full_ptr: Ptr { offset: fl as u64, length: grown.len() as usize },
        data_ptr: Ptr { offset: (fl + 8) as u64, length: (grown.len() - 8) as usize },
    };
    let mf = meta_box(out, mb2)->Some_0->Ok_0;
    let t = md.len() + item.len();
    let p = fl + mbf.len() + fr.len();
    assert(out.subrange(0, fl) =~= fty);
    assert(out.subrange(fl + mbf.len(), p) =~= fr);
    assert(out.subrange(p, p + 16) =~= mdat_header(t as int));
    assert(out.len() == p + 16 + t);
    assert(out.len() <= u64::MAX);
    assert(t + 16 <= usize::MAX);
    assert(raw_box_at(out, fl) == Some(Ok::<Option<RawBox>, ExifError>(Some(mb2))));
    assert(data_end(mb2) == fl + mbf.len());
    assert(meta_box(out, mb2) == Some(Ok::<MetaBoxView, ExifError>(mf)));
    lemma_added_top(file, fb, mbf.len() as int, mb2, mf, out, t as int);
    let fb2 = full_box(out)->Some_0->Ok_0;
    lemma_can_add_places(mb, m, ii, il, fb.media, item.len() as int);
    lemma_can_add_sizes(mb, m, ii, il, fb.media, item.len() as int);
    let off = new_item_offset(fb.media, 21 + el);
    assert(out.subrange(off, off + item.len()) =~= item) by {
        assert forall|k: int| 0 <= k < item.len() implies #[trigger] out.subrange(off, off + item.len())[k] == item[k] by {
            assert(out[p + 16 + md.len() + k] == item[k]);
        }
    }
    lemma_find_info_range(ii.entries, exif_type(), 0);
    lemma_extract_added(out, fb2, ii, il, exif, off);
    let i2 = fb2.meta.iinf->Some_0;
    assert(i2.entries.drop_last() =~= ii.entries);
}

/// Copying a HEIC file that has no `Exif` item with an EXIF payload adds the item, and
/// reading the copy gives that payload back: the copy decodes, its `iinf` box holds the
/// file's entries and the new item's entry of type `Exif`, and its `iloc` box the file's
/// entries, for the same items, and the new item's entry (see [`add_read_back_domain`]
/// for the files this holds of; where the copy is refused, nothing is said).
pub proof fn lemma_add_reads_back(file: Seq<u8>, fb: FullBoxView, exif: Seq<u8>)
    requires
        add_read_back_domain(file, fb, exif),
        heic_copy(file, fb, exif) matches Some(Ok(_)),
    ensures
        heic_copy(file, fb, exif) matches Some(Ok(out)) && full_box(out) matches Some(Ok(fb2))
            && heic_extract(out, fb2) == Some(Ok::<Option<Seq<u8>>, ExifError>(Some(exif))),
        ({
            let out = heic_copy(file, fb, exif)->Some_0->Ok_0;
            let fb2 = full_box(out)->Some_0->Ok_0;
            let ii = fb.meta.iinf->Some_0;
            let il = fb.meta.iloc->Some_0;
            &&& fb2.meta.iinf matches Some(i2) && i2.entries.drop_last() == ii.entries && i2.entries.last().item_type
                == exif_type()
            &&& fb2.meta.iloc matches Some(l2) && l2.entries.len() == il.entries.len() + 1 && forall|k: int|
                0 <= k < il.entries.len() ==> #[trigger] l2.entries[k].item_id == il.entries[k].item_id
        }),
{
    lemma_copy_parts(file, fb, exif);
    lemma_added_copy_reads(file, fb, exif, heic_copy(file, fb, exif)->Some_0->Ok_0);
}

} // verus!
