//! A HEIC file copied with the EXIF payload read from it comes out unchanged, where its
//! layout is the one the copy writes.

use vstd::prelude::*;

use crate::bytes::{lemma_u16_bytes_of_be16, lemma_u32_bytes_of_be32, lemma_u64_bytes_of_be64};
use crate::error::ExifError;
use crate::heic::boxes::{
    ev_position, ev_width, iloc_within_meta, item_id_of, location_of, read_data, MetaBoxView, Ptr,
};
use crate::heic::copy_with_exif::{
    all_ptrs_fit, field_value, mdat_box, mdat_content, mdat_header, modify_iloc, overwrite,
    plan_from, sorted_ptrs, sources_total, value_bytes, write_at, ItemLocationPtr,
    ModifyIlocItemKeyView, SourceView,
};
use crate::heic::{
    exif_header, exif_item_bytes, exif_location, exif_type, full_box, heic_assemble, heic_copy,
    heic_extract, FullBoxView,
};

verus! {

/// The file is its boxes back to back: `ftyp`, `meta`, `free` if there is one, and
/// `mdat` up to the end of the file, with the 64-bit form of the `mdat` header.
pub open spec fn boxes_back_to_back(file: Seq<u8>, fb: FullBoxView) -> bool {
    let ftyp = fb.ftyp.full_ptr;
    let meta = fb.meta.full_ptr;
    let media = fb.media.full_ptr;
    &&& ftyp.offset == 0
    &&& meta.offset == ftyp.offset + ftyp.length
    &&& match fb.free {
        Some(f) => f.full_ptr.offset == meta.offset + meta.length && media.offset
            == f.full_ptr.offset + f.full_ptr.length,
        None => media.offset == meta.offset + meta.length,
    }
    &&& media.offset + media.length == file.len()
    &&& media.length >= 16
    &&& file.subrange(media.offset as int, media.offset + 16) == mdat_header(media.length - 16)
}

/// The extents `s` follow each other without gap or overlap from `start` to `end`.
pub open spec fn extents_fill(s: Seq<ItemLocationPtr>, start: int, end: int) -> bool {
    &&& s.len() > 0
    &&& s[0].ptr.offset == start
    &&& forall|a: int, b: int|
        #![trigger s[a], s[b]]
        0 <= a && b == a + 1 && b < s.len() ==> s[a].ptr.offset + s[a].ptr.length == s[b].ptr.offset
    &&& s.last().ptr.offset + s.last().ptr.length == end
}

/// The EXIF extent can be written back as it was: the EXIF item has that one extent,
/// every extent of the item in `s` is it, its first four bytes are the offset field
/// `0, 0, 0, 6`, and its length field in the `meta` box holds its length.
pub open spec fn exif_extent_restorable(
    file: Seq<u8>,
    fb: FullBoxView,
    s: Seq<ItemLocationPtr>,
) -> bool {
    match exif_location(fb.meta) {
        None => false,
        Some((eid, (p, x))) => {
            let meta = fb.meta.full_ptr;
            &&& location_of(fb.meta, eid) matches Some(e) && e.extents.len() == 1
            &&& forall|j: int| 0 <= j < s.len() && #[trigger] s[j].item_id == eid ==> s[j].ptr == p
            &&& p.offset + 4 <= file.len()
            &&& file.subrange(p.offset as int, p.offset + 4) == seq![0u8, 0u8, 0u8, 6u8]
            &&& field_value(
                file.subrange(meta.offset as int, meta.offset + meta.length),
                ev_position(x.extent_length) as int,
                ev_width(x.extent_length),
            ) == p.length
        },
    }
}

/// Where the extents before the `i`-th end.
pub open spec fn covered(s: Seq<ItemLocationPtr>, i: int, start: int) -> int {
    if i == 0 {
        start
    } else {
        s[i - 1].ptr.offset + s[i - 1].ptr.length
    }
}

pub(crate) proof fn lemma_extents_end_within(s: Seq<ItemLocationPtr>, start: int, end: int, j: int)
    requires
        extents_fill(s, start, end),
        0 <= j < s.len(),
    ensures
        start <= s[j].ptr.offset,
        s[j].ptr.offset + s[j].ptr.length <= end,
    decreases s.len() - j,
{
    if j + 1 < s.len() {
        lemma_extents_end_within(s, start, end, j + 1);
        assert(s[j].ptr.offset + s[j].ptr.length == s[j + 1].ptr.offset);
    }
    if j > 0 {
        lemma_extents_start_within(s, start, end, j);
    }
}

pub(crate) proof fn lemma_extents_start_within(
    s: Seq<ItemLocationPtr>,
    start: int,
    end: int,
    j: int,
)
    requires
        extents_fill(s, start, end),
        0 <= j < s.len(),
    ensures
        start <= s[j].ptr.offset,
    decreases j,
{
    if j > 0 {
        lemma_extents_start_within(s, start, end, j - 1);
        assert(s[j - 1].ptr.offset + s[j - 1].ptr.length == s[j].ptr.offset);
    }
}

proof fn lemma_plan_restores(
    file: Seq<u8>,
    s: Seq<ItemLocationPtr>,
    i: int,
    start: int,
    end: int,
    eid: u32,
    exif: Seq<u8>,
    m: MetaBoxView,
    buf: Seq<u8>,
    sources: Seq<SourceView>,
    p: Ptr,
)
    requires
        0 <= i <= s.len(),
        extents_fill(s, start, end),
        end <= file.len(),
        forall|j: int| 0 <= j < s.len() && #[trigger] s[j].item_id == eid ==> s[j].ptr == p,
        exif == file.subrange(p.offset as int, p.offset + p.length),
        exif.len() == p.length,
        modify_iloc(buf, m, ModifyIlocItemKeyView::Id(eid), None, Some(exif.len() as usize)) == Ok::<
            Seq<u8>,
            ExifError,
        >(buf),
        mdat_content(file, sources) == Ok::<Seq<u8>, ExifError>(
            file.subrange(start, covered(s, i, start)),
        ),
        sources_total(sources) == covered(s, i, start) - start,
    ensures
        plan_from(s, i, eid, exif, m, buf, sources, 0) matches Some(Ok((b, s2))) && b == buf
            && mdat_content(file, s2) == Ok::<Seq<u8>, ExifError>(file.subrange(start, end))
            && sources_total(s2) == end - start,
    decreases s.len() - i,
{
    if i == s.len() {
        assert(covered(s, i, start) == end);
    } else {
        let item = s[i];
        lemma_extents_end_within(s, start, end, i);
        if i > 0 {
            assert(s[i - 1].ptr.offset + s[i - 1].ptr.length == s[i].ptr.offset);
        }
        assert(covered(s, i, start) == item.ptr.offset);
        let chunk = file.subrange(item.ptr.offset as int, item.ptr.offset + item.ptr.length);
        let next = if item.item_id == eid {
            SourceView::Data(exif)
        } else {
            SourceView::OriginFile(item)
        };
        let s2 = sources.push(next);
        assert(s2.drop_last() =~= sources);
        if item.item_id == eid {
            assert(item.ptr == p);
            assert(chunk == exif);
        } else {
            assert(read_data(file, item.ptr) == Ok::<Seq<u8>, ExifError>(chunk));
        }
        assert(file.subrange(start, covered(s, i, start)) + chunk =~= file.subrange(
            start,
            covered(s, i + 1, start),
        ));
        assert(mdat_content(file, s2) == Ok::<Seq<u8>, ExifError>(
            file.subrange(start, covered(s, i + 1, start)),
        ));
        assert(sources_total(s2) == covered(s, i + 1, start) - start);
        lemma_plan_restores(file, s, i + 1, start, end, eid, exif, m, buf, s2, p);
    }
}

proof fn lemma_value_bytes_of_field(buf: Seq<u8>, p: int, w: int)
    requires
        0 <= p,
        p + w <= buf.len(),
        w == 1 || w == 2 || w == 4 || w == 8,
    ensures
        value_bytes(field_value(buf, p, w) as u64, w) == buf.subrange(p, p + w),
{
    if w == 1 {
        assert(value_bytes(field_value(buf, p, w) as u64, w) =~= buf.subrange(p, p + w));
    } else if w == 2 {
        lemma_u16_bytes_of_be16(buf, p);
    } else if w == 4 {
        lemma_u32_bytes_of_be32(buf, p);
    } else {
        lemma_u64_bytes_of_be64(buf, p);
    }
}

proof fn lemma_write_back_same(buf: Seq<u8>, p: int, bytes: Seq<u8>)
    requires
        0 <= p,
        p + bytes.len() <= buf.len(),
        buf.subrange(p, p + bytes.len()) == bytes,
    ensures
        write_at(buf, p, bytes) == buf,
{
    assert(write_at(buf, p, bytes) =~= buf);
}

/// What the extraction read: the EXIF item, written back as [`exif_item_bytes`], is the
/// bytes of its extent.
proof fn lemma_extracted_item(file: Seq<u8>, fb: FullBoxView, e: Seq<u8>)
    requires
        heic_extract(file, fb) == Some(Ok::<Option<Seq<u8>>, ExifError>(Some(e))),
        exif_extent_restorable(file, fb, Seq::empty()),
    ensures
        exif_location(fb.meta) matches Some((eid, (p, x))) && item_id_of(fb.meta, exif_type())
            == Some(eid) && exif_item_bytes(e) == file.subrange(p.offset as int, p.offset + p.length)
            && exif_item_bytes(e).len() == p.length,
{
    let m = fb.meta;
    let (eid, (p, x)) = exif_location(m).unwrap();
    let body = Ptr { offset: (p.offset + 4) as u64, length: (p.length - 4) as usize };
    let d = file.subrange(body.offset as int, body.offset + body.length);
    assert(read_data(file, body) == Ok::<Seq<u8>, ExifError>(d));
    assert(d.subrange(0, 6) == exif_header());
    assert(e == d.subrange(6, d.len() as int));
    assert(exif_item_bytes(e) =~= file.subrange(p.offset as int, p.offset + p.length));
}

/// Writing the length of the EXIF extent back into the copy of the `meta` box leaves the
/// copy as it is, where the field already holds that length.
proof fn lemma_length_write_back(file: Seq<u8>, fb: FullBoxView, n: usize)
    requires
        iloc_within_meta(fb.meta),
        fb.meta.full_ptr.offset + fb.meta.full_ptr.length <= file.len(),
        exif_extent_restorable(file, fb, Seq::empty()),
        exif_location(fb.meta) matches Some((eid, (p, x))) && p.length == n,
    ensures
        exif_location(fb.meta) matches Some((eid, (p, x))) && modify_iloc(
            file.subrange(
                fb.meta.full_ptr.offset as int,
                fb.meta.full_ptr.offset + fb.meta.full_ptr.length,
            ),
            fb.meta,
            ModifyIlocItemKeyView::Id(eid),
            None,
            Some(n),
        ) == Ok::<Seq<u8>, ExifError>(
            file.subrange(
                fb.meta.full_ptr.offset as int,
                fb.meta.full_ptr.offset + fb.meta.full_ptr.length,
            ),
        ),
{
    let m = fb.meta;
    let il = m.iloc.unwrap();
    let (eid, (p, x)) = exif_location(m).unwrap();
    let mp = m.full_ptr;
    let meta_buf = file.subrange(mp.offset as int, mp.offset + mp.length);
    let entry = location_of(m, eid).unwrap();
    let ev = x.extent_length;
    assert(entry.extents[0] == x) by {
        assert(crate::heic::boxes::item_entry(m, exif_type()) == Some(entry));
    }
    assert(ev_position(ev) + ev_width(ev) <= meta_buf.len()) by {
        let j = crate::heic::boxes::find_entry(il.entries, eid);
        crate::heic::boxes::lemma_find_entry_bounds(il.entries, eid, 0);
        assert(il.entries[j] == entry);
        assert(crate::heic::boxes::extents_within(il.entries[j].extents, mp.length as int));
    }
    let w = ev_width(ev);
    lemma_value_bytes_of_field(meta_buf, ev_position(ev) as int, w);
    lemma_write_back_same(meta_buf, ev_position(ev) as int, value_bytes(p.length as u64, w));
    assert(overwrite(meta_buf, ev, n as u64) == meta_buf);
}

/// The boxes written back to back, with the `meta` copy and the media data of the file,
/// give the file.
proof fn lemma_assemble_gives_file_back(file: Seq<u8>, fb: FullBoxView, srcs: Seq<SourceView>)
    requires
        file.len() <= usize::MAX,
        boxes_back_to_back(file, fb),
        mdat_content(file, srcs) == Ok::<Seq<u8>, ExifError>(
            file.subrange(fb.media.full_ptr.offset + 16, file.len() as int),
        ),
        sources_total(srcs) == file.len() - (fb.media.full_ptr.offset + 16),
    ensures
        heic_assemble(
            file,
            fb,
            file.subrange(
                fb.meta.full_ptr.offset as int,
                fb.meta.full_ptr.offset + fb.meta.full_ptr.length,
            ),
            srcs,
        ) == Some(Ok::<Seq<u8>, ExifError>(file)),
{
    let mp = fb.meta.full_ptr;
    let media = fb.media.full_ptr;
    let start = media.offset + 16;
    let meta_buf = file.subrange(mp.offset as int, mp.offset + mp.length);
    let ftyp_bytes = file.subrange(0, fb.ftyp.full_ptr.length as int);
    assert(read_data(file, fb.ftyp.full_ptr) == Ok::<Seq<u8>, ExifError>(ftyp_bytes));
    let content = file.subrange(start, file.len() as int);
    assert(mdat_box(file, srcs) == Ok::<Seq<u8>, ExifError>(mdat_header(media.length - 16) + content));
    let header = file.subrange(media.offset as int, start);
    match fb.free {
        Some(f) => {
            let free_bytes = file.subrange(f.full_ptr.offset as int, f.full_ptr.offset + f.full_ptr.length);
            assert(read_data(file, f.full_ptr) == Ok::<Seq<u8>, ExifError>(free_bytes));
            assert(ftyp_bytes + meta_buf + free_bytes + (header + content) =~= file);
        },
        None => {
            assert(ftyp_bytes + meta_buf + Seq::<u8>::empty() + (header + content) =~= file);
        },
    }
}

/// Copying a HEIC file with the EXIF payload read from it gives the file back, byte for
/// byte, where the file is laid out as the copy lays it out: its boxes back to back with
/// a 64-bit `mdat` header, the extents of the items filling the media data in order, and
/// the EXIF item in one extent that opens with the offset field `0, 0, 0, 6` and whose
/// `iloc` length field holds its length.
pub proof fn lemma_copy_with_own_exif_gives_file_back(file: Seq<u8>, fb: FullBoxView, e: Seq<u8>)
    requires
        file.len() <= usize::MAX,
        full_box(file) == Some(Ok::<FullBoxView, ExifError>(fb)),
        iloc_within_meta(fb.meta),
        heic_extract(file, fb) == Some(Ok::<Option<Seq<u8>>, ExifError>(Some(e))),
        boxes_back_to_back(file, fb),
        fb.meta.iloc matches Some(il) && all_ptrs_fit(il.entries) && extents_fill(
            sorted_ptrs(il.entries),
            fb.media.full_ptr.offset + 16,
            file.len() as int,
        ) && exif_extent_restorable(file, fb, sorted_ptrs(il.entries)),
    ensures
        heic_copy(file, fb, e) == Some(Ok::<Seq<u8>, ExifError>(file)),
{
    let m = fb.meta;
    let il = m.iloc.unwrap();
    let s = sorted_ptrs(il.entries);
    let (eid, (p, x)) = exif_location(m).unwrap();
    let mp = m.full_ptr;
    let start = fb.media.full_ptr.offset + 16;
    let meta_buf = file.subrange(mp.offset as int, mp.offset + mp.length);
    let exif = exif_item_bytes(e);
    lemma_extracted_item(file, fb, e);
    assert(mp.offset + mp.length <= file.len()) by {
        match fb.free {
            Some(f) => {},
            None => {},
        }
    }
    assert(read_data(file, mp) == Ok::<Seq<u8>, ExifError>(meta_buf));
    lemma_length_write_back(file, fb, exif.len() as usize);
    assert(file.subrange(start, start) =~= Seq::<u8>::empty());
    lemma_plan_restores(
        file,
        s,
        0,
        start,
        file.len() as int,
        eid,
        exif,
        m,
        meta_buf,
        Seq::empty(),
        p,
    );
    let (b, srcs) = plan_from(s, 0, eid, exif, m, meta_buf, Seq::empty(), 0)->Some_0->Ok_0;
    lemma_assemble_gives_file_back(file, fb, srcs);
}

} // verus!
