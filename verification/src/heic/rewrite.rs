//! A HEIC file copied with another EXIF payload holds that payload: decoded again, its
//! EXIF item reads back what was written.

use vstd::prelude::*;

use crate::bytes::{
    be32, be64, lemma_u32_bytes_read_back, lemma_u64_bytes_read_back, u32_bytes, u64_bytes,
};
use crate::error::ExifError;
use crate::heic::boxes::{
    ev_position, ev_value, ev_width, extent_ptr, extents_within, file_type_box, find_entry,
    find_entry_from, iloc_within_meta, item_entry, item_extents, item_extents_fit, item_id_of,
    lemma_find_entry_bounds, lemma_raw_box_at_in, location_of, meta_box, raw_box_at, read_data,
    remaining, meta_child, meta_children, ExtentValue, ItemLocationEntryView, ItemLocationExtent,
    MetaBoxView, MetaChildren, Ptr, RawBox, FREE, FTYP, MDAT, META, shifted, insert_box,
};
use crate::heic::copy_with_exif::{
    all_ptrs, all_ptrs_fit, entry_ptrs, field_modulus, lemma_overwrite_reads_back,
    lemma_sort_by_offset, mdat_box, mdat_content, mdat_header, modify_iloc, overwrite, plan_from,
    sort_by_offset, sorted_ptrs, sources_total, value_bytes, write_at, ItemLocationPtr,
    ModifyIlocItemKeyView, SourceView,
};
use crate::heic::reparse::{
    extent_end, extent_fields_in, extent_start, field_of_entries, field_of_entry, field_of_extent,
    iloc_apart, iloc_fields_before, iloc_has_field, lemma_find_entry_set, lemma_meta_layout,
    lemma_meta_reread, set_entries, set_entry, set_extent, set_meta, with_value, written,
};
use crate::heic::roundtrip::{boxes_back_to_back, covered, extents_fill, lemma_extents_end_within};
use crate::heic::{
    exif_header, exif_item_bytes, exif_location, exif_type, full_box, heic_assemble, heic_copy,
    heic_extract, top_box, top_boxes, FullBoxView, TopBoxes, MAX_EXIF_LEN,
};

verus! {

/// The extents `s`, sorted by offset, start at `start`, end by `end` and do not overlap
/// (gaps between them are allowed).
pub open spec fn extents_in_order(s: Seq<ItemLocationPtr>, start: int, end: int) -> bool {
    &&& s.len() > 0
    &&& s[0].ptr.offset == start
    &&& forall|a: int, b: int|
        #![trigger s[a], s[b]]
        0 <= a && b == a + 1 && b < s.len() ==> s[a].ptr.offset + s[a].ptr.length <= s[b].ptr.offset
    &&& s.last().ptr.offset + s.last().ptr.length <= end
}

/// Extents that fill the media data are in order.
proof fn lemma_fill_in_order(s: Seq<ItemLocationPtr>, start: int, end: int)
    requires
        extents_fill(s, start, end),
    ensures
        extents_in_order(s, start, end),
{
    assert forall|a: int, b: int|
        #![trigger s[a], s[b]]
        0 <= a && b == a + 1 && b < s.len() implies s[a].ptr.offset + s[a].ptr.length
        <= s[b].ptr.offset by {
        assert(s[a].ptr.offset + s[a].ptr.length == s[b].ptr.offset);
    }
}

/// The extents before the `k`-th end where it starts, or before.
proof fn lemma_fill_order(s: Seq<ItemLocationPtr>, start: int, end: int, j: int, k: int)
    requires
        extents_in_order(s, start, end),
        0 <= j < k < s.len(),
    ensures
        s[j].ptr.offset + s[j].ptr.length <= s[k].ptr.offset,
    decreases k - j,
{
    assert(s[k - 1].ptr.offset + s[k - 1].ptr.length <= s[k].ptr.offset);
    if j < k - 1 {
        lemma_fill_order(s, start, end, j, k - 1);
    }
}

/// Every extent in order lies within `[start, end)`.
proof fn lemma_in_order_within(s: Seq<ItemLocationPtr>, start: int, end: int, j: int)
    requires
        extents_in_order(s, start, end),
        0 <= j < s.len(),
    ensures
        start <= s[j].ptr.offset,
        s[j].ptr.offset + s[j].ptr.length <= end,
{
    if j > 0 {
        lemma_fill_order(s, start, end, 0, j);
    }
    if j < s.len() - 1 {
        lemma_fill_order(s, start, end, j, s.len() - 1);
    }
}

/// Rewriting a field of the single extent of an item, in a copy of its `meta` box,
/// succeeds and keeps the copy's length.
proof fn lemma_modify_iloc_ok(
    buf: Seq<u8>,
    m: MetaBoxView,
    id: u32,
    offset: Option<u64>,
    length: Option<usize>,
)
    requires
        iloc_within_meta(m),
        buf.len() == m.full_ptr.length,
        location_of(m, id) matches Some(e) && e.extents.len() == 1,
    ensures
        modify_iloc(buf, m, ModifyIlocItemKeyView::Id(id), offset, length) matches Ok(b2) && b2.len()
            == buf.len(),
{
    let il = m.iloc->Some_0;
    lemma_find_entry_bounds(il.entries, id, 0);
    let j = find_entry(il.entries, id);
    let x = il.entries[j].extents[0];
    assert(extents_within(il.entries[j].extents, m.full_ptr.length as int));
    let b1 = match offset {
        Some(o) => overwrite(buf, x.extent_offset, o),
        None => buf,
    };
    if let Some(o) = offset {
        lemma_overwrite_reads_back(buf, x.extent_offset, o);
    }
    if let Some(l) = length {
        lemma_overwrite_reads_back(b1, x.extent_length, l as u64);
    }
}

/// What the copy writes in place of the EXIF extent of `pl` bytes: the new item bytes
/// `exif`, then zeros up to `pl` bytes where `exif` is shorter.
pub open spec fn replaced_item(exif: Seq<u8>, pl: int) -> Seq<u8> {
    if exif.len() < pl {
        exif + Seq::new((pl - exif.len()) as nat, |i: int| 0u8)
    } else {
        exif
    }
}

/// How much the EXIF item grows.
pub open spec fn growth(exif: Seq<u8>, pl: int) -> int {
    if exif.len() > pl {
        exif.len() - pl
    } else {
        0
    }
}

/// One step of the plan at the EXIF extent, which starts where the extent before it ends
/// or after.
#[verifier::spinoff_prover]
proof fn lemma_plan_step_exif(
    s: Seq<ItemLocationPtr>,
    i: int,
    eid: u32,
    exif: Seq<u8>,
    m: MetaBoxView,
    buf: Seq<u8>,
    sources: Seq<SourceView>,
    b2: Seq<u8>,
)
    requires
        0 <= i < s.len(),
        s[i].item_id == eid,
        i > 0 ==> s[i - 1].ptr.offset + s[i - 1].ptr.length <= s[i].ptr.offset,
        exif.len() <= u64::MAX,
        modify_iloc(buf, m, ModifyIlocItemKeyView::Id(eid), None, Some(exif.len() as usize)) == Ok::<
            Seq<u8>,
            ExifError,
        >(b2),
    ensures
        plan_from(s, i, eid, exif, m, buf, sources, 0) == if exif.len() > s[i].ptr.length {
            plan_from(
                s,
                i + 1,
                eid,
                exif,
                m,
                b2,
                with_gap(s, i, sources).push(SourceView::Data(exif)),
                (exif.len() - s[i].ptr.length) as u64,
            )
        } else if exif.len() < s[i].ptr.length {
            plan_from(
                s,
                i + 1,
                eid,
                exif,
                m,
                b2,
                with_gap(s, i, sources).push(SourceView::Data(exif)).push(
                    SourceView::Zero((s[i].ptr.length - exif.len()) as u64),
                ),
                0,
            )
        } else {
            plan_from(s, i + 1, eid, exif, m, b2, with_gap(s, i, sources).push(SourceView::Data(exif)), 0)
        },
{
}

/// The stretches of the new media data `sources`, with the zeros that stand for a gap
/// before the `i`-th of the extents `s`, where there is one.
pub open spec fn with_gap(s: Seq<ItemLocationPtr>, i: int, sources: Seq<SourceView>) -> Seq<SourceView> {
    if i > 0 && s[i - 1].ptr.offset + s[i - 1].ptr.length < s[i].ptr.offset {
        sources.push(
            SourceView::Zero((s[i].ptr.offset - (s[i - 1].ptr.offset + s[i - 1].ptr.length)) as u64),
        )
    } else {
        sources
    }
}

/// One step of the plan at an extent of another item, which starts where the extent
/// before it ends or after.
#[verifier::spinoff_prover]
proof fn lemma_plan_step_other(
    s: Seq<ItemLocationPtr>,
    i: int,
    eid: u32,
    exif: Seq<u8>,
    m: MetaBoxView,
    buf: Seq<u8>,
    sources: Seq<SourceView>,
    adjust: u64,
    b2: Seq<u8>,
)
    requires
        0 <= i < s.len(),
        s[i].item_id != eid,
        i > 0 ==> s[i - 1].ptr.offset + s[i - 1].ptr.length <= s[i].ptr.offset,
        s[i].ptr.offset + adjust <= u64::MAX,
        adjust > 0 ==> modify_iloc(
            buf,
            m,
            ModifyIlocItemKeyView::Id(s[i].item_id),
            Some((s[i].ptr.offset + adjust) as u64),
            None,
        ) == Ok::<Seq<u8>, ExifError>(b2),
        adjust == 0 ==> b2 == buf,
    ensures
        plan_from(s, i, eid, exif, m, buf, sources, adjust) == plan_from(
            s,
            i + 1,
            eid,
            exif,
            m,
            b2,
            with_gap(s, i, sources).push(SourceView::OriginFile(s[i])),
            adjust,
        ),
{
}

/// `n` zero bytes.
pub open spec fn zeros(n: int) -> Seq<u8> {
    Seq::new(n as nat, |i: int| 0u8)
}

/// What the copy writes for the extents after the `k`-th, up to the `i`-th (excluded):
/// each extent's bytes, after as many zeros as lie between it and the extent before it.
pub open spec fn after_exif(file: Seq<u8>, s: Seq<ItemLocationPtr>, k: int, i: int) -> Seq<u8>
    decreases i - k,
{
    if i <= k + 1 {
        Seq::empty()
    } else {
        after_exif(file, s, k, i - 1) + zeros(s[i - 1].ptr.offset - covered(s, i - 1, 0))
            + file.subrange(s[i - 1].ptr.offset as int, s[i - 1].ptr.offset + s[i - 1].ptr.length)
    }
}

/// What the copy writes for the extents before the `i`-th: each extent's bytes, after as
/// many zeros as lie between it and the extent before it (or `start`).
pub open spec fn gapped(file: Seq<u8>, s: Seq<ItemLocationPtr>, start: int, i: int) -> Seq<u8>
    decreases i,
{
    if i <= 0 {
        Seq::empty()
    } else {
        gapped(file, s, start, i - 1) + zeros(s[i - 1].ptr.offset - covered(s, i - 1, start))
            + file.subrange(s[i - 1].ptr.offset as int, s[i - 1].ptr.offset + s[i - 1].ptr.length)
    }
}

/// What the copy writes before the `k`-th extent (the EXIF extent): [`gapped`], then the
/// zeros of the gap before it.
pub open spec fn before_exif(file: Seq<u8>, s: Seq<ItemLocationPtr>, start: int, k: int) -> Seq<u8> {
    gapped(file, s, start, k) + zeros(s[k].ptr.offset - covered(s, k, start))
}

/// The media data planned so far, before the `i`-th extent, where the EXIF item has the
/// one extent `p`, the `k`-th of `s`: up to the EXIF extent, [`gapped`]; after it,
/// [`before_exif`], the new item, then [`after_exif`]; and the shift so far.
#[verifier::opaque]
pub open spec fn planned_so_far(
    file: Seq<u8>,
    s: Seq<ItemLocationPtr>,
    i: int,
    k: int,
    start: int,
    exif: Seq<u8>,
    p: Ptr,
    sources: Seq<SourceView>,
    adjust: u64,
) -> bool {
    let c = covered(s, i, start);
    if i <= k {
        &&& adjust == 0
        &&& mdat_content(file, sources) == Ok::<Seq<u8>, ExifError>(gapped(file, s, start, i))
        &&& sources_total(sources) == c - start
    } else {
        &&& adjust == growth(exif, p.length as int)
        &&& mdat_content(file, sources) == Ok::<Seq<u8>, ExifError>(
            before_exif(file, s, start, k) + replaced_item(exif, p.length as int)
                + after_exif(file, s, k, i),
        )
        &&& sources_total(sources) == p.offset - start + replaced_item(exif, p.length as int).len()
            + after_exif(file, s, k, i).len()
    }
}

/// The extents are in order, and the EXIF item's extents are all `p`, the `k`-th.
pub open spec fn plan_layout(
    file: Seq<u8>,
    s: Seq<ItemLocationPtr>,
    k: int,
    start: int,
    end: int,
    eid: u32,
    p: Ptr,
) -> bool {
    &&& 0 <= k < s.len()
    &&& s[k].item_id == eid
    &&& p.length > 0
    &&& extents_in_order(s, start, end)
    &&& end <= file.len()
    &&& forall|j: int| 0 <= j < s.len() && #[trigger] s[j].item_id == eid ==> s[j].ptr == p
}

/// Where the `i`-th extent lies among the covered media data.
proof fn lemma_covered_step(s: Seq<ItemLocationPtr>, i: int, start: int, end: int)
    requires
        extents_in_order(s, start, end),
        0 <= i < s.len(),
    ensures
        i == 0 ==> covered(s, i, start) == s[i].ptr.offset,
        covered(s, i + 1, start) == s[i].ptr.offset + s[i].ptr.length,
        start <= s[i].ptr.offset,
        s[i].ptr.offset + s[i].ptr.length <= end,
        i > 0 ==> s[i - 1].ptr.offset + s[i - 1].ptr.length <= s[i].ptr.offset,
        covered(s, i, start) <= s[i].ptr.offset,
        i > 0 ==> covered(s, i, start) == s[i - 1].ptr.offset + s[i - 1].ptr.length,
{
    lemma_in_order_within(s, start, end, i);
    if i > 0 {
        assert(s[i - 1].ptr.offset + s[i - 1].ptr.length <= s[i].ptr.offset);
    }
}

/// The plan after the EXIF extent.
#[verifier::spinoff_prover]
proof fn lemma_planned_exif(
    file: Seq<u8>,
    s: Seq<ItemLocationPtr>,
    k: int,
    start: int,
    end: int,
    eid: u32,
    exif: Seq<u8>,
    p: Ptr,
    sources: Seq<SourceView>,
)
    requires
        plan_layout(file, s, k, start, end, eid, p),
        exif.len() <= u64::MAX,
        planned_so_far(file, s, k, k, start, exif, p, sources, 0),
        file.len() <= usize::MAX,
    ensures
        ({
            let pl = s[k].ptr.length;
            let g = with_gap(s, k, sources);
            let s2 = if exif.len() > pl {
                g.push(SourceView::Data(exif))
            } else if exif.len() < pl {
                g.push(SourceView::Data(exif)).push(SourceView::Zero((pl - exif.len()) as u64))
            } else {
                g.push(SourceView::Data(exif))
            };
            let adj = if exif.len() > pl {
                (exif.len() - pl) as u64
            } else {
                0u64
            };
            planned_so_far(file, s, k + 1, k, start, exif, p, s2, adj)
        }),
{
    reveal(planned_so_far);
    lemma_covered_step(s, k, start, end);
    assert(s[k].ptr == p);
    let pl = p.length as int;
    let x = replaced_item(exif, pl);
    let head = before_exif(file, s, start, k);
    let a0 = gapped(file, s, start, k);
    let gap = s[k].ptr.offset - covered(s, k, start);
    let sources0 = sources;
    let sources = with_gap(s, k, sources0);
    if gap > 0 {
        assert(sources.drop_last() =~= sources0);
        let n0 = (s[k].ptr.offset - (s[k - 1].ptr.offset + s[k - 1].ptr.length)) as u64;
        assert(n0 == gap);
        assert((n0 as usize) as int == gap);
        assert(Seq::new((n0 as usize) as nat, |j: int| 0u8) =~= zeros(gap));
        assert(sources_total(sources) == sources_total(sources0) + gap);
    } else {
        assert(sources == sources0);
        assert(zeros(gap) =~= Seq::<u8>::empty());
        assert(head =~= a0);
    }
    assert(mdat_content(file, sources) == Ok::<Seq<u8>, ExifError>(head));
    assert(sources_total(sources) == p.offset - start);
    assert(after_exif(file, s, k, k + 1) =~= Seq::<u8>::empty());
    if exif.len() > pl {
        let s2 = sources.push(SourceView::Data(exif));
        assert(s2.drop_last() =~= sources);
        assert(head + x + Seq::<u8>::empty() =~= head + exif);
        assert(mdat_content(file, s2) == Ok::<Seq<u8>, ExifError>(head + exif));
        assert(sources_total(s2) == sources_total(sources) + exif.len());
        assert(planned_so_far(file, s, k + 1, k, start, exif, p, s2, (exif.len() - pl) as u64));
    } else if exif.len() < pl {
        let s1 = sources.push(SourceView::Data(exif));
        let s2 = s1.push(SourceView::Zero((pl - exif.len()) as u64));
        assert(s2.drop_last() =~= s1);
        assert(s1.drop_last() =~= sources);
        let n = (pl - exif.len()) as u64;
        assert((n as usize) as int == pl - exif.len());
        assert(head + x + Seq::<u8>::empty() =~= head + exif + Seq::new(
            (n as usize) as nat,
            |i: int| 0u8,
        ));
        assert(mdat_content(file, s1) == Ok::<Seq<u8>, ExifError>(head + exif));
        assert(mdat_content(file, s2) == Ok::<Seq<u8>, ExifError>(head + x + Seq::<u8>::empty()));
        assert(sources_total(s1) == sources_total(sources) + exif.len());
        assert(sources_total(s2) == sources_total(sources) + pl);
        assert(planned_so_far(file, s, k + 1, k, start, exif, p, s2, 0));
    } else {
        let s2 = sources.push(SourceView::Data(exif));
        assert(s2.drop_last() =~= sources);
        assert(head + x + Seq::<u8>::empty() =~= head + exif);
        assert(mdat_content(file, s2) == Ok::<Seq<u8>, ExifError>(head + exif));
        assert(planned_so_far(file, s, k + 1, k, start, exif, p, s2, 0));
    }
}

/// The plan after an extent of another item.
#[verifier::spinoff_prover]
proof fn lemma_planned_other(
    file: Seq<u8>,
    s: Seq<ItemLocationPtr>,
    i: int,
    k: int,
    start: int,
    end: int,
    eid: u32,
    exif: Seq<u8>,
    p: Ptr,
    sources: Seq<SourceView>,
    adjust: u64,
)
    requires
        plan_layout(file, s, k, start, end, eid, p),
        0 <= i < s.len(),
        s[i].item_id != eid,
        planned_so_far(file, s, i, k, start, exif, p, sources, adjust),
        file.len() <= usize::MAX,
    ensures
        planned_so_far(
            file,
            s,
            i + 1,
            k,
            start,
            exif,
            p,
            with_gap(s, i, sources).push(SourceView::OriginFile(s[i])),
            adjust,
        ),
        i < k ==> adjust == 0,
        i > k ==> adjust == growth(exif, p.length as int),
{
    reveal(planned_so_far);
    lemma_covered_step(s, i, start, end);
    assert(s[k].ptr == p);
    let item = s[i];
    let g = with_gap(s, i, sources);
    let s2 = g.push(SourceView::OriginFile(item));
    assert(s2.drop_last() =~= g);
    let chunk = file.subrange(item.ptr.offset as int, item.ptr.offset + item.ptr.length);
    assert(read_data(file, item.ptr) == Ok::<Seq<u8>, ExifError>(chunk));
    let x = replaced_item(exif, p.length as int);
    if i < k {
        let a = gapped(file, s, start, i);
        let gap = s[i].ptr.offset - covered(s, i, start);
        assert(gapped(file, s, start, i + 1) == a + zeros(gap) + chunk);
        if gap > 0 {
            assert(g.drop_last() =~= sources);
            let n = (s[i].ptr.offset - (s[i - 1].ptr.offset + s[i - 1].ptr.length)) as u64;
            assert(n == gap);
            assert((n as usize) as int == gap);
            assert(Seq::new((n as usize) as nat, |j: int| 0u8) =~= zeros(gap));
            assert(mdat_content(file, g) == Ok::<Seq<u8>, ExifError>(a + zeros(gap)));
            assert(sources_total(g) == sources_total(sources) + gap);
        } else {
            assert(g == sources);
            assert(zeros(gap) =~= Seq::<u8>::empty());
            assert(a + chunk =~= a + zeros(gap) + chunk);
        }
        assert(sources_total(s2) == sources_total(g) + item.ptr.length);
    } else {
        assert(i != k);
        lemma_fill_order(s, start, end, k, i);
        let head = before_exif(file, s, start, k) + x;
        let gap = s[i].ptr.offset - covered(s, i, 0);
        assert(covered(s, i, 0) == covered(s, i, start));
        let a = after_exif(file, s, k, i);
        assert(after_exif(file, s, k, i + 1) == a + zeros(gap) + chunk);
        if gap > 0 {
            assert(g.drop_last() =~= sources);
            let n = (s[i].ptr.offset - (s[i - 1].ptr.offset + s[i - 1].ptr.length)) as u64;
            assert(n == gap);
            assert((n as usize) as int == gap);
            assert(Seq::new((n as usize) as nat, |j: int| 0u8) =~= zeros(gap));
            assert(mdat_content(file, g) == Ok::<Seq<u8>, ExifError>(head + a + zeros(gap)));
            assert(head + a + zeros(gap) + chunk =~= head + (a + zeros(gap) + chunk));
            assert(sources_total(g) == sources_total(sources) + gap);
        } else {
            assert(g == sources);
            assert(zeros(gap) =~= Seq::<u8>::empty());
            assert(head + a + chunk =~= head + (a + zeros(gap) + chunk));
        }
        assert(sources_total(s2) == sources_total(g) + item.ptr.length);
        assert(zeros(gap).len() == gap);
        assert(after_exif(file, s, k, i + 1).len() == a.len() + gap + item.ptr.length);
    }
}

/// The EXIF item's extent is the `k`-th alone.
proof fn lemma_exif_at(
    s: Seq<ItemLocationPtr>,
    i: int,
    k: int,
    start: int,
    end: int,
    eid: u32,
    p: Ptr,
)
    requires
        0 <= k < s.len(),
        s[k].item_id == eid,
        p.length > 0,
        extents_in_order(s, start, end),
        forall|j: int| 0 <= j < s.len() && #[trigger] s[j].item_id == eid ==> s[j].ptr == p,
        0 <= i < s.len(),
        s[i].item_id == eid,
    ensures
        i == k,
{
    assert(s[k].ptr == p);
    assert(s[i].ptr == p);
    if i < k {
        lemma_fill_order(s, start, end, i, k);
    } else if i > k {
        lemma_fill_order(s, start, end, k, i);
    }
}

/// The plan of the new media data, where the extents are in order and the EXIF item has
/// the one extent `p` (the `k`-th): the media data up to that extent, the new item, then
/// [`after_exif`].
#[verifier::spinoff_prover]
proof fn lemma_plan_replaces(
    file: Seq<u8>,
    s: Seq<ItemLocationPtr>,
    i: int,
    k: int,
    start: int,
    end: int,
    eid: u32,
    exif: Seq<u8>,
    m: MetaBoxView,
    buf: Seq<u8>,
    sources: Seq<SourceView>,
    adjust: u64,
    p: Ptr,
)
    requires
        0 <= i <= s.len(),
        plan_layout(file, s, k, start, end, eid, p),
        end + growth(exif, p.length as int) <= u64::MAX,
        exif.len() <= usize::MAX,
        file.len() <= usize::MAX,
        iloc_within_meta(m),
        buf.len() == m.full_ptr.length,
        location_of(m, eid) matches Some(e) && e.extents.len() == 1,
        exif.len() > p.length ==> forall|j: int|
            k < j < s.len() ==> (location_of(m, #[trigger] s[j].item_id) matches Some(e)
                && e.extents.len() == 1),
        planned_so_far(file, s, i, k, start, exif, p, sources, adjust),
    ensures
        plan_from(s, i, eid, exif, m, buf, sources, adjust) matches Some(Ok((b, srcs))) && b.len()
            == buf.len() && planned_so_far(
            file,
            s,
            s.len() as int,
            k,
            start,
            exif,
            p,
            srcs,
            growth(exif, p.length as int) as u64,
        ),
    decreases s.len() - i,
{
    if i == s.len() {
        assert(adjust == growth(exif, p.length as int)) by {
            reveal(planned_so_far);
        }
    } else {
        let item = s[i];
        lemma_covered_step(s, i, start, end);
        if item.item_id == eid {
            lemma_exif_at(s, i, k, start, end, eid, p);
            assert(adjust == 0) by {
                reveal(planned_so_far);
            }
            lemma_modify_iloc_ok(buf, m, eid, None, Some(exif.len() as usize));
            let b2 = modify_iloc(buf, m, ModifyIlocItemKeyView::Id(eid), None, Some(exif.len() as usize))->Ok_0;
            lemma_plan_step_exif(s, i, eid, exif, m, buf, sources, b2);
            lemma_planned_exif(file, s, k, start, end, eid, exif, p, sources);
            assert(s[k].ptr == p);
            let pl = item.ptr.length;
            if exif.len() > pl {
                lemma_plan_replaces(
                    file,
                    s,
                    i + 1,
                    k,
                    start,
                    end,
                    eid,
                    exif,
                    m,
                    b2,
                    with_gap(s, i, sources).push(SourceView::Data(exif)),
                    (exif.len() - pl) as u64,
                    p,
                );
            } else if exif.len() < pl {
                lemma_plan_replaces(
                    file,
                    s,
                    i + 1,
                    k,
                    start,
                    end,
                    eid,
                    exif,
                    m,
                    b2,
                    with_gap(s, i, sources).push(SourceView::Data(exif)).push(SourceView::Zero((pl - exif.len()) as u64)),
                    0,
                    p,
                );
            } else {
                lemma_plan_replaces(
                    file,
                    s,
                    i + 1,
                    k,
                    start,
                    end,
                    eid,
                    exif,
                    m,
                    b2,
                    with_gap(s, i, sources).push(SourceView::Data(exif)),
                    0,
                    p,
                );
            }
        } else {
            lemma_planned_other(file, s, i, k, start, end, eid, exif, p, sources, adjust);
            let b2 = if adjust > 0 {
                lemma_modify_iloc_ok(
                    buf,
                    m,
                    item.item_id,
                    Some((item.ptr.offset + adjust) as u64),
                    None,
                );
                modify_iloc(
                    buf,
                    m,
                    ModifyIlocItemKeyView::Id(item.item_id),
                    Some((item.ptr.offset + adjust) as u64),
                    None,
                )->Ok_0
            } else {
                buf
            };
            lemma_plan_step_other(s, i, eid, exif, m, buf, sources, adjust, b2);
            lemma_plan_replaces(
                file,
                s,
                i + 1,
                k,
                start,
                end,
                eid,
                exif,
                m,
                b2,
                with_gap(s, i, sources).push(SourceView::OriginFile(item)),
                adjust,
                p,
            );
        }
    }
}

/// The file with the bytes of its `meta` box, at `mo`, replaced by `buf`.
pub open spec fn with_meta(file: Seq<u8>, mo: int, buf: Seq<u8>) -> Seq<u8> {
    file.subrange(0, mo) + buf + file.subrange(mo + buf.len(), file.len() as int)
}

/// Writing bytes into the `meta` box writes them into the file at the same place.
pub(crate) proof fn lemma_written_with_meta(file: Seq<u8>, mo: int, buf: Seq<u8>, pos: int, bytes: Seq<u8>)
    requires
        0 <= mo,
        mo + buf.len() <= file.len(),
        0 <= pos,
        pos + bytes.len() <= buf.len(),
    ensures
        write_at(buf, pos, bytes).len() == buf.len(),
        written(with_meta(file, mo, buf), with_meta(file, mo, write_at(buf, pos, bytes)), mo + pos, bytes),
{
    let b2 = write_at(buf, pos, bytes);
    assert(b2.len() == buf.len());
    let v = with_meta(file, mo, buf);
    let v2 = with_meta(file, mo, b2);
    assert forall|k: int| 0 <= k < v.len() implies #[trigger] v2[k] == if mo + pos <= k < mo + pos
        + bytes.len() {
        bytes[k - (mo + pos)]
    } else {
        v[k]
    } by {
        if mo <= k < mo + buf.len() {
            assert(v[k] == buf[k - mo]);
            assert(v2[k] == b2[k - mo]);
        } else {
            assert(v[k] == v2[k]);
        }
    }
}

/// The fields of the extents `x1` and `x2` lie at the same places, with the same widths.
pub open spec fn same_place(x1: ItemLocationExtent, x2: ItemLocationExtent) -> bool {
    &&& ev_position(x1.extent_offset) == ev_position(x2.extent_offset)
    &&& ev_width(x1.extent_offset) == ev_width(x2.extent_offset)
    &&& ev_position(x1.extent_length) == ev_position(x2.extent_length)
    &&& ev_width(x1.extent_length) == ev_width(x2.extent_length)
}

/// The entries `es1` are the entries `es2` with only the values of fields changed.
pub open spec fn same_shape(
    es1: Seq<ItemLocationEntryView>,
    es2: Seq<ItemLocationEntryView>,
) -> bool {
    &&& es1.len() == es2.len()
    &&& forall|j: int|
        0 <= j < es1.len() ==> (#[trigger] es1[j]).item_id == es2[j].item_id && es1[j].extents.len()
            == es2[j].extents.len()
    &&& forall|j: int, k: int|
        0 <= j < es1.len() && 0 <= k < es1[j].extents.len() ==> same_place(
            #[trigger] es1[j].extents[k],
            es2[j].extents[k],
        )
}

/// Writing a field changes only values.
proof fn lemma_set_keeps_shape(
    es1: Seq<ItemLocationEntryView>,
    es2: Seq<ItemLocationEntryView>,
    q: int,
    val: u64,
)
    requires
        same_shape(es1, es2),
    ensures
        same_shape(set_entries(es1, q, val), es2),
{
    let r = set_entries(es1, q, val);
    assert forall|j: int, k: int| 0 <= j < r.len() && 0 <= k < r[j].extents.len() implies same_place(
        #[trigger] r[j].extents[k],
        es2[j].extents[k],
    ) by {
        assert(r[j].extents[k] == set_extent(es1[j].extents[k], q, val));
        assert(same_place(es1[j].extents[k], es2[j].extents[k]));
    }
    assert forall|j: int| 0 <= j < r.len() implies (#[trigger] r[j]).item_id == es2[j].item_id
        && r[j].extents.len() == es2[j].extents.len() by {
        assert(es1[j].item_id == es2[j].item_id);
    }
}

/// Entries of the same shape find the same entry for an item.
proof fn lemma_find_entry_shape(
    es1: Seq<ItemLocationEntryView>,
    es2: Seq<ItemLocationEntryView>,
    id: u32,
    i: int,
)
    requires
        same_shape(es1, es2),
        0 <= i,
    ensures
        find_entry_from(es1, id, i) == find_entry_from(es2, id, i),
    decreases es1.len() - i,
{
    if i < es1.len() {
        assert(es1[i].item_id == es2[i].item_id);
        lemma_find_entry_shape(es1, es2, id, i + 1);
    }
}

/// The decoded `meta` box `mi` is `m` with values of fields of its `iloc` entries
/// rewritten, where the single extent `x` of the item `eid` keeps its offset and its
/// length field is `len`.
#[verifier::opaque]
pub open spec fn meta_tracks(
    mi: MetaBoxView,
    m: MetaBoxView,
    eid: u32,
    x: ItemLocationExtent,
    len: ExtentValue,
) -> bool {
    &&& mi.iinf == m.iinf
    &&& m.iloc matches Some(il) && mi.iloc matches Some(ili) && same_shape(ili.entries, il.entries)
    &&& location_of(m, eid) is Some
    &&& location_of(mi, eid) matches Some(ei) && ei.extents.len() == 1 && ei.base_offset == location_of(
        m,
        eid,
    )->Some_0.base_offset && ei.extents[0].extent_offset == x.extent_offset
        && ei.extents[0].extent_length == len
}

/// The entry of an item in the rewritten box is the rewritten entry.
proof fn lemma_location_set(mi: MetaBoxView, id: u32, q: int, val: u64)
    requires
        mi.iloc is Some,
    ensures
        location_of(set_meta(mi, q, val), id) == match location_of(mi, id) {
            Some(e) => Some(set_entry(e, q, val)),
            None => None,
        },
{
    let ili = mi.iloc->Some_0;
    lemma_find_entry_set(ili.entries, id, 0, q, val);
    lemma_find_entry_bounds(ili.entries, id, 0);
}

/// Writing a field of the single extent of an item in the copy of the `meta` box: the
/// copy decodes into the box decoded before with that field rewritten, and the EXIF
/// extent keeps its offset and its length unless that is the field written.
#[verifier::spinoff_prover]
proof fn lemma_meta_step(
    file: Seq<u8>,
    b: RawBox,
    buf: Seq<u8>,
    m: MetaBoxView,
    mi: MetaBoxView,
    eid: u32,
    x: ItemLocationExtent,
    len: ExtentValue,
    id: u32,
    f: ExtentValue,
    val: u64,
)
    requires
        file.len() <= u64::MAX,
        b.full_ptr.offset <= b.data_ptr.offset,
        b.full_ptr.offset + buf.len() <= file.len(),
        buf.len() == m.full_ptr.length,
        iloc_within_meta(m),
        iloc_fields_before(m.iloc, m.full_ptr.length as int),
        iloc_apart(m.iloc),
        meta_box(with_meta(file, b.full_ptr.offset as int, buf), b) == Some(Ok::<MetaBoxView, ExifError>(mi)),
        meta_tracks(mi, m, eid, x, len),
        location_of(m, eid) matches Some(e0) && e0.extents[0] == x,
        location_of(m, id) matches Some(ey) && ey.extents.len() >= 1 && (if id == eid {
            f == ey.extents[0].extent_length && len == x.extent_length
        } else {
            f == ey.extents[0].extent_offset
        }),
        forall|q: int, w: int|
            #[trigger] iloc_has_field(m.iloc, q, w) ==> b.data_ptr.offset - b.full_ptr.offset + 4 <= q,
    ensures
        overwrite(buf, f, val).len() == buf.len(),
        overwrite(buf, f, val).subrange(0, b.data_ptr.offset - b.full_ptr.offset + 4) == buf.subrange(
            0,
            b.data_ptr.offset - b.full_ptr.offset + 4,
        ),
        meta_box(with_meta(file, b.full_ptr.offset as int, overwrite(buf, f, val)), b) == Some(
            Ok::<MetaBoxView, ExifError>(set_meta(mi, ev_position(f) as int, val)),
        ),
        meta_tracks(
            set_meta(mi, ev_position(f) as int, val),
            m,
            eid,
            x,
            if id == eid {
                with_value(x.extent_length, val)
            } else {
                len
            },
        ),
{
    reveal(meta_tracks);
    let mo = b.full_ptr.offset as int;
    let il = m.iloc->Some_0;
    let ili = mi.iloc->Some_0;
    let q = ev_position(f) as int;
    let w = ev_width(f);
    lemma_find_entry_bounds(il.entries, id, 0);
    lemma_find_entry_bounds(il.entries, eid, 0);
    let jy = find_entry(il.entries, id);
    let jx = find_entry(il.entries, eid);
    let ey = il.entries[jy];
    assert(extents_within(ey.extents, m.full_ptr.length as int));
    assert(q + w <= buf.len());
    let bytes = value_bytes(val, w);
    lemma_overwrite_reads_back(buf, f, val);
    assert(bytes.len() == w);
    lemma_written_with_meta(file, mo, buf, q, bytes);
    assert(field_of_extent(ey.extents[0], q, w));
    assert(field_of_entry(ey, q, w));
    assert(field_of_entries(il.entries, q, w));
    assert(iloc_has_field(m.iloc, q, w));
    let h = b.data_ptr.offset - b.full_ptr.offset + 4;
    assert(overwrite(buf, f, val).subrange(0, h) =~= buf.subrange(0, h)) by {
        assert forall|k: int| 0 <= k < h implies #[trigger] overwrite(buf, f, val)[k] == buf[k] by {}
    }
    // the field is a field of the decoded box
    lemma_find_entry_shape(ili.entries, il.entries, id, 0);
    lemma_find_entry_shape(ili.entries, il.entries, eid, 0);
    assert(same_place(ili.entries[jy].extents[0], il.entries[jy].extents[0]));
    assert(field_of_extent(ili.entries[jy].extents[0], q, w));
    assert(field_of_entry(ili.entries[jy], q, w));
    assert(field_of_entries(ili.entries, q, w));
    lemma_meta_reread(
        with_meta(file, mo, buf),
        with_meta(file, mo, overwrite(buf, f, val)),
        q,
        val,
        w,
        b,
        mi,
    );
    // the rewritten box
    let mi2 = set_meta(mi, q, val);
    lemma_set_keeps_shape(ili.entries, il.entries, q, val);
    lemma_location_set(mi, eid, q, val);
    let ei = location_of(mi, eid)->Some_0;
    assert(extent_fields_in(il.entries[jx].extents[0], 0, m.full_ptr.length as int));
    assert(x == il.entries[jx].extents[0]);
    if id == eid {
        assert(jy == jx);
        assert(ev_position(x.extent_offset) < q);
    } else {
        assert(jy != jx);
        assert(extent_end(il.entries[jy].extents[0]) <= extent_start(il.entries[jx].extents[0]) || extent_end(
            il.entries[jx].extents[0],
        ) <= extent_start(il.entries[jy].extents[0]));
        assert(extent_fields_in(il.entries[jy].extents[0], 0, m.full_ptr.length as int));
        assert(ev_position(len) == ev_position(x.extent_length));
    }
    assert(set_extent(ei.extents[0], q, val).extent_offset == x.extent_offset);
    assert(set_entry(ei, q, val).extents[0] == set_extent(ei.extents[0], q, val));
}

/// The copy of the `meta` box that the plan rewrites decodes into the input box with
/// values of fields rewritten, where the EXIF extent keeps its offset and its length field
/// holds the new item's length.
#[verifier::spinoff_prover]
proof fn lemma_plan_meta(
    file: Seq<u8>,
    s: Seq<ItemLocationPtr>,
    i: int,
    k: int,
    start: int,
    end: int,
    eid: u32,
    exif: Seq<u8>,
    m: MetaBoxView,
    b: RawBox,
    x: ItemLocationExtent,
    buf: Seq<u8>,
    sources: Seq<SourceView>,
    adjust: u64,
    mi: MetaBoxView,
    p: Ptr,
)
    requires
        0 <= i <= s.len(),
        plan_layout(file, s, k, start, end, eid, p),
        end + growth(exif, p.length as int) <= u64::MAX,
        exif.len() <= usize::MAX,
        file.len() <= u64::MAX,
        iloc_within_meta(m),
        iloc_fields_before(m.iloc, m.full_ptr.length as int),
        iloc_apart(m.iloc),
        b.full_ptr.offset <= b.data_ptr.offset,
        b.full_ptr.offset + buf.len() <= file.len(),
        buf.len() == m.full_ptr.length,
        location_of(m, eid) matches Some(e) && e.extents.len() == 1 && e.extents[0] == x,
        exif.len() > p.length ==> forall|j: int|
            k < j < s.len() ==> (location_of(m, #[trigger] s[j].item_id) matches Some(e)
                && e.extents.len() == 1),
        i <= k ==> adjust == 0,
        i > k ==> adjust == growth(exif, p.length as int),
        forall|q: int, w: int|
            #[trigger] iloc_has_field(m.iloc, q, w) ==> b.data_ptr.offset - b.full_ptr.offset + 4 <= q,
        meta_box(with_meta(file, b.full_ptr.offset as int, buf), b) == Some(Ok::<MetaBoxView, ExifError>(mi)),
        meta_tracks(
            mi,
            m,
            eid,
            x,
            if i > k {
                with_value(x.extent_length, exif.len() as u64)
            } else {
                x.extent_length
            },
        ),
    ensures
        match plan_from(s, i, eid, exif, m, buf, sources, adjust) {
            Some(Ok((b2, _))) => b2.len() == buf.len() && b2.subrange(
                0,
                b.data_ptr.offset - b.full_ptr.offset + 4,
            ) == buf.subrange(0, b.data_ptr.offset - b.full_ptr.offset + 4) && (meta_box(
                with_meta(file, b.full_ptr.offset as int, b2),
                b,
            ) matches Some(Ok(mf)) && meta_tracks(mf, m, eid, x, with_value(x.extent_length, exif.len() as u64)))
                && ((exif.len() <= p.length && mi == (if i > k {
                set_meta(m, ev_position(x.extent_length) as int, exif.len() as u64)
            } else {
                m
            })) ==> meta_box(with_meta(file, b.full_ptr.offset as int, b2), b) == Some(
                Ok::<MetaBoxView, ExifError>(
                    set_meta(m, ev_position(x.extent_length) as int, exif.len() as u64),
                ),
            )),
            _ => true,
        },
    decreases s.len() - i,
{
    if i < s.len() {
        let item = s[i];
        lemma_covered_step(s, i, start, end);
        let il = m.iloc->Some_0;
        if item.item_id == eid {
            lemma_exif_at(s, i, k, start, end, eid, p);
            let pl = item.ptr.length;
            let l = exif.len() as usize;
            lemma_meta_step(
                file,
                b,
                buf,
                m,
                mi,
                eid,
                x,
                x.extent_length,
                eid,
                x.extent_length,
                l as u64,
            );
            let b2 = overwrite(buf, x.extent_length, l as u64);
            lemma_find_entry_bounds(il.entries, eid, 0);
            assert(modify_iloc(buf, m, ModifyIlocItemKeyView::Id(eid), None, Some(l)) == Ok::<
                Seq<u8>,
                ExifError,
            >(b2));
            lemma_plan_step_exif(s, i, eid, exif, m, buf, sources, b2);
            let mi2 = set_meta(mi, ev_position(x.extent_length) as int, l as u64);
            if exif.len() > pl {
                lemma_plan_meta(
                    file,
                    s,
                    i + 1,
                    k,
                    start,
                    end,
                    eid,
                    exif,
                    m,
                    b,
                    x,
                    b2,
                    with_gap(s, i, sources).push(SourceView::Data(exif)),
                    (exif.len() - pl) as u64,
                    mi2,
                    p,
                );
            } else if exif.len() < pl {
                lemma_plan_meta(
                    file,
                    s,
                    i + 1,
                    k,
                    start,
                    end,
                    eid,
                    exif,
                    m,
                    b,
                    x,
                    b2,
                    with_gap(s, i, sources).push(SourceView::Data(exif)).push(SourceView::Zero((pl - exif.len()) as u64)),
                    0,
                    mi2,
                    p,
                );
            } else {
                lemma_plan_meta(
                    file,
                    s,
                    i + 1,
                    k,
                    start,
                    end,
                    eid,
                    exif,
                    m,
                    b,
                    x,
                    b2,
                    with_gap(s, i, sources).push(SourceView::Data(exif)),
                    0,
                    mi2,
                    p,
                );
            }
        } else {
            let len = if i > k {
                with_value(x.extent_length, exif.len() as u64)
            } else {
                x.extent_length
            };
            if adjust > 0 {
                assert(i > k);
                lemma_find_entry_bounds(il.entries, item.item_id, 0);
                let ey = location_of(m, item.item_id)->Some_0;
                let v = (item.ptr.offset + adjust) as u64;
                lemma_meta_step(
                    file,
                    b,
                    buf,
                    m,
                    mi,
                    eid,
                    x,
                    len,
                    item.item_id,
                    ey.extents[0].extent_offset,
                    v,
                );
                let b2 = overwrite(buf, ey.extents[0].extent_offset, v);
                let key = ModifyIlocItemKeyView::Id(item.item_id);
                assert(modify_iloc(buf, m, key, Some(v), None) == Ok::<Seq<u8>, ExifError>(b2));
                lemma_plan_step_other(s, i, eid, exif, m, buf, sources, adjust, b2);
                let mi2 = set_meta(mi, ev_position(ey.extents[0].extent_offset) as int, v);
                lemma_plan_meta(
                    file,
                    s,
                    i + 1,
                    k,
                    start,
                    end,
                    eid,
                    exif,
                    m,
                    b,
                    x,
                    b2,
                    with_gap(s, i, sources).push(SourceView::OriginFile(item)),
                    adjust,
                    mi2,
                    p,
                );
            } else {
                lemma_plan_step_other(s, i, eid, exif, m, buf, sources, adjust, buf);
                if i < k {
                    assert(i + 1 <= k || i + 1 > k);
                }
                lemma_plan_meta(
                    file,
                    s,
                    i + 1,
                    k,
                    start,
                    end,
                    eid,
                    exif,
                    m,
                    b,
                    x,
                    buf,
                    with_gap(s, i, sources).push(SourceView::OriginFile(item)),
                    adjust,
                    mi,
                    p,
                );
            }
        }
    }
}

/// The raw box of a decoded `ftyp` box.
pub open spec fn ftyp_raw(f: crate::heic::boxes::FileTypeBoxView) -> RawBox {
    RawBox { box_type: FTYP, full_ptr: f.full_ptr, data_ptr: f.data_ptr }
}

/// The raw box of a decoded `meta` box.
pub open spec fn meta_raw(m: MetaBoxView) -> RawBox {
    RawBox { box_type: META, full_ptr: m.full_ptr, data_ptr: m.data_ptr }
}

/// Each top-level box that the decoding keeps is the one found before, or was read
/// where it lies, from `pos` on.
#[verifier::spinoff_prover]
pub(crate) proof fn lemma_top_visits(file: Seq<u8>, pos: int, acc: TopBoxes, res: TopBoxes)
    requires
        0 <= pos,
        top_boxes(file, pos, acc) == Some(Ok::<TopBoxes, ExifError>(res)),
    ensures
        res.ftyp == acc.ftyp || (res.ftyp matches Some(f) && raw_box_at(file, f.full_ptr.offset as int)
            == Some(Ok::<Option<RawBox>, ExifError>(Some(ftyp_raw(f)))) && file_type_box(
            file,
            ftyp_raw(f),
        ) == Ok::<crate::heic::boxes::FileTypeBoxView, ExifError>(f)),
        res.meta == acc.meta || (res.meta matches Some(mm) && raw_box_at(file, mm.full_ptr.offset as int)
            == Some(Ok::<Option<RawBox>, ExifError>(Some(meta_raw(mm)))) && meta_box(file, meta_raw(mm))
            == Some(Ok::<MetaBoxView, ExifError>(mm))),
        res.free == acc.free || (res.free matches Some(fr) && raw_box_at(file, fr.full_ptr.offset as int)
            == Some(Ok::<Option<RawBox>, ExifError>(Some(fr))) && fr.box_type == FREE),
        res.media == acc.media || (res.media matches Some(md) && raw_box_at(file, md.full_ptr.offset as int)
            == Some(Ok::<Option<RawBox>, ExifError>(Some(md))) && md.box_type == MDAT),
    decreases remaining(file.len() as int, pos),
{
    lemma_raw_box_at_in(file, pos);
    if let Some(Ok(Some(b))) = raw_box_at(file, pos) {
        let (acc2, p) = top_box(file, b, acc)->Some_0->Ok_0;
        if b.box_type == FTYP {
            reveal(file_type_box);
        } else if b.box_type == META {
            reveal(meta_box);
        }
        lemma_top_visits(file, p, acc2, res);
    }
}

/// A box header whose bytes are where they were reads the same, in a buffer that holds
/// the whole header.
#[verifier::spinoff_prover]
pub(crate) proof fn lemma_raw_box_moved(c: Seq<u8>, c2: Seq<u8>, pos: int, b: RawBox)
    requires
        c.len() <= u64::MAX,
        c2.len() <= u64::MAX,
        raw_box_at(c, pos) == Some(Ok::<Option<RawBox>, ExifError>(Some(b))),
        b.data_ptr.offset <= c2.len(),
        c2.subrange(pos, b.data_ptr.offset as int) == c.subrange(pos, b.data_ptr.offset as int),
    ensures
        raw_box_at(c2, pos) == Some(Ok::<Option<RawBox>, ExifError>(Some(b))),
{
    lemma_raw_box_at_in(c, pos);
    reveal(raw_box_at);
    let hi = b.data_ptr.offset as int;
    assert forall|k: int| pos <= k < hi implies c2[k] == c[k] by {
        assert(c2.subrange(pos, hi)[k - pos] == c.subrange(pos, hi)[k - pos]);
    }
    assert(c2.subrange(pos + 4, pos + 8) =~= c.subrange(pos + 4, pos + 8));
    assert(c2[pos] == c[pos] && c2[pos + 1] == c[pos + 1] && c2[pos + 2] == c[pos + 2] && c2[pos + 3]
        == c[pos + 3]);
    assert(c2[pos + 4] == c[pos + 4] && c2[pos + 5] == c[pos + 5] && c2[pos + 6] == c[pos + 6] && c2[pos
        + 7] == c[pos + 7]);
    if be32(c, pos) as usize == 1 {
        assert(c2[pos + 8] == c[pos + 8] && c2[pos + 9] == c[pos + 9] && c2[pos + 10] == c[pos + 10]
            && c2[pos + 11] == c[pos + 11]);
        assert(c2[pos + 12] == c[pos + 12] && c2[pos + 13] == c[pos + 13] && c2[pos + 14] == c[pos
            + 14] && c2[pos + 15] == c[pos + 15]);
    }
}

/// No box header is left at the end of a buffer.
pub(crate) proof fn lemma_raw_box_end(c: Seq<u8>)
    ensures
        raw_box_at(c, c.len() as int) == Some(Ok::<Option<RawBox>, ExifError>(None)),
{
    reveal(raw_box_at);
}

/// An `ftyp` box whose data is as it was decodes the same.
proof fn lemma_ftyp_frame(c: Seq<u8>, c2: Seq<u8>, b: RawBox)
    requires
        read_data(c2, b.data_ptr) == read_data(c, b.data_ptr),
    ensures
        file_type_box(c2, b) == file_type_box(c, b),
{
    reveal(file_type_box);
}

/// A `meta` box whose data is as it was decodes the same.
proof fn lemma_meta_frame(c: Seq<u8>, c2: Seq<u8>, b: RawBox)
    requires
        read_data(c2, b.data_ptr) == read_data(c, b.data_ptr),
    ensures
        meta_box(c2, b) == meta_box(c, b),
{
    reveal(meta_box);
}

/// The 64-bit `mdat` header written where an `mdat` header was reads as an `mdat` box of
/// the new length.
#[verifier::spinoff_prover]
proof fn lemma_mdat_reread(file: Seq<u8>, out: Seq<u8>, pos: int, l0: int, t: int, md: RawBox)
    requires
        file.len() <= u64::MAX,
        out.len() <= u64::MAX,
        0 <= pos,
        pos + 16 <= file.len(),
        raw_box_at(file, pos) == Some(Ok::<Option<RawBox>, ExifError>(Some(md))),
        file.subrange(pos, pos + 16) == mdat_header(l0),
        0 <= t,
        t + 16 <= usize::MAX,
        pos + 16 + t == out.len(),
        out.subrange(pos, pos + 16) == mdat_header(t),
    ensures
        raw_box_at(out, pos) == Some(
            Ok::<Option<RawBox>, ExifError>(
                Some(
                    RawBox {
                        box_type: MDAT,
                        full_ptr: Ptr { offset: pos as u64, length: (t + 16) as usize },
                        data_ptr: Ptr { offset: (pos + 16) as u64, length: t as usize },
                    },
                ),
            ),
        ),
{
    reveal(raw_box_at);
    let h = mdat_header(t);
    let h0 = mdat_header(l0);
    lemma_u32_bytes_read_back(1);
    lemma_u32_bytes_read_back(MDAT);
    lemma_u64_bytes_read_back((t + 16) as u64);
    assert(h.len() == 16);
    assert forall|k: int| 0 <= k < 16 implies out[pos + k] == h[k] by {
        assert(out.subrange(pos, pos + 16)[k] == out[pos + k]);
    }
    assert forall|k: int| 4 <= k < 8 implies file[pos + k] == h0[k] by {
        assert(file.subrange(pos, pos + 16)[k] == file[pos + k]);
    }
    assert(out.subrange(pos + 4, pos + 8) =~= file.subrange(pos + 4, pos + 8)) by {
        assert forall|k: int| 0 <= k < 4 implies #[trigger] out.subrange(pos + 4, pos + 8)[k] == file.subrange(
            pos + 4,
            pos + 8,
        )[k] by {
            assert(h[4 + k] == u32_bytes(MDAT)[k]);
            assert(h0[4 + k] == u32_bytes(MDAT)[k]);
        }
    }
    let one = u32_bytes(1);
    let ty = u32_bytes(MDAT);
    let ln = u64_bytes((t + 16) as u64);
    assert(h =~= one + ty + ln);
    assert(out.subrange(pos, pos + 4) =~= one) by {
        assert forall|k: int| 0 <= k < 4 implies #[trigger] out.subrange(pos, pos + 4)[k] == one[k] by {
            assert(out[pos + k] == h[k]);
        }
    }
    assert(out.subrange(pos + 4, pos + 8) =~= ty) by {
        assert forall|k: int| 0 <= k < 4 implies #[trigger] out.subrange(pos + 4, pos + 8)[k] == ty[k] by {
            assert(out[pos + 4 + k] == h[4 + k]);
        }
    }
    assert(out.subrange(pos + 8, pos + 16) =~= ln) by {
        assert forall|k: int| 0 <= k < 8 implies #[trigger] out.subrange(pos + 8, pos + 16)[k] == ln[k] by {
            assert(out[pos + 8 + k] == h[8 + k]);
        }
    }
    lemma_be32_written(out, pos, 1);
    lemma_be32_written(out, pos + 4, MDAT);
    lemma_be64_written(out, pos + 8, (t + 16) as u64);
}

/// The big-endian value read where the four bytes of `v` were written is `v`.
pub(crate) proof fn lemma_be32_written(r: Seq<u8>, at: int, v: u32)
    requires
        0 <= at,
        at + 4 <= r.len(),
        r.subrange(at, at + 4) == u32_bytes(v),
    ensures
        be32(r, at) == v,
{
    lemma_u32_bytes_read_back(v);
    let b = u32_bytes(v);
    assert(r[at] == b[0] && r[at + 1] == b[1] && r[at + 2] == b[2] && r[at + 3] == b[3]) by {
        assert(r.subrange(at, at + 4)[0] == r[at]);
        assert(r.subrange(at, at + 4)[1] == r[at + 1]);
        assert(r.subrange(at, at + 4)[2] == r[at + 2]);
        assert(r.subrange(at, at + 4)[3] == r[at + 3]);
    }
}

/// The big-endian value read where the eight bytes of `v` were written is `v`.
pub(crate) proof fn lemma_be64_written(r: Seq<u8>, at: int, v: u64)
    requires
        0 <= at,
        at + 8 <= r.len(),
        r.subrange(at, at + 8) == u64_bytes(v),
    ensures
        be64(r, at) == v,
{
    lemma_u64_bytes_read_back(v);
    let b = u64_bytes(v);
    assert(r[at] == b[0] && r[at + 1] == b[1] && r[at + 2] == b[2] && r[at + 3] == b[3]) by {
        assert(r.subrange(at, at + 8)[0] == r[at]);
        assert(r.subrange(at, at + 8)[1] == r[at + 1]);
        assert(r.subrange(at, at + 8)[2] == r[at + 2]);
        assert(r.subrange(at, at + 8)[3] == r[at + 3]);
    }
    assert(r[at + 4] == b[4] && r[at + 5] == b[5] && r[at + 6] == b[6] && r[at + 7] == b[7]) by {
        assert(r.subrange(at, at + 8)[4] == r[at + 4]);
        assert(r.subrange(at, at + 8)[5] == r[at + 5]);
        assert(r.subrange(at, at + 8)[6] == r[at + 6]);
        assert(r.subrange(at, at + 8)[7] == r[at + 7]);
    }
}

/// Each extent of each entry is among the extents of all the entries.
proof fn lemma_all_ptrs_has(es: Seq<ItemLocationEntryView>, j: int, kk: int)
    requires
        0 <= j < es.len(),
        0 <= kk < es[j].extents.len(),
    ensures
        all_ptrs(es).contains(
            ItemLocationPtr {
                item_id: es[j].item_id,
                ptr: extent_ptr(es[j].base_offset, es[j].extents[kk]),
            },
        ),
    decreases es.len(),
{
    let v = ItemLocationPtr { item_id: es[j].item_id, ptr: extent_ptr(es[j].base_offset, es[j].extents[kk]) };
    let pre = all_ptrs(es.drop_last());
    let last = entry_ptrs(es.last());
    assert(all_ptrs(es) == pre + last);
    if j == es.len() - 1 {
        assert(last[kk] == v);
        assert((pre + last)[pre.len() + kk] == v);
    } else {
        assert(es.drop_last()[j] == es[j]);
        lemma_all_ptrs_has(es.drop_last(), j, kk);
        let i = choose|i: int| 0 <= i < pre.len() && pre[i] == v;
        assert((pre + last)[i] == v);
    }
}

/// Each extent of each entry is among the extents sorted by offset.
proof fn lemma_sorted_ptrs_has(es: Seq<ItemLocationEntryView>, j: int, kk: int)
    requires
        0 <= j < es.len(),
        0 <= kk < es[j].extents.len(),
    ensures
        sorted_ptrs(es).contains(
            ItemLocationPtr {
                item_id: es[j].item_id,
                ptr: extent_ptr(es[j].base_offset, es[j].extents[kk]),
            },
        ),
{
    broadcast use vstd::seq_lib::group_seq_properties;

    lemma_all_ptrs_has(es, j, kk);
    lemma_sort_by_offset(all_ptrs(es));
    let v = ItemLocationPtr { item_id: es[j].item_id, ptr: extent_ptr(es[j].base_offset, es[j].extents[kk]) };
    let a = all_ptrs(es);
    let srt = sort_by_offset(a);
    assert(a.to_multiset().count(v) > 0);
    assert(srt.to_multiset().count(v) > 0);
    assert(srt.contains(v));
}

/// A decoded `meta` box holds at least its version and flags, within the buffer.
proof fn lemma_meta_data_len(buf: Seq<u8>, b: RawBox, m: MetaBoxView)
    requires
        meta_box(buf, b) == Some(Ok::<MetaBoxView, ExifError>(m)),
    ensures
        b.data_ptr.length >= 4,
        b.data_ptr.offset + b.data_ptr.length <= buf.len(),
        m.full_ptr == b.full_ptr,
        m.data_ptr == b.data_ptr,
{
    reveal(meta_box);
}

/// A file laid out as the copy lays it out, with its `meta` box replaced by `mbuf` (whose
/// header is as it was), and its `mdat` header by a 64-bit header for `t` bytes followed
/// by `t` bytes, decodes into the same `ftyp` and `free` boxes, the `meta` box decoded
/// from `mbuf`, and an `mdat` box of `t` bytes of data.
#[verifier::spinoff_prover]
proof fn lemma_copy_decodes(
    file: Seq<u8>,
    fb: FullBoxView,
    mbuf: Seq<u8>,
    mf: MetaBoxView,
    out: Seq<u8>,
    t: int,
)
    requires
        file.len() <= u64::MAX,
        out.len() <= u64::MAX,
        full_box(file) == Some(Ok::<FullBoxView, ExifError>(fb)),
        boxes_back_to_back(file, fb),
        mbuf.len() == fb.meta.full_ptr.length,
        mbuf.subrange(0, fb.meta.data_ptr.offset - fb.meta.full_ptr.offset + 4) == file.subrange(
            fb.meta.full_ptr.offset as int,
            fb.meta.data_ptr.offset + 4,
        ),
        meta_box(with_meta(file, fb.meta.full_ptr.offset as int, mbuf), meta_raw(fb.meta)) == Some(
            Ok::<MetaBoxView, ExifError>(mf),
        ),
        0 <= t,
        t + 16 <= usize::MAX,
        out.len() == fb.media.full_ptr.offset + 16 + t,
        out.subrange(0, fb.meta.full_ptr.offset as int) == file.subrange(0, fb.meta.full_ptr.offset as int),
        out.subrange(
            fb.meta.full_ptr.offset as int,
            fb.meta.full_ptr.offset + fb.meta.full_ptr.length,
        ) == mbuf,
        out.subrange(fb.meta.full_ptr.offset + fb.meta.full_ptr.length, fb.media.full_ptr.offset as int)
            == file.subrange(fb.meta.full_ptr.offset + fb.meta.full_ptr.length, fb.media.full_ptr.offset as int),
        out.subrange(fb.media.full_ptr.offset as int, fb.media.full_ptr.offset + 16) == mdat_header(t),
    ensures
        full_box(out) == Some(
            Ok::<FullBoxView, ExifError>(
                FullBoxView {
                    ftyp: fb.ftyp,
                    meta: mf,
                    free: fb.free,
                    media: RawBox {
                        box_type: MDAT,
                        full_ptr: Ptr { offset: fb.media.full_ptr.offset, length: (t + 16) as usize },
                        data_ptr: Ptr {
                            offset: (fb.media.full_ptr.offset + 16) as u64,
                            length: t as usize,
                        },
                    },
                },
            ),
        ),
{
    let empty = TopBoxes { ftyp: None, meta: None, free: None, media: None };
    let res = top_boxes(file, 0, empty)->Some_0->Ok_0;
    lemma_top_visits(file, 0, empty, res);
    let mo = fb.meta.full_ptr.offset as int;
    let ml = fb.meta.full_ptr.length as int;
    let me = mo + ml;
    let dm = fb.media.full_ptr.offset as int;
    let bf = ftyp_raw(fb.ftyp);
    let bm = meta_raw(fb.meta);
    lemma_raw_box_at_in(file, 0);
    lemma_raw_box_at_in(file, mo);
    lemma_raw_box_at_in(file, dm);
    // ftyp
    assert(out.subrange(0, bf.data_ptr.offset as int) =~= file.subrange(0, bf.data_ptr.offset as int)) by {
        assert forall|k: int|
            0 <= k < bf.data_ptr.offset implies #[trigger] out.subrange(0, bf.data_ptr.offset as int)[k]
            == file.subrange(0, bf.data_ptr.offset as int)[k] by {
            assert(out.subrange(0, mo)[k] == file.subrange(0, mo)[k]);
        }
    }
    lemma_raw_box_moved(file, out, 0, bf);
    assert(read_data(out, bf.data_ptr) == read_data(file, bf.data_ptr)) by {
        let a = bf.data_ptr.offset as int;
        assert(out.subrange(a, mo) =~= file.subrange(a, mo)) by {
            assert forall|k: int|
                0 <= k < mo - a implies #[trigger] out.subrange(a, mo)[k] == file.subrange(a, mo)[k] by {
                assert(out.subrange(0, mo)[a + k] == file.subrange(0, mo)[a + k]);
            }
        }
    }
    lemma_ftyp_frame(file, out, bf);
    let acc1 = TopBoxes { ftyp: Some(fb.ftyp), ..empty };
    assert(top_boxes(out, 0, empty) == top_boxes(out, mo, acc1));
    // meta
    lemma_meta_data_len(file, bm, fb.meta);
    let dmo = bm.data_ptr.offset as int;
    assert(out.subrange(mo, dmo) =~= file.subrange(mo, dmo)) by {
        assert forall|k: int|
            0 <= k < dmo - mo implies #[trigger] out.subrange(mo, dmo)[k] == file.subrange(mo, dmo)[k] by {
            assert(out.subrange(mo, me)[k] == mbuf[k]);
            assert(mbuf.subrange(0, dmo - mo + 4)[k] == file.subrange(mo, dmo + 4)[k]);
        }
    }
    lemma_raw_box_moved(file, out, mo, bm);
    let v = with_meta(file, mo, mbuf);
    assert(read_data(out, bm.data_ptr) == read_data(v, bm.data_ptr)) by {
        let dl = bm.data_ptr.length as int;
        assert(out.subrange(dmo, dmo + dl) =~= v.subrange(dmo, dmo + dl)) by {
            assert forall|k: int|
                0 <= k < dl implies #[trigger] out.subrange(dmo, dmo + dl)[k] == v.subrange(dmo, dmo + dl)[k] by {
                assert(out.subrange(mo, me)[dmo - mo + k] == mbuf[dmo - mo + k]);
                assert(v[dmo + k] == mbuf[dmo - mo + k]);
            }
        }
    }
    lemma_meta_frame(v, out, bm);
    let acc2 = TopBoxes { meta: Some(mf), ..acc1 };
    assert(top_boxes(out, mo, acc1) == top_boxes(out, me, acc2));
    // free
    let acc3 = TopBoxes { free: fb.free, ..acc2 };
    match fb.free {
        Some(fr) => {
            let fo = fr.full_ptr.offset as int;
            lemma_raw_box_at_in(file, fo);
            let fd = fr.data_ptr.offset as int;
            assert(out.subrange(fo, fd) =~= file.subrange(fo, fd)) by {
                assert forall|k: int|
                    0 <= k < fd - fo implies #[trigger] out.subrange(fo, fd)[k] == file.subrange(fo, fd)[k] by {
                    assert(out.subrange(me, dm)[fo - me + k] == file.subrange(me, dm)[fo - me + k]);
                }
            }
            lemma_raw_box_moved(file, out, fo, fr);
            assert(top_boxes(out, me, acc2) == top_boxes(out, dm, acc3));
        },
        None => {
            assert(acc3 == acc2);
        },
    }
    // mdat
    lemma_mdat_reread(file, out, dm, fb.media.full_ptr.length - 16, t, fb.media);
    let md = RawBox {
        box_type: MDAT,
        full_ptr: Ptr { offset: fb.media.full_ptr.offset, length: (t + 16) as usize },
        data_ptr: Ptr { offset: (fb.media.full_ptr.offset + 16) as u64, length: t as usize },
    };
    let acc4 = TopBoxes { media: Some(md), ..acc3 };
    lemma_raw_box_end(out);
    assert(top_boxes(out, dm, acc3) == top_boxes(out, out.len() as int, acc4));
    assert(top_boxes(out, out.len() as int, acc4) == Some(Ok::<TopBoxes, ExifError>(acc4)));
}

/// The value a field holds once `val` is written into it, where `val` fits its width.
proof fn lemma_with_value_fits(v: ExtentValue, val: u64)
    requires
        val < field_modulus(ev_width(v)),
    ensures
        ev_value(with_value(v, val)) == val,
        ev_position(with_value(v, val)) == ev_position(v),
        ev_width(with_value(v, val)) == ev_width(v),
{
}

/// Reading the EXIF item of a file whose `meta` box is the input one with the EXIF
/// extent's length field holding the new item's length, and whose bytes there are the
/// new item, gives the new payload.
#[verifier::spinoff_prover]
proof fn lemma_extract_rewritten(
    out: Seq<u8>,
    fb2: FullBoxView,
    m: MetaBoxView,
    eid: u32,
    p: Ptr,
    x: ItemLocationExtent,
    e2: Seq<u8>,
)
    requires
        exif_location(m) == Some((eid, (p, x))),
        item_extents_fit(m, exif_type()),
        location_of(m, eid) matches Some(e0) && e0.extents.len() == 1,
        meta_tracks(fb2.meta, m, eid, x, with_value(x.extent_length, exif_item_bytes(e2).len() as u64)),
        exif_item_bytes(e2).len() < field_modulus(ev_width(x.extent_length)),
        e2.len() + 6 <= MAX_EXIF_LEN,
        out.len() <= u64::MAX,
        p.offset + exif_item_bytes(e2).len() <= out.len(),
        out.subrange(p.offset as int, p.offset + exif_item_bytes(e2).len()) == exif_item_bytes(e2),
    ensures
        heic_extract(out, fb2) == Some(Ok::<Option<Seq<u8>>, ExifError>(Some(e2))),
        exif_location(fb2.meta) matches Some((id2, (p2, x2))) && id2 == eid && p2.offset == p.offset
            && ev_value(x2.extent_length) == exif_item_bytes(e2).len(),
{
    reveal(meta_tracks);
    let item = exif_item_bytes(e2);
    let n2 = item.len();
    let m2 = fb2.meta;
    let e0 = location_of(m, eid)->Some_0;
    let ei = location_of(m2, eid)->Some_0;
    assert(item_id_of(m2, exif_type()) == item_id_of(m, exif_type()));
    assert(item_entry(m, exif_type()) == Some(e0));
    assert(item_entry(m2, exif_type()) == Some(ei));
    assert(x == e0.extents[0]);
    assert(p == crate::heic::boxes::extent_ptr(e0.base_offset, x));
    lemma_with_value_fits(x.extent_length, n2 as u64);
    let x2 = ei.extents[0];
    assert(x2.extent_offset == x.extent_offset);
    assert(item_extents_fit(m2, exif_type()));
    let p2 = crate::heic::boxes::extent_ptr(ei.base_offset, x2);
    assert(p2 == Ptr { offset: p.offset, length: n2 as usize });
    assert(item_extents(m2, exif_type()) == Some(
        ei.extents.map_values(|y: ItemLocationExtent| (crate::heic::boxes::extent_ptr(ei.base_offset, y), y)),
    ));
    assert(exif_location(m2) == Some((eid, (p2, x2))));
    let body = Ptr { offset: (p.offset + 4) as u64, length: (n2 - 4) as usize };
    let d = out.subrange(p.offset + 4, p.offset + n2);
    assert(read_data(out, body) == Ok::<Seq<u8>, ExifError>(d));
    assert(d =~= item.subrange(4, n2 as int)) by {
        assert forall|k: int| 0 <= k < n2 - 4 implies #[trigger] d[k] == item.subrange(4, n2 as int)[k] by {
            assert(out.subrange(p.offset as int, p.offset + n2)[4 + k] == item[4 + k]);
        }
    }
    assert(d.subrange(0, 6) =~= exif_header());
    assert(d.subrange(6, d.len() as int) =~= e2);
}

/// The EXIF item has a single extent, and every extent of it among `s` is that one.
pub open spec fn exif_extent_alone(fb: FullBoxView, s: Seq<ItemLocationPtr>) -> bool {
    match exif_location(fb.meta) {
        None => false,
        Some((eid, (p, x))) => {
            &&& location_of(fb.meta, eid) matches Some(e) && e.extents.len() == 1
            &&& forall|j: int| 0 <= j < s.len() && #[trigger] s[j].item_id == eid ==> s[j].ptr == p
        },
    }
}

/// Where the EXIF item grows to `n` bytes, every extent after it among `s` belongs to an
/// item with a single extent (the copy rewrites that extent's offset).
pub open spec fn shifted_items_single(fb: FullBoxView, s: Seq<ItemLocationPtr>, n: int) -> bool {
    match exif_location(fb.meta) {
        None => true,
        Some((eid, (p, x))) => n > p.length ==> forall|j: int|
            0 <= j < s.len() && s[j].item_id != eid && p.offset + p.length <= s[j].ptr.offset ==> (
            location_of(fb.meta, #[trigger] s[j].item_id) matches Some(e) && e.extents.len() == 1),
    }
}

/// The place of the EXIF extent among the extents sorted by offset.
proof fn lemma_exif_index(fb: FullBoxView, s: Seq<ItemLocationPtr>) -> (k: int)
    requires
        fb.meta.iloc matches Some(il) && s == sorted_ptrs(il.entries),
        exif_location(fb.meta) is Some,
        exif_extent_alone(fb, s),
    ensures
        exif_location(fb.meta) matches Some((eid, (p, x))) && 0 <= k < s.len() && s[k].item_id == eid
            && s[k].ptr == p,
        exif_location(fb.meta) matches Some((eid, (p, x))) && location_of(fb.meta, eid) matches Some(e0)
            && e0.extents[0] == x && p == extent_ptr(e0.base_offset, x) && item_id_of(fb.meta, exif_type())
            == Some(eid),
{
    let m = fb.meta;
    let il = m.iloc->Some_0;
    let (eid, (p, x)) = exif_location(m)->Some_0;
    assert(item_id_of(m, exif_type()) == Some(eid));
    let e0 = location_of(m, eid)->Some_0;
    assert(item_entry(m, exif_type()) == Some(e0));
    assert(x == e0.extents[0]);
    lemma_find_entry_bounds(il.entries, eid, 0);
    let j0 = find_entry(il.entries, eid);
    lemma_sorted_ptrs_has(il.entries, j0, 0);
    let v = ItemLocationPtr { item_id: eid, ptr: p };
    assert(s.contains(v));
    let k = choose|k: int| 0 <= k < s.len() && s[k] == v;
    k
}

/// The box `b` read again at `q`: the same type and lengths, placed at `q`.
pub open spec fn moved_box(b: RawBox, q: int) -> RawBox {
    RawBox {
        box_type: b.box_type,
        full_ptr: Ptr { offset: q as u64, length: b.full_ptr.length },
        data_ptr: Ptr {
            offset: (q + (b.data_ptr.offset - b.full_ptr.offset)) as u64,
            length: b.data_ptr.length,
        },
    }
}

/// A box header copied from `pos` in `c` to `q` in `c2` reads as the same box, at `q`.
pub(crate) proof fn lemma_raw_box_translated(c: Seq<u8>, c2: Seq<u8>, pos: int, q: int, b: RawBox)
    requires
        c.len() <= u64::MAX,
        c2.len() <= u64::MAX,
        raw_box_at(c, pos) == Some(Ok::<Option<RawBox>, ExifError>(Some(b))),
        0 <= q,
        q + (b.data_ptr.offset - pos) <= c2.len(),
        c2.subrange(q, q + (b.data_ptr.offset - pos)) == c.subrange(pos, b.data_ptr.offset as int),
    ensures
        raw_box_at(c2, q) == Some(Ok::<Option<RawBox>, ExifError>(Some(moved_box(b, q)))),
{
    lemma_raw_box_at_in(c, pos);
    reveal(raw_box_at);
    let h = b.data_ptr.offset - pos;
    assert forall|j: int| q <= j < q + h implies #[trigger] c2[j] == c[j - q + pos] by {
        assert(c2.subrange(q, q + h)[j - q] == c.subrange(pos, pos + h)[j - q]);
    }
    assert(c2.subrange(q + 4, q + 8) =~= c.subrange(pos + 4, pos + 8));
    assert(c2[q] == c[pos] && c2[q + 1] == c[pos + 1] && c2[q + 2] == c[pos + 2] && c2[q + 3]
        == c[pos + 3]);
    assert(c2[q + 4] == c[pos + 4] && c2[q + 5] == c[pos + 5] && c2[q + 6] == c[pos + 6] && c2[q
        + 7] == c[pos + 7]);
    if be32(c, pos) as usize == 1 {
        assert(c2[q + 8] == c[pos + 8] && c2[q + 9] == c[pos + 9] && c2[q + 10] == c[pos + 10]
            && c2[q + 11] == c[pos + 11]);
        assert(c2[q + 12] == c[pos + 12] && c2[q + 13] == c[pos + 13] && c2[q + 14] == c[pos + 14]
            && c2[q + 15] == c[pos + 15]);
    }
}

/// Decoding the children of a `meta` box placed elsewhere in the file gives the same
/// `iinf` and `iloc` boxes: the place only moves the recorded child boxes.
proof fn lemma_children_offset(
    c: Seq<u8>,
    pos: int,
    bim: int,
    o1: int,
    o2: int,
    a1: MetaChildren,
    a2: MetaChildren,
)
    requires
        a1.iinf == a2.iinf,
        a1.iloc == a2.iloc,
    ensures
        match (meta_children(c, pos, bim, o1, a1), meta_children(c, pos, bim, o2, a2)) {
            (None, None) => true,
            (Some(Err(e1)), Some(Err(e2))) => e1 == e2,
            (Some(Ok(r1)), Some(Ok(r2))) => r1.iinf == r2.iinf && r1.iloc == r2.iloc,
            _ => false,
        },
    decreases remaining(c.len() as int, pos),
{
    if c.len() <= u64::MAX {
        match raw_box_at(c, pos) {
            Some(Ok(Some(b))) => {
                lemma_raw_box_at_in(c, pos);
                match meta_child(c, b, bim, a1.iinf, a1.iloc) {
                    Some(Ok((ii, il, p))) => {
                        lemma_children_offset(
                            c,
                            p,
                            bim,
                            o1,
                            o2,
                            MetaChildren { boxes: insert_box(a1.boxes, shifted(b, o1)), iinf: ii, iloc: il },
                            MetaChildren { boxes: insert_box(a2.boxes, shifted(b, o2)), iinf: ii, iloc: il },
                        );
                    },
                    _ => {},
                }
            },
            _ => {},
        }
    }
}

/// A `meta` box whose data is copied elsewhere decodes there into the same `iinf` and
/// `iloc` boxes.
proof fn lemma_meta_moved(c: Seq<u8>, b: RawBox, c2: Seq<u8>, b2: RawBox)
    requires
        read_data(c2, b2.data_ptr) == read_data(c, b.data_ptr),
        b2.data_ptr.offset - b2.full_ptr.offset == b.data_ptr.offset - b.full_ptr.offset,
        meta_box(c, b) matches Some(Ok(_)),
    ensures
        meta_box(c2, b2) matches Some(Ok(m2)) && m2.iinf == meta_box(c, b)->Some_0->Ok_0.iinf
            && m2.iloc == meta_box(c, b)->Some_0->Ok_0.iloc,
{
    reveal(meta_box);
    let d = read_data(c, b.data_ptr)->Ok_0;
    let acc0 = MetaChildren { boxes: Seq::empty(), iinf: None, iloc: None };
    lemma_children_offset(
        d.subrange(4, d.len() as int),
        0,
        b.data_ptr.offset - b.full_ptr.offset + 4,
        b.data_ptr.offset + 4,
        b2.data_ptr.offset + 4,
        acc0,
        acc0,
    );
}

/// The boxes of `file` lie back to back in the order `ftyp`, `free`, `meta`, `mdat`, the
/// last with a 64-bit header and up to the end of the file.
pub open spec fn boxes_free_first(file: Seq<u8>, fb: FullBoxView) -> bool {
    let ftyp = fb.ftyp.full_ptr;
    let meta = fb.meta.full_ptr;
    let media = fb.media.full_ptr;
    &&& fb.free matches Some(f) && ftyp.offset == 0 && f.full_ptr.offset == ftyp.offset + ftyp.length
        && meta.offset == f.full_ptr.offset + f.full_ptr.length
    &&& media.offset == meta.offset + meta.length
    &&& media.offset + media.length == file.len()
    &&& media.length >= 16
    &&& file.subrange(media.offset as int, media.offset + 16) == mdat_header(media.length - 16)
}

/// The boxes of `file` lie back to back in one of the orders the copy keeps the `mdat`
/// box in place for: `ftyp`, `meta`, (`free`,) `mdat` or `ftyp`, `free`, `meta`, `mdat`.
pub open spec fn boxes_in_order(file: Seq<u8>, fb: FullBoxView) -> bool {
    boxes_back_to_back(file, fb) || boxes_free_first(file, fb)
}

/// A file of `ftyp`, `free`, `meta`, `mdat` boxes written again as `ftyp`, the `meta` bytes
/// `mbuf` (its header as it was), `free`, and an `mdat` header for `t` bytes followed by
/// `t` bytes, decodes into `iinf` and `iloc` boxes decoded from `mbuf`, and an `mdat` box
/// of `t` bytes of data in the same place.
#[verifier::spinoff_prover]
proof fn lemma_copy_decodes_free_first(
    file: Seq<u8>,
    fb: FullBoxView,
    mbuf: Seq<u8>,
    mf: MetaBoxView,
    out: Seq<u8>,
    t: int,
)
    requires
        file.len() <= u64::MAX,
        out.len() <= u64::MAX,
        full_box(file) == Some(Ok::<FullBoxView, ExifError>(fb)),
        boxes_free_first(file, fb),
        mbuf.len() == fb.meta.full_ptr.length,
        mbuf.subrange(0, fb.meta.data_ptr.offset - fb.meta.full_ptr.offset + 4) == file.subrange(
            fb.meta.full_ptr.offset as int,
            fb.meta.data_ptr.offset + 4,
        ),
        meta_box(with_meta(file, fb.meta.full_ptr.offset as int, mbuf), meta_raw(fb.meta)) == Some(
            Ok::<MetaBoxView, ExifError>(mf),
        ),
        0 <= t,
        t + 16 <= usize::MAX,
        out.len() == fb.media.full_ptr.offset + 16 + t,
        out.subrange(0, fb.ftyp.full_ptr.length as int) == file.subrange(0, fb.ftyp.full_ptr.length as int),
        out.subrange(
            fb.ftyp.full_ptr.length as int,
            fb.ftyp.full_ptr.length + fb.meta.full_ptr.length,
        ) == mbuf,
        out.subrange(fb.ftyp.full_ptr.length + fb.meta.full_ptr.length, fb.media.full_ptr.offset as int)
            == file.subrange(fb.ftyp.full_ptr.length as int, fb.meta.full_ptr.offset as int),
        out.subrange(fb.media.full_ptr.offset as int, fb.media.full_ptr.offset + 16) == mdat_header(t),
    ensures
        full_box(out) matches Some(Ok(fb2)) && fb2.meta.iinf == mf.iinf && fb2.meta.iloc == mf.iloc
            && fb2.media == (RawBox {
            box_type: MDAT,
            full_ptr: Ptr { offset: fb.media.full_ptr.offset, length: (t + 16) as usize },
            data_ptr: Ptr { offset: (fb.media.full_ptr.offset + 16) as u64, length: t as usize },
        }),
{
    let empty = TopBoxes { ftyp: None, meta: None, free: None, media: None };
    let res = top_boxes(file, 0, empty)->Some_0->Ok_0;
    lemma_top_visits(file, 0, empty, res);
    let fr = fb.free->Some_0;
    let fo = fr.full_ptr.offset as int;
    let fl = fr.full_ptr.length as int;
    let mo = fb.meta.full_ptr.offset as int;
    let ml = fb.meta.full_ptr.length as int;
    let dm = fb.media.full_ptr.offset as int;
    let bf = ftyp_raw(fb.ftyp);
    let bm = meta_raw(fb.meta);
    lemma_raw_box_at_in(file, 0);
    lemma_raw_box_at_in(file, mo);
    lemma_raw_box_at_in(file, fo);
    lemma_raw_box_at_in(file, dm);
    // ftyp
    assert(out.subrange(0, bf.data_ptr.offset as int) =~= file.subrange(0, bf.data_ptr.offset as int)) by {
        assert forall|k: int|
            0 <= k < bf.data_ptr.offset implies #[trigger] out.subrange(0, bf.data_ptr.offset as int)[k]
            == file.subrange(0, bf.data_ptr.offset as int)[k] by {
            assert(out.subrange(0, fo)[k] == file.subrange(0, fo)[k]);
        }
    }
    lemma_raw_box_moved(file, out, 0, bf);
    assert(read_data(out, bf.data_ptr) == read_data(file, bf.data_ptr)) by {
        let a = bf.data_ptr.offset as int;
        assert(out.subrange(a, fo) =~= file.subrange(a, fo)) by {
            assert forall|k: int|
                0 <= k < fo - a implies #[trigger] out.subrange(a, fo)[k] == file.subrange(a, fo)[k] by {
                assert(out.subrange(0, fo)[a + k] == file.subrange(0, fo)[a + k]);
            }
        }
    }
    lemma_ftyp_frame(file, out, bf);
    let acc1 = TopBoxes { ftyp: Some(fb.ftyp), ..empty };
    assert(top_boxes(out, 0, empty) == top_boxes(out, fo, acc1));
    // meta, now at fo
    lemma_meta_data_len(file, bm, fb.meta);
    let h = bm.data_ptr.offset - mo;
    assert(out.subrange(fo, fo + h) =~= file.subrange(mo, mo + h)) by {
        assert forall|k: int|
            0 <= k < h implies #[trigger] out.subrange(fo, fo + h)[k] == file.subrange(mo, mo + h)[k] by {
            assert(out.subrange(fo, fo + ml)[k] == mbuf[k]);
            assert(mbuf.subrange(0, h + 4)[k] == file.subrange(mo, mo + h + 4)[k]);
        }
    }
    lemma_raw_box_translated(file, out, mo, fo, bm);
    let bm2 = moved_box(bm, fo);
    let v = with_meta(file, mo, mbuf);
    assert(read_data(out, bm2.data_ptr) == read_data(v, bm.data_ptr)) by {
        let dl = bm.data_ptr.length as int;
        assert(out.subrange(fo + h, fo + h + dl) =~= v.subrange(mo + h, mo + h + dl)) by {
            assert forall|k: int|
                0 <= k < dl implies #[trigger] out.subrange(fo + h, fo + h + dl)[k] == v.subrange(
                mo + h,
                mo + h + dl,
            )[k] by {
                assert(out.subrange(fo, fo + ml)[h + k] == mbuf[h + k]);
                assert(v[mo + h + k] == mbuf[h + k]);
            }
        }
    }
    lemma_meta_moved(v, bm, out, bm2);
    let m2 = meta_box(out, bm2)->Some_0->Ok_0;
    let acc2 = TopBoxes { meta: Some(m2), ..acc1 };
    assert(top_boxes(out, fo, acc1) == top_boxes(out, fo + ml, acc2));
    // free, now after meta
    let fd = fr.data_ptr.offset as int;
    assert(out.subrange(fo + ml, fo + ml + (fd - fo)) =~= file.subrange(fo, fd)) by {
        assert forall|k: int|
            0 <= k < fd - fo implies #[trigger] out.subrange(fo + ml, fo + ml + (fd - fo))[k]
            == file.subrange(fo, fd)[k] by {
            assert(out.subrange(fo + ml, dm)[k] == file.subrange(fo, mo)[k]);
        }
    }
    lemma_raw_box_translated(file, out, fo, fo + ml, fr);
    let fr2 = moved_box(fr, fo + ml);
    let acc3 = TopBoxes { free: Some(fr2), ..acc2 };
    assert(top_boxes(out, fo + ml, acc2) == top_boxes(out, dm, acc3));
    // mdat
    lemma_mdat_reread(file, out, dm, fb.media.full_ptr.length - 16, t, fb.media);
    let md = RawBox {
        box_type: MDAT,
        full_ptr: Ptr { offset: fb.media.full_ptr.offset, length: (t + 16) as usize },
        data_ptr: Ptr { offset: (fb.media.full_ptr.offset + 16) as u64, length: t as usize },
    };
    let acc4 = TopBoxes { media: Some(md), ..acc3 };
    lemma_raw_box_end(out);
    assert(top_boxes(out, dm, acc3) == top_boxes(out, out.len() as int, acc4));
    assert(top_boxes(out, out.len() as int, acc4) == Some(Ok::<TopBoxes, ExifError>(acc4)));
}

/// Reading the `meta` box's `iinf` and `iloc` boxes is all that [`meta_tracks`] asks of it.
proof fn lemma_tracks_items(mf: MetaBoxView, m2: MetaBoxView, m: MetaBoxView, eid: u32, x: ItemLocationExtent, len: ExtentValue)
    requires
        meta_tracks(mf, m, eid, x, len),
        m2.iinf == mf.iinf,
        m2.iloc == mf.iloc,
    ensures
        meta_tracks(m2, m, eid, x, len),
{
    reveal(meta_tracks);
    assert(location_of(m2, eid) == location_of(mf, eid));
}

/// The files and payloads the read-back law speaks of: a HEIC file `file` decoded into
/// `fb`, from which the payload `e` was read, with its boxes back to back in one of the
/// orders of [`boxes_in_order`] and a 64-bit `mdat` header, the extents of its items in order from the start of the media data
/// (with or without gaps between them), and the EXIF item in one extent; and a new payload `e2` within
/// the size the reader accepts, whose item's length fits the width of its length field,
/// with which the copy fits in memory and moves only extents of items with a single
/// extent.
pub open spec fn read_back_domain(file: Seq<u8>, fb: FullBoxView, e: Seq<u8>, e2: Seq<u8>) -> bool {
    &&& file.len() <= usize::MAX
    &&& full_box(file) == Some(Ok::<FullBoxView, ExifError>(fb))
    &&& iloc_within_meta(fb.meta)
    &&& heic_extract(file, fb) == Some(Ok::<Option<Seq<u8>>, ExifError>(Some(e)))
    &&& boxes_in_order(file, fb)
    &&& fb.meta.iloc matches Some(il) && all_ptrs_fit(il.entries) && exif_extent_alone(
        fb,
        sorted_ptrs(il.entries),
    ) && shifted_items_single(fb, sorted_ptrs(il.entries), exif_item_bytes(e2).len() as int)
    &&& exif_location(fb.meta) matches Some((eid, (p, x))) && exif_item_bytes(e2).len() < field_modulus(
        ev_width(x.extent_length),
    ) && file.len() + growth(exif_item_bytes(e2), p.length as int) <= usize::MAX && (
    fb.meta.iloc matches Some(il) && extents_in_order(
        sorted_ptrs(il.entries),
        fb.media.full_ptr.offset + 16,
        file.len() as int,
    ))
    &&& e2.len() + 6 <= MAX_EXIF_LEN
}

/// The files and payloads the law of the exact copy speaks of: those of
/// [`read_back_domain`] whose item extents fill the media data in order, without gaps,
/// up to the end of the file.
pub open spec fn rewrite_domain(file: Seq<u8>, fb: FullBoxView, e: Seq<u8>, e2: Seq<u8>) -> bool {
    &&& read_back_domain(file, fb, e, e2)
    &&& fb.meta.iloc matches Some(il) && extents_fill(
        sorted_ptrs(il.entries),
        fb.media.full_ptr.offset + 16,
        file.len() as int,
    )
}

/// How long [`gapped`] is.
proof fn lemma_gapped_len(file: Seq<u8>, s: Seq<ItemLocationPtr>, i: int, start: int, end: int)
    requires
        extents_in_order(s, start, end),
        end <= file.len(),
        0 <= i <= s.len(),
    ensures
        gapped(file, s, start, i).len() == covered(s, i, start) - start,
    decreases i,
{
    if i > 0 {
        lemma_gapped_len(file, s, i - 1, start, end);
        lemma_covered_step(s, i - 1, start, end);
    }
}

/// Where the extents fill the media data, [`gapped`] is the media data they cover.
proof fn lemma_gapped_fill(file: Seq<u8>, s: Seq<ItemLocationPtr>, i: int, start: int, end: int)
    requires
        extents_fill(s, start, end),
        end <= file.len(),
        0 <= i <= s.len(),
    ensures
        gapped(file, s, start, i) == file.subrange(start, covered(s, i, start)),
    decreases i,
{
    lemma_fill_in_order(s, start, end);
    if i > 0 {
        lemma_gapped_fill(file, s, i - 1, start, end);
        lemma_covered_step(s, i - 1, start, end);
        if i > 1 {
            assert(s[i - 2].ptr.offset + s[i - 2].ptr.length == s[i - 1].ptr.offset);
        }
        let g = s[i - 1].ptr.offset - covered(s, i - 1, start);
        assert(g == 0);
        assert(zeros(g) =~= Seq::<u8>::empty());
        lemma_in_order_within(s, start, end, i - 1);
        let chunk = file.subrange(s[i - 1].ptr.offset as int, s[i - 1].ptr.offset + s[i - 1].ptr.length);
        assert(gapped(file, s, start, i) == gapped(file, s, start, i - 1) + zeros(g) + chunk);
        assert(gapped(file, s, start, i - 1) == file.subrange(start, covered(s, i - 1, start)));
        assert(covered(s, i - 1, start) == s[i - 1].ptr.offset);
        assert(file.subrange(start, covered(s, i - 1, start)) + zeros(g) + chunk =~= file.subrange(
            start,
            covered(s, i, start),
        ));
    } else {
        lemma_in_order_within(s, start, end, 0);
        assert(file.subrange(start, start) =~= Seq::<u8>::empty());
    }
}

/// How long [`before_exif`] is, and what it is where the extents fill the media data.
proof fn lemma_before_exif(file: Seq<u8>, s: Seq<ItemLocationPtr>, k: int, start: int, end: int)
    requires
        extents_in_order(s, start, end),
        end <= file.len(),
        0 <= k < s.len(),
    ensures
        before_exif(file, s, start, k).len() == s[k].ptr.offset - start,
        extents_fill(s, start, end) ==> before_exif(file, s, start, k) == file.subrange(
            start,
            s[k].ptr.offset as int,
        ),
{
    lemma_gapped_len(file, s, k, start, end);
    lemma_covered_step(s, k, start, end);
    if extents_fill(s, start, end) {
        lemma_gapped_fill(file, s, k, start, end);
        if k > 0 {
            assert(s[k - 1].ptr.offset + s[k - 1].ptr.length == s[k].ptr.offset);
        }
        assert(zeros(0) =~= Seq::<u8>::empty());
        assert(before_exif(file, s, start, k) =~= file.subrange(start, s[k].ptr.offset as int));
    }
}

/// How long [`after_exif`] is.
proof fn lemma_after_exif_len(file: Seq<u8>, s: Seq<ItemLocationPtr>, k: int, i: int, start: int, end: int)
    requires
        extents_in_order(s, start, end),
        end <= file.len(),
        0 <= k < i <= s.len(),
    ensures
        after_exif(file, s, k, i).len() == covered(s, i, start) - (s[k].ptr.offset + s[k].ptr.length),
    decreases i,
{
    if i > k + 1 {
        lemma_after_exif_len(file, s, k, i - 1, start, end);
        lemma_covered_step(s, i - 1, start, end);
        lemma_fill_order(s, start, end, k, i - 1);
    }
}

/// Where the extents fill the media data, [`after_exif`] is the media data after the
/// EXIF extent.
proof fn lemma_after_exif_fill(file: Seq<u8>, s: Seq<ItemLocationPtr>, k: int, i: int, start: int, end: int)
    requires
        extents_fill(s, start, end),
        end <= file.len(),
        0 <= k < i <= s.len(),
    ensures
        after_exif(file, s, k, i) == file.subrange(
            s[k].ptr.offset + s[k].ptr.length,
            covered(s, i, start),
        ),
    decreases i,
{
    lemma_fill_in_order(s, start, end);
    if i > k + 1 {
        lemma_after_exif_fill(file, s, k, i - 1, start, end);
        lemma_covered_step(s, i - 1, start, end);
        lemma_fill_order(s, start, end, k, i - 1);
        assert(s[i - 2].ptr.offset + s[i - 2].ptr.length == s[i - 1].ptr.offset);
        assert(zeros(0) =~= Seq::<u8>::empty());
        assert(after_exif(file, s, k, i) =~= file.subrange(
            s[k].ptr.offset + s[k].ptr.length,
            covered(s, i, start),
        ));
    } else {
        lemma_covered_step(s, k, start, end);
        assert(file.subrange(s[k].ptr.offset + s[k].ptr.length, covered(s, i, start)) =~= Seq::<
            u8,
        >::empty());
    }
}

/// What the decoding and the reading of the file show of it.
#[verifier::spinoff_prover]
proof fn lemma_rewrite_facts(file: Seq<u8>, fb: FullBoxView, e: Seq<u8>, e2: Seq<u8>)
    requires
        read_back_domain(file, fb, e, e2),
    ensures
        exif_location(fb.meta) matches Some((eid, (p, x))) && p.length >= 10 && item_extents_fit(
            fb.meta,
            exif_type(),
        ),
        meta_box(file, meta_raw(fb.meta)) == Some(Ok::<MetaBoxView, ExifError>(fb.meta)),
        meta_raw(fb.meta).full_ptr.offset <= meta_raw(fb.meta).data_ptr.offset,
        fb.meta.data_ptr.offset + 4 <= fb.meta.full_ptr.offset + fb.meta.full_ptr.length,
        fb.meta.full_ptr.offset + fb.meta.full_ptr.length <= fb.media.full_ptr.offset,
        fb.media.full_ptr.offset + 16 <= file.len(),
        forall|q: int, w: int|
            #[trigger] iloc_has_field(fb.meta.iloc, q, w) ==> fb.meta.data_ptr.offset
                - fb.meta.full_ptr.offset + 4 <= q,
        iloc_fields_before(fb.meta.iloc, fb.meta.full_ptr.length as int),
        iloc_apart(fb.meta.iloc),
{
    let m = fb.meta;
    let empty = TopBoxes { ftyp: None, meta: None, free: None, media: None };
    let res = top_boxes(file, 0, empty)->Some_0->Ok_0;
    lemma_top_visits(file, 0, empty, res);
    let bm = meta_raw(m);
    lemma_raw_box_at_in(file, m.full_ptr.offset as int);
    lemma_meta_data_len(file, bm, m);
    lemma_meta_layout(file, bm, m);
    assert(m.full_ptr.offset + m.full_ptr.length <= fb.media.full_ptr.offset) by {
        match fb.free {
            Some(f) => {},
            None => {},
        }
    }
}

/// The plan of the copy: the media data with the EXIF extent replaced, what follows it
/// copied with its gaps as zeros, and a copy of the `meta` box that decodes into the input
/// box with the EXIF extent's length field holding the new item's length.
#[verifier::spinoff_prover]
proof fn lemma_rewrite_plan(file: Seq<u8>, fb: FullBoxView, e: Seq<u8>, e2: Seq<u8>) -> (r: (
    Seq<u8>,
    Seq<SourceView>,
    MetaBoxView,
    Seq<u8>,
    Seq<u8>,
))
    requires
        read_back_domain(file, fb, e, e2),
    ensures
        ({
            let (b, srcs, mf, before, tail) = r;
            let m = fb.meta;
            let il = m.iloc->Some_0;
            let (eid, (p, x)) = exif_location(m)->Some_0;
            let item = exif_item_bytes(e2);
            let mo = m.full_ptr.offset as int;
            let start = fb.media.full_ptr.offset + 16;
            let xr = replaced_item(item, p.length as int);
            &&& plan_from(
                sorted_ptrs(il.entries),
                0,
                eid,
                item,
                m,
                file.subrange(mo, mo + m.full_ptr.length),
                Seq::empty(),
                0,
            )
                == Some(Ok::<(Seq<u8>, Seq<SourceView>), ExifError>((b, srcs)))
            &&& mdat_content(file, srcs) == Ok::<Seq<u8>, ExifError>(
                before + xr + tail,
            )
            &&& before.len() == p.offset - start
            &&& sources_total(srcs) == p.offset - start + xr.len() + tail.len()
            &&& start <= p.offset
            &&& p.offset + p.length + tail.len() <= file.len()
            &&& b.len() == m.full_ptr.length
            &&& b.subrange(0, m.data_ptr.offset - mo + 4) == file.subrange(mo, m.data_ptr.offset + 4)
            &&& meta_box(with_meta(file, mo, b), meta_raw(m)) == Some(Ok::<MetaBoxView, ExifError>(mf))
            &&& meta_tracks(mf, m, eid, x, with_value(x.extent_length, item.len() as u64))
            &&& item.len() <= p.length ==> mf == set_meta(
                m,
                ev_position(x.extent_length) as int,
                item.len() as u64,
            )
            &&& extents_fill(sorted_ptrs(il.entries), start, file.len() as int) ==> tail
                == file.subrange(p.offset + p.length, file.len() as int) && before == file.subrange(
                start,
                p.offset as int,
            )
        }),
{
    lemma_rewrite_facts(file, fb, e, e2);
    let m = fb.meta;
    let il = m.iloc->Some_0;
    let s = sorted_ptrs(il.entries);
    let (eid, (p, x)) = exif_location(m)->Some_0;
    let k = lemma_exif_index(fb, s);
    let item = exif_item_bytes(e2);
    let n2 = item.len() as int;
    let pl = p.length as int;
    let mo = m.full_ptr.offset as int;
    let ml = m.full_ptr.length as int;
    let start = fb.media.full_ptr.offset + 16;
    let len = file.len() as int;
    let bm = meta_raw(m);
    let meta_buf = file.subrange(mo, mo + ml);
    assert(planned_so_far(file, s, 0, k, start, item, p, Seq::empty(), 0)) by {
        reveal(planned_so_far);
        assert(file.subrange(start, start) =~= Seq::<u8>::empty());
    }
    assert forall|j: int| k < j < s.len() && n2 > pl implies (location_of(m, #[trigger] s[j].item_id) matches Some(e)
        && e.extents.len() == 1) by {
        lemma_fill_order(s, start, len, k, j);
        if s[j].item_id == eid {
            assert(s[j].ptr == p);
        }
    }
    lemma_plan_replaces(file, s, 0, k, start, len, eid, item, m, meta_buf, Seq::empty(), 0, p);
    let (b, srcs) = plan_from(s, 0, eid, item, m, meta_buf, Seq::empty(), 0)->Some_0->Ok_0;
    assert(with_meta(file, mo, meta_buf) =~= file);
    assert(meta_tracks(m, m, eid, x, x.extent_length)) by {
        reveal(meta_tracks);
    }
    lemma_plan_meta(
        file,
        s,
        0,
        k,
        start,
        len,
        eid,
        item,
        m,
        bm,
        x,
        meta_buf,
        Seq::empty(),
        0,
        m,
        p,
    );
    let mf = meta_box(with_meta(file, mo, b), bm)->Some_0->Ok_0;
    reveal(planned_so_far);
    let tail = after_exif(file, s, k, s.len() as int);
    let before = before_exif(file, s, start, k);
    lemma_before_exif(file, s, k, start, len);
    lemma_in_order_within(s, start, len, k);
    lemma_after_exif_len(file, s, k, s.len() as int, start, len);
    lemma_in_order_within(s, start, len, s.len() - 1);
    if extents_fill(s, start, len) {
        lemma_after_exif_fill(file, s, k, s.len() as int, start, len);
    }
    assert(meta_buf.subrange(0, m.data_ptr.offset - mo + 4) =~= file.subrange(mo, m.data_ptr.offset + 4));
    (b, srcs, mf, before, tail)
}

/// The bytes of the copy of `file` (decoded into `fb`) with the `meta` copy `b` and the
/// media data planned as `srcs`.
pub open spec fn copied_bytes(
    file: Seq<u8>,
    fb: FullBoxView,
    b: Seq<u8>,
    srcs: Seq<SourceView>,
) -> Seq<u8> {
    let f = fb.ftyp.full_ptr;
    file.subrange(f.offset as int, f.offset + f.length) + b + free_bytes(file, fb) + (mdat_header(
        sources_total(srcs),
    ) + mdat_content(file, srcs)->Ok_0)
}

/// The bytes of the `free` box of `file` (decoded into `fb`), if it has one.
pub open spec fn free_bytes(file: Seq<u8>, fb: FullBoxView) -> Seq<u8> {
    match fb.free {
        Some(f) => file.subrange(f.full_ptr.offset as int, f.full_ptr.offset + f.full_ptr.length),
        None => Seq::empty(),
    }
}

/// The copy is the file's `ftyp` box, the `meta` copy, the file's `free` box, and the new
/// `mdat` box.
#[verifier::spinoff_prover]
proof fn lemma_rewrite_output(
    file: Seq<u8>,
    fb: FullBoxView,
    e: Seq<u8>,
    e2: Seq<u8>,
    b: Seq<u8>,
    srcs: Seq<SourceView>,
    before: Seq<u8>,
    tail: Seq<u8>,
)
    requires
        read_back_domain(file, fb, e, e2),
        ({
            let m = fb.meta;
            let il = m.iloc->Some_0;
            let (eid, (p, x)) = exif_location(m)->Some_0;
            let item = exif_item_bytes(e2);
            let mo = m.full_ptr.offset as int;
            let start = fb.media.full_ptr.offset + 16;
            let xr = replaced_item(item, p.length as int);
            &&& plan_from(
                sorted_ptrs(il.entries),
                0,
                eid,
                item,
                m,
                file.subrange(mo, mo + m.full_ptr.length),
                Seq::empty(),
                0,
            )
                == Some(Ok::<(Seq<u8>, Seq<SourceView>), ExifError>((b, srcs)))
            &&& mdat_content(file, srcs) == Ok::<Seq<u8>, ExifError>(
                before + xr + tail,
            )
            &&& before.len() == p.offset - start
            &&& sources_total(srcs) == p.offset - start + xr.len() + tail.len()
            &&& start <= p.offset
            &&& p.offset + p.length + tail.len() <= file.len()
            &&& b.len() == m.full_ptr.length
        }),
    ensures
        heic_copy(file, fb, e2) == Some(Ok::<Seq<u8>, ExifError>(copied_bytes(file, fb, b, srcs))),
        mdat_header(sources_total(srcs)).len() == 16,
        copied_bytes(file, fb, b, srcs).len() == fb.media.full_ptr.offset + 16 + sources_total(srcs),
        sources_total(srcs) + 16 <= usize::MAX,
        copied_bytes(file, fb, b, srcs).len() <= usize::MAX,
{
    lemma_rewrite_facts(file, fb, e, e2);
    let m = fb.meta;
    let (eid, (p, x)) = exif_location(m)->Some_0;
    let item = exif_item_bytes(e2);
    let pl = p.length as int;
    let mo = m.full_ptr.offset as int;
    let ml = m.full_ptr.length as int;
    let dm = fb.media.full_ptr.offset as int;
    let start = dm + 16;
    let len = file.len() as int;
    let xr = replaced_item(item, pl);
    let content = before + xr + tail;
    let t = sources_total(srcs);
    let fp = fb.ftyp.full_ptr;
    assert(read_data(file, fp) == Ok::<Seq<u8>, ExifError>(
        file.subrange(fp.offset as int, fp.offset + fp.length),
    ));
    match fb.free {
        Some(f) => {
            assert(read_data(file, f.full_ptr) == Ok::<Seq<u8>, ExifError>(free_bytes(file, fb)));
        },
        None => {},
    }
    let mdat = mdat_header(t) + content;
    assert(content.len() == t);
    assert(xr.len() == pl + growth(item, pl));
    assert(mdat_box(file, srcs) == Ok::<Seq<u8>, ExifError>(mdat));
    assert(read_data(file, m.full_ptr) == Ok::<Seq<u8>, ExifError>(file.subrange(mo, mo + ml)));
    assert(heic_assemble(file, fb, b, srcs) == Some(Ok::<Seq<u8>, ExifError>(copied_bytes(file, fb, b, srcs))));
    assert(mdat_header(t).len() == 16) by {
        lemma_u32_bytes_read_back(1);
        lemma_u32_bytes_read_back(MDAT);
        lemma_u64_bytes_read_back((t + 16) as u64);
    }
}

/// The copy of a file of [`read_back_domain`] decodes, and its EXIF item, still where it
/// was with the new item's length, holds the new payload; its media data is the file's up
/// to the EXIF extent, the new item, then `tail`.
#[verifier::spinoff_prover]
#[verifier::rlimit(40)]
proof fn lemma_copy_reads_back_as(file: Seq<u8>, fb: FullBoxView, e: Seq<u8>, e2: Seq<u8>) -> (r: (Seq<u8>, Seq<u8>))
    requires
        read_back_domain(file, fb, e, e2),
    ensures
        heic_copy(file, fb, e2) matches Some(Ok(_)),
        ({
            let out = heic_copy(file, fb, e2)->Some_0->Ok_0;
            let (eid, (p, x)) = exif_location(fb.meta)->Some_0;
            let item = exif_item_bytes(e2);
            let start = fb.media.full_ptr.offset + 16;
            let xr = replaced_item(item, p.length as int);
            let (before, tail) = r;
            &&& before.len() == p.offset - start
            &&& full_box(out) matches Some(Ok(fb2)) && heic_extract(out, fb2) == Some(
                Ok::<Option<Seq<u8>>, ExifError>(Some(e2)),
            ) && fb2.media.full_ptr.length == 16 + before.len() + xr.len() + tail.len() && (
            exif_location(fb2.meta) matches Some((id2, (p2, x2))) && id2 == eid && p2.offset
                == p.offset && ev_value(x2.extent_length) == item.len())
            &&& out.subrange(start, out.len() as int) == before + xr + tail
            &&& (fb.meta.iloc matches Some(il) && extents_fill(sorted_ptrs(il.entries), start, file.len() as int))
                ==> tail == file.subrange(p.offset + p.length, file.len() as int) && before
                == file.subrange(start, p.offset as int)
            &&& item.len() <= p.length ==> (full_box(out) matches Some(Ok(fb2)) && fb2.meta.iinf
                == fb.meta.iinf && fb2.meta.iloc == set_meta(
                fb.meta,
                ev_position(x.extent_length) as int,
                item.len() as u64,
            ).iloc)
        }),
{
    lemma_rewrite_facts(file, fb, e, e2);
    let (b, srcs, mf, before, tail) = lemma_rewrite_plan(file, fb, e, e2);
    lemma_rewrite_output(file, fb, e, e2, b, srcs, before, tail);
    let m = fb.meta;
    let (eid, (p, x)) = exif_location(m)->Some_0;
    let item = exif_item_bytes(e2);
    let n2 = item.len() as int;
    let pl = p.length as int;
    let mo = m.full_ptr.offset as int;
    let ml = m.full_ptr.length as int;
    let dm = fb.media.full_ptr.offset as int;
    let start = dm + 16;
    let xr = replaced_item(item, pl);
    let content = before + xr + tail;
    let t = sources_total(srcs);
    let out = copied_bytes(file, fb, b, srcs);
    let mdat = mdat_header(t) + content;
    // decoding the copy
    if boxes_back_to_back(file, fb) {
        assert(out =~= file.subrange(0, mo) + b + file.subrange(mo + ml, dm) + mdat);
        assert(out.subrange(0, mo) =~= file.subrange(0, mo));
        assert(out.subrange(mo, mo + ml) =~= b);
        assert(out.subrange(mo + ml, dm) =~= file.subrange(mo + ml, dm));
        assert(out.subrange(dm, dm + 16) =~= mdat_header(t));
        lemma_copy_decodes(file, fb, b, mf, out, t);
    } else {
        let fl = fb.ftyp.full_ptr.length as int;
        assert(out =~= file.subrange(0, fl) + b + file.subrange(fl, mo) + mdat);
        assert(out.subrange(0, fl) =~= file.subrange(0, fl));
        assert(out.subrange(fl, fl + ml) =~= b);
        assert(out.subrange(fl + ml, dm) =~= file.subrange(fl, mo));
        assert(out.subrange(dm, dm + 16) =~= mdat_header(t));
        lemma_copy_decodes_free_first(file, fb, b, mf, out, t);
    }
    let fb2 = full_box(out)->Some_0->Ok_0;
    assert(fb2.meta.iinf == mf.iinf && fb2.meta.iloc == mf.iloc);
    lemma_tracks_items(mf, fb2.meta, m, eid, x, with_value(x.extent_length, item.len() as u64));
    // reading the copy
    assert(out.subrange(p.offset as int, p.offset + n2) =~= item) by {
        assert forall|i: int|
            0 <= i < n2 implies #[trigger] out.subrange(p.offset as int, p.offset + n2)[i] == item[i] by {
            assert(out[p.offset + i] == mdat[p.offset + i - dm]);
            assert(mdat[p.offset + i - dm] == content[p.offset + i - start]);
            assert(content[p.offset + i - start] == xr[i]);
        }
    }
    lemma_extract_rewritten(out, fb2, m, eid, p, x, e2);
    assert(out.subrange(start, out.len() as int) =~= content);
    (before, tail)
}

/// Copying a HEIC file with another EXIF payload, then reading the copy, gives that
/// payload back: the copy decodes, and its EXIF item, still where it was, has the new
/// item's length and holds the new payload; where the new item is no longer than the old
/// one, the copy's `iinf` box is the file's and its `iloc` box the file's with only the
/// EXIF extent's length field changed, so every other item stays where it was (see
/// [`read_back_domain`] for the files and payloads this holds of; the boxes may come as
/// `ftyp`, `meta`, (`free`,) `mdat` or as `ftyp`, `free`, `meta`, `mdat`, the extents may
/// leave gaps between them, and the media data may hold bytes after the last extent).
pub proof fn lemma_copy_reads_back(file: Seq<u8>, fb: FullBoxView, e: Seq<u8>, e2: Seq<u8>)
    requires
        read_back_domain(file, fb, e, e2),
    ensures
        heic_copy(file, fb, e2) matches Some(Ok(out)) && full_box(out) matches Some(Ok(fb2))
            && heic_extract(out, fb2) == Some(Ok::<Option<Seq<u8>>, ExifError>(Some(e2))) && (
        exif_location(fb.meta) matches Some((eid, (p, x))) && exif_location(fb2.meta) matches Some(
            (id2, (p2, x2)),
        ) && id2 == eid && p2.offset == p.offset && ev_value(x2.extent_length)
            == exif_item_bytes(e2).len() && (exif_item_bytes(e2).len() <= p.length ==> fb2.meta.iinf
            == fb.meta.iinf && fb2.meta.iloc == set_meta(
            fb.meta,
            ev_position(x.extent_length) as int,
            exif_item_bytes(e2).len() as u64,
        ).iloc)),
{
    lemma_copy_reads_back_as(file, fb, e, e2);
}

/// Copying a HEIC file with another EXIF payload, then reading the copy, gives that
/// payload back: the copy decodes, its `mdat` box grows by as much as the EXIF item grew,
/// its EXIF item, still where it was, has the new item's length and holds the new
/// payload, and its media data is the file's with the EXIF extent replaced (see
/// [`rewrite_domain`] for the files and payloads this holds of).
#[verifier::spinoff_prover]
pub proof fn lemma_copy_then_extract(file: Seq<u8>, fb: FullBoxView, e: Seq<u8>, e2: Seq<u8>)
    requires
        rewrite_domain(file, fb, e, e2),
    ensures
        heic_copy(file, fb, e2) matches Some(Ok(_)),
        ({
            let out = heic_copy(file, fb, e2)->Some_0->Ok_0;
            let (eid, (p, x)) = exif_location(fb.meta)->Some_0;
            let item = exif_item_bytes(e2);
            let start = fb.media.full_ptr.offset + 16;
            &&& full_box(out) matches Some(Ok(fb2)) && heic_extract(out, fb2) == Some(
                Ok::<Option<Seq<u8>>, ExifError>(Some(e2)),
            ) && fb2.media.full_ptr.length == fb.media.full_ptr.length + growth(
                item,
                p.length as int,
            ) && (exif_location(fb2.meta) matches Some((id2, (p2, x2))) && id2 == eid && p2.offset
                == p.offset && ev_value(x2.extent_length) == item.len())
            &&& out.subrange(start, out.len() as int) == file.subrange(start, p.offset as int)
                + replaced_item(item, p.length as int) + file.subrange(
                p.offset + p.length,
                file.len() as int,
            )
        }),
{
    let (before, tail) = lemma_copy_reads_back_as(file, fb, e, e2);
    let (eid, (p, x)) = exif_location(fb.meta)->Some_0;
    let item = exif_item_bytes(e2);
    let xr = replaced_item(item, p.length as int);
    assert(xr.len() == p.length + growth(item, p.length as int));
    assert(tail.len() == file.len() - (p.offset + p.length));
    assert(fb.media.full_ptr.offset + fb.media.full_ptr.length == file.len());
}

} // verus!
