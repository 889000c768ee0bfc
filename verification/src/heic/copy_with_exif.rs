//! The copy of a HEIC file with another EXIF payload: the media data is written again
//! extent by extent, the EXIF extent replaced, and the `iloc` fields of the moved
//! extents rewritten in a copy of the `meta` box.

use vstd::prelude::*;

use crate::bytes::{
    be16, be32, be64, lemma_u16_bytes_read_back, lemma_u32_bytes_read_back,
    lemma_u64_bytes_read_back, push_range, push_slice, push_u32_be, push_u64_be, push_zeros,
    u16_bytes, u32_bytes, u64_bytes,
};
use crate::error::ExifError;
use crate::heic::boxes::{
    ev_position, ev_value, ev_width, extent_ptr, extents_within, find_entry, iloc_within_meta,
    item_id_of, lemma_find_entry_bounds, location_of, read_data, ExtentValue, ItemLocationEntry,
    ItemLocationEntryView, ItemLocationExtent, MetaBox, MetaBoxView, Ptr, MDAT,
};

verus! {

/// An extent of an item, with where it lies in the file.
#[derive(Debug, Clone, Copy, PartialEq, Eq, Structural)]
pub struct ItemLocationPtr {
    pub item_id: u32,
    pub ptr: Ptr,
}

/// The extents of the entry `e`, each with its item and where it lies.
pub open spec fn entry_ptrs(e: ItemLocationEntryView) -> Seq<ItemLocationPtr> {
    e.extents.map_values(
        |x: ItemLocationExtent| ItemLocationPtr { item_id: e.item_id, ptr: extent_ptr(e.base_offset, x) },
    )
}

/// The extents of all the entries `es`, entry after entry.
pub open spec fn all_ptrs(es: Seq<ItemLocationEntryView>) -> Seq<ItemLocationPtr>
    decreases es.len(),
{
    if es.len() == 0 {
        Seq::empty()
    } else {
        all_ptrs(es.drop_last()) + entry_ptrs(es.last())
    }
}

/// The offset of every extent of the entries `es` fits in 64 bits once the entry's base
/// offset is added.
pub open spec fn all_ptrs_fit(es: Seq<ItemLocationEntryView>) -> bool {
    forall|j: int, k: int|
        0 <= j < es.len() && 0 <= k < es[j].extents.len() ==> es[j].base_offset + ev_value(
            #[trigger] es[j].extents[k].extent_offset,
        ) <= u64::MAX
}

/// `x` put into the sequence `s` (sorted by offset) after every element whose offset is
/// not greater than its own.
pub open spec fn insert_by_offset(s: Seq<ItemLocationPtr>, x: ItemLocationPtr) -> Seq<ItemLocationPtr>
    decreases s.len(),
{
    if s.len() == 0 {
        seq![x]
    } else if s.last().ptr.offset <= x.ptr.offset {
        s.push(x)
    } else {
        insert_by_offset(s.drop_last(), x).push(s.last())
    }
}

/// The elements of `s` sorted by offset; elements with equal offsets keep their order.
pub open spec fn sort_by_offset(s: Seq<ItemLocationPtr>) -> Seq<ItemLocationPtr>
    decreases s.len(),
{
    if s.len() == 0 {
        Seq::empty()
    } else {
        insert_by_offset(sort_by_offset(s.drop_last()), s.last())
    }
}

/// The extents of all the entries `es`, sorted by offset.
pub open spec fn sorted_ptrs(es: Seq<ItemLocationEntryView>) -> Seq<ItemLocationPtr> {
    sort_by_offset(all_ptrs(es))
}

fn collect_ptrs(entries: &Vec<ItemLocationEntry>) -> (r: Vec<ItemLocationPtr>)
    requires
        all_ptrs_fit(entries@.map_values(|e: ItemLocationEntry| e@)),
    ensures
        r@ == all_ptrs(entries@.map_values(|e: ItemLocationEntry| e@)),
{
    let ghost es = entries@.map_values(|e: ItemLocationEntry| e@);
    let mut out: Vec<ItemLocationPtr> = Vec::new();
    let mut i: usize = 0;
    assert(es.subrange(0, 0) =~= Seq::<ItemLocationEntryView>::empty());
    while i < entries.len()
        invariant
            i <= entries@.len(),
            es == entries@.map_values(|e: ItemLocationEntry| e@),
            all_ptrs_fit(es),
            out@ == all_ptrs(es.subrange(0, i as int)),
        decreases entries@.len() - i,
    {
        let e = &entries[i];
        assert(es[i as int] == e@);
        let ghost before = out@;
        let mut k: usize = 0;
        while k < e.extents.len()
            invariant
                k <= e.extents@.len(),
                i < es.len(),
                es[i as int] == e@,
                all_ptrs_fit(es),
                out@ == before + entry_ptrs(e@).subrange(0, k as int),
            decreases e.extents@.len() - k,
        {
            let x = e.extents[k];
            assert(e.base_offset + ev_value(es[i as int].extents[k as int].extent_offset) <= u64::MAX);
            let p = ItemLocationPtr {
                item_id: e.item_id,
                ptr: Ptr {
                    offset: e.base_offset + x.extent_offset.value(),
                    length: x.extent_length.value() as usize,
                },
            };
            out.push(p);
            k = k + 1;
            assert(out@ =~= before + entry_ptrs(e@).subrange(0, k as int));
        }
        assert(entry_ptrs(e@).subrange(0, k as int) =~= entry_ptrs(e@));
        assert(es.subrange(0, i + 1).drop_last() =~= es.subrange(0, i as int));
        i = i + 1;
    }
    assert(es.subrange(0, i as int) =~= es);
    out
}

fn insert_sorted(out: &mut Vec<ItemLocationPtr>, x: ItemLocationPtr)
    ensures
        final(out)@ == insert_by_offset(old(out)@, x),
{
    let ghost s = out@;
    let mut j: usize = out.len();
    assert(s.subrange(0, j as int) =~= s);
    assert(s.subrange(j as int, s.len() as int) =~= Seq::<ItemLocationPtr>::empty());
    while j > 0 && out[j - 1].ptr.offset > x.ptr.offset
        invariant
            j <= out@.len(),
            out@ == s,
            insert_by_offset(s, x) == insert_by_offset(s.subrange(0, j as int), x) + s.subrange(
                j as int,
                s.len() as int,
            ),
        decreases j,
    {
        let ghost pre = s.subrange(0, j as int);
        assert(pre.drop_last() =~= s.subrange(0, j - 1));
        assert(s.subrange(j - 1, s.len() as int) =~= seq![s[j - 1]] + s.subrange(j as int, s.len() as int));
        j = j - 1;
    }
    out.insert(j, x);
    assert(out@ =~= insert_by_offset(s.subrange(0, j as int), x) + s.subrange(j as int, s.len() as int));
}

/// The extents of all the entries, sorted by offset (an insertion sort, so extents with
/// equal offsets keep the order of their entries).
pub fn sorted_extents(entries: &Vec<ItemLocationEntry>) -> (r: Vec<ItemLocationPtr>)
    requires
        all_ptrs_fit(entries@.map_values(|e: ItemLocationEntry| e@)),
    ensures
        r@ == sorted_ptrs(entries@.map_values(|e: ItemLocationEntry| e@)),
{
    let all = collect_ptrs(entries);
    let mut out: Vec<ItemLocationPtr> = Vec::new();
    let mut i: usize = 0;
    assert(all@.subrange(0, 0) =~= Seq::<ItemLocationPtr>::empty());
    while i < all.len()
        invariant
            i <= all@.len(),
            out@ == sort_by_offset(all@.subrange(0, i as int)),
        decreases all@.len() - i,
    {
        insert_sorted(&mut out, all[i]);
        assert(all@.subrange(0, i + 1).drop_last() =~= all@.subrange(0, i as int));
        i = i + 1;
    }
    assert(all@.subrange(0, i as int) =~= all@);
    out
}

/// Where the bytes of a stretch of the new media data come from.
pub enum Source<'a> {
    /// An extent of the source file.
    OriginFile(ItemLocationPtr),
    /// Bytes given by the caller.
    Data(&'a [u8]),
    /// That many zero bytes.
    Zero(u64),
}

/// What a stretch of the new media data holds.
pub enum SourceView {
    OriginFile(ItemLocationPtr),
    Data(Seq<u8>),
    Zero(u64),
}

impl<'a> View for Source<'a> {
    type V = SourceView;

    open spec fn view(&self) -> SourceView {
        match self {
            Source::OriginFile(p) => SourceView::OriginFile(*p),
            Source::Data(d) => SourceView::Data(d@),
            Source::Zero(n) => SourceView::Zero(*n),
        }
    }
}

/// The length of the stretch `s` (a number of zeros is taken as a `usize`).
pub open spec fn source_len(s: SourceView) -> int {
    match s {
        SourceView::OriginFile(p) => p.ptr.length as int,
        SourceView::Data(d) => d.len() as int,
        SourceView::Zero(n) => (n as usize) as int,
    }
}

/// The total length of the stretches `s`.
pub open spec fn sources_total(s: Seq<SourceView>) -> int
    decreases s.len(),
{
    if s.len() == 0 {
        0
    } else {
        sources_total(s.drop_last()) + source_len(s.last())
    }
}

proof fn lemma_sources_total_nonneg(s: Seq<SourceView>)
    ensures
        sources_total(s) >= 0,
    decreases s.len(),
{
    if s.len() > 0 {
        lemma_sources_total_nonneg(s.drop_last());
    }
}

/// The total length of the stretches `sources`.
pub fn sources_len(sources: &[Source]) -> (r: usize)
    requires
        sources_total(sources@.map_values(|s: Source| s@)) <= usize::MAX,
    ensures
        r == sources_total(sources@.map_values(|s: Source| s@)),
{
    let ghost sv = sources@.map_values(|s: Source| s@);
    let mut total: usize = 0;
    let mut i: usize = 0;
    assert(sv.subrange(0, 0) =~= Seq::<SourceView>::empty());
    while i < sources.len()
        invariant
            i <= sources@.len(),
            sv == sources@.map_values(|s: Source| s@),
            sources_total(sv) <= usize::MAX,
            total == sources_total(sv.subrange(0, i as int)),
        decreases sources@.len() - i,
    {
        assert(sv.subrange(0, i + 1).drop_last() =~= sv.subrange(0, i as int));
        proof {
            let rest = sv.subrange(i + 1, sv.len() as int);
            assert(sv =~= sv.subrange(0, i + 1) + rest);
            lemma_sources_total_split(sv.subrange(0, i + 1), rest);
            lemma_sources_total_nonneg(rest);
        }
        let n: usize = match &sources[i] {
            Source::OriginFile(p) => p.ptr.length,
            Source::Data(d) => d.len(),
            Source::Zero(z) => *z as usize,
        };
        total = total + n;
        i = i + 1;
    }
    assert(sv.subrange(0, i as int) =~= sv);
    total
}

proof fn lemma_sources_total_split(a: Seq<SourceView>, b: Seq<SourceView>)
    ensures
        sources_total(a + b) == sources_total(a) + sources_total(b),
    decreases b.len(),
{
    if b.len() == 0 {
        assert(a + b =~= a);
    } else {
        lemma_sources_total_split(a, b.drop_last());
        assert((a + b).drop_last() =~= a + b.drop_last());
    }
}

/// The bytes of `v` in the width `w` (1, 2, 4 or 8 bytes, big-endian), truncated.
pub open spec fn value_bytes(v: u64, w: int) -> Seq<u8> {
    if w == 1 {
        seq![v as u8]
    } else if w == 2 {
        u16_bytes(v as u16)
    } else if w == 4 {
        u32_bytes(v as u32)
    } else {
        u64_bytes(v)
    }
}

/// `buf` with `bytes` written at `p`: past its end, the buffer grows (with zeros up to
/// `p`).
pub open spec fn write_at(buf: Seq<u8>, p: int, bytes: Seq<u8>) -> Seq<u8> {
    if p <= buf.len() {
        buf.subrange(0, p) + bytes + if p + bytes.len() < buf.len() {
            buf.subrange(p + bytes.len(), buf.len() as int)
        } else {
            Seq::empty()
        }
    } else {
        buf + Seq::new((p - buf.len()) as nat, |i: int| 0u8) + bytes
    }
}

/// `buf` with the field `ev` holding `val` (truncated to the field's width).
pub open spec fn overwrite(buf: Seq<u8>, ev: ExtentValue, val: u64) -> Seq<u8> {
    write_at(buf, ev_position(ev) as int, value_bytes(val, ev_width(ev)))
}

pub(crate) fn field_bytes(extent_val: &ExtentValue, v: u64) -> (r: Vec<u8>)
    ensures
        r@ == value_bytes(v, ev_width(*extent_val)),
        r@.len() == ev_width(*extent_val),
{
    let mut bytes: Vec<u8> = Vec::new();
    match extent_val {
        ExtentValue::U8(..) => {
            bytes.push(v as u8);
        },
        ExtentValue::U16(..) => {
            crate::bytes::push_u16_be(&mut bytes, v as u16);
        },
        ExtentValue::U32(..) => {
            push_u32_be(&mut bytes, v as u32);
        },
        ExtentValue::U64(..) => {
            push_u64_be(&mut bytes, v);
        },
    }
    assert(bytes@ =~= value_bytes(v, ev_width(*extent_val)));
    bytes
}

fn set_bytes(buf: &mut Vec<u8>, p: usize, bytes: &Vec<u8>)
    requires
        p + bytes@.len() <= old(buf)@.len(),
    ensures
        final(buf)@ == write_at(old(buf)@, p as int, bytes@),
{
    let ghost b0 = buf@;
    let _n = buf.len();
    let mut k: usize = 0;
    while k < bytes.len()
        invariant
            k <= bytes@.len(),
            p + bytes@.len() <= b0.len(),
            b0.len() == _n,
            buf@.len() == b0.len(),
            forall|i: int| 0 <= i < p ==> buf@[i] == b0[i],
            forall|i: int| p + bytes@.len() <= i < b0.len() ==> buf@[i] == b0[i],
            forall|i: int| 0 <= i < k ==> buf@[p + i] == bytes@[i],
        decreases bytes@.len() - k,
    {
        buf.set(p + k, bytes[k]);
        k = k + 1;
    }
    assert(buf@ =~= write_at(b0, p as int, bytes@));
}

/// Writes `bytes` at `p` into `buf`, which grows (with zeros up to `p`) where the bytes
/// reach past its end.
fn write_bytes_at(buf: &mut Vec<u8>, p: usize, bytes: &Vec<u8>)
    requires
        p + bytes@.len() <= usize::MAX,
    ensures
        final(buf)@ == write_at(old(buf)@, p as int, bytes@),
{
    let n = buf.len();
    if p <= n && bytes.len() <= n - p {
        set_bytes(buf, p, bytes);
        return;
    }
    let ghost b0 = buf@;
    let mut out: Vec<u8> = Vec::new();
    if p <= n {
        push_range(&mut out, buf.as_slice(), 0, p);
    } else {
        push_range(&mut out, buf.as_slice(), 0, n);
        push_zeros(&mut out, p - n);
    }
    push_slice(&mut out, bytes.as_slice());
    proof {
        if p <= n {
            assert(out@ =~= write_at(b0, p as int, bytes@));
        } else {
            assert(b0.subrange(0, n as int) =~= b0);
            assert(out@ =~= write_at(b0, p as int, bytes@));
        }
    }
    *buf = out;
}

/// Writes `val` (truncated to the field's width) into the field `ev` of `buf`; where the
/// field reaches past the end of `buf`, `buf` grows to hold it, zeros filling the bytes
/// between its end and the field.
pub fn overwrite_extent(buf: &mut Vec<u8>, extent_val: &ExtentValue, overwrite_val: u64)
    requires
        ev_position(*extent_val) + ev_width(*extent_val) <= usize::MAX,
    ensures
        final(buf)@ == overwrite(old(buf)@, *extent_val, overwrite_val),
        ev_position(*extent_val) + ev_width(*extent_val) <= old(buf)@.len() ==> final(buf)@.len()
            == old(buf)@.len(),
{
    let bytes = field_bytes(extent_val, overwrite_val);
    let p = extent_val.position() as usize;
    assert(p == ev_position(*extent_val));
    write_bytes_at(buf, p, &bytes);
}

/// Which `iloc` entry to rewrite: the entry of an item, or of the first item of a type.
pub enum ModifyIlocItemKey<'a> {
    Id(u32),
    Type(&'a str),
}

/// What designates the `iloc` entry to rewrite.
pub enum ModifyIlocItemKeyView {
    Id(u32),
    Type(Seq<char>),
}

impl<'a> View for ModifyIlocItemKey<'a> {
    type V = ModifyIlocItemKeyView;

    open spec fn view(&self) -> ModifyIlocItemKeyView {
        match self {
            ModifyIlocItemKey::Id(id) => ModifyIlocItemKeyView::Id(*id),
            ModifyIlocItemKey::Type(t) => ModifyIlocItemKeyView::Type(t@),
        }
    }
}

/// The outcome of rewriting, in the copy `buf` of the `meta` box `m`, the offset and the
/// length of the single extent of the entry that `key` designates.
pub open spec fn modify_iloc(
    buf: Seq<u8>,
    m: MetaBoxView,
    key: ModifyIlocItemKeyView,
    offset: Option<u64>,
    length: Option<usize>,
) -> Result<Seq<u8>, ExifError> {
    if m.iloc is None {
        Err(ExifError::ItemLocationBoxNotFound)
    } else {
        let id = match key {
            ModifyIlocItemKeyView::Id(id) => Some(id),
            ModifyIlocItemKeyView::Type(t) => item_id_of(m, t),
        };
        match id {
            None => Err(ExifError::ItemNotFound),
            Some(id) => match location_of(m, id) {
                None => Err(ExifError::ExtentNotFound),
                Some(e) => {
                    if e.extents.len() != 1 {
                        Err(ExifError::MultipleExtents(e.extents.len() as usize))
                    } else {
                        let x = e.extents[0];
                        let b1 = match offset {
                            Some(o) => overwrite(buf, x.extent_offset, o),
                            None => buf,
                        };
                        Ok(
                            match length {
                                Some(l) => overwrite(b1, x.extent_length, l as u64),
                                None => b1,
                            },
                        )
                    }
                },
            },
        }
    }
}

/// Rewrites, in the copy `buf` of the `meta` box `meta`, the offset and the length of the
/// single extent of the entry that `key` designates.
pub fn modify_iloc_item(
    buf: &mut Vec<u8>,
    meta: &MetaBox,
    key: ModifyIlocItemKey,
    offset: Option<u64>,
    length: Option<usize>,
) -> (r: Result<(), ExifError>)
    requires
        old(buf)@.len() == meta@.full_ptr.length,
        iloc_within_meta(meta@),
    ensures
        final(buf)@.len() == old(buf)@.len(),
        match r {
            Ok(()) => modify_iloc(old(buf)@, meta@, key@, offset, length) == Ok::<Seq<u8>, ExifError>(
                final(buf)@,
            ),
            Err(e) => modify_iloc(old(buf)@, meta@, key@, offset, length) == Err::<Seq<u8>, ExifError>(e)
                && final(buf)@ == old(buf)@,
        },
{
    if meta.iloc_box.is_none() {
        return Err(ExifError::ItemLocationBoxNotFound);
    }
    let item_id = match key {
        ModifyIlocItemKey::Id(item_id) => item_id,
        ModifyIlocItemKey::Type(item_type) => match meta.get_item_id(item_type) {
            Some(id) => id,
            None => {
                return Err(ExifError::ItemNotFound);
            },
        },
    };
    let entry = match meta.location_entry(item_id) {
        Some(e) => e,
        None => {
            return Err(ExifError::ExtentNotFound);
        },
    };
    if entry.extents.len() != 1 {
        return Err(ExifError::MultipleExtents(entry.extents.len()));
    }
    let x = entry.extents[0];
    proof {
        let il = meta@.iloc.unwrap();
        lemma_find_entry_bounds(il.entries, item_id, 0);
        let j = find_entry(il.entries, item_id);
        assert(il.entries[j] == entry@);
        assert(extents_within(il.entries[j].extents, meta@.full_ptr.length as int));
        assert(entry@.extents[0] == x);
    }
    if let Some(o) = offset {
        overwrite_extent(buf, &x.extent_offset, o);
    }
    if let Some(l) = length {
        overwrite_extent(buf, &x.extent_length, l as u64);
    }
    Ok(())
}

/// The bytes of the stretches `s` of the new media data, taken from `file`.
pub open spec fn mdat_content(file: Seq<u8>, s: Seq<SourceView>) -> Result<Seq<u8>, ExifError>
    decreases s.len(),
{
    if s.len() == 0 {
        Ok(Seq::empty())
    } else {
        match mdat_content(file, s.drop_last()) {
            Err(e) => Err(e),
            Ok(prefix) => match s.last() {
                SourceView::OriginFile(p) => match read_data(file, p.ptr) {
                    Err(e) => Err(e),
                    Ok(d) => Ok(prefix + d),
                },
                SourceView::Data(d) => Ok(prefix + d),
                SourceView::Zero(n) => Ok(prefix + Seq::new((n as usize) as nat, |i: int| 0u8)),
            },
        }
    }
}

proof fn lemma_mdat_content_err_extends(file: Seq<u8>, s: Seq<SourceView>, k: int)
    requires
        0 <= k <= s.len(),
        mdat_content(file, s.subrange(0, k)) is Err,
    ensures
        mdat_content(file, s) == mdat_content(file, s.subrange(0, k)),
    decreases s.len() - k,
{
    if k < s.len() {
        let t = s.subrange(0, k + 1);
        assert(t.drop_last() =~= s.subrange(0, k));
        lemma_mdat_content_err_extends(file, s, k + 1);
    } else {
        assert(s.subrange(0, k) =~= s);
    }
}

/// The header of an `mdat` box in the 64-bit size form, for content of `len` bytes.
pub open spec fn mdat_header(len: int) -> Seq<u8> {
    u32_bytes(1) + u32_bytes(MDAT) + u64_bytes((len + 16) as u64)
}

/// The bytes of an `mdat` box made of the stretches `s`, taken from `file`.
pub open spec fn mdat_box(file: Seq<u8>, s: Seq<SourceView>) -> Result<Seq<u8>, ExifError> {
    match mdat_content(file, s) {
        Err(e) => Err(e),
        Ok(c) => Ok(mdat_header(sources_total(s)) + c),
    }
}

/// The bytes of an `mdat` box made of the stretches `sources`, taken from `file`.
pub fn write_mdat(file: &[u8], sources: &Vec<Source>) -> (r: Result<Vec<u8>, ExifError>)
    requires
        sources_total(sources@.map_values(|s: Source| s@)) + 16 <= u64::MAX,
        sources_total(sources@.map_values(|s: Source| s@)) <= usize::MAX,
    ensures
        match r {
            Ok(v) => mdat_box(file@, sources@.map_values(|s: Source| s@)) == Ok::<Seq<u8>, ExifError>(v@),
            Err(e) => mdat_box(file@, sources@.map_values(|s: Source| s@)) == Err::<Seq<u8>, ExifError>(e),
        },
{
    let ghost sv = sources@.map_values(|s: Source| s@);
    let slice = sources.as_slice();
    assert(slice@ == sources@);
    let mdat_len = sources_len(slice);
    let mut out: Vec<u8> = Vec::new();
    push_u32_be(&mut out, 1);
    push_u32_be(&mut out, MDAT);
    push_u64_be(&mut out, mdat_len as u64 + 16);
    let ghost header = out@;
    assert(header == mdat_header(sources_total(sv)));
    let mut i: usize = 0;
    assert(sv.subrange(0, 0) =~= Seq::<SourceView>::empty());
    assert(out@.subrange(header.len() as int, out@.len() as int) =~= Seq::<u8>::empty());
    assert(out@.subrange(0, header.len() as int) =~= header);
    while i < sources.len()
        invariant
            i <= sources@.len(),
            sv == sources@.map_values(|s: Source| s@),
            header == mdat_header(sources_total(sv)),
            mdat_content(file@, sv.subrange(0, i as int)) == Ok::<Seq<u8>, ExifError>(
                out@.subrange(header.len() as int, out@.len() as int),
            ),
            out@.len() >= header.len(),
            out@.subrange(0, header.len() as int) == header,
        decreases sources@.len() - i,
    {
        assert(sv.subrange(0, i + 1).drop_last() =~= sv.subrange(0, i as int));
        assert(sv.subrange(0, i + 1).last() == sources@[i as int]@);
        let ghost before = out@;
        match &sources[i] {
            Source::OriginFile(p) => {
                let len = file.len();
                if p.ptr.offset > len as u64 || (len as u64 - p.ptr.offset) < p.ptr.length as u64 {
                    proof {
                        lemma_mdat_content_err_extends(file@, sv, i + 1);
                    }
                    return Err(ExifError::UnexpectedEof);
                }
                let start = p.ptr.offset as usize;
                push_range(&mut out, file, start, start + p.ptr.length);
                assert(out@.subrange(before.len() as int, out@.len() as int) =~= file@.subrange(
                    p.ptr.offset as int,
                    p.ptr.offset + p.ptr.length,
                ));
                assert(sv[i as int] == SourceView::OriginFile(*p));
            },
            Source::Data(d) => {
                push_slice(&mut out, d);
                assert(out@.subrange(before.len() as int, out@.len() as int) =~= d@);
                assert(sv[i as int] == SourceView::Data(d@));
            },
            Source::Zero(n) => {
                push_zeros(&mut out, *n as usize);
                assert(out@.subrange(before.len() as int, out@.len() as int) =~= Seq::new(
                    (*n as usize) as nat,
                    |k: int| 0u8,
                ));
                assert(sv[i as int] == SourceView::Zero(*n));
            },
        }
        assert(out@.subrange(0, header.len() as int) =~= before.subrange(0, header.len() as int));
        assert(out@.subrange(header.len() as int, out@.len() as int) =~= before.subrange(
            header.len() as int,
            before.len() as int,
        ) + out@.subrange(before.len() as int, out@.len() as int));
        proof {
            let added = out@.subrange(before.len() as int, out@.len() as int);
            let prefix = before.subrange(header.len() as int, before.len() as int);
            let t = sv.subrange(0, i + 1);
            assert(mdat_content(file@, t.drop_last()) == Ok::<Seq<u8>, ExifError>(prefix));
            assert(mdat_content(file@, t) == Ok::<Seq<u8>, ExifError>(prefix + added));
        }
        i = i + 1;
    }
    assert(sv.subrange(0, i as int) =~= sv);
    assert(out@ =~= header + out@.subrange(header.len() as int, out@.len() as int));
    Ok(out)
}

/// The outcome of planning the new media data from the `i`-th of the extents `sorted`
/// (sorted by offset) on, after the stretches `sources`, with the `meta` copy `buf` and
/// the shift `adjust` of the extents that follow the EXIF extent: the EXIF extent (of the
/// item `eid`) becomes `exif`, padded with zeros where `exif` is shorter; the other
/// extents are copied, and shifted in the `iloc` box where `exif` is longer; a gap between
/// extents becomes as many zeros as lie between the previous extent's end and the next
/// extent's offset, so that the extents after it keep their places (shifted only by the
/// growth of the EXIF extent). `None` where an offset overflows 64 bits (the copy aborts).
pub open spec fn plan_from(
    sorted: Seq<ItemLocationPtr>,
    i: int,
    eid: u32,
    exif: Seq<u8>,
    m: MetaBoxView,
    buf: Seq<u8>,
    sources: Seq<SourceView>,
    adjust: u64,
) -> Option<Result<(Seq<u8>, Seq<SourceView>), ExifError>>
    decreases sorted.len() - i,
{
    if i < 0 || i >= sorted.len() {
        Some(Ok((buf, sources)))
    } else {
        let item = sorted[i];
        let gap: Option<Result<Seq<SourceView>, ExifError>> = if i == 0 {
            Some(Ok(sources))
        } else {
            let prev = sorted[i - 1];
            let expected = prev.ptr.offset + prev.ptr.length;
            if expected > u64::MAX {
                None
            } else if expected > item.ptr.offset {
                Some(Err(ExifError::OverlappedExtents))
            } else if expected < item.ptr.offset {
                Some(Ok(sources.push(SourceView::Zero((item.ptr.offset - expected) as u64))))
            } else {
                Some(Ok(sources))
            }
        };
        match gap {
            None => None,
            Some(Err(e)) => Some(Err(e)),
            Some(Ok(s1)) => {
                if item.item_id == eid {
                    let existed = item.ptr.length;
                    match modify_iloc(
                        buf,
                        m,
                        ModifyIlocItemKeyView::Id(eid),
                        None,
                        Some(exif.len() as usize),
                    ) {
                        Err(e) => Some(Err(e)),
                        Ok(b2) => {
                            if exif.len() > existed {
                                if adjust + (exif.len() - existed) > u64::MAX {
                                    None
                                } else {
                                    plan_from(
                                        sorted,
                                        i + 1,
                                        eid,
                                        exif,
                                        m,
                                        b2,
                                        s1.push(SourceView::Data(exif)),
                                        (adjust + (exif.len() - existed)) as u64,
                                    )
                                }
                            } else if exif.len() < existed {
                                plan_from(
                                    sorted,
                                    i + 1,
                                    eid,
                                    exif,
                                    m,
                                    b2,
                                    s1.push(SourceView::Data(exif)).push(
                                        SourceView::Zero((existed - exif.len()) as u64),
                                    ),
                                    adjust,
                                )
                            } else {
                                plan_from(sorted, i + 1, eid, exif, m, b2, s1.push(SourceView::Data(exif)), adjust)
                            }
                        },
                    }
                } else if adjust > 0 {
                    if item.ptr.offset + adjust > u64::MAX {
                        None
                    } else {
                        match modify_iloc(
                            buf,
                            m,
                            ModifyIlocItemKeyView::Id(item.item_id),
                            Some((item.ptr.offset + adjust) as u64),
                            None,
                        ) {
                            Err(e) => Some(Err(e)),
                            Ok(b2) => plan_from(
                                sorted,
                                i + 1,
                                eid,
                                exif,
                                m,
                                b2,
                                s1.push(SourceView::OriginFile(item)),
                                adjust,
                            ),
                        }
                    }
                } else {
                    plan_from(sorted, i + 1, eid, exif, m, buf, s1.push(SourceView::OriginFile(item)), adjust)
                }
            },
        }
    }
}

/// The view of a sequence of stretches.
pub open spec fn sources_view<'a>(s: Seq<Source<'a>>) -> Seq<SourceView> {
    s.map_values(|x: Source<'a>| x@)
}

/// Plans the new media data (see [`plan_from`]) and rewrites the `iloc` fields in the
/// copy `buf` of the `meta` box.
pub fn plan_media<'a>(
    sorted: &Vec<ItemLocationPtr>,
    eid: u32,
    exif: &'a [u8],
    meta: &MetaBox,
    buf: &mut Vec<u8>,
) -> (r: Option<Result<Vec<Source<'a>>, ExifError>>)
    requires
        old(buf)@.len() == meta@.full_ptr.length,
        iloc_within_meta(meta@),
    ensures
        match r {
            None => plan_from(sorted@, 0, eid, exif@, meta@, old(buf)@, Seq::empty(), 0) is None,
            Some(Err(e)) => plan_from(sorted@, 0, eid, exif@, meta@, old(buf)@, Seq::empty(), 0)
                == Some(Err::<(Seq<u8>, Seq<SourceView>), ExifError>(e)),
            Some(Ok(s)) => plan_from(sorted@, 0, eid, exif@, meta@, old(buf)@, Seq::empty(), 0)
                == Some(Ok::<(Seq<u8>, Seq<SourceView>), ExifError>((final(buf)@, sources_view(s@)))),
        },
{
    let ghost target = plan_from(sorted@, 0, eid, exif@, meta@, buf@, Seq::empty(), 0);
    let exif_len = exif.len();
    let mut sources: Vec<Source<'a>> = Vec::new();
    let mut adjust_offset: u64 = 0;
    let mut i: usize = 0;
    assert(sources_view(sources@) =~= Seq::<SourceView>::empty());
    while i < sorted.len()
        invariant
            i <= sorted@.len(),
            exif_len == exif@.len(),
            buf@.len() == meta@.full_ptr.length,
            iloc_within_meta(meta@),
            target == plan_from(sorted@, 0, eid, exif@, meta@, old(buf)@, Seq::empty(), 0),
            plan_from(sorted@, i as int, eid, exif@, meta@, buf@, sources_view(sources@), adjust_offset)
                == target,
        decreases sorted@.len() - i,
    {
        let item = sorted[i];
        let ghost s0 = sources_view(sources@);
        if i != 0 {
            let prev = sorted[i - 1];
            if prev.ptr.length as u64 > u64::MAX - prev.ptr.offset {
                return None;
            }
            let expected = prev.ptr.offset + prev.ptr.length as u64;
            if expected > item.ptr.offset {
                return Some(Err(ExifError::OverlappedExtents));
            } else if expected < item.ptr.offset {
                sources.push(Source::Zero(item.ptr.offset - expected));
                assert(sources_view(sources@) =~= s0.push(
                    SourceView::Zero((item.ptr.offset - expected) as u64),
                ));
            }
        }
        let ghost s1 = sources_view(sources@);
        if item.item_id == eid {
            let existed = item.ptr.length;
            match modify_iloc_item(buf, meta, ModifyIlocItemKey::Id(eid), None, Some(exif_len)) {
                Err(e) => {
                    return Some(Err(e));
                },
                Ok(()) => {},
            }
            if exif_len > existed {
                let grow = (exif_len - existed) as u64;
                if grow > u64::MAX - adjust_offset {
                    return None;
                }
                adjust_offset = adjust_offset + grow;
                sources.push(Source::Data(exif));
                assert(sources_view(sources@) =~= s1.push(SourceView::Data(exif@)));
            } else if exif_len < existed {
                let zeros = (existed - exif_len) as u64;
                sources.push(Source::Data(exif));
                sources.push(Source::Zero(zeros));
                assert(sources_view(sources@) =~= s1.push(SourceView::Data(exif@)).push(
                    SourceView::Zero(zeros),
                ));
            } else {
                sources.push(Source::Data(exif));
                assert(sources_view(sources@) =~= s1.push(SourceView::Data(exif@)));
            }
        } else {
            if adjust_offset > 0 {
                if adjust_offset > u64::MAX - item.ptr.offset {
                    return None;
                }
                match modify_iloc_item(
                    buf,
                    meta,
                    ModifyIlocItemKey::Id(item.item_id),
                    Some(item.ptr.offset + adjust_offset),
                    None,
                ) {
                    Err(e) => {
                        return Some(Err(e));
                    },
                    Ok(()) => {},
                }
            }
            sources.push(Source::OriginFile(item));
            assert(sources_view(sources@) =~= s1.push(SourceView::OriginFile(item)));
        }
        i = i + 1;
    }
    Some(Ok(sources))
}

/// Whether the offset of every extent of `entries` fits in 64 bits once the entry's base
/// offset is added.
pub fn extents_fit(entries: &Vec<ItemLocationEntry>) -> (r: bool)
    ensures
        r == all_ptrs_fit(entries@.map_values(|e: ItemLocationEntry| e@)),
{
    let ghost es = entries@.map_values(|e: ItemLocationEntry| e@);
    let mut i: usize = 0;
    while i < entries.len()
        invariant
            i <= entries@.len(),
            es == entries@.map_values(|e: ItemLocationEntry| e@),
            forall|j: int, k: int|
                0 <= j < i && 0 <= k < es[j].extents.len() ==> es[j].base_offset + ev_value(
                    #[trigger] es[j].extents[k].extent_offset,
                ) <= u64::MAX,
        decreases entries@.len() - i,
    {
        let e = &entries[i];
        assert(es[i as int] == e@);
        let mut k: usize = 0;
        while k < e.extents.len()
            invariant
                k <= e.extents@.len(),
                i < es.len(),
                es[i as int] == e@,
                es == entries@.map_values(|e: ItemLocationEntry| e@),
                forall|j: int, k2: int|
                    0 <= j < i && 0 <= k2 < es[j].extents.len() ==> es[j].base_offset + ev_value(
                        #[trigger] es[j].extents[k2].extent_offset,
                    ) <= u64::MAX,
                forall|k2: int|
                    0 <= k2 < k ==> e.base_offset + ev_value(#[trigger] e@.extents[k2].extent_offset)
                        <= u64::MAX,
            decreases e.extents@.len() - k,
        {
            if e.extents[k].extent_offset.value() > u64::MAX - e.base_offset {
                assert(es[i as int].extents[k as int] == e.extents@[k as int]);
                assert(es[i as int].base_offset + ev_value(es[i as int].extents[k as int].extent_offset)
                    > u64::MAX);
                assert(!all_ptrs_fit(es));
                return false;
            }
            k = k + 1;
        }
        i = i + 1;
    }
    true
}

/// Whether the total length of `sources` fits in a `usize`, and with the 16 bytes of an
/// `mdat` header in 64 bits.
pub fn sources_fit(sources: &Vec<Source>) -> (r: bool)
    ensures
        r == (sources_total(sources_view(sources@)) <= usize::MAX && sources_total(
            sources_view(sources@),
        ) + 16 <= u64::MAX),
{
    let ghost sv = sources_view(sources@);
    let mut total: u128 = 0;
    let mut i: usize = 0;
    assert(sv.subrange(0, 0) =~= Seq::<SourceView>::empty());
    while i < sources.len()
        invariant
            i <= sources@.len(),
            sv == sources_view(sources@),
            total == sources_total(sv.subrange(0, i as int)),
            total <= usize::MAX,
        decreases sources@.len() - i,
    {
        assert(sv.subrange(0, i + 1).drop_last() =~= sv.subrange(0, i as int));
        let n: usize = match &sources[i] {
            Source::OriginFile(p) => p.ptr.length,
            Source::Data(d) => d.len(),
            Source::Zero(z) => *z as usize,
        };
        total = total + n as u128;
        i = i + 1;
        if total > usize::MAX as u128 {
            proof {
                let rest = sv.subrange(i as int, sv.len() as int);
                assert(sv =~= sv.subrange(0, i as int) + rest);
                lemma_sources_total_split(sv.subrange(0, i as int), rest);
                lemma_sources_total_nonneg(rest);
            }
            return false;
        }
    }
    assert(sv.subrange(0, i as int) =~= sv);
    total + 16 <= u64::MAX as u128
}

/// `s` is sorted by offset.
pub open spec fn sorted_by_offset(s: Seq<ItemLocationPtr>) -> bool {
    forall|a: int, b: int| 0 <= a < b < s.len() ==> s[a].ptr.offset <= s[b].ptr.offset
}

proof fn lemma_insert_by_offset(s: Seq<ItemLocationPtr>, x: ItemLocationPtr)
    requires
        sorted_by_offset(s),
    ensures
        sorted_by_offset(insert_by_offset(s, x)),
        insert_by_offset(s, x).to_multiset() == s.to_multiset().insert(x),
        insert_by_offset(s, x).len() == s.len() + 1,
        forall|k: int|
            0 <= k < insert_by_offset(s, x).len() ==> (#[trigger] insert_by_offset(s, x)[k] == x
                || s.contains(insert_by_offset(s, x)[k])),
    decreases s.len(),
{
    broadcast use vstd::seq_lib::group_seq_properties;

    if s.len() == 0 {
        assert(seq![x] =~= Seq::<ItemLocationPtr>::empty().push(x));
    } else if s.last().ptr.offset <= x.ptr.offset {
        assert forall|k: int| 0 <= k < s.push(x).len() implies (#[trigger] s.push(x)[k] == x || s.contains(s.push(x)[k])) by {
            if k < s.len() {
                assert(s.push(x)[k] == s[k]);
            }
        }
    } else {
        let t = s.drop_last();
        assert(sorted_by_offset(t));
        lemma_insert_by_offset(t, x);
        let u = insert_by_offset(t, x);
        assert(s =~= t.push(s.last()));
        assert forall|a: int, b: int| 0 <= a < b < u.push(s.last()).len() implies u.push(s.last())[a].ptr.offset
            <= u.push(s.last())[b].ptr.offset by {
            if b == u.len() {
                if u[a] != x {
                    assert(t.contains(u[a]));
                    let j = choose|j: int| 0 <= j < t.len() && t[j] == u[a];
                    assert(s[j] == t[j]);
                }
            }
        }
        assert forall|k: int| 0 <= k < u.push(s.last()).len() implies (#[trigger] u.push(s.last())[k] == x
            || s.contains(u.push(s.last())[k])) by {
            if k < u.len() {
                if u[k] != x {
                    assert(t.contains(u[k]));
                    let j = choose|j: int| 0 <= j < t.len() && t[j] == u[k];
                    assert(s[j] == t[j]);
                }
            } else {
                assert(s[s.len() - 1] == s.last());
            }
        }
    }
}

/// Sorting extents by offset gives a sequence sorted by offset with the same elements.
pub proof fn lemma_sort_by_offset(s: Seq<ItemLocationPtr>)
    ensures
        sorted_by_offset(sort_by_offset(s)),
        sort_by_offset(s).to_multiset() == s.to_multiset(),
        sort_by_offset(s).len() == s.len(),
    decreases s.len(),
{
    broadcast use vstd::seq_lib::group_seq_properties;

    if s.len() > 0 {
        lemma_sort_by_offset(s.drop_last());
        lemma_insert_by_offset(sort_by_offset(s.drop_last()), s.last());
        assert(s =~= s.drop_last().push(s.last()));
    }
}

/// The value of the big-endian field of width `w` (1, 2, 4 or 8 bytes) at `p` in `buf`.
pub open spec fn field_value(buf: Seq<u8>, p: int, w: int) -> int {
    if w == 1 {
        buf[p] as int
    } else if w == 2 {
        be16(buf, p)
    } else if w == 4 {
        be32(buf, p)
    } else {
        be64(buf, p)
    }
}

/// The number of values a field of width `w` can hold.
pub open spec fn field_modulus(w: int) -> int {
    if w == 1 {
        0x100
    } else if w == 2 {
        0x1_0000
    } else if w == 4 {
        0x1_0000_0000
    } else {
        0x1_0000_0000_0000_0000
    }
}

/// Reading a field back after writing `v` into it gives `v` (modulo the field's width),
/// and the other bytes of the buffer stay as they were.
pub proof fn lemma_overwrite_reads_back(buf: Seq<u8>, ev: ExtentValue, v: u64)
    requires
        ev_position(ev) + ev_width(ev) <= buf.len(),
    ensures
        overwrite(buf, ev, v).len() == buf.len(),
        field_value(overwrite(buf, ev, v), ev_position(ev) as int, ev_width(ev)) == v as int
            % field_modulus(ev_width(ev)),
        forall|i: int|
            0 <= i < buf.len() && !(ev_position(ev) <= i < ev_position(ev) + ev_width(ev)) ==> #[trigger] overwrite(
                buf,
                ev,
                v,
            )[i] == buf[i],
{
    let p = ev_position(ev) as int;
    let w = ev_width(ev);
    let bytes = value_bytes(v, w);
    let out = overwrite(buf, ev, v);
    if w == 1 {
        assert((v as u8) as u64 == v % 0x100) by (bit_vector);
    } else if w == 2 {
        lemma_u16_bytes_read_back(v as u16);
        assert((v as u16) as u64 == v % 0x1_0000) by (bit_vector);
    } else if w == 4 {
        lemma_u32_bytes_read_back(v as u32);
        assert((v as u32) as u64 == v % 0x1_0000_0000) by (bit_vector);
    } else {
        lemma_u64_bytes_read_back(v);
    }
    assert(bytes.len() == w);
    assert(out.len() == buf.len());
    assert(out.subrange(p, p + w) =~= bytes);
    if w == 1 {
        assert(out[p] == bytes[0]);
    } else if w == 2 {
        assert(be16(out, p) == be16(bytes, 0));
    } else if w == 4 {
        assert(be32(out, p) == be32(bytes, 0));
    } else {
        assert(be64(out, p) == be64(bytes, 0));
    }
}

} // verus!
