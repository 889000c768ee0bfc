//! The `meta` box decoded again after one field of an `iloc` extent was written over:
//! the same boxes and entries, with that one field holding the value written.

use vstd::prelude::*;

use crate::bytes::{
    be16, be32, be64, lemma_u16_bytes_read_back, lemma_u32_bytes_read_back,
    lemma_u64_bytes_read_back,
};
use crate::error::ExifError;
use crate::heic::boxes::{
    entry_header_at, ev_position, ev_width, extent_at, extents_at, field_at, field_sizes,
    find_entry, find_entry_from, insert_box, insert_entry, is_field_size, item_info_box,
    item_location_box, item_location_entries, item_location_entry, lemma_raw_box_at_in, meta_box,
    meta_child, meta_children, optional_uint_at, raw_box_at, read_data, remaining, shifted,
    version_and_flags, ExtentValue, FieldSizes, ItemLocationBoxView, ItemLocationEntryView,
    ItemLocationExtent, MetaBoxView, MetaChildren, RawBox, IINF, ILOC,
};
use crate::heic::copy_with_exif::value_bytes;

verus! {

/// The field `v` holding `val`, truncated to its width, in place of its value.
pub open spec fn with_value(v: ExtentValue, val: u64) -> ExtentValue {
    match v {
        ExtentValue::U8(p, _) => ExtentValue::U8(p, val as u8),
        ExtentValue::U16(p, _) => ExtentValue::U16(p, val as u16),
        ExtentValue::U32(p, _) => ExtentValue::U32(p, val as u32),
        ExtentValue::U64(p, _) => ExtentValue::U64(p, val),
    }
}

/// The field `v`, holding `val` where it lies at `pos`.
pub open spec fn set_field(v: ExtentValue, pos: int, val: u64) -> ExtentValue {
    if ev_position(v) == pos {
        with_value(v, val)
    } else {
        v
    }
}

/// The extent `x` with its field at `pos` holding `val`.
pub open spec fn set_extent(x: ItemLocationExtent, pos: int, val: u64) -> ItemLocationExtent {
    ItemLocationExtent {
        extent_index: x.extent_index,
        extent_offset: set_field(x.extent_offset, pos, val),
        extent_length: set_field(x.extent_length, pos, val),
    }
}

/// The extents `xs` with their field at `pos` holding `val`.
pub open spec fn set_extents(
    xs: Seq<ItemLocationExtent>,
    pos: int,
    val: u64,
) -> Seq<ItemLocationExtent> {
    xs.map_values(|x: ItemLocationExtent| set_extent(x, pos, val))
}

/// The entry `e` with its field at `pos` holding `val`.
pub open spec fn set_entry(e: ItemLocationEntryView, pos: int, val: u64) -> ItemLocationEntryView {
    ItemLocationEntryView { extents: set_extents(e.extents, pos, val), ..e }
}

/// The entries `es` with their field at `pos` holding `val`.
pub open spec fn set_entries(es: Seq<ItemLocationEntryView>, pos: int, val: u64) -> Seq<
    ItemLocationEntryView,
> {
    es.map_values(|e: ItemLocationEntryView| set_entry(e, pos, val))
}

/// `c2` is `c` with `bytes` written at `f`, within `c`.
pub open spec fn written(c: Seq<u8>, c2: Seq<u8>, f: int, bytes: Seq<u8>) -> bool {
    &&& c2.len() == c.len()
    &&& 0 <= f
    &&& f + bytes.len() <= c.len()
    &&& forall|k: int|
        0 <= k < c.len() ==> #[trigger] c2[k] == if f <= k < f + bytes.len() {
            bytes[k - f]
        } else {
            c[k]
        }
}

/// The stretch `[a, b)` lies apart from the stretch `[f, f + w)`.
pub open spec fn apart(a: int, b: int, f: int, w: int) -> bool {
    b <= f || f + w <= a
}

/// A field read where nothing was written reads the same.
#[verifier::spinoff_prover]
proof fn lemma_field_apart(
    c: Seq<u8>,
    c2: Seq<u8>,
    f: int,
    bytes: Seq<u8>,
    a: int,
    size: u8,
    base: int,
)
    requires
        written(c, c2, f, bytes),
        is_field_size(size),
        0 <= a,
        apart(a, a + size, f, bytes.len() as int),
    ensures
        field_at(c2, a, size, base) == field_at(c, a, size, base),
{
    if a + size <= c.len() {
        assert(c2[a] == c[a]);
        if size >= 2 {
            assert(c2[a + 1] == c[a + 1]);
        }
        if size >= 4 {
            assert(c2[a + 2] == c[a + 2]);
            assert(c2[a + 3] == c[a + 3]);
        }
        if size == 8 {
            assert(c2[a + 4] == c[a + 4]);
            assert(c2[a + 5] == c[a + 5]);
            assert(c2[a + 6] == c[a + 6]);
            assert(c2[a + 7] == c[a + 7]);
        }
    }
}

/// A field read where its new value was written reads that value.
#[verifier::spinoff_prover]
proof fn lemma_field_written(c: Seq<u8>, c2: Seq<u8>, f: int, val: u64, size: u8, base: int)
    requires
        written(c, c2, f, value_bytes(val, size as int)),
        is_field_size(size),
    ensures
        field_at(c, f, size, base) matches Ok(v) && field_at(c2, f, size, base) == Ok::<
            ExtentValue,
            ExifError,
        >(with_value(v, val)),
{
    let bytes = value_bytes(val, size as int);
    if size == 1 {
        assert(c2[f] == bytes[0]);
    } else if size == 2 {
        lemma_u16_bytes_read_back(val as u16);
        assert(c2[f] == bytes[0]);
        assert(c2[f + 1] == bytes[1]);
        assert(be16(c2, f) == be16(bytes, 0));
    } else if size == 4 {
        lemma_u32_bytes_read_back(val as u32);
        assert(c2[f] == bytes[0]);
        assert(c2[f + 1] == bytes[1]);
        assert(c2[f + 2] == bytes[2]);
        assert(c2[f + 3] == bytes[3]);
        assert(be32(c2, f) == be32(bytes, 0));
    } else {
        lemma_u64_bytes_read_back(val);
        assert(c2[f] == bytes[0]);
        assert(c2[f + 1] == bytes[1]);
        assert(c2[f + 2] == bytes[2]);
        assert(c2[f + 3] == bytes[3]);
        assert(c2[f + 4] == bytes[4]);
        assert(c2[f + 5] == bytes[5]);
        assert(c2[f + 6] == bytes[6]);
        assert(c2[f + 7] == bytes[7]);
        assert(be64(c2, f) == be64(bytes, 0));
    }
}

/// A size-coded integer read where nothing was written reads the same.
#[verifier::spinoff_prover]
proof fn lemma_optional_apart(
    c: Seq<u8>,
    c2: Seq<u8>,
    f: int,
    bytes: Seq<u8>,
    pos: int,
    size: u8,
    bad: ExifError,
)
    requires
        written(c, c2, f, bytes),
        0 <= pos,
        apart(pos, pos + size, f, bytes.len() as int),
    ensures
        optional_uint_at(c2, pos, size, bad) == optional_uint_at(c, pos, size, bad),
{
    if size != 0 && is_field_size(size) {
        lemma_field_apart(c, c2, f, bytes, pos, size, 0);
    }
}

/// The fields of the extent `x` lie back to back, the offset first, within `[lo, hi)`.
pub open spec fn extent_fields_in(x: ItemLocationExtent, lo: int, hi: int) -> bool {
    &&& lo <= ev_position(x.extent_offset)
    &&& ev_position(x.extent_offset) + ev_width(x.extent_offset) == ev_position(x.extent_length)
    &&& ev_position(x.extent_length) + ev_width(x.extent_length) <= hi
}

/// The field of `w` bytes at `q` is the offset or the length of the extent `x`.
pub open spec fn field_of_extent(x: ItemLocationExtent, q: int, w: int) -> bool {
    ||| ev_position(x.extent_offset) == q && ev_width(x.extent_offset) == w
    ||| ev_position(x.extent_length) == q && ev_width(x.extent_length) == w
}

/// The fields of an extent read at `pos` lie back to back within the bytes read.
#[verifier::spinoff_prover]
proof fn lemma_extent_layout(
    c: Seq<u8>,
    pos: int,
    sizes: FieldSizes,
    base: int,
    x: ItemLocationExtent,
    p: int,
)
    requires
        0 <= pos,
        0 <= base,
        base + c.len() <= u64::MAX,
        extent_at(c, pos, sizes, base) == Ok::<(ItemLocationExtent, int), ExifError>((x, p)),
    ensures
        extent_fields_in(x, base + pos, base + p),
        pos <= p <= c.len(),
{
}

/// An extent read again where one of its fields, or nothing of it, was written over.
#[verifier::spinoff_prover]
#[verifier::rlimit(40)]
proof fn lemma_extent_reread(
    c: Seq<u8>,
    c2: Seq<u8>,
    f: int,
    val: u64,
    w: int,
    pos: int,
    sizes: FieldSizes,
    base: int,
    x: ItemLocationExtent,
    p: int,
)
    requires
        written(c, c2, f, value_bytes(val, w)),
        w == 1 || w == 2 || w == 4 || w == 8,
        0 <= pos,
        0 <= base,
        base + c.len() <= u64::MAX,
        extent_at(c, pos, sizes, base) == Ok::<(ItemLocationExtent, int), ExifError>((x, p)),
        apart(pos, p, f, w) || field_of_extent(x, base + f, w),
    ensures
        extent_at(c2, pos, sizes, base) == Ok::<(ItemLocationExtent, int), ExifError>(
            (set_extent(x, base + f, val), p),
        ),
        extent_fields_in(x, base + pos, base + p),
        pos <= p <= c.len(),
{
    lemma_extent_layout(c, pos, sizes, base, x, p);
    let bytes = value_bytes(val, w);
    assert(bytes.len() == w) by {
        if w == 2 {
            lemma_u16_bytes_read_back(val as u16);
        } else if w == 4 {
            lemma_u32_bytes_read_back(val as u32);
        } else if w == 8 {
            lemma_u64_bytes_read_back(val);
        }
    }
    let is = if sizes.index_size == 0 { 0int } else { sizes.index_size as int };
    let p1 = pos + is;
    let os = sizes.offset_size;
    let ls = sizes.length_size;
    let p2 = p1 + os;
    assert(p == p2 + ls);
    lemma_optional_apart(
        c,
        c2,
        f,
        bytes,
        pos,
        sizes.index_size,
        ExifError::InvalidIndexSize(sizes.index_size),
    );
    if apart(p1, p2, f, w) {
        lemma_field_apart(c, c2, f, bytes, p1, os, base);
    } else {
        assert(f == p1 && w == os);
        lemma_field_written(c, c2, f, val, os, base);
    }
    if apart(p2, p, f, w) {
        lemma_field_apart(c, c2, f, bytes, p2, ls, base);
    } else {
        assert(f == p2 && w == ls);
        lemma_field_written(c, c2, f, val, ls, base);
    }
}

/// Where the fields of the extent `x` start.
pub open spec fn extent_start(x: ItemLocationExtent) -> int {
    ev_position(x.extent_offset) as int
}

/// Where the fields of the extent `x` end.
pub open spec fn extent_end(x: ItemLocationExtent) -> int {
    ev_position(x.extent_length) + ev_width(x.extent_length)
}

/// The extents of `xs` from the `from`-th on have their fields within `[lo, hi)`, one
/// extent after the other.
pub open spec fn extents_laid_out(
    xs: Seq<ItemLocationExtent>,
    from: int,
    lo: int,
    hi: int,
) -> bool {
    &&& forall|k: int| from <= k < xs.len() ==> extent_fields_in(#[trigger] xs[k], lo, hi)
    &&& forall|k1: int, k2: int|
        from <= k1 < k2 < xs.len() ==> extent_end(#[trigger] xs[k1]) <= extent_start(#[trigger] xs[k2])
}

/// The extents read from `pos` follow the extents `acc`, their fields within the bytes
/// read, one extent after the other.
#[verifier::spinoff_prover]
proof fn lemma_extents_layout(
    c: Seq<u8>,
    pos: int,
    count: int,
    sizes: FieldSizes,
    base: int,
    acc: Seq<ItemLocationExtent>,
    xs: Seq<ItemLocationExtent>,
    p: int,
)
    requires
        0 <= pos,
        0 <= base,
        base + c.len() <= u64::MAX,
        extents_at(c, pos, count, sizes, base, acc) == Ok::<(Seq<ItemLocationExtent>, int), ExifError>((xs, p)),
    ensures
        pos <= p,
        count > 0 ==> p <= c.len(),
        acc.len() <= xs.len(),
        xs.subrange(0, acc.len() as int) == acc,
        extents_laid_out(xs, acc.len() as int, base + pos, base + p),
    decreases count,
{
    if count > 0 {
        let (x, p1) = extent_at(c, pos, sizes, base)->Ok_0;
        lemma_extent_layout(c, pos, sizes, base, x, p1);
        lemma_extents_layout(c, p1, count - 1, sizes, base, acc.push(x), xs, p);
        assert(xs.subrange(0, acc.len() as int) =~= acc.push(x).subrange(0, acc.len() as int));
        let a = acc.len() as int;
        assert(xs.subrange(0, a + 1)[a] == acc.push(x)[a]);
        assert(xs[a] == x);
        assert forall|k1: int, k2: int|
            acc.len() <= k1 < k2 < xs.len() implies extent_end(#[trigger] xs[k1]) <= extent_start(
                #[trigger] xs[k2],
            ) by {
            if k1 == acc.len() {
                assert(extent_fields_in(xs[k2], base + p1, base + p));
            }
        }
    } else {
        assert(xs.subrange(0, acc.len() as int) =~= acc);
    }
}

/// Extents read again where one of their fields, or nothing of them, was written over.
#[verifier::spinoff_prover]
proof fn lemma_extents_reread(
    c: Seq<u8>,
    c2: Seq<u8>,
    f: int,
    val: u64,
    w: int,
    pos: int,
    count: int,
    sizes: FieldSizes,
    base: int,
    acc: Seq<ItemLocationExtent>,
    xs: Seq<ItemLocationExtent>,
    p: int,
)
    requires
        written(c, c2, f, value_bytes(val, w)),
        w == 1 || w == 2 || w == 4 || w == 8,
        0 <= pos,
        0 <= base,
        base + c.len() <= u64::MAX,
        extents_at(c, pos, count, sizes, base, acc) == Ok::<(Seq<ItemLocationExtent>, int), ExifError>((xs, p)),
        apart(pos, p, f, w) || exists|k: int|
            acc.len() <= k < xs.len() && field_of_extent(#[trigger] xs[k], base + f, w),
    ensures
        extents_at(c2, pos, count, sizes, base, set_extents(acc, base + f, val)) == Ok::<
            (Seq<ItemLocationExtent>, int),
            ExifError,
        >((set_extents(xs, base + f, val), p)),
    decreases count,
{
    if count > 0 {
        let (x, p1) = extent_at(c, pos, sizes, base)->Ok_0;
        lemma_extent_layout(c, pos, sizes, base, x, p1);
        lemma_extents_layout(c, p1, count - 1, sizes, base, acc.push(x), xs, p);
        let a = acc.len() as int;
        assert(xs.subrange(0, a + 1)[a] == acc.push(x)[a]);
        assert(xs[a] == x);
        if !apart(pos, p, f, w) {
            let k = choose|k: int| acc.len() <= k < xs.len() && field_of_extent(#[trigger] xs[k], base + f, w);
            if k > a {
                assert(extent_fields_in(xs[k], base + p1, base + p));
            }
        }
        lemma_extent_reread(c, c2, f, val, w, pos, sizes, base, x, p1);
        lemma_extents_reread(c, c2, f, val, w, p1, count - 1, sizes, base, acc.push(x), xs, p);
        assert(set_extents(acc.push(x), base + f, val) =~= set_extents(acc, base + f, val).push(
            set_extent(x, base + f, val),
        ));
    } else {
        assert(xs == acc);
    }
}

/// The header of an entry read again where nothing of it was written over.
#[verifier::spinoff_prover]
proof fn lemma_entry_header_apart(
    c: Seq<u8>,
    c2: Seq<u8>,
    f: int,
    bytes: Seq<u8>,
    pos: int,
    version: u8,
    sizes: FieldSizes,
)
    requires
        written(c, c2, f, bytes),
        0 <= pos,
        entry_header_at(c, pos, version, sizes) is Ok,
        apart(pos, entry_header_at(c, pos, version, sizes)->Ok_0.end, f, bytes.len() as int),
    ensures
        entry_header_at(c2, pos, version, sizes) == entry_header_at(c, pos, version, sizes),
{
    let id_size: u8 = if version == 1 { 2 } else { 4 };
    let p1 = pos + id_size;
    lemma_field_apart(c, c2, f, bytes, pos, id_size, 0);
    lemma_field_apart(c, c2, f, bytes, p1, 2, 0);
    lemma_field_apart(c, c2, f, bytes, p1 + 2, 2, 0);
    lemma_optional_apart(
        c,
        c2,
        f,
        bytes,
        p1 + 4,
        sizes.base_offset_size,
        ExifError::InvalidBaseOffsetSize(sizes.base_offset_size),
    );
    let (_, p2) = optional_uint_at(
        c,
        p1 + 4,
        sizes.base_offset_size,
        ExifError::InvalidBaseOffsetSize(sizes.base_offset_size),
    )->Ok_0;
    lemma_field_apart(c, c2, f, bytes, p2, 2, 0);
}

/// The field of `w` bytes at `q` is a field of an extent of the entry `e`.
pub open spec fn field_of_entry(e: ItemLocationEntryView, q: int, w: int) -> bool {
    exists|k: int| 0 <= k < e.extents.len() && field_of_extent(#[trigger] e.extents[k], q, w)
}

/// The fields of an entry read at `pos` lie within the bytes read, after its header,
/// one extent after the other.
#[verifier::spinoff_prover]
proof fn lemma_entry_layout(
    c: Seq<u8>,
    pos: int,
    version: u8,
    sizes: FieldSizes,
    base: int,
    e: ItemLocationEntryView,
    p: int,
)
    requires
        0 <= pos,
        0 <= base,
        base + c.len() <= u64::MAX,
        item_location_entry(c, pos, version, sizes, base) == Ok::<(ItemLocationEntryView, int), ExifError>((e, p)),
    ensures
        pos <= entry_header_at(c, pos, version, sizes)->Ok_0.end <= p <= c.len(),
        extents_laid_out(
            e.extents,
            0,
            base + entry_header_at(c, pos, version, sizes)->Ok_0.end,
            base + p,
        ),
{
    let h = entry_header_at(c, pos, version, sizes)->Ok_0;
    lemma_extents_layout(c, h.end, h.extent_count as int, sizes, base, Seq::empty(), e.extents, p);
}

/// An entry read again where one of its fields, or nothing of it, was written over.
#[verifier::spinoff_prover]
proof fn lemma_entry_reread(
    c: Seq<u8>,
    c2: Seq<u8>,
    f: int,
    val: u64,
    w: int,
    pos: int,
    version: u8,
    sizes: FieldSizes,
    base: int,
    e: ItemLocationEntryView,
    p: int,
)
    requires
        written(c, c2, f, value_bytes(val, w)),
        w == 1 || w == 2 || w == 4 || w == 8,
        0 <= pos,
        0 <= base,
        base + c.len() <= u64::MAX,
        item_location_entry(c, pos, version, sizes, base) == Ok::<(ItemLocationEntryView, int), ExifError>((e, p)),
        apart(pos, p, f, w) || field_of_entry(e, base + f, w),
    ensures
        item_location_entry(c2, pos, version, sizes, base) == Ok::<(ItemLocationEntryView, int), ExifError>(
            (set_entry(e, base + f, val), p),
        ),
{
    let h = entry_header_at(c, pos, version, sizes)->Ok_0;
    lemma_entry_layout(c, pos, version, sizes, base, e, p);
    if !apart(pos, p, f, w) {
        let k = choose|k: int| 0 <= k < e.extents.len() && field_of_extent(#[trigger] e.extents[k], base + f, w);
        assert(extent_fields_in(e.extents[k], base + h.end, base + p));
    }
    assert(value_bytes(val, w).len() == w) by {
        if w == 2 {
            lemma_u16_bytes_read_back(val as u16);
        } else if w == 4 {
            lemma_u32_bytes_read_back(val as u32);
        } else if w == 8 {
            lemma_u64_bytes_read_back(val);
        }
    }
    lemma_entry_header_apart(c, c2, f, value_bytes(val, w), pos, version, sizes);
    lemma_extents_reread(
        c,
        c2,
        f,
        val,
        w,
        h.end,
        h.extent_count as int,
        sizes,
        base,
        Seq::empty(),
        e.extents,
        p,
    );
    assert(set_extents(Seq::<ItemLocationExtent>::empty(), base + f, val) =~= Seq::<ItemLocationExtent>::empty());
}

/// The field of `w` bytes at `q` is a field of an extent of one of the entries `es`.
pub open spec fn field_of_entries(es: Seq<ItemLocationEntryView>, q: int, w: int) -> bool {
    exists|j: int| 0 <= j < es.len() && field_of_entry(#[trigger] es[j], q, w)
}

/// Every extent of the entries `es` has its fields back to back within `[lo, hi)`.
pub open spec fn entries_fields_in(es: Seq<ItemLocationEntryView>, lo: int, hi: int) -> bool {
    forall|j: int, k: int|
        0 <= j < es.len() && 0 <= k < es[j].extents.len() ==> extent_fields_in(
            #[trigger] es[j].extents[k],
            lo,
            hi,
        )
}

/// Writing a field leaves the items of the entries, and so the entry found for an item,
/// as they were.
#[verifier::spinoff_prover]
pub(crate) proof fn lemma_find_entry_set(
    es: Seq<ItemLocationEntryView>,
    id: u32,
    i: int,
    q: int,
    val: u64,
)
    requires
        0 <= i,
    ensures
        find_entry_from(set_entries(es, q, val), id, i) == find_entry_from(es, id, i),
    decreases es.len() - i,
{
    if i < es.len() {
        assert(set_entries(es, q, val)[i].item_id == es[i].item_id);
        lemma_find_entry_set(es, id, i + 1, q, val);
    }
}

/// Writing a field and putting an entry in can be done in either order.
#[verifier::spinoff_prover]
proof fn lemma_insert_set(
    acc: Seq<ItemLocationEntryView>,
    e: ItemLocationEntryView,
    q: int,
    val: u64,
)
    ensures
        set_entries(insert_entry(acc, e), q, val) == insert_entry(set_entries(acc, q, val), set_entry(e, q, val)),
{
    lemma_find_entry_set(acc, e.item_id, 0, q, val);
    crate::heic::boxes::lemma_find_entry_bounds(acc, e.item_id, 0);
    let j = find_entry(acc, e.item_id);
    if j >= 0 {
        assert(set_entries(acc.update(j, e), q, val) =~= set_entries(acc, q, val).update(j, set_entry(e, q, val)));
    } else {
        assert(set_entries(acc.push(e), q, val) =~= set_entries(acc, q, val).push(set_entry(e, q, val)));
    }
}

/// A field of the entries with `e` put in is a field of the entries before or of `e`; and
/// the fields of both lie where the fields of either lay.
#[verifier::spinoff_prover]
proof fn lemma_insert_fields(
    acc: Seq<ItemLocationEntryView>,
    e: ItemLocationEntryView,
    lo: int,
    hi: int,
)
    ensures
        forall|q: int, w: int|
            #[trigger] field_of_entries(insert_entry(acc, e), q, w) ==> field_of_entries(acc, q, w)
                || field_of_entry(e, q, w),
        entries_fields_in(acc, lo, hi) && entries_fields_in(seq![e], lo, hi) ==> entries_fields_in(
            insert_entry(acc, e),
            lo,
            hi,
        ),
{
    crate::heic::boxes::lemma_find_entry_bounds(acc, e.item_id, 0);
    let r = insert_entry(acc, e);
    let j0 = find_entry(acc, e.item_id);
    assert forall|q: int, w: int| #[trigger] field_of_entries(r, q, w) implies field_of_entries(acc, q, w)
        || field_of_entry(e, q, w) by {
        let j = choose|j: int| 0 <= j < r.len() && field_of_entry(#[trigger] r[j], q, w);
        if r[j] != e {
            if j0 >= 0 {
                assert(r[j] == acc[j]);
            } else {
                assert(j < acc.len());
                assert(r[j] == acc[j]);
            }
        }
    }
    if entries_fields_in(acc, lo, hi) && entries_fields_in(seq![e], lo, hi) {
        assert forall|j: int, k: int|
            0 <= j < r.len() && 0 <= k < r[j].extents.len() implies extent_fields_in(
            #[trigger] r[j].extents[k],
            lo,
            hi,
        ) by {
            if r[j] == e {
                assert(seq![e][0] == e);
                assert(extent_fields_in(seq![e][0].extents[k], lo, hi));
            } else {
                if j0 >= 0 {
                    assert(r[j] == acc[j]);
                } else {
                    assert(j < acc.len());
                    assert(r[j] == acc[j]);
                }
                assert(extent_fields_in(acc[j].extents[k], lo, hi));
            }
        }
    }
}

/// The fields of the entries read from `pos`: a field of the result is a field of the
/// entries `acc` that were there before, or lies in the bytes read; and every field lies
/// back to back with the other field of its extent.
#[verifier::spinoff_prover]
proof fn lemma_entries_layout(
    c: Seq<u8>,
    pos: int,
    count: int,
    version: u8,
    sizes: FieldSizes,
    base: int,
    acc: Seq<ItemLocationEntryView>,
    res: Seq<ItemLocationEntryView>,
)
    requires
        0 <= pos,
        0 <= base,
        base + c.len() <= u64::MAX,
        item_location_entries(c, pos, count, version, sizes, base, acc) == Ok::<
            Seq<ItemLocationEntryView>,
            ExifError,
        >(res),
    ensures
        forall|q: int, w: int|
            #[trigger] field_of_entries(res, q, w) ==> field_of_entries(acc, q, w) || (base + pos <= q
                && q + w <= base + c.len()),
        entries_fields_in(acc, base, base + pos) && pos <= c.len() ==> entries_fields_in(
            res,
            base,
            base + c.len(),
        ),
    decreases count,
{
    if count > 0 {
        let (e, p) = item_location_entry(c, pos, version, sizes, base)->Ok_0;
        lemma_entry_layout(c, pos, version, sizes, base, e, p);
        let h = entry_header_at(c, pos, version, sizes)->Ok_0;
        let acc2 = insert_entry(acc, e);
        lemma_entries_layout(c, p, count - 1, version, sizes, base, acc2, res);
        lemma_insert_fields(acc, e, base, base + p);
        assert forall|q: int, w: int| #[trigger] field_of_entries(res, q, w) implies field_of_entries(acc, q, w)
            || (base + pos <= q && q + w <= base + c.len()) by {
            if field_of_entries(acc2, q, w) && !field_of_entries(acc, q, w) {
                assert(field_of_entry(e, q, w));
                let k = choose|k: int| 0 <= k < e.extents.len() && field_of_extent(#[trigger] e.extents[k], q, w);
                assert(extent_fields_in(e.extents[k], base + h.end, base + p));
            }
        }
        if entries_fields_in(acc, base, base + pos) && pos <= c.len() {
            assert forall|j: int, k: int|
                0 <= j < acc.len() && 0 <= k < acc[j].extents.len() implies extent_fields_in(
                #[trigger] acc[j].extents[k],
                base,
                base + p,
            ) by {
                assert(extent_fields_in(acc[j].extents[k], base, base + pos));
            }
            assert forall|j: int, k: int|
                0 <= j < seq![e].len() && 0 <= k < seq![e][j].extents.len() implies extent_fields_in(
                #[trigger] seq![e][j].extents[k],
                base,
                base + p,
            ) by {
                assert(seq![e][j] == e);
                assert(extent_fields_in(e.extents[k], base + h.end, base + p));
            }
        }
    }
}

/// Entries read again where one field of an extent of the result was written over.
#[verifier::spinoff_prover]
proof fn lemma_entries_reread(
    c: Seq<u8>,
    c2: Seq<u8>,
    f: int,
    val: u64,
    w: int,
    pos: int,
    count: int,
    version: u8,
    sizes: FieldSizes,
    base: int,
    acc: Seq<ItemLocationEntryView>,
    res: Seq<ItemLocationEntryView>,
)
    requires
        written(c, c2, f, value_bytes(val, w)),
        w == 1 || w == 2 || w == 4 || w == 8,
        0 <= pos <= c.len(),
        0 <= base,
        base + c.len() <= u64::MAX,
        item_location_entries(c, pos, count, version, sizes, base, acc) == Ok::<
            Seq<ItemLocationEntryView>,
            ExifError,
        >(res),
        field_of_entries(res, base + f, w),
        entries_fields_in(acc, base, base + pos),
    ensures
        item_location_entries(c2, pos, count, version, sizes, base, set_entries(acc, base + f, val))
            == Ok::<Seq<ItemLocationEntryView>, ExifError>(set_entries(res, base + f, val)),
    decreases count,
{
    if count > 0 {
        let (e, p) = item_location_entry(c, pos, version, sizes, base)->Ok_0;
        lemma_entry_layout(c, pos, version, sizes, base, e, p);
        let acc2 = insert_entry(acc, e);
        lemma_entries_layout(c, pos, count, version, sizes, base, acc, res);
        lemma_entries_layout(c, p, count - 1, version, sizes, base, acc2, res);
        lemma_insert_fields(acc, e, base, base + p);
        if field_of_entries(acc, base + f, w) {
            let j = choose|j: int| 0 <= j < acc.len() && field_of_entry(#[trigger] acc[j], base + f, w);
            let k = choose|k: int| 0 <= k < acc[j].extents.len() && field_of_extent(
                #[trigger] acc[j].extents[k],
                base + f,
                w,
            );
            assert(extent_fields_in(acc[j].extents[k], base, base + pos));
            assert(apart(pos, p, f, w));
        } else if field_of_entries(acc2, base + f, w) {
            assert(field_of_entry(e, base + f, w));
        } else {
            assert(apart(pos, p, f, w));
        }
        lemma_entry_reread(c, c2, f, val, w, pos, version, sizes, base, e, p);
        lemma_insert_set(acc, e, base + f, val);
        assert forall|j: int, k: int|
            0 <= j < acc.len() && 0 <= k < acc[j].extents.len() implies extent_fields_in(
            #[trigger] acc[j].extents[k],
            base,
            base + p,
        ) by {
            assert(extent_fields_in(acc[j].extents[k], base, base + pos));
        }
        assert forall|j: int, k: int|
            0 <= j < seq![e].len() && 0 <= k < seq![e][j].extents.len() implies extent_fields_in(
            #[trigger] seq![e][j].extents[k],
            base,
            base + p,
        ) by {
            assert(seq![e][j] == e);
            let h = entry_header_at(c, pos, version, sizes)->Ok_0;
            assert(extent_fields_in(e.extents[k], base + h.end, base + p));
        }
        lemma_entries_reread(c, c2, f, val, w, p, count - 1, version, sizes, base, acc2, res);
    }
}

/// The `iloc` box `il` with its field at `pos` holding `val`.
pub open spec fn set_iloc(il: ItemLocationBoxView, pos: int, val: u64) -> ItemLocationBoxView {
    ItemLocationBoxView { entries: set_entries(il.entries, pos, val), ..il }
}

/// Where the entries of the `iloc` box whose data starts at `off` in `buf` start, from
/// the start of that data: after the version, flags, field sizes and entry count.
pub open spec fn iloc_entries_start(buf: Seq<u8>, off: int) -> int {
    if buf[off] == 1 {
        8
    } else {
        10
    }
}

/// The fields of a decoded `iloc` box lie in the data of the box, after its version,
/// flags, field sizes and entry count, each back to back with the other field of its
/// extent.
#[verifier::spinoff_prover]
pub(crate) proof fn lemma_iloc_layout(buf: Seq<u8>, b: RawBox, base_in_buf: int, il: ItemLocationBoxView)
    requires
        0 <= base_in_buf,
        base_in_buf + buf.len() <= u64::MAX,
        item_location_box(buf, b, base_in_buf) == Ok::<ItemLocationBoxView, ExifError>(il),
    ensures
        b.data_ptr.offset + 4 <= b.data_ptr.offset + b.data_ptr.length <= buf.len(),
        buf[b.data_ptr.offset as int] == 1 || buf[b.data_ptr.offset as int] == 2,
        forall|q: int, w: int|
            #[trigger] field_of_entries(il.entries, q, w) ==> base_in_buf + b.data_ptr.offset
                + iloc_entries_start(buf, b.data_ptr.offset as int) <= q && q + w <= base_in_buf
                + b.data_ptr.offset + b.data_ptr.length,
        entries_fields_in(il.entries, 0, base_in_buf + b.data_ptr.offset + b.data_ptr.length),
{
    reveal(item_location_box);
    let d = read_data(buf, b.data_ptr)->Ok_0;
    let c = d.subrange(4, d.len() as int);
    let base = base_in_buf + b.data_ptr.offset + 4;
    let version = d[0];
    assert(version == buf[b.data_ptr.offset as int]);
    let pos0: int = if version == 1 { 4 } else { 6 };
    let count = if version == 1 { be16(c, 2) } else { be32(c, 2) };
    lemma_entries_layout(c, pos0, count, version, field_sizes(c), base, Seq::empty(), il.entries);
    assert forall|q: int, w: int| #[trigger] field_of_entries(il.entries, q, w) implies base_in_buf
        + b.data_ptr.offset + iloc_entries_start(buf, b.data_ptr.offset as int) <= q && q + w
        <= base_in_buf + b.data_ptr.offset + b.data_ptr.length by {
        assert(!field_of_entries(Seq::<ItemLocationEntryView>::empty(), q, w));
    }
    assert forall|j: int, k: int|
        0 <= j < il.entries.len() && 0 <= k < il.entries[j].extents.len() implies extent_fields_in(
        #[trigger] il.entries[j].extents[k],
        0,
        base_in_buf + b.data_ptr.offset + b.data_ptr.length,
    ) by {
        assert(extent_fields_in(il.entries[j].extents[k], base, base + c.len()));
    }
}

/// A stretch of a buffer that holds the written bytes is written at the same place,
/// counted from its start.
#[verifier::spinoff_prover]
proof fn lemma_written_within(buf: Seq<u8>, buf2: Seq<u8>, f: int, bytes: Seq<u8>, a: int, b: int)
    requires
        written(buf, buf2, f, bytes),
        0 <= a <= f,
        f + bytes.len() <= b <= buf.len(),
    ensures
        written(buf.subrange(a, b), buf2.subrange(a, b), f - a, bytes),
{
    let s = buf.subrange(a, b);
    let s2 = buf2.subrange(a, b);
    assert forall|k: int| 0 <= k < s.len() implies #[trigger] s2[k] == if f - a <= k < f - a + bytes.len() {
        bytes[k - (f - a)]
    } else {
        s[k]
    } by {
        assert(s2[k] == buf2[a + k]);
        assert(s[k] == buf[a + k]);
    }
}

/// A stretch of a buffer apart from the written bytes is as it was.
#[verifier::spinoff_prover]
proof fn lemma_written_apart(buf: Seq<u8>, buf2: Seq<u8>, f: int, bytes: Seq<u8>, a: int, b: int)
    requires
        written(buf, buf2, f, bytes),
        0 <= a <= b <= buf.len(),
        apart(a, b, f, bytes.len() as int),
    ensures
        buf2.subrange(a, b) == buf.subrange(a, b),
{
    assert forall|k: int| 0 <= k < b - a implies #[trigger] buf2.subrange(a, b)[k] == buf.subrange(a, b)[k] by {
        assert(buf2[a + k] == buf[a + k]);
    }
    assert(buf2.subrange(a, b) =~= buf.subrange(a, b));
}

/// The data of an `iloc` box (its version and flags, then its content) read again where
/// one field of an extent of it was written over.
#[verifier::spinoff_prover]
proof fn lemma_iloc_data_reread(
    d: Seq<u8>,
    d2: Seq<u8>,
    fd: int,
    val: u64,
    w: int,
    base: int,
    il: ItemLocationBoxView,
)
    requires
        written(d, d2, fd, value_bytes(val, w)),
        w == 1 || w == 2 || w == 4 || w == 8,
        4 <= d.len(),
        d[0] == 1 || d[0] == 2,
        0 <= base,
        base + d.len() <= u64::MAX,
        (if d[0] == 1 { 8int } else { 10int }) <= fd,
        ({
            let c = d.subrange(4, d.len() as int);
            &&& c.len() >= (if d[0] == 1 { 4int } else { 6int })
            &&& item_location_entries(
                c,
                if d[0] == 1 { 4int } else { 6int },
                if d[0] == 1 { be16(c, 2) } else { be32(c, 2) },
                d[0],
                field_sizes(c),
                base + 4,
                Seq::empty(),
            ) == Ok::<Seq<ItemLocationEntryView>, ExifError>(il.entries)
        }),
        field_of_entries(il.entries, base + fd, w),
    ensures
        ({
            let c2 = d2.subrange(4, d2.len() as int);
            &&& d2.subrange(0, 4) == d.subrange(0, 4)
            &&& d2.len() == d.len()
            &&& c2.len() >= (if d[0] == 1 { 4int } else { 6int })
            &&& item_location_entries(
                c2,
                if d[0] == 1 { 4int } else { 6int },
                if d[0] == 1 { be16(c2, 2) } else { be32(c2, 2) },
                d[0],
                field_sizes(c2),
                base + 4,
                Seq::empty(),
            ) == Ok::<Seq<ItemLocationEntryView>, ExifError>(set_entries(il.entries, base + fd, val))
        }),
{
    let bytes = value_bytes(val, w);
    assert(bytes.len() == w) by {
        if w == 2 {
            lemma_u16_bytes_read_back(val as u16);
        } else if w == 4 {
            lemma_u32_bytes_read_back(val as u32);
        } else if w == 8 {
            lemma_u64_bytes_read_back(val);
        }
    }
    let c = d.subrange(4, d.len() as int);
    let c2 = d2.subrange(4, d2.len() as int);
    let pos0: int = if d[0] == 1 { 4 } else { 6 };
    lemma_written_within(d, d2, fd, bytes, 4, d.len() as int);
    lemma_written_apart(d, d2, fd, bytes, 0, 4 + pos0);
    assert(d2.subrange(0, 4) =~= d.subrange(0, 4)) by {
        assert forall|k: int| 0 <= k < 4 implies d2[k] == d[k] by {
            assert(d2.subrange(0, 4 + pos0)[k] == d.subrange(0, 4 + pos0)[k]);
        }
    }
    assert forall|k: int| 0 <= k < pos0 implies c2[k] == c[k] by {
        assert(d2.subrange(0, 4 + pos0)[4 + k] == d.subrange(0, 4 + pos0)[4 + k]);
    }
    assert(c2[0] == c[0] && c2[1] == c[1] && c2[2] == c[2] && c2[3] == c[3]);
    if d[0] == 2 {
        assert(c2[4] == c[4] && c2[5] == c[5]);
    }
    assert(field_sizes(c2) == field_sizes(c));
    let count = if d[0] == 1 { be16(c, 2) } else { be32(c, 2) };
    lemma_entries_reread(
        c,
        c2,
        fd - 4,
        val,
        w,
        pos0,
        count,
        d[0],
        field_sizes(c),
        base + 4,
        Seq::empty(),
        il.entries,
    );
    assert(set_entries(Seq::<ItemLocationEntryView>::empty(), base + fd, val) =~= Seq::<
        ItemLocationEntryView,
    >::empty());
}

/// An `iloc` box read again where one field of an extent of it was written over.
#[verifier::spinoff_prover]
proof fn lemma_iloc_reread(
    buf: Seq<u8>,
    buf2: Seq<u8>,
    fb: int,
    val: u64,
    w: int,
    b: RawBox,
    base_in_buf: int,
    il: ItemLocationBoxView,
)
    requires
        written(buf, buf2, fb, value_bytes(val, w)),
        w == 1 || w == 2 || w == 4 || w == 8,
        0 <= base_in_buf,
        base_in_buf + buf.len() <= u64::MAX,
        item_location_box(buf, b, base_in_buf) == Ok::<ItemLocationBoxView, ExifError>(il),
        field_of_entries(il.entries, base_in_buf + fb, w),
    ensures
        item_location_box(buf2, b, base_in_buf) == Ok::<ItemLocationBoxView, ExifError>(
            set_iloc(il, base_in_buf + fb, val),
        ),
{
    lemma_iloc_layout(buf, b, base_in_buf, il);
    let off = b.data_ptr.offset as int;
    let len = b.data_ptr.length as int;
    let d = buf.subrange(off, off + len);
    let d2 = buf2.subrange(off, off + len);
    assert(value_bytes(val, w).len() == w) by {
        if w == 2 {
            lemma_u16_bytes_read_back(val as u16);
        } else if w == 4 {
            lemma_u32_bytes_read_back(val as u32);
        } else if w == 8 {
            lemma_u64_bytes_read_back(val);
        }
    }
    lemma_written_within(buf, buf2, fb, value_bytes(val, w), off, off + len);
    assert(d[0] == buf[off]);
    reveal(item_location_box);
    assert(read_data(buf, b.data_ptr) == Ok::<Seq<u8>, ExifError>(d));
    assert(read_data(buf2, b.data_ptr) == Ok::<Seq<u8>, ExifError>(d2));
    lemma_iloc_data_reread(d, d2, fb - off, val, w, base_in_buf + off, il);
    assert(version_and_flags(d2) == version_and_flags(d)) by {
        assert(d2[0] == d2.subrange(0, 4)[0]);
        assert(d2[1] == d2.subrange(0, 4)[1]);
        assert(d2[2] == d2.subrange(0, 4)[2]);
        assert(d2[3] == d2.subrange(0, 4)[3]);
    }
}

/// A box header read again where its bytes are as they were reads the same; and where
/// no header was left to read, none is left.
#[verifier::spinoff_prover]
proof fn lemma_raw_box_frame(c: Seq<u8>, c2: Seq<u8>, pos: int)
    requires
        c2.len() == c.len(),
        c.len() <= u64::MAX,
        raw_box_at(c, pos) matches Some(Ok(Some(b))) ==> c2.subrange(pos, b.data_ptr.offset as int)
            == c.subrange(pos, b.data_ptr.offset as int),
        raw_box_at(c, pos) matches Some(Ok(opt)),
    ensures
        raw_box_at(c2, pos) == raw_box_at(c, pos),
{
    lemma_raw_box_at_in(c, pos);
    reveal(raw_box_at);
    if let Some(Ok(Some(b))) = raw_box_at(c, pos) {
        let hi = b.data_ptr.offset as int;
        assert forall|k: int| pos <= k < hi implies c2[k] == c[k] by {
            assert(c2.subrange(pos, hi)[k - pos] == c.subrange(pos, hi)[k - pos]);
        }
        assert(c2.subrange(pos + 4, pos + 8) =~= c.subrange(pos + 4, pos + 8));
        assert(c2[pos] == c[pos] && c2[pos + 1] == c[pos + 1] && c2[pos + 2] == c[pos + 2] && c2[pos
            + 3] == c[pos + 3]);
        assert(c2[pos + 4] == c[pos + 4] && c2[pos + 5] == c[pos + 5] && c2[pos + 6] == c[pos + 6]
            && c2[pos + 7] == c[pos + 7]);
        if be32(c, pos) as usize == 1 {
            assert(c2[pos + 8] == c[pos + 8] && c2[pos + 9] == c[pos + 9] && c2[pos + 10] == c[pos
                + 10] && c2[pos + 11] == c[pos + 11]);
            assert(c2[pos + 12] == c[pos + 12] && c2[pos + 13] == c[pos + 13] && c2[pos + 14] == c[pos
                + 14] && c2[pos + 15] == c[pos + 15]);
        }
    }
}

/// An `iinf` box whose data is as it was decodes the same.
#[verifier::spinoff_prover]
proof fn lemma_iinf_frame(c: Seq<u8>, c2: Seq<u8>, b: RawBox)
    requires
        read_data(c2, b.data_ptr) == read_data(c, b.data_ptr),
    ensures
        item_info_box(c2, b) == item_info_box(c, b),
{
    reveal(item_info_box);
}

/// An `iloc` box whose data is as it was decodes the same.
#[verifier::spinoff_prover]
proof fn lemma_iloc_frame(c: Seq<u8>, c2: Seq<u8>, b: RawBox, base_in_buf: int)
    requires
        read_data(c2, b.data_ptr) == read_data(c, b.data_ptr),
    ensures
        item_location_box(c2, b, base_in_buf) == item_location_box(c, b, base_in_buf),
{
    reveal(item_location_box);
}

/// Entries whose fields all lie before `q` have no field at `q` to write.
#[verifier::spinoff_prover]
proof fn lemma_set_entries_before(es: Seq<ItemLocationEntryView>, hi: int, q: int, val: u64)
    requires
        entries_fields_in(es, 0, hi),
        hi <= q,
    ensures
        set_entries(es, q, val) == es,
{
    assert forall|j: int| 0 <= j < es.len() implies #[trigger] set_entry(es[j], q, val) == es[j] by {
        assert forall|k: int| 0 <= k < es[j].extents.len() implies #[trigger] set_extent(
            es[j].extents[k],
            q,
            val,
        ) == es[j].extents[k] by {
            assert(extent_fields_in(es[j].extents[k], 0, hi));
        }
        assert(set_extents(es[j].extents, q, val) =~= es[j].extents);
    }
    assert(set_entries(es, q, val) =~= es);
}

/// The field of `w` bytes at `q` is a field of an extent of the `iloc` box `x`.
pub open spec fn iloc_has_field(x: Option<ItemLocationBoxView>, q: int, w: int) -> bool {
    x matches Some(il) && field_of_entries(il.entries, q, w)
}

/// Every extent of the `iloc` box `x`, if there is one, has its fields back to back
/// before `hi`.
pub open spec fn iloc_fields_before(x: Option<ItemLocationBoxView>, hi: int) -> bool {
    x matches Some(il) ==> entries_fields_in(il.entries, 0, hi)
}

/// The children `mc` of a `meta` box with the field at `pos` of their `iloc` box
/// holding `val`.
pub open spec fn set_children(mc: MetaChildren, pos: int, val: u64) -> MetaChildren {
    MetaChildren {
        boxes: mc.boxes,
        iinf: mc.iinf,
        iloc: match mc.iloc {
            Some(il) => Some(set_iloc(il, pos, val)),
            None => None,
        },
    }
}

/// Fields that lie back to back before `hi` lie back to back before any later end.
#[verifier::spinoff_prover]
proof fn lemma_fields_before_later(x: Option<ItemLocationBoxView>, hi: int, hi2: int)
    requires
        iloc_fields_before(x, hi),
        hi <= hi2,
    ensures
        iloc_fields_before(x, hi2),
{
    if let Some(il) = x {
        assert forall|j: int, k: int|
            0 <= j < il.entries.len() && 0 <= k < il.entries[j].extents.len() implies extent_fields_in(
            #[trigger] il.entries[j].extents[k],
            0,
            hi2,
        ) by {
            assert(extent_fields_in(il.entries[j].extents[k], 0, hi));
        }
    }
}

/// The fields of the `iloc` box among the children of a `meta` box read from `pos`: a
/// field of the result is a field of the box found before, or lies in the bytes read.
#[verifier::spinoff_prover]
proof fn lemma_children_layout(
    c: Seq<u8>,
    pos: int,
    bim: int,
    offset: int,
    acc: MetaChildren,
    res: MetaChildren,
    hi: int,
)
    requires
        0 <= pos,
        0 <= bim,
        bim + c.len() <= u64::MAX,
        meta_children(c, pos, bim, offset, acc) == Some(Ok::<MetaChildren, ExifError>(res)),
    ensures
        forall|q: int, w: int|
            #[trigger] iloc_has_field(res.iloc, q, w) ==> iloc_has_field(acc.iloc, q, w) || (bim + pos
                <= q && q + w <= bim + c.len()),
        iloc_fields_before(acc.iloc, hi) && bim + c.len() <= hi ==> iloc_fields_before(res.iloc, hi),
    decreases remaining(c.len() as int, pos),
{
    lemma_raw_box_at_in(c, pos);
    if let Some(Ok(Some(b))) = raw_box_at(c, pos) {
        let (iinf, iloc, p) = meta_child(c, b, bim, acc.iinf, acc.iloc)->Some_0->Ok_0;
        let acc2 = MetaChildren { boxes: insert_box(acc.boxes, shifted(b, offset)), iinf, iloc };
        if b.box_type == ILOC && b.box_type != IINF {
            let il = item_location_box(c, b, bim)->Ok_0;
            lemma_iloc_layout(c, b, bim, il);
        }
        lemma_children_layout(c, p, bim, offset, acc2, res, hi);
        if iloc_fields_before(acc.iloc, hi) && bim + c.len() <= hi {
            if b.box_type == ILOC && b.box_type != IINF {
                let il = item_location_box(c, b, bim)->Ok_0;
                lemma_fields_before_later(
                    Some(il),
                    bim + b.data_ptr.offset + b.data_ptr.length,
                    hi,
                );
            }
        }
    }
}

/// The children of a `meta` box read again where one field of an extent of their
/// `iloc` box was written over.
#[verifier::spinoff_prover]
proof fn lemma_children_reread(
    c: Seq<u8>,
    c2: Seq<u8>,
    fc: int,
    val: u64,
    w: int,
    pos: int,
    bim: int,
    offset: int,
    acc: MetaChildren,
    res: MetaChildren,
)
    requires
        written(c, c2, fc, value_bytes(val, w)),
        w == 1 || w == 2 || w == 4 || w == 8,
        0 <= pos,
        0 <= bim,
        bim + c.len() <= u64::MAX,
        meta_children(c, pos, bim, offset, acc) == Some(Ok::<MetaChildren, ExifError>(res)),
        iloc_has_field(res.iloc, bim + fc, w),
        iloc_fields_before(acc.iloc, bim + pos),
    ensures
        meta_children(c2, pos, bim, offset, set_children(acc, bim + fc, val)) == Some(
            Ok::<MetaChildren, ExifError>(set_children(res, bim + fc, val)),
        ),
    decreases remaining(c.len() as int, pos),
{
    let q = bim + fc;
    let bytes = value_bytes(val, w);
    assert(bytes.len() == w) by {
        if w == 2 {
            lemma_u16_bytes_read_back(val as u16);
        } else if w == 4 {
            lemma_u32_bytes_read_back(val as u32);
        } else if w == 8 {
            lemma_u64_bytes_read_back(val);
        }
    }
    let acc_s = set_children(acc, q, val);
    lemma_raw_box_at_in(c, pos);
    lemma_children_layout(c, pos, bim, offset, acc, res, bim + c.len());
    // a field of the box found before lies before `pos`
    if iloc_has_field(acc.iloc, q, w) {
        let il0 = acc.iloc->Some_0;
        let j = choose|j: int| 0 <= j < il0.entries.len() && field_of_entry(#[trigger] il0.entries[j], q, w);
        let k = choose|k: int| 0 <= k < il0.entries[j].extents.len() && field_of_extent(
            #[trigger] il0.entries[j].extents[k],
            q,
            w,
        );
        assert(extent_fields_in(il0.entries[j].extents[k], 0, bim + pos));
        assert(fc + w <= pos);
    }
    match raw_box_at(c, pos) {
        Some(Ok(Some(b))) => {
            let (iinf, iloc, p) = meta_child(c, b, bim, acc.iinf, acc.iloc)->Some_0->Ok_0;
            let acc2 = MetaChildren { boxes: insert_box(acc.boxes, shifted(b, offset)), iinf, iloc };
            let d_off = b.data_ptr.offset as int;
            let d_end = d_off + b.data_ptr.length;
            lemma_children_layout(c, p, bim, offset, acc2, res, bim + c.len());
            let is_iloc = b.box_type == ILOC && b.box_type != IINF;
            if is_iloc {
                let il = item_location_box(c, b, bim)->Ok_0;
                lemma_iloc_layout(c, b, bim, il);
            }
            let in_this = is_iloc && iloc_has_field(iloc, q, w);
            // where the written field lies
            if !iloc_has_field(acc.iloc, q, w) && !in_this {
                assert(p <= fc);
            }
            lemma_written_apart(c, c2, fc, bytes, pos, d_off);
            lemma_raw_box_frame(c, c2, pos);
            if b.box_type == IINF {
                if d_end <= c.len() {
                    lemma_written_apart(c, c2, fc, bytes, d_off, d_end);
                }
                lemma_iinf_frame(c, c2, b);
                lemma_fields_before_later(acc.iloc, bim + pos, bim + p);
            } else if b.box_type == ILOC {
                let il = item_location_box(c, b, bim)->Ok_0;
                if in_this {
                    lemma_iloc_reread(c, c2, fc, val, w, b, bim, il);
                } else {
                    lemma_written_apart(c, c2, fc, bytes, d_off, d_end);
                    lemma_iloc_frame(c, c2, b, bim);
                    lemma_set_entries_before(il.entries, bim + d_end, q, val);
                }
            } else {
                lemma_fields_before_later(acc.iloc, bim + pos, bim + p);
            }
            lemma_children_reread(c, c2, fc, val, w, p, bim, offset, acc2, res);
            assert(set_children(acc2, q, val) == MetaChildren {
                boxes: insert_box(acc_s.boxes, shifted(b, offset)),
                iinf: set_children(acc2, q, val).iinf,
                iloc: set_children(acc2, q, val).iloc,
            });
        },
        _ => {
            lemma_raw_box_frame(c, c2, pos);
        },
    }
}

/// The `meta` box `m` with the field at `pos` of its `iloc` box holding `val`.
pub open spec fn set_meta(m: MetaBoxView, pos: int, val: u64) -> MetaBoxView {
    MetaBoxView {
        iloc: match m.iloc {
            Some(il) => Some(set_iloc(il, pos, val)),
            None => None,
        },
        ..m
    }
}

/// A `meta` box read again where one field of an extent of its `iloc` box was written
/// over, at `pos` from the start of the box: the same box, with that field holding the
/// value written.
#[verifier::spinoff_prover]
pub proof fn lemma_meta_reread(
    buf: Seq<u8>,
    buf2: Seq<u8>,
    pos: int,
    val: u64,
    w: int,
    b: RawBox,
    m: MetaBoxView,
)
    requires
        written(buf, buf2, b.full_ptr.offset + pos, value_bytes(val, w)),
        w == 1 || w == 2 || w == 4 || w == 8,
        buf.len() <= u64::MAX,
        b.full_ptr.offset <= b.data_ptr.offset,
        meta_box(buf, b) == Some(Ok::<MetaBoxView, ExifError>(m)),
        iloc_has_field(m.iloc, pos, w),
    ensures
        meta_box(buf2, b) == Some(Ok::<MetaBoxView, ExifError>(set_meta(m, pos, val))),
{
    reveal(meta_box);
    let bytes = value_bytes(val, w);
    assert(bytes.len() == w) by {
        if w == 2 {
            lemma_u16_bytes_read_back(val as u16);
        } else if w == 4 {
            lemma_u32_bytes_read_back(val as u32);
        } else if w == 8 {
            lemma_u64_bytes_read_back(val);
        }
    }
    let off = b.data_ptr.offset as int;
    let len = b.data_ptr.length as int;
    let d = buf.subrange(off, off + len);
    let d2 = buf2.subrange(off, off + len);
    let c = d.subrange(4, d.len() as int);
    let c2 = d2.subrange(4, d2.len() as int);
    let bim = off - b.full_ptr.offset + 4;
    let empty = MetaChildren { boxes: Seq::empty(), iinf: None, iloc: None };
    let ch = meta_children(c, 0, bim, off + 4, empty)->Some_0->Ok_0;
    assert(ch.iloc == m.iloc);
    lemma_children_layout(c, 0, bim, off + 4, empty, ch, bim + c.len());
    let fb = b.full_ptr.offset + pos;
    assert(off + 4 <= fb && fb + w <= off + len);
    lemma_written_within(buf, buf2, fb, bytes, off, off + len);
    lemma_written_within(d, d2, fb - off, bytes, 4, len);
    lemma_written_apart(d, d2, fb - off, bytes, 0, 4);
    assert(d2[0] == d[0] && d2[1] == d[1] && d2[2] == d[2] && d2[3] == d[3]) by {
        assert(d2.subrange(0, 4)[0] == d.subrange(0, 4)[0]);
        assert(d2.subrange(0, 4)[1] == d.subrange(0, 4)[1]);
        assert(d2.subrange(0, 4)[2] == d.subrange(0, 4)[2]);
        assert(d2.subrange(0, 4)[3] == d.subrange(0, 4)[3]);
    }
    lemma_children_reread(c, c2, fb - off - 4, val, w, 0, bim, off + 4, empty, ch);
    assert(set_children(empty, pos, val) == empty);
}

/// The extents of different entries of `es` have their fields apart.
pub open spec fn entries_apart(es: Seq<ItemLocationEntryView>) -> bool {
    forall|j1: int, j2: int, k1: int, k2: int|
        0 <= j1 < es.len() && 0 <= j2 < es.len() && j1 != j2 && 0 <= k1 < es[j1].extents.len() && 0
            <= k2 < es[j2].extents.len() ==> extent_end(#[trigger] es[j1].extents[k1]) <= extent_start(
            #[trigger] es[j2].extents[k2],
        ) || extent_end(es[j2].extents[k2]) <= extent_start(es[j1].extents[k1])
}

/// Putting in an entry whose fields all lie after those of the entries keeps the
/// entries apart.
#[verifier::spinoff_prover]
proof fn lemma_insert_apart(
    acc: Seq<ItemLocationEntryView>,
    e: ItemLocationEntryView,
    lo: int,
    hi: int,
)
    requires
        entries_apart(acc),
        entries_fields_in(acc, lo, hi),
        forall|k: int| 0 <= k < e.extents.len() ==> hi <= extent_start(#[trigger] e.extents[k]),
    ensures
        entries_apart(insert_entry(acc, e)),
{
    crate::heic::boxes::lemma_find_entry_bounds(acc, e.item_id, 0);
    let r = insert_entry(acc, e);
    let j0 = find_entry(acc, e.item_id);
    let slot = if j0 >= 0 { j0 } else { acc.len() as int };
    assert(r[slot] == e);
    assert forall|j: int| 0 <= j < r.len() && j != slot implies #[trigger] r[j] == acc[j] by {}
    assert forall|j1: int, j2: int, k1: int, k2: int|
        0 <= j1 < r.len() && 0 <= j2 < r.len() && j1 != j2 && 0 <= k1 < r[j1].extents.len() && 0 <= k2
            < r[j2].extents.len() implies extent_end(#[trigger] r[j1].extents[k1]) <= extent_start(
        #[trigger] r[j2].extents[k2],
    ) || extent_end(r[j2].extents[k2]) <= extent_start(r[j1].extents[k1]) by {
        if j1 == slot {
            assert(r[j2] == acc[j2]);
            assert(extent_fields_in(acc[j2].extents[k2], lo, hi));
            assert(hi <= extent_start(e.extents[k1]));
        } else if j2 == slot {
            assert(r[j1] == acc[j1]);
            assert(extent_fields_in(acc[j1].extents[k1], lo, hi));
            assert(hi <= extent_start(e.extents[k2]));
        } else {
            assert(r[j1] == acc[j1]);
            assert(r[j2] == acc[j2]);
            assert(extent_end(acc[j1].extents[k1]) <= extent_start(acc[j2].extents[k2]) || extent_end(
                acc[j2].extents[k2],
            ) <= extent_start(acc[j1].extents[k1]));
        }
    }
}

/// The entries read from `pos`, put into entries apart whose fields lie before `pos`,
/// are apart.
#[verifier::spinoff_prover]
proof fn lemma_entries_apart(
    c: Seq<u8>,
    pos: int,
    count: int,
    version: u8,
    sizes: FieldSizes,
    base: int,
    acc: Seq<ItemLocationEntryView>,
    res: Seq<ItemLocationEntryView>,
)
    requires
        0 <= pos <= c.len(),
        0 <= base,
        base + c.len() <= u64::MAX,
        item_location_entries(c, pos, count, version, sizes, base, acc) == Ok::<
            Seq<ItemLocationEntryView>,
            ExifError,
        >(res),
        entries_apart(acc),
        entries_fields_in(acc, base, base + pos),
    ensures
        entries_apart(res),
    decreases count,
{
    if count > 0 {
        let (e, p) = item_location_entry(c, pos, version, sizes, base)->Ok_0;
        lemma_entry_layout(c, pos, version, sizes, base, e, p);
        let h = entry_header_at(c, pos, version, sizes)->Ok_0;
        assert forall|k: int| 0 <= k < e.extents.len() implies base + pos <= extent_start(
            #[trigger] e.extents[k],
        ) by {
            assert(extent_fields_in(e.extents[k], base + h.end, base + p));
        }
        lemma_insert_apart(acc, e, base, base + pos);
        let acc2 = insert_entry(acc, e);
        lemma_insert_fields(acc, e, base, base + p);
        assert forall|j: int, k: int|
            0 <= j < acc.len() && 0 <= k < acc[j].extents.len() implies extent_fields_in(
            #[trigger] acc[j].extents[k],
            base,
            base + p,
        ) by {
            assert(extent_fields_in(acc[j].extents[k], base, base + pos));
        }
        assert forall|j: int, k: int|
            0 <= j < seq![e].len() && 0 <= k < seq![e][j].extents.len() implies extent_fields_in(
            #[trigger] seq![e][j].extents[k],
            base,
            base + p,
        ) by {
            assert(seq![e][j] == e);
            assert(extent_fields_in(e.extents[k], base + h.end, base + p));
        }
        lemma_entries_apart(c, p, count - 1, version, sizes, base, acc2, res);
    }
}

/// The entries of the `iloc` box `x`, if there is one, are apart.
pub open spec fn iloc_apart(x: Option<ItemLocationBoxView>) -> bool {
    x matches Some(il) ==> entries_apart(il.entries)
}

/// The entries of a decoded `iloc` box are apart.
#[verifier::spinoff_prover]
proof fn lemma_iloc_apart(buf: Seq<u8>, b: RawBox, base_in_buf: int, il: ItemLocationBoxView)
    requires
        0 <= base_in_buf,
        base_in_buf + buf.len() <= u64::MAX,
        item_location_box(buf, b, base_in_buf) == Ok::<ItemLocationBoxView, ExifError>(il),
    ensures
        entries_apart(il.entries),
{
    lemma_iloc_layout(buf, b, base_in_buf, il);
    reveal(item_location_box);
    let d = read_data(buf, b.data_ptr)->Ok_0;
    let c = d.subrange(4, d.len() as int);
    let base = base_in_buf + b.data_ptr.offset + 4;
    let version = d[0];
    let pos0: int = if version == 1 { 4 } else { 6 };
    let count = if version == 1 { be16(c, 2) } else { be32(c, 2) };
    lemma_entries_apart(c, pos0, count, version, field_sizes(c), base, Seq::empty(), il.entries);
}

/// The `iloc` box among the children of a `meta` box is apart where the one found
/// before was.
#[verifier::spinoff_prover]
proof fn lemma_children_apart(
    c: Seq<u8>,
    pos: int,
    bim: int,
    offset: int,
    acc: MetaChildren,
    res: MetaChildren,
)
    requires
        0 <= pos,
        0 <= bim,
        bim + c.len() <= u64::MAX,
        meta_children(c, pos, bim, offset, acc) == Some(Ok::<MetaChildren, ExifError>(res)),
        iloc_apart(acc.iloc),
    ensures
        iloc_apart(res.iloc),
    decreases remaining(c.len() as int, pos),
{
    lemma_raw_box_at_in(c, pos);
    if let Some(Ok(Some(b))) = raw_box_at(c, pos) {
        let (iinf, iloc, p) = meta_child(c, b, bim, acc.iinf, acc.iloc)->Some_0->Ok_0;
        let acc2 = MetaChildren { boxes: insert_box(acc.boxes, shifted(b, offset)), iinf, iloc };
        if b.box_type == ILOC && b.box_type != IINF {
            let il = item_location_box(c, b, bim)->Ok_0;
            lemma_iloc_apart(c, b, bim, il);
        }
        lemma_children_apart(c, p, bim, offset, acc2, res);
    }
}

/// The fields of the `iloc` box of a decoded `meta` box lie in the box's children, after
/// its version and flags, each back to back with the other field of its extent; and its
/// entries are apart.
#[verifier::spinoff_prover]
pub proof fn lemma_meta_layout(buf: Seq<u8>, b: RawBox, m: MetaBoxView)
    requires
        buf.len() <= u64::MAX,
        b.full_ptr.offset <= b.data_ptr.offset,
        meta_box(buf, b) == Some(Ok::<MetaBoxView, ExifError>(m)),
    ensures
        forall|q: int, w: int|
            #[trigger] iloc_has_field(m.iloc, q, w) ==> b.data_ptr.offset - b.full_ptr.offset + 4 <= q
                && q + w <= b.data_ptr.offset + b.data_ptr.length - b.full_ptr.offset,
        iloc_fields_before(m.iloc, b.data_ptr.offset + b.data_ptr.length - b.full_ptr.offset),
        iloc_apart(m.iloc),
{
    reveal(meta_box);
    let off = b.data_ptr.offset as int;
    let len = b.data_ptr.length as int;
    let d = buf.subrange(off, off + len);
    let c = d.subrange(4, d.len() as int);
    let bim = off - b.full_ptr.offset + 4;
    let empty = MetaChildren { boxes: Seq::empty(), iinf: None, iloc: None };
    let ch = meta_children(c, 0, bim, off + 4, empty)->Some_0->Ok_0;
    assert(ch.iloc == m.iloc);
    lemma_children_layout(c, 0, bim, off + 4, empty, ch, bim + c.len());
    lemma_children_apart(c, 0, bim, off + 4, empty, ch);
}

} // verus!
