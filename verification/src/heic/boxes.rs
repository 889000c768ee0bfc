//! Boxes of the ISO base media file format, decoded from bytes.

use vstd::prelude::*;
use vstd::utf8::valid_utf8;

use crate::bytes::{be16, be32, be64, push_range, read_u16_be, read_u32_be, read_u64_be};
use crate::error::ExifError;
use crate::text::{is_utf8, lossy_string, text_of, utf8_lossy};

verus! {

/// A range of bytes: its offset and length.
#[derive(Debug, Clone, Copy, PartialEq, Eq, Structural)]
pub struct Ptr {
    pub offset: u64,
    pub length: usize,
}

/// The outcome of reading the bytes that `ptr` points to in `buf`.
pub open spec fn read_data(buf: Seq<u8>, ptr: Ptr) -> Result<Seq<u8>, ExifError> {
    if ptr.offset + ptr.length > buf.len() {
        Err(ExifError::UnexpectedEof)
    } else {
        Ok(buf.subrange(ptr.offset as int, ptr.offset + ptr.length))
    }
}

/// The value of a byte-producing result, with the vector taken by its view.
pub open spec fn data_result(r: Result<Vec<u8>, ExifError>) -> Result<Seq<u8>, ExifError> {
    match r {
        Ok(v) => Ok(v@),
        Err(e) => Err(e),
    }
}

impl Ptr {
    /// The bytes the pointer points to in `buf`.
    pub fn read_data(&self, buf: &[u8]) -> (r: Result<Vec<u8>, ExifError>)
        ensures
            data_result(r) == read_data(buf@, *self),
    {
        let len = buf.len();
        if self.offset > len as u64 || (len as u64 - self.offset) < self.length as u64 {
            return Err(ExifError::UnexpectedEof);
        }
        let start = self.offset as usize;
        let mut out: Vec<u8> = Vec::new();
        push_range(&mut out, buf, start, start + self.length);
        Ok(out)
    }
}

/// The header of a box: its type, the range of the whole box and the range of its data.
#[derive(Debug, Clone, Copy, PartialEq, Eq, Structural)]
pub struct RawBox {
    /// The type, as the big-endian value of its four bytes (valid UTF-8).
    pub box_type: u32,
    pub full_ptr: Ptr,
    pub data_ptr: Ptr,
}

/// The outcome of reading a box header at `pos` in `buf`: `Ok(None)` where fewer than
/// four bytes are left, the header otherwise. `None` where the box length is smaller
/// than its own header (a box cannot hold fewer bytes than its header, and the reader
/// aborts).
#[verifier::opaque]
pub open spec fn raw_box_at(buf: Seq<u8>, pos: int) -> Option<Result<Option<RawBox>, ExifError>> {
    if pos < 0 || pos + 4 > buf.len() {
        Some(Ok(None))
    } else if pos + 8 > buf.len() {
        Some(Err(ExifError::UnexpectedEof))
    } else if !valid_utf8(buf.subrange(pos + 4, pos + 8)) {
        Some(Err(ExifError::InvalidBoxType))
    } else {
        let length = be32(buf, pos) as usize;
        let box_type = be32(buf, pos + 4) as u32;
        if length == 1 {
            if pos + 16 > buf.len() {
                Some(Err(ExifError::UnexpectedEof))
            } else {
                let l = (be64(buf, pos + 8) as u64) as usize;
                if l < 16 {
                    None
                } else {
                    Some(
                        Ok(
                            Some(
                                RawBox {
                                    box_type,
                                    full_ptr: Ptr { offset: pos as u64, length: l },
                                    data_ptr: Ptr {
                                        offset: (pos + 16) as u64,
                                        length: (l - 16) as usize,
                                    },
                                },
                            ),
                        ),
                    )
                }
            }
        } else if length < 8 {
            None
        } else {
            Some(
                Ok(
                    Some(
                        RawBox {
                            box_type,
                            full_ptr: Ptr { offset: pos as u64, length },
                            data_ptr: Ptr { offset: (pos + 8) as u64, length: (length - 8) as usize },
                        },
                    ),
                ),
            )
        }
    }
}

/// The position after the whole box `b`, where it does not overflow 64 bits.
pub open spec fn box_end(b: RawBox) -> Option<u64> {
    if b.full_ptr.offset + b.full_ptr.length > u64::MAX {
        None
    } else {
        Some((b.full_ptr.offset + b.full_ptr.length) as u64)
    }
}

/// The position after the data of the box `b`.
pub open spec fn data_end(b: RawBox) -> int {
    b.data_ptr.offset + b.data_ptr.length
}

/// A header read at `pos` lies within `buf` and its data ends where the box ends.
pub open spec fn raw_box_in(buf: Seq<u8>, pos: int, b: RawBox) -> bool {
    &&& b.full_ptr.offset == pos
    &&& b.data_ptr.offset == pos + 8 || b.data_ptr.offset == pos + 16
    &&& b.data_ptr.offset <= buf.len()
    &&& b.data_ptr.offset + b.data_ptr.length == b.full_ptr.offset + b.full_ptr.length
    &&& b.full_ptr.length >= 8
}

/// A header that [`raw_box_at`] reads at `pos` lies at `pos` within `buf`.
pub proof fn lemma_raw_box_at_in(buf: Seq<u8>, pos: int)
    requires
        buf.len() <= u64::MAX,
    ensures
        raw_box_at(buf, pos) matches Some(Ok(Some(b))) ==> raw_box_in(buf, pos, b),
{
    reveal(raw_box_at);
}

impl RawBox {
    /// Reads a box header at `pos` in `buf`.
    pub fn from_bytes(buf: &[u8], pos: u64) -> (r: Option<Result<Option<RawBox>, ExifError>>)
        ensures
            r == raw_box_at(buf@, pos as int),
            r matches Some(Ok(Some(b))) ==> raw_box_in(buf@, pos as int, b),
    {
        reveal(raw_box_at);
        let len = buf.len();
        if pos > len as u64 || len as u64 - pos < 4 {
            return Some(Ok(None));
        }
        let p = pos as usize;
        if len - p < 8 {
            return Some(Err(ExifError::UnexpectedEof));
        }
        if !is_utf8(&buf[p + 4..p + 8]) {
            return Some(Err(ExifError::InvalidBoxType));
        }
        let length = read_u32_be(buf, p) as usize;
        let box_type = read_u32_be(buf, p + 4);
        if length == 1 {
            if len - p < 16 {
                return Some(Err(ExifError::UnexpectedEof));
            }
            let l = read_u64_be(buf, p + 8) as usize;
            if l < 16 {
                return None;
            }
            Some(
                Ok(
                    Some(
                        RawBox {
                            box_type,
                            full_ptr: Ptr { offset: pos, length: l },
                            data_ptr: Ptr { offset: pos + 16, length: l - 16 },
                        },
                    ),
                ),
            )
        } else if length < 8 {
            None
        } else {
            Some(
                Ok(
                    Some(
                        RawBox {
                            box_type,
                            full_ptr: Ptr { offset: pos, length },
                            data_ptr: Ptr { offset: pos + 8, length: length - 8 },
                        },
                    ),
                ),
            )
        }
    }

    /// The position after the whole box, or `None` where it overflows 64 bits.
    pub fn advance(&self) -> (r: Option<u64>)
        ensures
            r == box_end(*self),
    {
        if self.full_ptr.length as u64 > u64::MAX - self.full_ptr.offset {
            None
        } else {
            Some(self.full_ptr.offset + self.full_ptr.length as u64)
        }
    }
}

/// The `ftyp` box: the brands the file conforms to.
pub struct FileTypeBox {
    pub major_brand: String,
    pub minor_version: u32,
    pub compatible_brands: Vec<String>,
    pub full_ptr: Ptr,
    pub data_ptr: Ptr,
}

/// The content of an `ftyp` box, with its texts as character sequences.
pub struct FileTypeBoxView {
    pub major_brand: Seq<char>,
    pub minor_version: u32,
    pub compatible_brands: Seq<Seq<char>>,
    pub full_ptr: Ptr,
    pub data_ptr: Ptr,
}

impl View for FileTypeBox {
    type V = FileTypeBoxView;

    open spec fn view(&self) -> FileTypeBoxView {
        FileTypeBoxView {
            major_brand: self.major_brand@,
            minor_version: self.minor_version,
            compatible_brands: self.compatible_brands@.map_values(|s: String| s@),
            full_ptr: self.full_ptr,
            data_ptr: self.data_ptr,
        }
    }
}

/// The outcome of decoding the `ftyp` box `b` of `buf`.
#[verifier::opaque]
pub open spec fn file_type_box(buf: Seq<u8>, b: RawBox) -> Result<FileTypeBoxView, ExifError> {
    match read_data(buf, b.data_ptr) {
        Err(e) => Err(e),
        Ok(d) => {
            if d.len() < 8 {
                Err(ExifError::FileTypeTooShort)
            } else if d.len() % 4 != 0 {
                Err(ExifError::FileTypeNotAligned)
            } else {
                Ok(
                    FileTypeBoxView {
                        major_brand: utf8_lossy(d.subrange(0, 4)),
                        minor_version: be32(d, 4) as u32,
                        compatible_brands: Seq::new(
                            ((d.len() - 8) / 4) as nat,
                            |k: int| utf8_lossy(d.subrange(8 + 4 * k, 12 + 4 * k)),
                        ),
                        full_ptr: b.full_ptr,
                        data_ptr: b.data_ptr,
                    },
                )
            }
        },
    }
}

/// An `ftyp` box decodes where its data lies within the bytes and is at least 8 bytes
/// long and a whole number of 4-byte words; its major brand is then the text of the data's
/// first four bytes, its minor version their next four, and it lists one compatible brand
/// for each further word of the data, in order, the `k`-th being the text of the data's
/// bytes `8 + 4k` to `12 + 4k`.
pub proof fn lemma_file_type_box_brands(buf: Seq<u8>, b: RawBox)
    ensures
        ({
            let o = b.data_ptr.offset as int;
            let n = b.data_ptr.length as int;
            file_type_box(buf, b) is Ok <==> (o + n <= buf.len() && n >= 8 && n % 4 == 0)
        }),
        file_type_box(buf, b) matches Ok(f) ==> {
            let o = b.data_ptr.offset as int;
            let n = b.data_ptr.length as int;
            &&& f.major_brand == utf8_lossy(buf.subrange(o, o + 4))
            &&& f.minor_version == be32(buf.subrange(o + 4, o + 8), 0)
            &&& f.compatible_brands.len() * 4 + 8 == n
            &&& forall|k: int|
                0 <= k < f.compatible_brands.len() ==> #[trigger] f.compatible_brands[k]
                    == utf8_lossy(buf.subrange(o + 8 + 4 * k, o + 12 + 4 * k))
            &&& f.full_ptr == b.full_ptr
            &&& f.data_ptr == b.data_ptr
        },
{
    reveal(file_type_box);
    let o = b.data_ptr.offset as int;
    let n = b.data_ptr.length as int;
    if o + n <= buf.len() && n >= 8 && n % 4 == 0 {
        let d = buf.subrange(o, o + n);
        let f = file_type_box(buf, b)->Ok_0;
        assert(d.subrange(0, 4) =~= buf.subrange(o, o + 4));
        assert(buf.subrange(o + 4, o + 8)[0] == d[4] && buf.subrange(o + 4, o + 8)[1] == d[5]);
        assert(buf.subrange(o + 4, o + 8)[2] == d[6] && buf.subrange(o + 4, o + 8)[3] == d[7]);
        assert((n - 8) / 4 * 4 + 8 == n);
        assert forall|k: int| 0 <= k < f.compatible_brands.len() implies #[trigger] f.compatible_brands[k]
            == utf8_lossy(buf.subrange(o + 8 + 4 * k, o + 12 + 4 * k)) by {
            assert(d.subrange(8 + 4 * k, 12 + 4 * k) =~= buf.subrange(o + 8 + 4 * k, o + 12 + 4 * k));
        }
    }
}

/// The value of a result, with the box taken by its view.
pub open spec fn view_result<T: View>(r: Result<T, ExifError>) -> Result<T::V, ExifError> {
    match r {
        Ok(v) => Ok(v@),
        Err(e) => Err(e),
    }
}

impl FileTypeBox {
    /// Decodes the `ftyp` box `b` of `buf`.
    pub fn from_raw_box(b: &RawBox, buf: &[u8]) -> (r: Result<FileTypeBox, ExifError>)
        ensures
            view_result(r) == file_type_box(buf@, *b),
            r is Ok ==> data_end(*b) <= buf@.len(),
            r matches Ok(f) ==> f.compatible_brands@.len() * 4 + 8 == b.data_ptr.length && forall|k: int|
                0 <= k < f.compatible_brands@.len() ==> #[trigger] f.compatible_brands@[k]@ == utf8_lossy(
                    buf@.subrange(b.data_ptr.offset + 8 + 4 * k, b.data_ptr.offset + 12 + 4 * k),
                ),
    {
        proof {
            lemma_file_type_box_brands(buf@, *b);
        }
        reveal(file_type_box);
        let data = match b.data_ptr.read_data(buf) {
            Ok(d) => d,
            Err(e) => {
                return Err(e);
            },
        };
        let n = data.len();
        if n < 8 {
            return Err(ExifError::FileTypeTooShort);
        }
        if n % 4 != 0 {
            return Err(ExifError::FileTypeNotAligned);
        }
        let major_brand = lossy_string(&data.as_slice()[0..4]);
        let minor_version = read_u32_be(data.as_slice(), 4);
        let mut compatible_brands: Vec<String> = Vec::new();
        let mut i: usize = 8;
        let ghost count = ((n - 8) / 4) as int;
        while i < n
            invariant
                n == data@.len(),
                n % 4 == 0,
                8 <= i <= n,
                i % 4 == 0,
                compatible_brands@.len() == (i - 8) / 4,
                forall|k: int|
                    0 <= k < compatible_brands@.len() ==> #[trigger] compatible_brands@[k]@
                        == utf8_lossy(data@.subrange(8 + 4 * k, 12 + 4 * k)),
            decreases n - i,
        {
            let brand = lossy_string(&data.as_slice()[i..i + 4]);
            compatible_brands.push(brand);
            i = i + 4;
        }
        let r = FileTypeBox {
            major_brand,
            minor_version,
            compatible_brands,
            full_ptr: b.full_ptr,
            data_ptr: b.data_ptr,
        };
        assert(r@.compatible_brands =~= Seq::new(
            ((n - 8) / 4) as nat,
            |k: int| utf8_lossy(data@.subrange(8 + 4 * k, 12 + 4 * k)),
        ));
        proof {
            let f = file_type_box(buf@, *b)->Ok_0;
            assert(r@ == f);
            assert forall|k: int| 0 <= k < r.compatible_brands@.len() implies #[trigger] r.compatible_brands@[k]@
                == utf8_lossy(buf@.subrange(b.data_ptr.offset + 8 + 4 * k, b.data_ptr.offset + 12 + 4 * k)) by {
                assert(r@.compatible_brands[k] == r.compatible_brands@[k]@);
                assert(f.compatible_brands[k] == utf8_lossy(
                    buf@.subrange(b.data_ptr.offset + 8 + 4 * k, b.data_ptr.offset + 12 + 4 * k),
                ));
            }
        }
        Ok(r)
    }
}

/// The outcome of reading the version and the 24-bit flags that open a full box.
pub open spec fn version_and_flags(d: Seq<u8>) -> Result<(u8, u32), ExifError> {
    if d.len() < 4 {
        Err(ExifError::VersionAndFlagsTooShort)
    } else {
        Ok((d[0], (d[1] as int * 0x1_0000 + be16(d, 2)) as u32))
    }
}

/// Reads the version and the 24-bit flags that open a full box.
pub fn get_version_and_flags(data: &[u8]) -> (r: Result<(u8, u32), ExifError>)
    ensures
        r == version_and_flags(data@),
        r matches Ok((_, flags)) ==> flags < 0x100_0000,
{
    if data.len() < 4 {
        return Err(ExifError::VersionAndFlagsTooShort);
    }
    let version = data[0];
    let flags = (data[1] as u32) * 0x1_0000 + read_u16_be(data, 2) as u32;
    Ok((version, flags))
}

/// An entry of the `iinf` box: an item and its type.
pub struct ItemInfoEntry {
    pub version: u8,
    pub flags: u32,
    pub item_id: u32,
    pub protection_index: u16,
    pub item_type: String,
}

/// The content of an item information entry, with its type as characters.
pub struct ItemInfoEntryView {
    pub version: u8,
    pub flags: u32,
    pub item_id: u32,
    pub protection_index: u16,
    pub item_type: Seq<char>,
}

impl View for ItemInfoEntry {
    type V = ItemInfoEntryView;

    open spec fn view(&self) -> ItemInfoEntryView {
        ItemInfoEntryView {
            version: self.version,
            flags: self.flags,
            item_id: self.item_id,
            protection_index: self.protection_index,
            item_type: self.item_type@,
        }
    }
}

/// The outcome of decoding the item information entry `b` of `buf`.
pub open spec fn item_info_entry(buf: Seq<u8>, b: RawBox) -> Result<ItemInfoEntryView, ExifError> {
    match read_data(buf, b.data_ptr) {
        Err(e) => Err(e),
        Ok(d) => {
            if d.len() < 13 {
                Err(ExifError::ItemInfoEntryTooShort(d.len() as usize))
            } else {
                match version_and_flags(d) {
                    Err(e) => Err(e),
                    Ok((version, flags)) => {
                        if version != 2 {
                            Err(ExifError::UnsupportedItemInfoEntryVersion(version))
                        } else {
                            Ok(
                                ItemInfoEntryView {
                                    version,
                                    flags,
                                    item_id: be16(d, 4) as u32,
                                    protection_index: be16(d, 6) as u16,
                                    item_type: text_of(d.subrange(8, 12)),
                                },
                            )
                        }
                    },
                }
            }
        },
    }
}

impl ItemInfoEntry {
    /// Decodes the item information entry `b` of `buf`.
    pub fn from_raw_box(b: &RawBox, buf: &[u8]) -> (r: Result<ItemInfoEntry, ExifError>)
        ensures
            view_result(r) == item_info_entry(buf@, *b),
    {
        let data = match b.data_ptr.read_data(buf) {
            Ok(d) => d,
            Err(e) => {
                return Err(e);
            },
        };
        if data.len() < 13 {
            return Err(ExifError::ItemInfoEntryTooShort(data.len()));
        }
        let (version, flags) = match get_version_and_flags(data.as_slice()) {
            Ok(vf) => vf,
            Err(e) => {
                return Err(e);
            },
        };
        if version != 2 {
            return Err(ExifError::UnsupportedItemInfoEntryVersion(version));
        }
        let item_id = read_u16_be(data.as_slice(), 4) as u32;
        let protection_index = read_u16_be(data.as_slice(), 6);
        let item_type = lossy_string(&data.as_slice()[8..12]);
        Ok(ItemInfoEntry { version, flags, item_id, protection_index, item_type })
    }
}

/// The `iinf` box: the items of the file and their types.
pub struct ItemInfoBox {
    pub version: u8,
    pub flags: u32,
    pub entries: Vec<ItemInfoEntry>,
    pub full_ptr: Ptr,
    pub data_ptr: Ptr,
}

/// The content of an `iinf` box.
pub struct ItemInfoBoxView {
    pub version: u8,
    pub flags: u32,
    pub entries: Seq<ItemInfoEntryView>,
    pub full_ptr: Ptr,
    pub data_ptr: Ptr,
}

impl View for ItemInfoBox {
    type V = ItemInfoBoxView;

    open spec fn view(&self) -> ItemInfoBoxView {
        ItemInfoBoxView {
            version: self.version,
            flags: self.flags,
            entries: self.entries@.map_values(|e: ItemInfoEntry| e@),
            full_ptr: self.full_ptr,
            data_ptr: self.data_ptr,
        }
    }
}

/// The outcome of decoding `count` item information entries from `pos` in `c`, after
/// the entries `acc`. `None` where an entry's header aborts the reader.
pub open spec fn item_info_entries(c: Seq<u8>, pos: int, count: int, acc: Seq<ItemInfoEntryView>) -> Option<
    Result<Seq<ItemInfoEntryView>, ExifError>,
>
    decreases count,
{
    if count <= 0 {
        Some(Ok(acc))
    } else {
        match raw_box_at(c, pos) {
            None => None,
            Some(Err(e)) => Some(Err(e)),
            Some(Ok(None)) => Some(Err(ExifError::MissingItemInfoEntry)),
            Some(Ok(Some(b))) => match item_info_entry(c, b) {
                Err(e) => Some(Err(e)),
                Ok(entry) => item_info_entries(c, data_end(b), count - 1, acc.push(entry)),
            },
        }
    }
}

/// The outcome of decoding the `iinf` box `b` of `buf`.
#[verifier::opaque]
pub open spec fn item_info_box(buf: Seq<u8>, b: RawBox) -> Option<Result<ItemInfoBoxView, ExifError>> {
    match read_data(buf, b.data_ptr) {
        Err(e) => Some(Err(e)),
        Ok(d) => {
            if d.len() < 6 {
                Some(Err(ExifError::ItemInfoTooShort))
            } else {
                match version_and_flags(d) {
                    Err(e) => Some(Err(e)),
                    Ok((version, flags)) => match item_info_entries(
                        d.subrange(6, d.len() as int),
                        0,
                        be16(d, 4),
                        Seq::empty(),
                    ) {
                        None => None,
                        Some(Err(e)) => Some(Err(e)),
                        Some(Ok(entries)) => Some(
                            Ok(
                                ItemInfoBoxView {
                                    version,
                                    flags,
                                    entries,
                                    full_ptr: b.full_ptr,
                                    data_ptr: b.data_ptr,
                                },
                            ),
                        ),
                    },
                }
            }
        },
    }
}

/// The value of an outcome, with the box taken by its view.
pub open spec fn view_outcome<T: View>(r: Option<Result<T, ExifError>>) -> Option<
    Result<T::V, ExifError>,
> {
    match r {
        None => None,
        Some(r) => Some(view_result(r)),
    }
}

impl ItemInfoBox {
    /// Decodes the `iinf` box `b` of `buf`; `None` where an entry's header aborts the
    /// reader.
    #[verifier::loop_isolation(false)]
    pub fn from_raw_box(b: &RawBox, buf: &[u8]) -> (r: Option<Result<ItemInfoBox, ExifError>>)
        ensures
            view_outcome(r) == item_info_box(buf@, *b),
            r matches Some(Ok(_)) ==> data_end(*b) <= buf@.len(),
    {
        reveal(item_info_box);
        let data = match b.data_ptr.read_data(buf) {
            Ok(d) => d,
            Err(e) => {
                return Some(Err(e));
            },
        };
        if data.len() < 6 {
            return Some(Err(ExifError::ItemInfoTooShort));
        }
        let (version, flags) = match get_version_and_flags(data.as_slice()) {
            Ok(vf) => vf,
            Err(e) => {
                return Some(Err(e));
            },
        };
        let counts = read_u16_be(data.as_slice(), 4);
        let c = &data.as_slice()[6..data.len()];
        let ghost cs = data@.subrange(6, data@.len() as int);
        let mut entries: Vec<ItemInfoEntry> = Vec::new();
        let mut pos: u64 = 0;
        let mut k: u16 = 0;
        assert(entries@.map_values(|e: ItemInfoEntry| e@) =~= Seq::<ItemInfoEntryView>::empty());
        while k < counts
            invariant
                c@ == cs,
                k <= counts,
                item_info_entries(cs, pos as int, (counts - k) as int, entries@.map_values(|e: ItemInfoEntry| e@))
                    == item_info_entries(cs, 0, counts as int, Seq::empty()),
                pos <= c@.len(),
            decreases counts - k,
        {
            let ib = match RawBox::from_bytes(c, pos) {
                None => {
                    return None;
                },
                Some(Err(e)) => {
                    return Some(Err(e));
                },
                Some(Ok(None)) => {
                    return Some(Err(ExifError::MissingItemInfoEntry));
                },
                Some(Ok(Some(ib))) => ib,
            };
            let entry = match ItemInfoEntry::from_raw_box(&ib, c) {
                Ok(e) => e,
                Err(e) => {
                    return Some(Err(e));
                },
            };
            let ghost old_entries = entries@;
            entries.push(entry);
            assert(entries@.map_values(|e: ItemInfoEntry| e@) =~= old_entries.map_values(
                |e: ItemInfoEntry| e@,
            ).push(entry@));
            pos = ib.data_ptr.offset + ib.data_ptr.length as u64;
            k = k + 1;
        }
        Some(
            Ok(
                ItemInfoBox {
                    version,
                    flags,
                    entries,
                    full_ptr: b.full_ptr,
                    data_ptr: b.data_ptr,
                },
            ),
        )
    }
}

/// A field of an `iloc` entry as it stands in the `meta` box: its position (from the
/// start of the `meta` box) and its value, in one of the four widths.
#[derive(Debug, Clone, Copy, PartialEq, Eq, Structural)]
pub enum ExtentValue {
    U8(u64, u8),
    U16(u64, u16),
    U32(u64, u32),
    U64(u64, u64),
}

/// The position of the field, from the start of the `meta` box.
pub open spec fn ev_position(v: ExtentValue) -> u64 {
    match v {
        ExtentValue::U8(p, _) => p,
        ExtentValue::U16(p, _) => p,
        ExtentValue::U32(p, _) => p,
        ExtentValue::U64(p, _) => p,
    }
}

/// The value of the field.
pub open spec fn ev_value(v: ExtentValue) -> u64 {
    match v {
        ExtentValue::U8(_, x) => x as u64,
        ExtentValue::U16(_, x) => x as u64,
        ExtentValue::U32(_, x) => x as u64,
        ExtentValue::U64(_, x) => x,
    }
}

/// The width of the field in bytes.
pub open spec fn ev_width(v: ExtentValue) -> int {
    match v {
        ExtentValue::U8(..) => 1,
        ExtentValue::U16(..) => 2,
        ExtentValue::U32(..) => 4,
        ExtentValue::U64(..) => 8,
    }
}

impl ExtentValue {
    /// The position of the field, from the start of the `meta` box.
    pub fn position(&self) -> (r: u64)
        ensures
            r == ev_position(*self),
    {
        match self {
            ExtentValue::U8(p, _) => *p,
            ExtentValue::U16(p, _) => *p,
            ExtentValue::U32(p, _) => *p,
            ExtentValue::U64(p, _) => *p,
        }
    }

    /// The value of the field.
    pub fn value(&self) -> (r: u64)
        ensures
            r == ev_value(*self),
    {
        match self {
            ExtentValue::U8(_, x) => *x as u64,
            ExtentValue::U16(_, x) => *x as u64,
            ExtentValue::U32(_, x) => *x as u64,
            ExtentValue::U64(_, x) => *x,
        }
    }
}

/// The outcome of reading an unsigned integer of `size` bytes (1, 2, 4 or 8) at `pos`
/// in `c`, as a field whose position in the `meta` box is `base + pos`.
pub open spec fn field_at(c: Seq<u8>, pos: int, size: u8, base: int) -> Result<ExtentValue, ExifError> {
    if pos + size > c.len() {
        Err(ExifError::UnexpectedEof)
    } else if size == 1 {
        Ok(ExtentValue::U8((base + pos) as u64, c[pos]))
    } else if size == 2 {
        Ok(ExtentValue::U16((base + pos) as u64, be16(c, pos) as u16))
    } else if size == 4 {
        Ok(ExtentValue::U32((base + pos) as u64, be32(c, pos) as u32))
    } else {
        Ok(ExtentValue::U64((base + pos) as u64, be64(c, pos) as u64))
    }
}

/// Whether `size` is the width of a field that holds a value.
pub open spec fn is_field_size(size: u8) -> bool {
    size == 1 || size == 2 || size == 4 || size == 8
}

/// Reads an unsigned integer of `size` bytes at `pos` in `c`.
pub fn read_field(c: &[u8], pos: u64, size: u8, base: u64) -> (r: Result<ExtentValue, ExifError>)
    requires
        is_field_size(size),
        pos <= c@.len(),
        base + c@.len() <= u64::MAX,
    ensures
        r == field_at(c@, pos as int, size, base as int),
        r matches Ok(v) ==> ev_position(v) == base + pos && ev_width(v) == size && pos + size
            <= c@.len(),
{
    let len = c.len();
    if (len as u64 - pos) < size as u64 {
        return Err(ExifError::UnexpectedEof);
    }
    let p = pos as usize;
    if size == 1 {
        Ok(ExtentValue::U8(base + pos, c[p]))
    } else if size == 2 {
        Ok(ExtentValue::U16(base + pos, read_u16_be(c, p)))
    } else if size == 4 {
        Ok(ExtentValue::U32(base + pos, read_u32_be(c, p)))
    } else {
        Ok(ExtentValue::U64(base + pos, read_u64_be(c, p)))
    }
}

/// The outcome of reading an optional size-coded integer: nothing for size 0, a field
/// of 1, 2, 4 or 8 bytes, or the error `bad` for any other size.
pub open spec fn optional_uint_at(c: Seq<u8>, pos: int, size: u8, bad: ExifError) -> Result<(u64, int), ExifError> {
    if size == 0 {
        Ok((0u64, pos))
    } else if !is_field_size(size) {
        Err(bad)
    } else {
        match field_at(c, pos, size, 0) {
            Err(e) => Err(e),
            Ok(v) => Ok((ev_value(v), pos + size)),
        }
    }
}

/// Reads an optional size-coded integer (see [`optional_uint_at`]).
fn read_optional_uint(c: &[u8], pos: u64, size: u8, bad: ExifError) -> (r: Result<(u64, u64), ExifError>)
    requires
        pos <= c@.len(),
    ensures
        match r {
            Ok((v, p)) => optional_uint_at(c@, pos as int, size, bad) == Ok::<(u64, int), ExifError>((v, p as int)) && p <= c@.len(),
            Err(e) => optional_uint_at(c@, pos as int, size, bad) == Err::<(u64, int), ExifError>(e),
        },
{
    let _len = c.len();
    if size == 0 {
        return Ok((0, pos));
    }
    if !(size == 1 || size == 2 || size == 4 || size == 8) {
        return Err(bad);
    }
    match read_field(c, pos, size, 0) {
        Ok(v) => Ok((v.value(), pos + size as u64)),
        Err(e) => Err(e),
    }
}

/// One extent of an item: where its data lies, as two fields of the `iloc` box.
#[derive(Debug, Clone, Copy, PartialEq, Eq, Structural)]
pub struct ItemLocationExtent {
    pub extent_index: u64,
    pub extent_offset: ExtentValue,
    pub extent_length: ExtentValue,
}

/// The sizes that the `iloc` box declares for the fields of its entries.
#[derive(Debug, Clone, Copy, PartialEq, Eq, Structural)]
pub struct FieldSizes {
    pub offset_size: u8,
    pub length_size: u8,
    pub base_offset_size: u8,
    pub index_size: u8,
}

/// The outcome of reading one extent at `pos` in `c`: its index (if the box declares
/// one), offset and length, and the position after it.
pub open spec fn extent_at(c: Seq<u8>, pos: int, sizes: FieldSizes, base: int) -> Result<
    (ItemLocationExtent, int),
    ExifError,
> {
    match optional_uint_at(c, pos, sizes.index_size, ExifError::InvalidIndexSize(sizes.index_size)) {
        Err(e) => Err(e),
        Ok((extent_index, p1)) => {
            if !is_field_size(sizes.offset_size) {
                Err(ExifError::InvalidOffsetSize(sizes.offset_size))
            } else {
                match field_at(c, p1, sizes.offset_size, base) {
                    Err(e) => Err(e),
                    Ok(extent_offset) => {
                        let p2 = p1 + sizes.offset_size;
                        if !is_field_size(sizes.length_size) {
                            Err(ExifError::InvalidLengthSize(sizes.length_size))
                        } else {
                            match field_at(c, p2, sizes.length_size, base) {
                                Err(e) => Err(e),
                                Ok(extent_length) => Ok(
                                    (
                                        ItemLocationExtent { extent_index, extent_offset, extent_length },
                                        p2 + sizes.length_size,
                                    ),
                                ),
                            }
                        }
                    },
                }
            }
        },
    }
}

/// The outcome of reading `count` extents from `pos` in `c`, after the extents `acc`;
/// on success the extents and the position after them.
pub open spec fn extents_at(
    c: Seq<u8>,
    pos: int,
    count: int,
    sizes: FieldSizes,
    base: int,
    acc: Seq<ItemLocationExtent>,
) -> Result<(Seq<ItemLocationExtent>, int), ExifError>
    decreases count,
{
    if count <= 0 {
        Ok((acc, pos))
    } else {
        match extent_at(c, pos, sizes, base) {
            Err(e) => Err(e),
            Ok((x, p)) => extents_at(c, p, count - 1, sizes, base, acc.push(x)),
        }
    }
}

/// The fields of the extent `x` lie within the first `limit` bytes of the `meta` box.
pub open spec fn extent_within(x: ItemLocationExtent, limit: int) -> bool {
    &&& ev_position(x.extent_offset) + ev_width(x.extent_offset) <= limit
    &&& ev_position(x.extent_length) + ev_width(x.extent_length) <= limit
}

fn read_extent(c: &[u8], pos: u64, sizes: FieldSizes, base: u64) -> (r: Result<(ItemLocationExtent, u64), ExifError>)
    requires
        pos <= c@.len(),
        base + c@.len() <= u64::MAX,
    ensures
        match r {
            Ok((x, p)) => extent_at(c@, pos as int, sizes, base as int) == Ok::<(ItemLocationExtent, int), ExifError>((x, p as int))
                && p <= c@.len() && extent_within(x, base + c@.len()),
            Err(e) => extent_at(c@, pos as int, sizes, base as int) == Err::<(ItemLocationExtent, int), ExifError>(e),
        },
{
    let (extent_index, q1) = match read_optional_uint(
        c,
        pos,
        sizes.index_size,
        ExifError::InvalidIndexSize(sizes.index_size),
    ) {
        Ok(r) => r,
        Err(e) => {
            return Err(e);
        },
    };
    if !(sizes.offset_size == 1 || sizes.offset_size == 2 || sizes.offset_size == 4
        || sizes.offset_size == 8) {
        return Err(ExifError::InvalidOffsetSize(sizes.offset_size));
    }
    let extent_offset = match read_field(c, q1, sizes.offset_size, base) {
        Ok(v) => v,
        Err(e) => {
            return Err(e);
        },
    };
    let q2 = q1 + sizes.offset_size as u64;
    if !(sizes.length_size == 1 || sizes.length_size == 2 || sizes.length_size == 4
        || sizes.length_size == 8) {
        return Err(ExifError::InvalidLengthSize(sizes.length_size));
    }
    let extent_length = match read_field(c, q2, sizes.length_size, base) {
        Ok(v) => v,
        Err(e) => {
            return Err(e);
        },
    };
    Ok((ItemLocationExtent { extent_index, extent_offset, extent_length }, q2 + sizes.length_size as u64))
}

/// Every field of the extents `es` lies within the first `limit` bytes of the `meta` box.
pub open spec fn extents_within(es: Seq<ItemLocationExtent>, limit: int) -> bool {
    forall|k: int|
        0 <= k < es.len() ==> ev_position(#[trigger] es[k].extent_offset) + ev_width(
            es[k].extent_offset,
        ) <= limit && ev_position(es[k].extent_length) + ev_width(es[k].extent_length) <= limit
}

/// An `iloc` entry: where the data of an item lies.
pub struct ItemLocationEntry {
    pub item_id: u32,
    pub construction_method: u16,
    pub data_reference_index: u16,
    pub base_offset: u64,
    pub extents: Vec<ItemLocationExtent>,
}

/// The content of an `iloc` entry.
pub struct ItemLocationEntryView {
    pub item_id: u32,
    pub construction_method: u16,
    pub data_reference_index: u16,
    pub base_offset: u64,
    pub extents: Seq<ItemLocationExtent>,
}

impl View for ItemLocationEntry {
    type V = ItemLocationEntryView;

    open spec fn view(&self) -> ItemLocationEntryView {
        ItemLocationEntryView {
            item_id: self.item_id,
            construction_method: self.construction_method,
            data_reference_index: self.data_reference_index,
            base_offset: self.base_offset,
            extents: self.extents@,
        }
    }
}

/// The fields that open an `iloc` entry: item id, construction method, data reference
/// index, base offset and extent count, and the position after them.
pub struct EntryHeader {
    pub item_id: u32,
    pub construction_method: u16,
    pub data_reference_index: u16,
    pub base_offset: u64,
    pub extent_count: u64,
    pub end: int,
}

/// The outcome of reading the fields that open an `iloc` entry at `pos` in `c`.
pub open spec fn entry_header_at(c: Seq<u8>, pos: int, version: u8, sizes: FieldSizes) -> Result<
    EntryHeader,
    ExifError,
> {
    let id_size: u8 = if version == 1 { 2 } else { 4 };
    if version != 1 && version != 2 {
        Err(ExifError::InvalidItemLocationVersion(version))
    } else {
        match field_at(c, pos, id_size, 0) {
            Err(e) => Err(e),
            Ok(id) => {
                let p1 = pos + id_size;
                match field_at(c, p1, 2, 0) {
                    Err(e) => Err(e),
                    Ok(cm) => match field_at(c, p1 + 2, 2, 0) {
                        Err(e) => Err(e),
                        Ok(dri) => match optional_uint_at(
                            c,
                            p1 + 4,
                            sizes.base_offset_size,
                            ExifError::InvalidBaseOffsetSize(sizes.base_offset_size),
                        ) {
                            Err(e) => Err(e),
                            Ok((base_offset, p2)) => match field_at(c, p2, 2, 0) {
                                Err(e) => Err(e),
                                Ok(count) => Ok(
                                    EntryHeader {
                                        item_id: ev_value(id) as u32,
                                        construction_method: (ev_value(cm) % 16) as u16,
                                        data_reference_index: ev_value(dri) as u16,
                                        base_offset,
                                        extent_count: ev_value(count),
                                        end: p2 + 2,
                                    },
                                ),
                            },
                        },
                    },
                }
            },
        }
    }
}

/// The outcome of reading an `iloc` entry of the box version `version` at `pos` in `c`;
/// on success the entry and the position after it.
pub open spec fn item_location_entry(c: Seq<u8>, pos: int, version: u8, sizes: FieldSizes, base: int) -> Result<
    (ItemLocationEntryView, int),
    ExifError,
> {
    match entry_header_at(c, pos, version, sizes) {
        Err(e) => Err(e),
        Ok(h) => match extents_at(c, h.end, h.extent_count as int, sizes, base, Seq::empty()) {
            Err(e) => Err(e),
            Ok((extents, p)) => Ok(
                (
                    ItemLocationEntryView {
                        item_id: h.item_id,
                        construction_method: h.construction_method,
                        data_reference_index: h.data_reference_index,
                        base_offset: h.base_offset,
                        extents,
                    },
                    p,
                ),
            ),
        },
    }
}

fn read_entry_header(c: &[u8], pos: u64, version: u8, sizes: FieldSizes) -> (r: Result<
    (u32, u16, u16, u64, u64, u64),
    ExifError,
>)
    requires
        pos <= c@.len(),
    ensures
        match r {
            Ok((id, cm, dri, bo, n, p)) => entry_header_at(c@, pos as int, version, sizes)
                == Ok::<EntryHeader, ExifError>(
                EntryHeader {
                    item_id: id,
                    construction_method: cm,
                    data_reference_index: dri,
                    base_offset: bo,
                    extent_count: n,
                    end: p as int,
                },
            ) && p <= c@.len(),
            Err(e) => entry_header_at(c@, pos as int, version, sizes) == Err::<EntryHeader, ExifError>(e),
        },
{
    let _len = c.len();
    if version != 1 && version != 2 {
        return Err(ExifError::InvalidItemLocationVersion(version));
    }
    let id_size: u8 = if version == 1 {
        2
    } else {
        4
    };
    let id = match read_field(c, pos, id_size, 0) {
        Ok(v) => v,
        Err(e) => {
            return Err(e);
        },
    };
    let p1 = pos + id_size as u64;
    let cm = match read_field(c, p1, 2, 0) {
        Ok(v) => v,
        Err(e) => {
            return Err(e);
        },
    };
    let dri = match read_field(c, p1 + 2, 2, 0) {
        Ok(v) => v,
        Err(e) => {
            return Err(e);
        },
    };
    let (base_offset, p2) = match read_optional_uint(
        c,
        p1 + 4,
        sizes.base_offset_size,
        ExifError::InvalidBaseOffsetSize(sizes.base_offset_size),
    ) {
        Ok(r) => r,
        Err(e) => {
            return Err(e);
        },
    };
    let count = match read_field(c, p2, 2, 0) {
        Ok(v) => v,
        Err(e) => {
            return Err(e);
        },
    };
    Ok((id.value() as u32, (cm.value() % 16) as u16, dri.value() as u16, base_offset, count.value(), p2 + 2))
}

fn read_extents(c: &[u8], pos: u64, n: u64, sizes: FieldSizes, base: u64) -> (r: Result<
    (Vec<ItemLocationExtent>, u64),
    ExifError,
>)
    requires
        pos <= c@.len(),
        base + c@.len() <= u64::MAX,
    ensures
        match r {
            Ok((es, p)) => extents_at(c@, pos as int, n as int, sizes, base as int, Seq::empty())
                == Ok::<(Seq<ItemLocationExtent>, int), ExifError>((es@, p as int)) && p <= c@.len()
                && extents_within(es@, base + c@.len()),
            Err(e) => extents_at(c@, pos as int, n as int, sizes, base as int, Seq::empty()) == Err::<
                (Seq<ItemLocationExtent>, int),
                ExifError,
            >(e),
        },
{
    let mut extents: Vec<ItemLocationExtent> = Vec::new();
    let mut pos3: u64 = pos;
    let mut k: u64 = 0;
    while k < n
        invariant
            k <= n,
            pos3 <= c@.len(),
            base + c@.len() <= u64::MAX,
            extents_at(c@, pos3 as int, (n - k) as int, sizes, base as int, extents@) == extents_at(
                c@,
                pos as int,
                n as int,
                sizes,
                base as int,
                Seq::empty(),
            ),
            extents_within(extents@, base + c@.len()),
        decreases n - k,
    {
        let (x, q) = match read_extent(c, pos3, sizes, base) {
            Ok(r) => r,
            Err(e) => {
                return Err(e);
            },
        };
        let ghost old_extents = extents@;
        extents.push(x);
        assert(extents_within(extents@, base + c@.len())) by {
            assert forall|j: int| 0 <= j < extents@.len() implies ev_position(
                #[trigger] extents@[j].extent_offset,
            ) + ev_width(extents@[j].extent_offset) <= base + c@.len() && ev_position(
                extents@[j].extent_length,
            ) + ev_width(extents@[j].extent_length) <= base + c@.len() by {
                if j < old_extents.len() {
                    assert(extents@[j] == old_extents[j]);
                }
            }
        }
        pos3 = q;
        k = k + 1;
    }
    Ok((extents, pos3))
}

impl ItemLocationEntry {
    /// Reads an `iloc` entry at `pos` in `c` (the part of the `iloc` box after its version
    /// and flags, which starts `base` bytes after the start of the `meta` box).
    pub fn from_cursor(c: &[u8], pos: u64, version: u8, sizes: FieldSizes, base: u64) -> (r: Result<
        (ItemLocationEntry, u64),
        ExifError,
    >)
        requires
            pos <= c@.len(),
            base + c@.len() <= u64::MAX,
        ensures
            match r {
                Ok((e, p)) => item_location_entry(c@, pos as int, version, sizes, base as int) == Ok::<
                    (ItemLocationEntryView, int),
                    ExifError,
                >((e@, p as int)) && p <= c@.len() && extents_within(e.extents@, base + c@.len()),
                Err(err) => item_location_entry(c@, pos as int, version, sizes, base as int) == Err::<
                    (ItemLocationEntryView, int),
                    ExifError,
                >(err),
            },
    {
        let (item_id, construction_method, data_reference_index, base_offset, n, p) =
            match read_entry_header(c, pos, version, sizes) {
            Ok(h) => h,
            Err(e) => {
                return Err(e);
            },
        };
        let (extents, end) = match read_extents(c, p, n, sizes, base) {
            Ok(r) => r,
            Err(e) => {
                return Err(e);
            },
        };
        Ok(
            (
                ItemLocationEntry {
                    item_id,
                    construction_method,
                    data_reference_index,
                    base_offset,
                    extents,
                },
                end,
            ),
        )
    }
}

/// The index of the first entry of `es` from the `i`-th on whose item is `id`, or -1.
pub open spec fn find_entry_from(es: Seq<ItemLocationEntryView>, id: u32, i: int) -> int
    decreases es.len() - i,
{
    if i < 0 || i >= es.len() {
        -1
    } else if es[i].item_id == id {
        i
    } else {
        find_entry_from(es, id, i + 1)
    }
}

/// The index that [`find_entry_from`] gives is -1 or that of an entry of the item.
pub proof fn lemma_find_entry_bounds(es: Seq<ItemLocationEntryView>, id: u32, i: int)
    requires
        0 <= i,
    ensures
        find_entry_from(es, id, i) == -1 || (i <= find_entry_from(es, id, i) < es.len()
            && es[find_entry_from(es, id, i)].item_id == id),
    decreases es.len() - i,
{
    if i < es.len() && es[i].item_id != id {
        lemma_find_entry_bounds(es, id, i + 1);
    }
}

/// The index of the entry of `es` whose item is `id`, or -1.
pub open spec fn find_entry(es: Seq<ItemLocationEntryView>, id: u32) -> int {
    find_entry_from(es, id, 0)
}

/// The entries `es` with `e` put in: it replaces the entry of the same item, if there
/// is one (the entries form a map from items to their locations).
pub open spec fn insert_entry(es: Seq<ItemLocationEntryView>, e: ItemLocationEntryView) -> Seq<
    ItemLocationEntryView,
> {
    let j = find_entry(es, e.item_id);
    if j >= 0 {
        es.update(j, e)
    } else {
        es.push(e)
    }
}

/// Every field of every extent of `es` lies within the first `limit` bytes of the
/// `meta` box.
pub open spec fn entries_within(es: Seq<ItemLocationEntryView>, limit: int) -> bool {
    forall|k: int| 0 <= k < es.len() ==> extents_within(#[trigger] es[k].extents, limit)
}

/// Finds the entry of `entries` whose item is `id`.
pub fn find_entry_index(entries: &Vec<ItemLocationEntry>, id: u32) -> (r: Option<usize>)
    ensures
        match r {
            Some(j) => find_entry(entries@.map_values(|e: ItemLocationEntry| e@), id) == j as int
                && j < entries@.len() && entries@[j as int].item_id == id,
            None => find_entry(entries@.map_values(|e: ItemLocationEntry| e@), id) == -1,
        },
{
    let ghost es = entries@.map_values(|e: ItemLocationEntry| e@);
    let mut i: usize = 0;
    while i < entries.len()
        invariant
            i <= entries@.len(),
            es == entries@.map_values(|e: ItemLocationEntry| e@),
            find_entry_from(es, id, i as int) == find_entry(es, id),
        decreases entries@.len() - i,
    {
        if entries[i].item_id == id {
            return Some(i);
        }
        i = i + 1;
    }
    None
}

/// The outcome of reading `count` `iloc` entries from `pos` in `c`, put one after the
/// other into the entries `acc`.
pub open spec fn item_location_entries(
    c: Seq<u8>,
    pos: int,
    count: int,
    version: u8,
    sizes: FieldSizes,
    base: int,
    acc: Seq<ItemLocationEntryView>,
) -> Result<Seq<ItemLocationEntryView>, ExifError>
    decreases count,
{
    if count <= 0 {
        Ok(acc)
    } else {
        match item_location_entry(c, pos, version, sizes, base) {
            Err(e) => Err(e),
            Ok((e, p)) => item_location_entries(c, p, count - 1, version, sizes, base, insert_entry(acc, e)),
        }
    }
}

/// The `iloc` box: the location of each item, by item.
pub struct ItemLocationBox {
    pub version: u8,
    pub flags: u32,
    /// One entry per item, in the order the items first appear.
    pub entries: Vec<ItemLocationEntry>,
    pub full_ptr: Ptr,
    pub data_ptr: Ptr,
}

/// The content of an `iloc` box.
pub struct ItemLocationBoxView {
    pub version: u8,
    pub flags: u32,
    pub entries: Seq<ItemLocationEntryView>,
    pub full_ptr: Ptr,
    pub data_ptr: Ptr,
}

impl View for ItemLocationBox {
    type V = ItemLocationBoxView;

    open spec fn view(&self) -> ItemLocationBoxView {
        ItemLocationBoxView {
            version: self.version,
            flags: self.flags,
            entries: self.entries@.map_values(|e: ItemLocationEntry| e@),
            full_ptr: self.full_ptr,
            data_ptr: self.data_ptr,
        }
    }
}

/// The field sizes that the two bytes at the start of `c` declare.
pub open spec fn field_sizes(c: Seq<u8>) -> FieldSizes {
    FieldSizes {
        offset_size: c[0] / 16,
        length_size: c[0] % 16,
        base_offset_size: c[1] / 16,
        index_size: c[1] % 16,
    }
}

/// The outcome of decoding the `iloc` box `b` of `buf`, where `buf` starts `base_in_buf`
/// bytes after the start of the `meta` box.
#[verifier::opaque]
pub open spec fn item_location_box(buf: Seq<u8>, b: RawBox, base_in_buf: int) -> Result<
    ItemLocationBoxView,
    ExifError,
> {
    match read_data(buf, b.data_ptr) {
        Err(e) => Err(e),
        Ok(d) => match version_and_flags(d) {
            Err(e) => Err(e),
            Ok((version, flags)) => {
                let c = d.subrange(4, d.len() as int);
                let base = base_in_buf + b.data_ptr.offset + 4;
                let done = |r: Result<Seq<ItemLocationEntryView>, ExifError>|
                    match r {
                        Err(e) => Err(e),
                        Ok(entries) => Ok(
                            ItemLocationBoxView {
                                version,
                                flags,
                                entries,
                                full_ptr: b.full_ptr,
                                data_ptr: b.data_ptr,
                            },
                        ),
                    };
                if c.len() < 2 {
                    Err(ExifError::UnexpectedEof)
                } else if version == 1 {
                    if c.len() < 4 {
                        Err(ExifError::UnexpectedEof)
                    } else {
                        done(item_location_entries(c, 4, be16(c, 2), version, field_sizes(c), base, Seq::empty()))
                    }
                } else if version == 2 {
                    if c.len() < 6 {
                        Err(ExifError::UnexpectedEof)
                    } else {
                        done(item_location_entries(c, 6, be32(c, 2), version, field_sizes(c), base, Seq::empty()))
                    }
                } else {
                    Err(ExifError::InvalidItemLocationVersion(version))
                }
            },
        },
    }
}

impl ItemLocationBox {
    /// Decodes the `iloc` box `b` of `buf`, where `buf` starts `base_in_buf` bytes after
    /// the start of the `meta` box.
    pub fn from_raw_box(b: &RawBox, buf: &[u8], base_in_buf: u64) -> (r: Result<ItemLocationBox, ExifError>)
        requires
            base_in_buf + buf@.len() <= u64::MAX,
        ensures
            view_result(r) == item_location_box(buf@, *b, base_in_buf as int),
            r matches Ok(bx) ==> entries_within(bx@.entries, base_in_buf + data_end(*b)),
            r is Ok ==> data_end(*b) <= buf@.len(),
    {
        reveal(item_location_box);
        let _len = buf.len();
        let data = match b.data_ptr.read_data(buf) {
            Ok(d) => d,
            Err(e) => {
                return Err(e);
            },
        };
        let (version, flags) = match get_version_and_flags(data.as_slice()) {
            Ok(vf) => vf,
            Err(e) => {
                return Err(e);
            },
        };
        let c = &data.as_slice()[4..data.len()];
        let base = base_in_buf + b.data_ptr.offset + 4;
        if c.len() < 2 {
            return Err(ExifError::UnexpectedEof);
        }
        let sizes = FieldSizes {
            offset_size: c[0] / 16,
            length_size: c[0] % 16,
            base_offset_size: c[1] / 16,
            index_size: c[1] % 16,
        };
        let (count, start): (u64, u64) = if version == 1 {
            if c.len() < 4 {
                return Err(ExifError::UnexpectedEof);
            }
            (read_u16_be(c, 2) as u64, 4)
        } else if version == 2 {
            if c.len() < 6 {
                return Err(ExifError::UnexpectedEof);
            }
            (read_u32_be(c, 2) as u64, 6)
        } else {
            return Err(ExifError::InvalidItemLocationVersion(version));
        };
        let entries = match read_item_location_entries(c, start, count, version, sizes, base) {
            Ok(es) => es,
            Err(e) => {
                return Err(e);
            },
        };
        Ok(ItemLocationBox { version, flags, entries, full_ptr: b.full_ptr, data_ptr: b.data_ptr })
    }
}

fn read_item_location_entries(c: &[u8], pos: u64, n: u64, version: u8, sizes: FieldSizes, base: u64) -> (r:
    Result<Vec<ItemLocationEntry>, ExifError>)
    requires
        pos <= c@.len(),
        base + c@.len() <= u64::MAX,
    ensures
        match r {
            Ok(es) => item_location_entries(c@, pos as int, n as int, version, sizes, base as int, Seq::empty())
                == Ok::<Seq<ItemLocationEntryView>, ExifError>(es@.map_values(|e: ItemLocationEntry| e@))
                && entries_within(es@.map_values(|e: ItemLocationEntry| e@), base + c@.len()),
            Err(e) => item_location_entries(c@, pos as int, n as int, version, sizes, base as int, Seq::empty())
                == Err::<Seq<ItemLocationEntryView>, ExifError>(e),
        },
{
    let mut entries: Vec<ItemLocationEntry> = Vec::new();
    let mut p: u64 = pos;
    let mut k: u64 = 0;
    assert(entries@.map_values(|e: ItemLocationEntry| e@) =~= Seq::<ItemLocationEntryView>::empty());
    while k < n
        invariant
            k <= n,
            p <= c@.len(),
            base + c@.len() <= u64::MAX,
            item_location_entries(c@, p as int, (n - k) as int, version, sizes, base as int, entries@.map_values(|e: ItemLocationEntry| e@))
                == item_location_entries(c@, pos as int, n as int, version, sizes, base as int, Seq::empty()),
            entries_within(entries@.map_values(|e: ItemLocationEntry| e@), base + c@.len()),
        decreases n - k,
    {
        let (entry, q) = match ItemLocationEntry::from_cursor(c, p, version, sizes, base) {
            Ok(r) => r,
            Err(e) => {
                return Err(e);
            },
        };
        let ghost old_view = entries@.map_values(|e: ItemLocationEntry| e@);
        let ghost ev = entry@;
        match find_entry_index(&entries, entry.item_id) {
            Some(j) => {
                entries.set(j, entry);
                assert(entries@.map_values(|e: ItemLocationEntry| e@) =~= old_view.update(j as int, ev));
            },
            None => {
                entries.push(entry);
                assert(entries@.map_values(|e: ItemLocationEntry| e@) =~= old_view.push(ev));
            },
        }
        assert(entries_within(entries@.map_values(|e: ItemLocationEntry| e@), base + c@.len())) by {
            let nv = entries@.map_values(|e: ItemLocationEntry| e@);
            assert forall|i: int| 0 <= i < nv.len() implies extents_within(#[trigger] nv[i].extents, base + c@.len()) by {
                if i < old_view.len() && nv[i] != ev {
                    assert(nv[i] == old_view[i]);
                }
            }
        }
        p = q;
        k = k + 1;
    }
    Ok(entries)
}

/// The type `ftyp`.
pub const FTYP: u32 = 0x6674_7970;

/// The type `meta`.
pub const META: u32 = 0x6d65_7461;

/// The type `free`.
pub const FREE: u32 = 0x6672_6565;

/// The type `mdat`.
pub const MDAT: u32 = 0x6d64_6174;

/// The type `iinf`.
pub const IINF: u32 = 0x6969_6e66;

/// The type `iloc`.
pub const ILOC: u32 = 0x696c_6f63;

/// How many bytes of `buf` are left from `pos`.
pub open spec fn remaining(len: int, pos: int) -> nat {
    if pos < len {
        (len - pos) as nat
    } else {
        0
    }
}

/// The index of the first box of `bs` from the `i`-th on whose type is `t`, or -1.
pub open spec fn find_box_from(bs: Seq<RawBox>, t: u32, i: int) -> int
    decreases bs.len() - i,
{
    if i < 0 || i >= bs.len() {
        -1
    } else if bs[i].box_type == t {
        i
    } else {
        find_box_from(bs, t, i + 1)
    }
}

/// The boxes `bs` with `b` put in: it replaces the box of the same type, if there is
/// one (the boxes form a map from types to boxes).
pub open spec fn insert_box(bs: Seq<RawBox>, b: RawBox) -> Seq<RawBox> {
    let j = find_box_from(bs, b.box_type, 0);
    if j >= 0 {
        bs.update(j, b)
    } else {
        bs.push(b)
    }
}

/// The box `b` moved by `offset` bytes.
pub open spec fn shifted(b: RawBox, offset: int) -> RawBox {
    RawBox {
        box_type: b.box_type,
        full_ptr: Ptr { offset: (b.full_ptr.offset + offset) as u64, length: b.full_ptr.length },
        data_ptr: Ptr { offset: (b.data_ptr.offset + offset) as u64, length: b.data_ptr.length },
    }
}

/// What the children of a `meta` box hold: every child box by type, and the decoded
/// `iinf` and `iloc` boxes.
pub struct MetaChildren {
    pub boxes: Seq<RawBox>,
    pub iinf: Option<ItemInfoBoxView>,
    pub iloc: Option<ItemLocationBoxView>,
}

/// The outcome of decoding the child box `b` of `c` (see [`meta_children`]), after the
/// `iinf` and `iloc` boxes found so far: those boxes, and the position after `b`.
pub open spec fn meta_child(
    c: Seq<u8>,
    b: RawBox,
    base_in_meta: int,
    iinf: Option<ItemInfoBoxView>,
    iloc: Option<ItemLocationBoxView>,
) -> Option<Result<(Option<ItemInfoBoxView>, Option<ItemLocationBoxView>, int), ExifError>> {
    if b.box_type == IINF {
        match item_info_box(c, b) {
            None => None,
            Some(Err(e)) => Some(Err(e)),
            Some(Ok(ii)) => Some(Ok((Some(ii), iloc, data_end(b)))),
        }
    } else if b.box_type == ILOC {
        match item_location_box(c, b, base_in_meta) {
            Err(e) => Some(Err(e)),
            Ok(il) => Some(Ok((iinf, Some(il), data_end(b)))),
        }
    } else {
        match box_end(b) {
            None => None,
            Some(p) => Some(Ok((iinf, iloc, p as int))),
        }
    }
}

/// The outcome of decoding the children of a `meta` box from `pos` in `c` (the `meta`
/// data after its version and flags, which starts `base_in_meta` bytes after the start of
/// the `meta` box and `offset` bytes after the start of the file), after `acc`.
pub open spec fn meta_children(c: Seq<u8>, pos: int, base_in_meta: int, offset: int, acc: MetaChildren) -> Option<
    Result<MetaChildren, ExifError>,
>
    decreases remaining(c.len() as int, pos),
{
    if c.len() > u64::MAX {
        None
    } else {
        match raw_box_at(c, pos) {
            None => None,
            Some(Err(e)) => Some(Err(e)),
            Some(Ok(None)) => Some(Ok(acc)),
            Some(Ok(Some(b))) => {
                proof {
                    lemma_raw_box_at_in(c, pos);
                }
                match meta_child(c, b, base_in_meta, acc.iinf, acc.iloc) {
                    None => None,
                    Some(Err(e)) => Some(Err(e)),
                    Some(Ok((iinf, iloc, p))) => meta_children(
                        c,
                        p,
                        base_in_meta,
                        offset,
                        MetaChildren { boxes: insert_box(acc.boxes, shifted(b, offset)), iinf, iloc },
                    ),
                }
            },
        }
    }
}

fn read_meta_child(
    c: &[u8],
    b: &RawBox,
    base_in_meta: u64,
    iinf: Option<ItemInfoBox>,
    iloc: Option<ItemLocationBox>,
    meta_len: Ghost<int>,
) -> (r: Option<Result<(Option<ItemInfoBox>, Option<ItemLocationBox>, u64), ExifError>>)
    requires
        raw_box_in(c@, b.full_ptr.offset as int, *b),
        base_in_meta + c@.len() == meta_len@,
        meta_len@ <= u64::MAX,
        iloc matches Some(il) ==> entries_within(il@.entries, meta_len@),
    ensures
        match r {
            None => meta_child(c@, *b, base_in_meta as int, iinf_view(iinf), iloc_view(iloc)) is None,
            Some(Err(e)) => meta_child(c@, *b, base_in_meta as int, iinf_view(iinf), iloc_view(iloc))
                == Some(Err::<(Option<ItemInfoBoxView>, Option<ItemLocationBoxView>, int), ExifError>(e)),
            Some(Ok((ii, il, p))) => meta_child(c@, *b, base_in_meta as int, iinf_view(iinf), iloc_view(iloc))
                == Some(Ok::<(Option<ItemInfoBoxView>, Option<ItemLocationBoxView>, int), ExifError>(
                (iinf_view(ii), iloc_view(il), p as int),
            )) && (il matches Some(x) ==> entries_within(x@.entries, meta_len@)),
        },
{
    if b.box_type == IINF {
        match ItemInfoBox::from_raw_box(b, c) {
            None => None,
            Some(Err(e)) => Some(Err(e)),
            Some(Ok(ii)) => Some(Ok((Some(ii), iloc, b.data_ptr.offset + b.data_ptr.length as u64))),
        }
    } else if b.box_type == ILOC {
        match ItemLocationBox::from_raw_box(b, c, base_in_meta) {
            Err(e) => Some(Err(e)),
            Ok(il) => Some(Ok((iinf, Some(il), b.data_ptr.offset + b.data_ptr.length as u64))),
        }
    } else {
        match b.advance() {
            None => None,
            Some(p) => Some(Ok((iinf, iloc, p))),
        }
    }
}

/// The `meta` box: the item information and locations.
pub struct MetaBox {
    pub version: u8,
    pub flags: u32,
    /// One child box per type, in the order the types first appear, placed in the file.
    pub boxes: Vec<RawBox>,
    pub iinf_box: Option<ItemInfoBox>,
    pub iloc_box: Option<ItemLocationBox>,
    pub full_ptr: Ptr,
    pub data_ptr: Ptr,
}

/// The content of a `meta` box.
pub struct MetaBoxView {
    pub version: u8,
    pub flags: u32,
    pub boxes: Seq<RawBox>,
    pub iinf: Option<ItemInfoBoxView>,
    pub iloc: Option<ItemLocationBoxView>,
    pub full_ptr: Ptr,
    pub data_ptr: Ptr,
}

/// The view of an optional `iinf` box.
pub open spec fn iinf_view(b: Option<ItemInfoBox>) -> Option<ItemInfoBoxView> {
    match b {
        Some(x) => Some(x@),
        None => None,
    }
}

/// The view of an optional `iloc` box.
pub open spec fn iloc_view(b: Option<ItemLocationBox>) -> Option<ItemLocationBoxView> {
    match b {
        Some(x) => Some(x@),
        None => None,
    }
}

impl View for MetaBox {
    type V = MetaBoxView;

    open spec fn view(&self) -> MetaBoxView {
        MetaBoxView {
            version: self.version,
            flags: self.flags,
            boxes: self.boxes@,
            iinf: iinf_view(self.iinf_box),
            iloc: iloc_view(self.iloc_box),
            full_ptr: self.full_ptr,
            data_ptr: self.data_ptr,
        }
    }
}

/// The outcome of decoding the `meta` box `b` of `buf`.
#[verifier::opaque]
pub open spec fn meta_box(buf: Seq<u8>, b: RawBox) -> Option<Result<MetaBoxView, ExifError>> {
    match read_data(buf, b.data_ptr) {
        Err(e) => Some(Err(e)),
        Ok(d) => match version_and_flags(d) {
            Err(e) => Some(Err(e)),
            Ok((version, flags)) => match meta_children(
                d.subrange(4, d.len() as int),
                0,
                b.data_ptr.offset - b.full_ptr.offset + 4,
                b.data_ptr.offset + 4,
                MetaChildren { boxes: Seq::empty(), iinf: None, iloc: None },
            ) {
                None => None,
                Some(Err(e)) => Some(Err(e)),
                Some(Ok(ch)) => Some(
                    Ok(
                        MetaBoxView {
                            version,
                            flags,
                            boxes: ch.boxes,
                            iinf: ch.iinf,
                            iloc: ch.iloc,
                            full_ptr: b.full_ptr,
                            data_ptr: b.data_ptr,
                        },
                    ),
                ),
            },
        },
    }
}

/// Every field of the `iloc` box of `m` lies within the `meta` box.
pub open spec fn iloc_within_meta(m: MetaBoxView) -> bool {
    m.iloc matches Some(il) ==> entries_within(il.entries, m.full_ptr.length as int)
}

/// Puts `b` into the boxes `boxes`, replacing the box of the same type.
fn insert_raw_box(boxes: &mut Vec<RawBox>, b: RawBox)
    ensures
        final(boxes)@ == insert_box(old(boxes)@, b),
{
    let ghost bs = boxes@;
    let mut i: usize = 0;
    let mut found = false;
    while i < boxes.len()
        invariant
            i <= boxes@.len(),
            boxes@ == bs,
            find_box_from(bs, b.box_type, i as int) == find_box_from(bs, b.box_type, 0),
            found ==> i < boxes@.len() && bs[i as int].box_type == b.box_type,
        ensures
            i <= boxes@.len(),
            boxes@ == bs,
            find_box_from(bs, b.box_type, i as int) == find_box_from(bs, b.box_type, 0),
            found ==> i < boxes@.len() && bs[i as int].box_type == b.box_type,
            !found ==> i == boxes@.len(),
        decreases boxes@.len() - i + (if found { 0int } else { 1int }),
    {
        if boxes[i].box_type == b.box_type {
            found = true;
            break;
        }
        i = i + 1;
    }
    if found {
        assert(find_box_from(bs, b.box_type, i as int) == i as int);
        boxes.set(i, b);
        assert(boxes@ == bs.update(i as int, b));
        assert(insert_box(bs, b) == bs.update(i as int, b));
    } else {
        assert(find_box_from(bs, b.box_type, i as int) == -1);
        boxes.push(b);
        assert(boxes@ == insert_box(bs, b));
    }
}

fn read_meta_children(c: &[u8], base_in_meta: u64, offset: u64, meta_len: Ghost<int>) -> (r: Option<
    Result<(Vec<RawBox>, Option<ItemInfoBox>, Option<ItemLocationBox>), ExifError>,
>)
    requires
        base_in_meta + c@.len() == meta_len@,
        meta_len@ <= u64::MAX,
        offset + c@.len() <= u64::MAX,
    ensures
        match r {
            None => meta_children(c@, 0, base_in_meta as int, offset as int, MetaChildren { boxes: Seq::empty(), iinf: None, iloc: None }) is None,
            Some(Err(e)) => meta_children(c@, 0, base_in_meta as int, offset as int, MetaChildren { boxes: Seq::empty(), iinf: None, iloc: None })
                == Some(Err::<MetaChildren, ExifError>(e)),
            Some(Ok((bs, ii, il))) => meta_children(c@, 0, base_in_meta as int, offset as int, MetaChildren { boxes: Seq::empty(), iinf: None, iloc: None })
                == Some(Ok::<MetaChildren, ExifError>(MetaChildren { boxes: bs@, iinf: iinf_view(ii), iloc: iloc_view(il) }))
                && (il matches Some(x) ==> entries_within(x@.entries, meta_len@)),
        },
{
    let _len = c.len();
    let mut boxes: Vec<RawBox> = Vec::new();
    let mut iinf_box: Option<ItemInfoBox> = None;
    let mut iloc_box: Option<ItemLocationBox> = None;
    let mut pos: u64 = 0;
    let ghost target = meta_children(
        c@,
        0,
        base_in_meta as int,
        offset as int,
        MetaChildren { boxes: Seq::empty(), iinf: None, iloc: None },
    );
    assert(boxes@ =~= Seq::<RawBox>::empty());
    loop
        invariant
            target == meta_children(
                c@,
                0,
                base_in_meta as int,
                offset as int,
                MetaChildren { boxes: Seq::empty(), iinf: None, iloc: None },
            ),
            base_in_meta + c@.len() == meta_len@,
            meta_len@ <= u64::MAX,
            offset + c@.len() <= u64::MAX,
            meta_children(
                c@,
                pos as int,
                base_in_meta as int,
                offset as int,
                MetaChildren { boxes: boxes@, iinf: iinf_view(iinf_box), iloc: iloc_view(iloc_box) },
            ) == target,
            iloc_box matches Some(il) ==> entries_within(il@.entries, meta_len@),
        decreases remaining(c@.len() as int, pos as int),
    {
        let cb = match RawBox::from_bytes(c, pos) {
            None => {
                return None;
            },
            Some(Err(e)) => {
                return Some(Err(e));
            },
            Some(Ok(None)) => {
                return Some(Ok((boxes, iinf_box, iloc_box)));
            },
            Some(Ok(Some(cb))) => cb,
        };
        let moved = RawBox {
            box_type: cb.box_type,
            full_ptr: Ptr { offset: cb.full_ptr.offset + offset, length: cb.full_ptr.length },
            data_ptr: Ptr { offset: cb.data_ptr.offset + offset, length: cb.data_ptr.length },
        };
        assert(moved == shifted(cb, offset as int));
        match read_meta_child(c, &cb, base_in_meta, iinf_box, iloc_box, meta_len) {
            None => {
                return None;
            },
            Some(Err(e)) => {
                return Some(Err(e));
            },
            Some(Ok((ii, il, p))) => {
                iinf_box = ii;
                iloc_box = il;
                pos = p;
            },
        }
        insert_raw_box(&mut boxes, moved);
    }
}

impl MetaBox {
    /// Decodes the `meta` box `b` of `buf`; `None` where a child box aborts the reader.
    pub fn from_raw_box(b: &RawBox, buf: &[u8]) -> (r: Option<Result<MetaBox, ExifError>>)
        requires
            raw_box_in(buf@, b.full_ptr.offset as int, *b),
        ensures
            view_outcome(r) == meta_box(buf@, *b),
            r matches Some(Ok(m)) ==> iloc_within_meta(m@) && m.full_ptr == b.full_ptr,
            r matches Some(Ok(_)) ==> data_end(*b) <= buf@.len(),
    {
        reveal(meta_box);
        let _len = buf.len();
        let data = match b.data_ptr.read_data(buf) {
            Ok(d) => d,
            Err(e) => {
                return Some(Err(e));
            },
        };
        let (version, flags) = match get_version_and_flags(data.as_slice()) {
            Ok(vf) => vf,
            Err(e) => {
                return Some(Err(e));
            },
        };
        let c = &data.as_slice()[4..data.len()];
        let offset = b.data_ptr.offset + 4;
        let base_in_meta = b.data_ptr.offset - b.full_ptr.offset + 4;
        match read_meta_children(c, base_in_meta, offset, Ghost(b.full_ptr.length as int)) {
            None => None,
            Some(Err(e)) => Some(Err(e)),
            Some(Ok((boxes, iinf_box, iloc_box))) => Some(
                Ok(
                    MetaBox {
                        version,
                        flags,
                        boxes,
                        iinf_box,
                        iloc_box,
                        full_ptr: b.full_ptr,
                        data_ptr: b.data_ptr,
                    },
                ),
            ),
        }
    }
}

/// The index of the first entry of `es` from the `i`-th on whose type is `t`, or -1.
pub open spec fn find_info_from(es: Seq<ItemInfoEntryView>, t: Seq<char>, i: int) -> int
    decreases es.len() - i,
{
    if i < 0 || i >= es.len() {
        -1
    } else if es[i].item_type == t {
        i
    } else {
        find_info_from(es, t, i + 1)
    }
}

/// The item of the first entry of the `iinf` box of `m` whose type is `t`.
pub open spec fn item_id_of(m: MetaBoxView, t: Seq<char>) -> Option<u32> {
    match m.iinf {
        None => None,
        Some(ii) => {
            let j = find_info_from(ii.entries, t, 0);
            if j >= 0 {
                Some(ii.entries[j].item_id)
            } else {
                None
            }
        },
    }
}

/// The `iloc` entry of the item `id` in `m`.
pub open spec fn location_of(m: MetaBoxView, id: u32) -> Option<ItemLocationEntryView> {
    match m.iloc {
        None => None,
        Some(il) => {
            let j = find_entry(il.entries, id);
            if j >= 0 {
                Some(il.entries[j])
            } else {
                None
            }
        },
    }
}

/// The `iloc` entry of the first item of type `t` in `m`.
pub open spec fn item_entry(m: MetaBoxView, t: Seq<char>) -> Option<ItemLocationEntryView> {
    match item_id_of(m, t) {
        None => None,
        Some(id) => location_of(m, id),
    }
}

/// Where the extent `x` of an item with base offset `base_offset` lies in the file.
pub open spec fn extent_ptr(base_offset: u64, x: ItemLocationExtent) -> Ptr {
    Ptr {
        offset: (base_offset + ev_value(x.extent_offset)) as u64,
        length: ev_value(x.extent_length) as usize,
    }
}

/// The extents of the first item of type `t` in `m`, each with where it lies.
pub open spec fn item_extents(m: MetaBoxView, t: Seq<char>) -> Option<Seq<(Ptr, ItemLocationExtent)>> {
    match item_entry(m, t) {
        None => None,
        Some(e) => Some(e.extents.map_values(|x: ItemLocationExtent| (extent_ptr(e.base_offset, x), x))),
    }
}

/// The offsets of the extents of the first item of type `t` in `m` fit in 64 bits once
/// the base offset is added.
pub open spec fn item_extents_fit(m: MetaBoxView, t: Seq<char>) -> bool {
    item_entry(m, t) matches Some(e) ==> forall|k: int|
        0 <= k < e.extents.len() ==> e.base_offset + ev_value(#[trigger] e.extents[k].extent_offset)
            <= u64::MAX
}

impl MetaBox {
    /// The item of the first entry of the `iinf` box whose type is `item_type`.
    pub fn get_item_id(&self, item_type: &str) -> (r: Option<u32>)
        ensures
            r == item_id_of(self@, item_type@),
    {
        let ii = match &self.iinf_box {
            None => {
                return None;
            },
            Some(ii) => ii,
        };
        let wanted = item_type.to_owned();
        let ghost es = ii@.entries;
        let mut i: usize = 0;
        while i < ii.entries.len()
            invariant
                i <= ii.entries@.len(),
                es == ii@.entries,
                es.len() == ii.entries@.len(),
                wanted@ == item_type@,
                self@.iinf == Some(ii@),
                find_info_from(es, item_type@, i as int) == find_info_from(es, item_type@, 0),
            decreases ii.entries@.len() - i,
        {
            assert(es[i as int] == ii.entries@[i as int]@);
            if ii.entries[i].item_type == wanted {
                assert(es[i as int].item_type == item_type@);
                assert(find_info_from(es, item_type@, i as int) == i as int);
                assert(self@.iinf == Some(ii@));
                return Some(ii.entries[i].item_id);
            }
            i = i + 1;
        }
        None
    }

    pub fn location_entry(&self, id: u32) -> (r: Option<&ItemLocationEntry>)
        ensures
            match r {
                Some(e) => location_of(self@, id) == Some(e@),
                None => location_of(self@, id) is None,
            },
    {
        match &self.iloc_box {
            None => None,
            Some(il) => match find_entry_index(&il.entries, id) {
                None => None,
                Some(j) => Some(&il.entries[j]),
            },
        }
    }

    /// The extents of the first item of type `item_type`, each with where it lies in the
    /// file.
    pub fn get_item(&self, item_type: &str) -> (r: Option<Vec<(Ptr, ItemLocationExtent)>>)
        requires
            item_extents_fit(self@, item_type@),
        ensures
            match r {
                Some(v) => item_extents(self@, item_type@) == Some(v@),
                None => item_extents(self@, item_type@) is None,
            },
    {
        let id = match self.get_item_id(item_type) {
            None => {
                return None;
            },
            Some(id) => id,
        };
        let entry = match self.location_entry(id) {
            None => {
                return None;
            },
            Some(e) => e,
        };
        let ghost target = entry@.extents.map_values(
            |x: ItemLocationExtent| (extent_ptr(entry.base_offset, x), x),
        );
        let mut out: Vec<(Ptr, ItemLocationExtent)> = Vec::new();
        let mut i: usize = 0;
        while i < entry.extents.len()
            invariant
                i <= entry.extents@.len(),
                item_entry(self@, item_type@) == Some(entry@),
                item_extents_fit(self@, item_type@),
                target == entry@.extents.map_values(
                    |x: ItemLocationExtent| (extent_ptr(entry.base_offset, x), x),
                ),
                out@ == target.subrange(0, i as int),
            decreases entry.extents@.len() - i,
        {
            let x = entry.extents[i];
            let ptr = Ptr {
                offset: entry.base_offset + x.extent_offset.value(),
                length: x.extent_length.value() as usize,
            };
            out.push((ptr, x));
            i = i + 1;
            assert(out@ =~= target.subrange(0, i as int));
        }
        assert(target.subrange(0, i as int) =~= target);
        Some(out)
    }

    /// Where the extents of the first item of type `item_type` lie in the file.
    pub fn get_item_ptr(&self, item_type: &str) -> (r: Option<Vec<Ptr>>)
        requires
            item_extents_fit(self@, item_type@),
        ensures
            match r {
                Some(v) => item_extents(self@, item_type@) matches Some(xs) && v@ == xs.map_values(
                    |p: (Ptr, ItemLocationExtent)| p.0,
                ),
                None => item_extents(self@, item_type@) is None,
            },
    {
        let items = match self.get_item(item_type) {
            None => {
                return None;
            },
            Some(items) => items,
        };
        let ghost xs = items@;
        let mut ptrs: Vec<Ptr> = Vec::new();
        let mut i: usize = 0;
        while i < items.len()
            invariant
                i <= items@.len(),
                xs == items@,
                ptrs@ == xs.subrange(0, i as int).map_values(|p: (Ptr, ItemLocationExtent)| p.0),
            decreases items@.len() - i,
        {
            ptrs.push(items[i].0);
            i = i + 1;
            assert(ptrs@ =~= xs.subrange(0, i as int).map_values(|p: (Ptr, ItemLocationExtent)| p.0));
        }
        assert(xs.subrange(0, i as int) =~= xs);
        Some(ptrs)
    }
}

impl MetaBox {
    /// Whether the offsets of the extents of the first item of type `item_type` fit in
    /// 64 bits once the base offset is added.
    pub fn extents_fit(&self, item_type: &str) -> (r: bool)
        ensures
            r == item_extents_fit(self@, item_type@),
    {
        let id = match self.get_item_id(item_type) {
            None => {
                return true;
            },
            Some(id) => id,
        };
        let entry = match self.location_entry(id) {
            None => {
                return true;
            },
            Some(e) => e,
        };
        let mut i: usize = 0;
        while i < entry.extents.len()
            invariant
                i <= entry.extents@.len(),
                item_entry(self@, item_type@) == Some(entry@),
                forall|k: int|
                    0 <= k < i ==> entry.base_offset + ev_value(#[trigger] entry.extents@[k].extent_offset)
                        <= u64::MAX,
            decreases entry.extents@.len() - i,
        {
            if entry.extents[i].extent_offset.value() > u64::MAX - entry.base_offset {
                return false;
            }
            i = i + 1;
        }
        true
    }
}

} // verus!
