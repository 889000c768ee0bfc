//! HEIC images: the ISO base media file format boxes that locate the EXIF item, and the
//! copy of an image with another EXIF payload.

pub mod add_exif;
pub mod added_item;
pub mod boxes;
pub mod copy_with_exif;
pub mod reparse;
pub mod rewrite;
pub mod roundtrip;

use vstd::prelude::*;

use crate::bytes::be32;
use crate::error::ExifError;
use crate::heic::boxes::{
    box_end, data_end, file_type_box, iloc_within_meta, item_extents, item_extents_fit, item_id_of,
    lemma_file_type_box_brands, lemma_raw_box_at_in, meta_box, raw_box_at, read_data, remaining, FileTypeBox, FileTypeBoxView,
    ItemLocationExtent, MetaBox, MetaBoxView, Ptr, RawBox, FREE, FTYP, MDAT, META,
};
use crate::heic::add_exif::{add_meta, add_meta_bytes};
use crate::heic::copy_with_exif::{
    all_ptrs_fit, mdat_box, plan_from, plan_media, sorted_extents, sorted_ptrs, sources_total,
    sources_view, write_mdat, ItemLocationPtr, Source, SourceView,
};
use crate::jpeg::{bytes_result, payload_result};
use crate::text::utf8_lossy;
use crate::{CopyWithRawExif, ExtractRawExif};

verus! {

/// The top-level boxes found so far while decoding a file.
pub struct TopBoxes {
    pub ftyp: Option<FileTypeBoxView>,
    pub meta: Option<MetaBoxView>,
    pub free: Option<RawBox>,
    pub media: Option<RawBox>,
}

/// The outcome of decoding the top-level box `b` of `file`, after the boxes `acc`: the
/// boxes and the position after `b`.
pub open spec fn top_box(file: Seq<u8>, b: RawBox, acc: TopBoxes) -> Option<Result<(TopBoxes, int), ExifError>> {
    if b.box_type == FTYP {
        match file_type_box(file, b) {
            Err(e) => Some(Err(e)),
            Ok(f) => Some(Ok((TopBoxes { ftyp: Some(f), ..acc }, data_end(b)))),
        }
    } else if b.box_type == META {
        match meta_box(file, b) {
            None => None,
            Some(Err(e)) => Some(Err(e)),
            Some(Ok(m)) => Some(Ok((TopBoxes { meta: Some(m), ..acc }, data_end(b)))),
        }
    } else if b.box_type == FREE {
        match box_end(b) {
            None => None,
            Some(p) => Some(Ok((TopBoxes { free: Some(b), ..acc }, p as int))),
        }
    } else if b.box_type == MDAT {
        match box_end(b) {
            None => None,
            Some(p) => Some(Ok((TopBoxes { media: Some(b), ..acc }, p as int))),
        }
    } else {
        Some(Err(ExifError::UnknownBoxType(b.box_type)))
    }
}

/// The outcome of decoding the top-level boxes of `file` from `pos` on, after `acc`.
/// `None` where a box header or a position aborts the reader.
pub open spec fn top_boxes(file: Seq<u8>, pos: int, acc: TopBoxes) -> Option<Result<TopBoxes, ExifError>>
    decreases remaining(file.len() as int, pos),
{
    if file.len() > u64::MAX {
        None
    } else {
        match raw_box_at(file, pos) {
            None => None,
            Some(Err(e)) => Some(Err(e)),
            Some(Ok(None)) => Some(Ok(acc)),
            Some(Ok(Some(b))) => {
                proof {
                    lemma_raw_box_at_in(file, pos);
                }
                match top_box(file, b, acc) {
                    None => None,
                    Some(Err(e)) => Some(Err(e)),
                    Some(Ok((acc2, p))) => top_boxes(file, p, acc2),
                }
            },
        }
    }
}

/// The decoded boxes of a HEIC file.
pub struct FullBox {
    pub ftyp: FileTypeBox,
    pub meta: MetaBox,
    pub free: Option<RawBox>,
    pub media: RawBox,
}

/// The content of the boxes of a HEIC file.
pub struct FullBoxView {
    pub ftyp: FileTypeBoxView,
    pub meta: MetaBoxView,
    pub free: Option<RawBox>,
    pub media: RawBox,
}

impl View for FullBox {
    type V = FullBoxView;

    open spec fn view(&self) -> FullBoxView {
        FullBoxView { ftyp: self.ftyp@, meta: self.meta@, free: self.free, media: self.media }
    }
}

/// The outcome of decoding the HEIC file `file`: its `ftyp`, `meta`, `free` and `mdat`
/// boxes (the last of each type), of which all but `free` must be there.
pub open spec fn full_box(file: Seq<u8>) -> Option<Result<FullBoxView, ExifError>> {
    match top_boxes(file, 0, TopBoxes { ftyp: None, meta: None, free: None, media: None }) {
        None => None,
        Some(Err(e)) => Some(Err(e)),
        Some(Ok(t)) => match (t.ftyp, t.meta, t.media) {
            (Some(ftyp), Some(meta), Some(media)) => Some(
                Ok(FullBoxView { ftyp, meta, free: t.free, media }),
            ),
            _ => Some(Err(ExifError::MissingRequiredBoxes)),
        },
    }
}

/// The `ftyp` box `f` was read from the bytes of `file` at its data: its data lies within
/// the file and holds the major brand, the minor version and one compatible brand per
/// further 4-byte word.
pub open spec fn ftyp_read_from(file: Seq<u8>, f: FileTypeBoxView) -> bool {
    let o = f.data_ptr.offset as int;
    let n = f.data_ptr.length as int;
    &&& o + n <= file.len()
    &&& n >= 8
    &&& n % 4 == 0
    &&& f.major_brand == utf8_lossy(file.subrange(o, o + 4))
    &&& f.minor_version == be32(file.subrange(o + 4, o + 8), 0)
    &&& f.compatible_brands.len() * 4 + 8 == n
    &&& forall|k: int|
        0 <= k < f.compatible_brands.len() ==> #[trigger] f.compatible_brands[k] == utf8_lossy(
            file.subrange(o + 8 + 4 * k, o + 12 + 4 * k),
        )
}

/// Every `ftyp` box that decoding from `pos` on finds was read from the file's bytes.
proof fn lemma_top_boxes_ftyp(file: Seq<u8>, pos: int, acc: TopBoxes)
    requires
        acc.ftyp matches Some(f) ==> ftyp_read_from(file, f),
    ensures
        top_boxes(file, pos, acc) matches Some(Ok(t)) ==> (t.ftyp matches Some(f) ==> ftyp_read_from(file, f)),
    decreases remaining(file.len() as int, pos),
{
    if file.len() <= u64::MAX {
        lemma_raw_box_at_in(file, pos);
        match raw_box_at(file, pos) {
            Some(Ok(Some(b))) => {
                lemma_file_type_box_brands(file, b);
                match top_box(file, b, acc) {
                    Some(Ok((acc2, p))) => {
                        lemma_top_boxes_ftyp(file, p, acc2);
                    },
                    _ => {},
                }
            },
            _ => {},
        }
    }
}

/// The `ftyp` box of a decoded HEIC file is read from the file's bytes: one compatible
/// brand for each 4-byte word of its data after the first eight bytes, in order, each the
/// text of its word.
pub proof fn lemma_full_box_ftyp(file: Seq<u8>)
    ensures
        full_box(file) matches Some(Ok(fb)) ==> ftyp_read_from(file, fb.ftyp),
{
    lemma_top_boxes_ftyp(file, 0, TopBoxes { ftyp: None, meta: None, free: None, media: None });
}

impl FullBox {
    /// Decodes the boxes of the HEIC file `file`; `None` where a box header or a position
    /// aborts the reader.
    pub fn from_bytes(file: &[u8]) -> (r: Option<Result<FullBox, ExifError>>)
        ensures
            match r {
                None => full_box(file@) is None,
                Some(Err(e)) => full_box(file@) == Some(Err::<FullBoxView, ExifError>(e)),
                Some(Ok(fb)) => full_box(file@) == Some(Ok::<FullBoxView, ExifError>(fb@))
                    && iloc_within_meta(fb@.meta),
            },
    {
        let _len = file.len();
        let mut ftyp: Option<FileTypeBox> = None;
        let mut meta: Option<MetaBox> = None;
        let mut free: Option<RawBox> = None;
        let mut media: Option<RawBox> = None;
        let mut pos: u64 = 0;
        let ghost target = top_boxes(file@, 0, TopBoxes { ftyp: None, meta: None, free: None, media: None });
        loop
            invariant
                file@.len() <= u64::MAX,
                target == top_boxes(file@, 0, TopBoxes { ftyp: None, meta: None, free: None, media: None }),
                top_boxes(
                    file@,
                    pos as int,
                    TopBoxes {
                        ftyp: match ftyp { Some(f) => Some(f@), None => None },
                        meta: match meta { Some(m) => Some(m@), None => None },
                        free,
                        media,
                    },
                ) == target,
                meta matches Some(m) ==> iloc_within_meta(m@),
            decreases remaining(file@.len() as int, pos as int),
        {
            let b = match RawBox::from_bytes(file, pos) {
                None => {
                    return None;
                },
                Some(Err(e)) => {
                    return Some(Err(e));
                },
                Some(Ok(None)) => {
                    return match (ftyp, meta, media) {
                        (Some(ftyp), Some(meta), Some(media)) => Some(
                            Ok(FullBox { ftyp, meta, free, media }),
                        ),
                        _ => Some(Err(ExifError::MissingRequiredBoxes)),
                    };
                },
                Some(Ok(Some(b))) => b,
            };
            if b.box_type == FTYP {
                match FileTypeBox::from_raw_box(&b, file) {
                    Err(e) => {
                        return Some(Err(e));
                    },
                    Ok(f) => {
                        ftyp = Some(f);
                    },
                }
                pos = b.data_ptr.offset + b.data_ptr.length as u64;
            } else if b.box_type == META {
                match MetaBox::from_raw_box(&b, file) {
                    None => {
                        return None;
                    },
                    Some(Err(e)) => {
                        return Some(Err(e));
                    },
                    Some(Ok(m)) => {
                        meta = Some(m);
                    },
                }
                pos = b.data_ptr.offset + b.data_ptr.length as u64;
            } else if b.box_type == FREE {
                match b.advance() {
                    None => {
                        return None;
                    },
                    Some(p) => {
                        free = Some(b);
                        pos = p;
                    },
                }
            } else if b.box_type == MDAT {
                match b.advance() {
                    None => {
                        return None;
                    },
                    Some(p) => {
                        media = Some(b);
                        pos = p;
                    },
                }
            } else {
                return Some(Err(ExifError::UnknownBoxType(b.box_type)));
            }
        }
    }
}

/// The item type `Exif`.
pub open spec fn exif_type() -> Seq<char> {
    seq!['E', 'x', 'i', 'f']
}

/// The six bytes `Exif\0\0` that open the EXIF item.
pub open spec fn exif_header() -> Seq<u8> {
    seq![0x45u8, 0x78u8, 0x69u8, 0x66u8, 0u8, 0u8]
}

/// The largest EXIF payload that is read: 8 MiB.
pub const MAX_EXIF_LEN: usize = 0x80_0000;

/// The item of type `Exif` and its first extent, with where that extent lies.
pub open spec fn exif_location(m: MetaBoxView) -> Option<(u32, (Ptr, ItemLocationExtent))> {
    match (item_id_of(m, exif_type()), item_extents(m, exif_type())) {
        (Some(id), Some(xs)) => if xs.len() > 0 {
            Some((id, xs[0]))
        } else {
            None
        },
        _ => None,
    }
}

/// The outcome of reading the EXIF payload of the HEIC file `file` decoded into `fb`:
/// the bytes of the first extent of the `Exif` item after its four-byte offset field and
/// its `Exif\0\0` header, or no payload where the file has no `Exif` item with a
/// location; an item whose location has no extent is an error. `None` where the extent is too short for those headers or its place overflows
/// 64 bits (the reader aborts).
pub open spec fn heic_extract(file: Seq<u8>, fb: FullBoxView) -> Option<Result<Option<Seq<u8>>, ExifError>> {
    if !item_extents_fit(fb.meta, exif_type()) {
        None
    } else {
        match exif_location(fb.meta) {
            None => if item_extents(fb.meta, exif_type()) is Some {
                Some(Err(ExifError::ExtentNotFound))
            } else {
                Some(Ok(None))
            },
            Some((_, (p, _))) => {
                if p.length < 4 {
                    None
                } else if p.length - 4 > MAX_EXIF_LEN {
                    Some(Err(ExifError::ExifTooLarge((p.length - 4) as usize)))
                } else if p.offset + 4 > u64::MAX {
                    None
                } else {
                    match read_data(file, Ptr { offset: (p.offset + 4) as u64, length: (p.length - 4) as usize }) {
                        Err(e) => Some(Err(e)),
                        Ok(d) => {
                            if d.len() < 6 {
                                None
                            } else if d.subrange(0, 6) != exif_header() {
                                Some(Err(ExifError::InvalidExifHeader))
                            } else {
                                Some(Ok(Some(d.subrange(6, d.len() as int))))
                            }
                        },
                    }
                }
            },
        }
    }
}

/// A HEIC image held in memory, with its decoded boxes.
pub struct Heic {
    data: Vec<u8>,
    full_box: FullBox,
}

impl Heic {
    /// The bytes of the image.
    pub closed spec fn bytes(&self) -> Seq<u8> {
        self.data@
    }

    /// The decoded boxes of the image.
    pub closed spec fn boxes(&self) -> FullBoxView {
        self.full_box@
    }

    #[verifier::type_invariant]
    spec fn decoded(&self) -> bool {
        &&& full_box(self.data@) == Some(Ok::<FullBoxView, ExifError>(self.full_box@))
        &&& iloc_within_meta(self.full_box@.meta)
    }

    /// Decodes the boxes of the image `data`.
    pub fn from_bytes(data: Vec<u8>) -> (r: Result<Heic, ExifError>)
        requires
            full_box(data@) is Some,
        ensures
            match r {
                Ok(h) => h.bytes() == data@ && full_box(data@) == Some(
                    Ok::<FullBoxView, ExifError>(h.boxes()),
                ),
                Err(e) => full_box(data@) == Some(Err::<FullBoxView, ExifError>(e)),
            },
    {
        match FullBox::from_bytes(data.as_slice()) {
            Some(Ok(full_box)) => Ok(Heic { data, full_box }),
            Some(Err(e)) => Err(e),
            None => {
                proof {
                    assert(false);
                }
                Err(ExifError::MissingRequiredBoxes)
            },
        }
    }

    /// Whether [`Heic::from_bytes`] may be called on `data`.
    pub fn can_decode(data: &[u8]) -> (r: bool)
        ensures
            r == (full_box(data@) is Some),
    {
        FullBox::from_bytes(data).is_some()
    }

    /// The decoded boxes.
    pub fn full_box(&self) -> (r: &FullBox)
        ensures
            r@ == self.boxes(),
    {
        &self.full_box
    }

    /// The item of type `Exif` and its first extent, with where that extent lies.
    pub fn exif_ptr(&self) -> (r: Option<(u32, (Ptr, ItemLocationExtent))>)
        requires
            item_extents_fit(self.boxes().meta, exif_type()),
        ensures
            r == exif_location(self.boxes().meta),
    {
        let t = "Exif";
        proof {
            reveal_strlit("Exif");
        }
        assert(t@ == exif_type());
        let id = match self.full_box.meta.get_item_id(t) {
            None => {
                return None;
            },
            Some(id) => id,
        };
        let items = match self.full_box.meta.get_item(t) {
            None => {
                return None;
            },
            Some(items) => items,
        };
        if items.len() == 0 {
            return None;
        }
        Some((id, items[0]))
    }

    fn extract_walk(&self) -> (r: Option<Result<Option<Vec<u8>>, ExifError>>)
        ensures
            match r {
                None => heic_extract(self.bytes(), self.boxes()) is None,
                Some(res) => heic_extract(self.bytes(), self.boxes()) == Some(payload_result(res)),
            },
    {
        if !self.exif_extents_fit() {
            return None;
        }
        let (_, (p, _)) = match self.exif_ptr() {
            None => {
                let t = "Exif";
                proof {
                    reveal_strlit("Exif");
                }
                assert(t@ == exif_type());
                if self.full_box.meta.get_item(t).is_some() {
                    return Some(Err(ExifError::ExtentNotFound));
                }
                return Some(Ok(None));
            },
            Some(loc) => loc,
        };
        if p.length < 4 {
            return None;
        }
        if p.length - 4 > MAX_EXIF_LEN {
            return Some(Err(ExifError::ExifTooLarge(p.length - 4)));
        }
        if p.offset > u64::MAX - 4 {
            return None;
        }
        let body = Ptr { offset: p.offset + 4, length: p.length - 4 };
        let d = match body.read_data(self.data.as_slice()) {
            Err(e) => {
                return Some(Err(e));
            },
            Ok(d) => d,
        };
        if d.len() < 6 {
            return None;
        }
        let header: [u8; 6] = [0x45, 0x78, 0x69, 0x66, 0, 0];
        assert(header@ == exif_header());
        if !crate::bytes::bytes_at(d.as_slice(), 0, header.as_slice()) {
            return Some(Err(ExifError::InvalidExifHeader));
        }
        let mut out: Vec<u8> = Vec::new();
        crate::bytes::push_range(&mut out, d.as_slice(), 6, d.len());
        Some(Ok(Some(out)))
    }

    /// Whether the offsets of the extents of the `Exif` item fit in 64 bits.
    fn exif_extents_fit(&self) -> (r: bool)
        ensures
            r == item_extents_fit(self.boxes().meta, exif_type()),
    {
        let t = "Exif";
        proof {
            reveal_strlit("Exif");
        }
        assert(t@ == exif_type());
        self.full_box.meta.extents_fit(t)
    }

    /// Whether [`ExtractRawExif::extract`] may be called on this image.
    pub fn can_extract(&self) -> (r: bool)
        ensures
            r == (heic_extract(self.bytes(), self.boxes()) is Some),
    {
        self.extract_walk().is_some()
    }
}

impl ExtractRawExif for Heic {
    open spec fn extract_requires(&self) -> bool {
        heic_extract(self.bytes(), self.boxes()) is Some
    }

    /// The EXIF payload of the `Exif` item, without its `Exif\0\0` header.
    fn extract(&self) -> (r: Result<Option<Vec<u8>>, ExifError>)
        ensures
            heic_extract(self.bytes(), self.boxes()) == Some(payload_result(r)),
    {
        match self.extract_walk() {
            Some(r) => r,
            None => {
                proof {
                    assert(false);
                }
                Err(ExifError::ExifItemNotFound)
            },
        }
    }
}

/// The bytes the EXIF item holds for the payload `exif`: a four-byte offset to the TIFF
/// header (6), then `Exif\0\0`, then the payload.
pub open spec fn exif_item_bytes(exif: Seq<u8>) -> Seq<u8> {
    seq![0u8, 0u8, 0u8, 6u8] + exif_header() + exif
}

/// The media data of a copy that adds a new `Exif` item of bytes `item`: the media data of
/// the file, then the item.
pub open spec fn added_sources(media: RawBox, item: Seq<u8>) -> Seq<SourceView> {
    seq![SourceView::OriginFile(ItemLocationPtr { item_id: 0, ptr: media.data_ptr }), SourceView::Data(item)]
}

/// The outcome of copying the HEIC file `file` (decoded into `fb`) with the EXIF payload
/// `exif`: the `ftyp` box, the `meta` box with the `iloc` fields rewritten, the `free`
/// box, and a new `mdat` box planned by [`plan_from`]. Where the file has no `Exif` item,
/// one is added (see [`add_meta_bytes`]): the `meta` box takes its entries and the new
/// `mdat` box holds the file's media data followed by the item. `None` where a length or
/// offset overflows (the copy aborts).
pub open spec fn heic_copy(file: Seq<u8>, fb: FullBoxView, exif: Seq<u8>) -> Option<Result<Seq<u8>, ExifError>> {
    if exif.len() + 10 > usize::MAX {
        None
    } else {
        match item_id_of(fb.meta, exif_type()) {
            None => match add_meta_bytes(file, fb.meta, fb.media, exif_item_bytes(exif)) {
                Err(e) => Some(Err(e)),
                Ok(meta_buf) => heic_assemble(
                    file,
                    fb,
                    meta_buf,
                    added_sources(fb.media, exif_item_bytes(exif)),
                ),
            },
            Some(eid) => match read_data(file, fb.meta.full_ptr) {
                Err(e) => Some(Err(e)),
                Ok(meta_buf) => match fb.meta.iloc {
                    None => Some(Err(ExifError::ItemLocationBoxNotFound)),
                    Some(il) => {
                        if !all_ptrs_fit(il.entries) {
                            None
                        } else {
                            match plan_from(
                                sorted_ptrs(il.entries),
                                0,
                                eid,
                                exif_item_bytes(exif),
                                fb.meta,
                                meta_buf,
                                Seq::empty(),
                                0,
                            ) {
                                None => None,
                                Some(Err(e)) => Some(Err(e)),
                                Some(Ok((buf, sources))) => heic_assemble(file, fb, buf, sources),
                            }
                        }
                    },
                },
            },
        }
    }
}

/// The outcome of writing the boxes of the copy: `ftyp`, the rewritten `meta` bytes
/// `meta_buf`, `free`, and the `mdat` box made of `sources`.
pub open spec fn heic_assemble(file: Seq<u8>, fb: FullBoxView, meta_buf: Seq<u8>, sources: Seq<SourceView>) -> Option<
    Result<Seq<u8>, ExifError>,
> {
    match read_data(file, fb.ftyp.full_ptr) {
        Err(e) => Some(Err(e)),
        Ok(ftyp_bytes) => {
            let free = match fb.free {
                None => Ok(Seq::<u8>::empty()),
                Some(f) => read_data(file, f.full_ptr),
            };
            match free {
                Err(e) => Some(Err(e)),
                Ok(free_bytes) => {
                    if sources_total(sources) > usize::MAX || sources_total(sources) + 16 > u64::MAX {
                        None
                    } else {
                        match mdat_box(file, sources) {
                            Err(e) => Some(Err(e)),
                            Ok(mdat) => Some(Ok(ftyp_bytes + meta_buf + free_bytes + mdat)),
                        }
                    }
                },
            }
        },
    }
}

impl Heic {
    fn copy_walk(&self, exif: &[u8]) -> (r: Option<Result<Vec<u8>, ExifError>>)
        ensures
            match r {
                None => heic_copy(self.bytes(), self.boxes(), exif@) is None,
                Some(res) => heic_copy(self.bytes(), self.boxes(), exif@) == Some(bytes_result(res)),
            },
    {
        proof {
            use_type_invariant(self);
        }
        let n = exif.len();
        if n > usize::MAX - 10 {
            return None;
        }
        let mut item: Vec<u8> = Vec::new();
        item.push(0);
        item.push(0);
        item.push(0);
        item.push(6);
        let header: [u8; 6] = [0x45, 0x78, 0x69, 0x66, 0, 0];
        crate::bytes::push_slice(&mut item, header.as_slice());
        crate::bytes::push_slice(&mut item, exif);
        assert(item@ =~= exif_item_bytes(exif@));
        let t = "Exif";
        proof {
            reveal_strlit("Exif");
        }
        assert(t@ == exif_type());
        let data = self.data.as_slice();
        let eid = match self.full_box.meta.get_item_id(t) {
            None => {
                let meta_buf = match add_meta(data, &self.full_box.meta, &self.full_box.media, item.as_slice()) {
                    Err(e) => {
                        return Some(Err(e));
                    },
                    Ok(b) => b,
                };
                let mut sources: Vec<Source> = Vec::new();
                sources.push(
                    Source::OriginFile(ItemLocationPtr { item_id: 0, ptr: self.full_box.media.data_ptr }),
                );
                sources.push(Source::Data(item.as_slice()));
                assert(sources_view(sources@) =~= added_sources(self.boxes().media, item@));
                return self.assemble(&meta_buf, &sources);
            },
            Some(id) => id,
        };
        let mut meta_buf = match self.full_box.meta.full_ptr.read_data(data) {
            Err(e) => {
                return Some(Err(e));
            },
            Ok(b) => b,
        };
        let il = match &self.full_box.meta.iloc_box {
            None => {
                return Some(Err(ExifError::ItemLocationBoxNotFound));
            },
            Some(il) => il,
        };
        if !crate::heic::copy_with_exif::extents_fit(&il.entries) {
            return None;
        }
        let sorted = sorted_extents(&il.entries);
        let ghost meta0 = meta_buf@;
        let sources = match plan_media(&sorted, eid, item.as_slice(), &self.full_box.meta, &mut meta_buf) {
            None => {
                return None;
            },
            Some(Err(e)) => {
                return Some(Err(e));
            },
            Some(Ok(s)) => s,
        };
        self.assemble(&meta_buf, &sources)
    }

    fn assemble(&self, meta_buf: &Vec<u8>, sources: &Vec<Source>) -> (r: Option<Result<Vec<u8>, ExifError>>)
        ensures
            match r {
                None => heic_assemble(self.bytes(), self.boxes(), meta_buf@, sources_view(sources@)) is None,
                Some(res) => heic_assemble(self.bytes(), self.boxes(), meta_buf@, sources_view(sources@))
                    == Some(bytes_result(res)),
            },
    {
        let data = self.data.as_slice();
        let mut out = match self.full_box.ftyp.full_ptr.read_data(data) {
            Err(e) => {
                return Some(Err(e));
            },
            Ok(b) => b,
        };
        crate::bytes::push_slice(&mut out, meta_buf.as_slice());
        if let Some(f) = &self.full_box.free {
            match f.full_ptr.read_data(data) {
                Err(e) => {
                    return Some(Err(e));
                },
                Ok(b) => {
                    crate::bytes::push_slice(&mut out, b.as_slice());
                },
            }
        }
        let total_ok = crate::heic::copy_with_exif::sources_fit(sources);
        if !total_ok {
            return None;
        }
        match write_mdat(data, sources) {
            Err(e) => Some(Err(e)),
            Ok(m) => {
                crate::bytes::push_slice(&mut out, m.as_slice());
                Some(Ok(out))
            },
        }
    }

    /// Whether [`CopyWithRawExif::copy_with_raw_exif`] may be called with `exif`.
    pub fn can_copy_with(&self, exif: &[u8]) -> (r: bool)
        ensures
            r == (heic_copy(self.bytes(), self.boxes(), exif@) is Some),
    {
        self.copy_walk(exif).is_some()
    }
}

impl CopyWithRawExif for Heic {
    open spec fn copy_requires(&self, exif: Seq<u8>) -> bool {
        heic_copy(self.bytes(), self.boxes(), exif) is Some
    }

    /// The file with the EXIF item holding `exif` (after its offset field and `Exif\0\0`
    /// header) and the other items moved where the EXIF item grows; where the file has no
    /// EXIF item, with a new one at the end of the media data.
    fn copy_with_raw_exif(&self, exif: &[u8]) -> (r: Result<Vec<u8>, ExifError>)
        ensures
            heic_copy(self.bytes(), self.boxes(), exif@) == Some(bytes_result(r)),
    {
        match self.copy_walk(exif) {
            Some(r) => r,
            None => {
                proof {
                    assert(false);
                }
                Err(ExifError::ExifItemNotFound)
            },
        }
    }
}

} // verus!
