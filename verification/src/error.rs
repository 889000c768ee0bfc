//! The errors that decoding and rewriting an image can end with.

use vstd::prelude::*;

verus! {

/// Why an image could not be decoded, or its EXIF data read or replaced.
#[derive(Debug)]
pub enum ExifError {
    /// A read went past the end of the image data.
    UnexpectedEof,
    /// A JPEG marker that is not known (its 16-bit value).
    UnknownMarker(u16),
    /// The first JPEG marker before SOS is not SOI.
    InvalidSoi,
    /// The JPEG data ends before an SOS marker.
    PrematureEnd,
    /// An APP segment without a length field.
    InvalidAppPayload,
    /// The SOS marker carries a length field.
    InvalidSosPayload,
    /// No SOS marker among the decoded segments.
    SosNotFound,
    /// A box type that is not valid UTF-8.
    InvalidBoxType,
    /// A top-level HEIC box of an unexpected type (its four bytes, big-endian).
    UnknownBoxType(u32),
    /// The `ftyp`, `meta` or `mdat` box is missing.
    MissingRequiredBoxes,
    /// The `ftyp` box data is shorter than 8 bytes.
    FileTypeTooShort,
    /// The `ftyp` box data is not a multiple of 4 bytes long.
    FileTypeNotAligned,
    /// A full box is shorter than its version and flags.
    VersionAndFlagsTooShort,
    /// The `iinf` box data is shorter than 6 bytes.
    ItemInfoTooShort,
    /// The `iinf` box announces more entries than it holds.
    MissingItemInfoEntry,
    /// An `infe` box is shorter than 13 bytes (its length).
    ItemInfoEntryTooShort(usize),
    /// An `infe` box of a version other than 2 (its version).
    UnsupportedItemInfoEntryVersion(u8),
    /// An `iloc` box of a version other than 1 or 2 (its version).
    InvalidItemLocationVersion(u8),
    /// An `iloc` base offset size other than 0, 1, 2, 4 or 8.
    InvalidBaseOffsetSize(u8),
    /// An `iloc` index size other than 0, 1, 2, 4 or 8.
    InvalidIndexSize(u8),
    /// An `iloc` offset size other than 1, 2, 4 or 8.
    InvalidOffsetSize(u8),
    /// An `iloc` length size other than 1, 2, 4 or 8.
    InvalidLengthSize(u8),
    /// No item of type `Exif`, or no extent for it.
    ExifItemNotFound,
    /// The EXIF payload is longer than the limit (its length).
    ExifTooLarge(usize),
    /// The EXIF payload does not start with `Exif\0\0`.
    InvalidExifHeader,
    /// The `meta` box holds no `iloc` box.
    ItemLocationBoxNotFound,
    /// Two extents in the media data overlap.
    OverlappedExtents,
    /// No item of the type whose `iloc` entry is to be rewritten.
    ItemNotFound,
    /// No `iloc` entry for an item.
    ExtentNotFound,
    /// An item to rewrite has more than one extent (their number).
    MultipleExtents(usize),
    /// An `Exif` item cannot be added to the file: its `meta`, `iinf` or `iloc` box is laid
    /// out in a way the copy does not rewrite, or a new size, count, id or offset does not
    /// fit its field.
    CannotAddExifItem,
}

} // verus!
