//! Extraction and replacement of raw EXIF data in JPEG and HEIC images.
//!
//! The library works on the bytes of an image held in memory: it decodes the
//! container structure, finds the EXIF payload and builds the bytes of a copy
//! of the image that carries a given EXIF payload.

pub mod bytes;
pub mod error;
pub mod jpeg;
pub mod heic;
pub mod scoped_reader;
pub mod tag_errors;
pub mod text;

use vstd::prelude::*;

use crate::error::ExifError;

verus! {

/// Reads the raw EXIF payload of an image.
pub trait ExtractRawExif {
    /// What [`ExtractRawExif::extract`] asks of the image: that no field of it makes the
    /// lookup abort.
    spec fn extract_requires(&self) -> bool;

    /// The raw EXIF payload of the image, or `None` where the image has none.
    fn extract(&self) -> (r: Result<Option<Vec<u8>>, ExifError>)
        requires
            self.extract_requires(),
    ;
}

/// Builds a copy of an image that carries another raw EXIF payload.
pub trait CopyWithRawExif {
    /// What [`CopyWithRawExif::copy_with_raw_exif`] asks of the image and the payload:
    /// that no length computed from them overflows.
    spec fn copy_requires(&self, exif: Seq<u8>) -> bool;

    /// The bytes of a copy of the image whose EXIF payload is `exif`.
    fn copy_with_raw_exif(&self, exif: &[u8]) -> (r: Result<Vec<u8>, ExifError>)
        requires
            self.copy_requires(exif@),
    ;
}

} // verus!
