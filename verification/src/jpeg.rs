//! Markers, segments and EXIF payloads of JPEG images.

pub mod codes;
pub mod rewrite;

use vstd::prelude::*;

use crate::bytes::{
    be16, lemma_u16_bytes_of_be16, push_range, push_slice, push_u16_be, read_u16_be, u16_bytes,
};
use crate::error::ExifError;
use crate::{CopyWithRawExif, ExtractRawExif};

verus! {

/// A JPEG marker that the decoder knows.
#[allow(non_camel_case_types)]
#[derive(Debug, Clone, Copy, PartialEq, Eq, Structural)]
pub enum Marker {
    SOF0,
    SOF1,
    SOF2,
    SOF3,
    DHT,
    SOF5,
    SOF6,
    SOF7,
    SOF8,
    SOF9,
    SOF10,
    SOF11,
    SOF12,
    SOF13,
    SOF14,
    SOF15,
    SOI,
    EOI,
    SOS,
    DQT,
    DRI,
    APP1,
    APP2,
    APP3,
    APP4,
    APP5,
    APP6,
    APP7,
    APP8,
    APP9,
    APP10,
    APP11,
    APP12,
    APP13,
    APP14,
    APP15,
    COM,
}

/// The marker whose 16-bit value is `value`, if there is one.
pub open spec fn marker_from_value(value: u16) -> Option<Marker> {
    match value {
        0xffc0 => Some(Marker::SOF0),
        0xffc1 => Some(Marker::SOF1),
        0xffc2 => Some(Marker::SOF2),
        0xffc3 => Some(Marker::SOF3),
        0xffc4 => Some(Marker::DHT),
        0xffc5 => Some(Marker::SOF5),
        0xffc6 => Some(Marker::SOF6),
        0xffc7 => Some(Marker::SOF7),
        0xffc8 => Some(Marker::SOF8),
        0xffc9 => Some(Marker::SOF9),
        0xffca => Some(Marker::SOF10),
        0xffcb => Some(Marker::SOF11),
        0xffcc => Some(Marker::SOF12),
        0xffcd => Some(Marker::SOF13),
        0xffce => Some(Marker::SOF14),
        0xffcf => Some(Marker::SOF15),
        0xffd8 => Some(Marker::SOI),
        0xffd9 => Some(Marker::EOI),
        0xffda => Some(Marker::SOS),
        0xffdb => Some(Marker::DQT),
        0xffdd => Some(Marker::DRI),
        0xffe1 => Some(Marker::APP1),
        0xffe2 => Some(Marker::APP2),
        0xffe3 => Some(Marker::APP3),
        0xffe4 => Some(Marker::APP4),
        0xffe5 => Some(Marker::APP5),
        0xffe6 => Some(Marker::APP6),
        0xffe7 => Some(Marker::APP7),
        0xffe8 => Some(Marker::APP8),
        0xffe9 => Some(Marker::APP9),
        0xffea => Some(Marker::APP10),
        0xffeb => Some(Marker::APP11),
        0xffec => Some(Marker::APP12),
        0xffed => Some(Marker::APP13),
        0xffee => Some(Marker::APP14),
        0xffef => Some(Marker::APP15),
        0xfffe => Some(Marker::COM),
        _ => None,
    }
}

/// The 16-bit value of `m`, as it stands in the file (big-endian).
pub open spec fn marker_value(m: Marker) -> u16 {
    match m {
        Marker::SOF0 => 0xffc0,
        Marker::SOF1 => 0xffc1,
        Marker::SOF2 => 0xffc2,
        Marker::SOF3 => 0xffc3,
        Marker::DHT => 0xffc4,
        Marker::SOF5 => 0xffc5,
        Marker::SOF6 => 0xffc6,
        Marker::SOF7 => 0xffc7,
        Marker::SOF8 => 0xffc8,
        Marker::SOF9 => 0xffc9,
        Marker::SOF10 => 0xffca,
        Marker::SOF11 => 0xffcb,
        Marker::SOF12 => 0xffcc,
        Marker::SOF13 => 0xffcd,
        Marker::SOF14 => 0xffce,
        Marker::SOF15 => 0xffcf,
        Marker::SOI => 0xffd8,
        Marker::EOI => 0xffd9,
        Marker::SOS => 0xffda,
        Marker::DQT => 0xffdb,
        Marker::DRI => 0xffdd,
        Marker::APP1 => 0xffe1,
        Marker::APP2 => 0xffe2,
        Marker::APP3 => 0xffe3,
        Marker::APP4 => 0xffe4,
        Marker::APP5 => 0xffe5,
        Marker::APP6 => 0xffe6,
        Marker::APP7 => 0xffe7,
        Marker::APP8 => 0xffe8,
        Marker::APP9 => 0xffe9,
        Marker::APP10 => 0xffea,
        Marker::APP11 => 0xffeb,
        Marker::APP12 => 0xffec,
        Marker::APP13 => 0xffed,
        Marker::APP14 => 0xffee,
        Marker::APP15 => 0xffef,
        Marker::COM => 0xfffe,
    }
}

/// Whether a length field and a payload follow `m`.
pub open spec fn marker_has_payload(m: Marker) -> bool {
    match m {
        Marker::SOF0 => true,
        Marker::SOF1 => true,
        Marker::SOF2 => true,
        Marker::SOF3 => true,
        Marker::DHT => true,
        Marker::SOF5 => true,
        Marker::SOF6 => true,
        Marker::SOF7 => true,
        Marker::SOF8 => true,
        Marker::SOF9 => true,
        Marker::SOF10 => true,
        Marker::SOF11 => true,
        Marker::SOF12 => true,
        Marker::SOF13 => true,
        Marker::SOF14 => true,
        Marker::SOF15 => true,
        Marker::SOI => false,
        Marker::EOI => false,
        Marker::SOS => false,
        Marker::DQT => true,
        Marker::DRI => true,
        Marker::APP1 => true,
        Marker::APP2 => true,
        Marker::APP3 => true,
        Marker::APP4 => true,
        Marker::APP5 => true,
        Marker::APP6 => true,
        Marker::APP7 => true,
        Marker::APP8 => true,
        Marker::APP9 => true,
        Marker::APP10 => true,
        Marker::APP11 => true,
        Marker::APP12 => true,
        Marker::APP13 => true,
        Marker::APP14 => true,
        Marker::APP15 => true,
        Marker::COM => true,
    }
}

/// Whether `m` is one of the application markers `APPn`.
pub open spec fn marker_is_app(m: Marker) -> bool {
    match m {
        Marker::SOF0 => false,
        Marker::SOF1 => false,
        Marker::SOF2 => false,
        Marker::SOF3 => false,
        Marker::DHT => false,
        Marker::SOF5 => false,
        Marker::SOF6 => false,
        Marker::SOF7 => false,
        Marker::SOF8 => false,
        Marker::SOF9 => false,
        Marker::SOF10 => false,
        Marker::SOF11 => false,
        Marker::SOF12 => false,
        Marker::SOF13 => false,
        Marker::SOF14 => false,
        Marker::SOF15 => false,
        Marker::SOI => false,
        Marker::EOI => false,
        Marker::SOS => false,
        Marker::DQT => false,
        Marker::DRI => false,
        Marker::APP1 => true,
        Marker::APP2 => true,
        Marker::APP3 => true,
        Marker::APP4 => true,
        Marker::APP5 => true,
        Marker::APP6 => true,
        Marker::APP7 => true,
        Marker::APP8 => true,
        Marker::APP9 => true,
        Marker::APP10 => true,
        Marker::APP11 => true,
        Marker::APP12 => true,
        Marker::APP13 => true,
        Marker::APP14 => true,
        Marker::APP15 => true,
        Marker::COM => false,
    }
}

impl Marker {
    /// The marker whose value is `value`.
    pub fn from_value(value: u16) -> (r: Option<Marker>)
        ensures
            r == marker_from_value(value),
    {
        match value {
            0xffc0 => Some(Marker::SOF0),
            0xffc1 => Some(Marker::SOF1),
            0xffc2 => Some(Marker::SOF2),
            0xffc3 => Some(Marker::SOF3),
            0xffc4 => Some(Marker::DHT),
            0xffc5 => Some(Marker::SOF5),
            0xffc6 => Some(Marker::SOF6),
            0xffc7 => Some(Marker::SOF7),
            0xffc8 => Some(Marker::SOF8),
            0xffc9 => Some(Marker::SOF9),
            0xffca => Some(Marker::SOF10),
            0xffcb => Some(Marker::SOF11),
            0xffcc => Some(Marker::SOF12),
            0xffcd => Some(Marker::SOF13),
            0xffce => Some(Marker::SOF14),
            0xffcf => Some(Marker::SOF15),
            0xffd8 => Some(Marker::SOI),
            0xffd9 => Some(Marker::EOI),
            0xffda => Some(Marker::SOS),
            0xffdb => Some(Marker::DQT),
            0xffdd => Some(Marker::DRI),
            0xffe1 => Some(Marker::APP1),
            0xffe2 => Some(Marker::APP2),
            0xffe3 => Some(Marker::APP3),
            0xffe4 => Some(Marker::APP4),
            0xffe5 => Some(Marker::APP5),
            0xffe6 => Some(Marker::APP6),
            0xffe7 => Some(Marker::APP7),
            0xffe8 => Some(Marker::APP8),
            0xffe9 => Some(Marker::APP9),
            0xffea => Some(Marker::APP10),
            0xffeb => Some(Marker::APP11),
            0xffec => Some(Marker::APP12),
            0xffed => Some(Marker::APP13),
            0xffee => Some(Marker::APP14),
            0xffef => Some(Marker::APP15),
            0xfffe => Some(Marker::COM),
            _ => None,
        }
    }

    /// The 16-bit value of the marker.
    pub fn value(&self) -> (r: u16)
        ensures
            r == marker_value(*self),
    {
        match self {
            Marker::SOF0 => 0xffc0,
            Marker::SOF1 => 0xffc1,
            Marker::SOF2 => 0xffc2,
            Marker::SOF3 => 0xffc3,
            Marker::DHT => 0xffc4,
            Marker::SOF5 => 0xffc5,
            Marker::SOF6 => 0xffc6,
            Marker::SOF7 => 0xffc7,
            Marker::SOF8 => 0xffc8,
            Marker::SOF9 => 0xffc9,
            Marker::SOF10 => 0xffca,
            Marker::SOF11 => 0xffcb,
            Marker::SOF12 => 0xffcc,
            Marker::SOF13 => 0xffcd,
            Marker::SOF14 => 0xffce,
            Marker::SOF15 => 0xffcf,
            Marker::SOI => 0xffd8,
            Marker::EOI => 0xffd9,
            Marker::SOS => 0xffda,
            Marker::DQT => 0xffdb,
            Marker::DRI => 0xffdd,
            Marker::APP1 => 0xffe1,
            Marker::APP2 => 0xffe2,
            Marker::APP3 => 0xffe3,
            Marker::APP4 => 0xffe4,
            Marker::APP5 => 0xffe5,
            Marker::APP6 => 0xffe6,
            Marker::APP7 => 0xffe7,
            Marker::APP8 => 0xffe8,
            Marker::APP9 => 0xffe9,
            Marker::APP10 => 0xffea,
            Marker::APP11 => 0xffeb,
            Marker::APP12 => 0xffec,
            Marker::APP13 => 0xffed,
            Marker::APP14 => 0xffee,
            Marker::APP15 => 0xffef,
            Marker::COM => 0xfffe,
        }
    }

    /// Whether a length field and a payload follow the marker.
    pub fn has_payload(&self) -> (r: bool)
        ensures
            r == marker_has_payload(*self),
    {
        match self {
            Marker::SOF0 => true,
            Marker::SOF1 => true,
            Marker::SOF2 => true,
            Marker::SOF3 => true,
            Marker::DHT => true,
            Marker::SOF5 => true,
            Marker::SOF6 => true,
            Marker::SOF7 => true,
            Marker::SOF8 => true,
            Marker::SOF9 => true,
            Marker::SOF10 => true,
            Marker::SOF11 => true,
            Marker::SOF12 => true,
            Marker::SOF13 => true,
            Marker::SOF14 => true,
            Marker::SOF15 => true,
            Marker::SOI => false,
            Marker::EOI => false,
            Marker::SOS => false,
            Marker::DQT => true,
            Marker::DRI => true,
            Marker::APP1 => true,
            Marker::APP2 => true,
            Marker::APP3 => true,
            Marker::APP4 => true,
            Marker::APP5 => true,
            Marker::APP6 => true,
            Marker::APP7 => true,
            Marker::APP8 => true,
            Marker::APP9 => true,
            Marker::APP10 => true,
            Marker::APP11 => true,
            Marker::APP12 => true,
            Marker::APP13 => true,
            Marker::APP14 => true,
            Marker::APP15 => true,
            Marker::COM => true,
        }
    }

    /// Whether the marker is an application marker `APPn`.
    pub fn is_app_segment(&self) -> (r: bool)
        ensures
            r == marker_is_app(*self),
    {
        match self {
            Marker::SOF0 => false,
            Marker::SOF1 => false,
            Marker::SOF2 => false,
            Marker::SOF3 => false,
            Marker::DHT => false,
            Marker::SOF5 => false,
            Marker::SOF6 => false,
            Marker::SOF7 => false,
            Marker::SOF8 => false,
            Marker::SOF9 => false,
            Marker::SOF10 => false,
            Marker::SOF11 => false,
            Marker::SOF12 => false,
            Marker::SOF13 => false,
            Marker::SOF14 => false,
            Marker::SOF15 => false,
            Marker::SOI => false,
            Marker::EOI => false,
            Marker::SOS => false,
            Marker::DQT => false,
            Marker::DRI => false,
            Marker::APP1 => true,
            Marker::APP2 => true,
            Marker::APP3 => true,
            Marker::APP4 => true,
            Marker::APP5 => true,
            Marker::APP6 => true,
            Marker::APP7 => true,
            Marker::APP8 => true,
            Marker::APP9 => true,
            Marker::APP10 => true,
            Marker::APP11 => true,
            Marker::APP12 => true,
            Marker::APP13 => true,
            Marker::APP14 => true,
            Marker::APP15 => true,
            Marker::COM => false,
        }
    }
}

/// Each marker's value gives the marker back, and a value that gives a marker is that
/// marker's value: the table of markers is a bijection onto its values.
pub proof fn lemma_marker_value_roundtrip(m: Marker, v: u16)
    ensures
        marker_from_value(marker_value(m)) == Some(m),
        marker_from_value(v) == Some(m) ==> marker_value(m) == v,
{
}

/// Where a segment's payload lies in the image.
#[derive(Debug, Clone, Copy, PartialEq, Eq, Structural)]
pub enum Payload {
    /// The payload's offset and length (without the length field itself).
    Content(u64, u16),
    /// The marker carries no payload; the offset of what follows it.
    NoContent(u64),
}

/// A marker with the place of its payload.
pub type Segment = (Marker, Payload);

/// The four bytes `Exif` that open an EXIF payload.
pub open spec fn exif_tag() -> Seq<u8> {
    seq![0x45u8, 0x78u8, 0x69u8, 0x66u8]
}

/// The outcome of decoding the segments of `data` from `pos` on, after the segments
/// `acc`: `None` where a length field is smaller than 2 (the length cannot lose its own
/// two bytes, and the decoder aborts), otherwise the segments up to and including SOS,
/// or the error that stops the decoding.
pub open spec fn decode_from(data: Seq<u8>, pos: int, acc: Seq<Segment>) -> Option<
    Result<Seq<Segment>, ExifError>,
>
    decreases data.len() + 0x1_0004 - pos,
{
    if pos < 0 || pos + 2 > data.len() {
        Some(Err(ExifError::PrematureEnd))
    } else {
        let v = be16(data, pos) as u16;
        match marker_from_value(v) {
            None => Some(Err(ExifError::UnknownMarker(v))),
            Some(m) => {
                let p = pos + 2;
                if !marker_has_payload(m) {
                    let acc2 = acc.push((m, Payload::NoContent(p as u64)));
                    if m == Marker::SOS {
                        if acc2[0].0 != Marker::SOI {
                            Some(Err(ExifError::InvalidSoi))
                        } else {
                            Some(Ok(acc2))
                        }
                    } else {
                        decode_from(data, p, acc2)
                    }
                } else if p + 2 > data.len() {
                    Some(Err(ExifError::UnexpectedEof))
                } else if be16(data, p) < 2 {
                    None
                } else {
                    let plen = be16(data, p) - 2;
                    let acc2 = acc.push((m, Payload::Content((p + 2) as u64, plen as u16)));
                    if m == Marker::SOS {
                        if acc2[0].0 != Marker::SOI {
                            Some(Err(ExifError::InvalidSoi))
                        } else {
                            Some(Ok(acc2))
                        }
                    } else {
                        decode_from(data, p + 2 + plen, acc2)
                    }
                }
            },
        }
    }
}

/// The outcome of decoding the segments of the JPEG image `data` (see [`decode_from`]).
pub open spec fn jpeg_decode(data: Seq<u8>) -> Option<Result<Seq<Segment>, ExifError>> {
    decode_from(data, 0, Seq::empty())
}

/// The value of a decoding result, with the vector taken by its view.
pub open spec fn segments_result(r: Result<Vec<Segment>, ExifError>) -> Result<
    Seq<Segment>,
    ExifError,
> {
    match r {
        Ok(v) => Ok(v@),
        Err(e) => Err(e),
    }
}

fn decode_walk(data: &[u8]) -> (r: Option<Result<Vec<Segment>, ExifError>>)
    ensures
        match r {
            None => jpeg_decode(data@) is None,
            Some(res) => jpeg_decode(data@) == Some(segments_result(res)),
        },
{
    let len = data.len();
    let mut structures: Vec<Segment> = Vec::new();
    let mut pos: usize = 0;
    loop
        invariant
            len == data@.len(),
            pos <= len,
            decode_from(data@, pos as int, structures@) == jpeg_decode(data@),
        decreases len - pos,
    {
        if len - pos < 2 {
            return Some(Err(ExifError::PrematureEnd));
        }
        let v = read_u16_be(data, pos);
        let m = match Marker::from_value(v) {
            Some(m) => m,
            None => {
                return Some(Err(ExifError::UnknownMarker(v)));
            },
        };
        let p = pos + 2;
        if !m.has_payload() {
            structures.push((m, Payload::NoContent(p as u64)));
            if m == Marker::SOS {
                if structures[0].0 != Marker::SOI {
                    return Some(Err(ExifError::InvalidSoi));
                }
                return Some(Ok(structures));
            }
            pos = p;
        } else {
            if len - p < 2 {
                return Some(Err(ExifError::UnexpectedEof));
            }
            let l = read_u16_be(data, p);
            if l < 2 {
                return None;
            }
            let plen = l - 2;
            structures.push((m, Payload::Content((p + 2) as u64, plen)));
            if m == Marker::SOS {
                if structures[0].0 != Marker::SOI {
                    return Some(Err(ExifError::InvalidSoi));
                }
                return Some(Ok(structures));
            }
            if plen as usize > len - (p + 2) {
                // seeking past the end leaves nothing to read the next marker from
                assert(decode_from(data@, p + 2 + plen as int, structures@) == Some(
                    Err::<Seq<Segment>, ExifError>(ExifError::PrematureEnd),
                ));
                return Some(Err(ExifError::PrematureEnd));
            }
            pos = p + 2 + plen as usize;
        }
    }
}

/// Decodes the segments of the JPEG image `data`, from its start up to and including
/// the SOS marker.
pub fn decode_structures(data: &[u8]) -> (r: Result<Vec<Segment>, ExifError>)
    requires
        jpeg_decode(data@) is Some,
    ensures
        jpeg_decode(data@) == Some(segments_result(r)),
{
    match decode_walk(data) {
        Some(r) => r,
        None => {
            proof {
                assert(false);
            }
            Err(ExifError::PrematureEnd)
        },
    }
}

/// Whether the segments of `data` can be decoded without a length field smaller than 2,
/// that is, whether [`decode_structures`] may be called on it.
pub fn can_decode_structures(data: &[u8]) -> (r: bool)
    ensures
        r == (jpeg_decode(data@) is Some),
{
    decode_walk(data).is_some()
}

/// The outcome of looking for the EXIF payload among the segments `segs` from the
/// `i`-th on: the first APP segment whose payload starts with `Exif`, with its marker and
/// whole payload. `None` where an APP payload shorter than 4 bytes comes first (the
/// four-byte check cannot be cut out of it, and the lookup aborts).
pub open spec fn extract_from(data: Seq<u8>, segs: Seq<Segment>, i: int) -> Option<
    Result<Option<(Marker, Seq<u8>)>, ExifError>,
>
    decreases segs.len() - i,
{
    if i < 0 || i >= segs.len() {
        Some(Ok(None))
    } else {
        let (m, p) = segs[i];
        if marker_is_app(m) {
            match p {
                Payload::Content(off, l) => {
                    if l < 4 {
                        None
                    } else if off + 4 > data.len() {
                        Some(Err(ExifError::UnexpectedEof))
                    } else if data.subrange(off as int, off + 4) != exif_tag() {
                        extract_from(data, segs, i + 1)
                    } else if off + l > data.len() {
                        Some(Err(ExifError::UnexpectedEof))
                    } else {
                        Some(Ok(Some((m, data.subrange(off as int, off + l)))))
                    }
                },
                Payload::NoContent(_) => Some(Err(ExifError::InvalidAppPayload)),
            }
        } else {
            extract_from(data, segs, i + 1)
        }
    }
}

/// The value of an EXIF lookup result, with the payload taken by its view.
pub open spec fn found_exif_result(r: Result<Option<(Marker, Vec<u8>)>, ExifError>) -> Result<
    Option<(Marker, Seq<u8>)>,
    ExifError,
> {
    match r {
        Ok(Some((m, v))) => Ok(Some((m, v@))),
        Ok(None) => Ok(None),
        Err(e) => Err(e),
    }
}

fn extract_walk(data: &[u8], structures: &Vec<Segment>) -> (r: Option<
    Result<Option<(Marker, Vec<u8>)>, ExifError>,
>)
    ensures
        match r {
            None => extract_from(data@, structures@, 0) is None,
            Some(res) => extract_from(data@, structures@, 0) == Some(found_exif_result(res)),
        },
{
    let len = data.len();
    let mut i: usize = 0;
    while i < structures.len()
        invariant
            len == data@.len(),
            i <= structures@.len(),
            extract_from(data@, structures@, i as int) == extract_from(data@, structures@, 0),
        decreases structures@.len() - i,
    {
        let (m, p) = structures[i];
        if m.is_app_segment() {
            match p {
                Payload::Content(off, l) => {
                    if l < 4 {
                        return None;
                    }
                    if off > len as u64 || len as u64 - off < 4 {
                        return Some(Err(ExifError::UnexpectedEof));
                    }
                    let start = off as usize;
                    let tag: [u8; 4] = [0x45, 0x78, 0x69, 0x66];
                    assert(tag@ == exif_tag());
                    if !crate::bytes::bytes_at(data, start, tag.as_slice()) {
                        i = i + 1;
                        continue;
                    }
                    if len as u64 - off < l as u64 {
                        return Some(Err(ExifError::UnexpectedEof));
                    }
                    let mut buf: Vec<u8> = Vec::new();
                    push_range(&mut buf, data, start, start + l as usize);
                    return Some(Ok(Some((m, buf))));
                },
                Payload::NoContent(_) => {
                    return Some(Err(ExifError::InvalidAppPayload));
                },
            }
        }
        i = i + 1;
    }
    Some(Ok(None))
}

/// Looks for the EXIF payload among the decoded segments `structures` of `data`: the
/// first APP segment whose payload starts with `Exif`, with its marker and payload.
pub fn extract_exif(data: &[u8], structures: &Vec<Segment>) -> (r: Result<
    Option<(Marker, Vec<u8>)>,
    ExifError,
>)
    requires
        extract_from(data@, structures@, 0) is Some,
    ensures
        extract_from(data@, structures@, 0) == Some(found_exif_result(r)),
{
    match extract_walk(data, structures) {
        Some(r) => r,
        None => {
            proof {
                assert(false);
            }
            Ok(None)
        },
    }
}

/// The outcome of looking for the EXIF segment among the segments `segs` from the `i`-th
/// on, as [`extract_from`] does: the index of the first APP segment whose payload starts
/// with `Exif`.
pub open spec fn find_exif_from(data: Seq<u8>, segs: Seq<Segment>, i: int) -> Option<
    Result<Option<int>, ExifError>,
>
    decreases segs.len() - i,
{
    if i < 0 || i >= segs.len() {
        Some(Ok(None))
    } else {
        let (m, p) = segs[i];
        if marker_is_app(m) {
            match p {
                Payload::Content(off, l) => {
                    if l < 4 {
                        None
                    } else if off + 4 > data.len() {
                        Some(Err(ExifError::UnexpectedEof))
                    } else if data.subrange(off as int, off + 4) != exif_tag() {
                        find_exif_from(data, segs, i + 1)
                    } else if off + l > data.len() {
                        Some(Err(ExifError::UnexpectedEof))
                    } else {
                        Some(Ok(Some(i)))
                    }
                },
                Payload::NoContent(_) => Some(Err(ExifError::InvalidAppPayload)),
            }
        } else {
            find_exif_from(data, segs, i + 1)
        }
    }
}

/// No APP segment among the segments `segs` in `[a, b)` has a payload that starts with
/// `Exif`: each has a payload of at least four bytes in `data`, whose first four are not
/// `Exif`.
pub open spec fn no_exif_between(data: Seq<u8>, segs: Seq<Segment>, a: int, b: int) -> bool {
    forall|j: int|
        a <= j < b && marker_is_app((#[trigger] segs[j]).0) ==> (segs[j].1 matches Payload::Content(
            off,
            l,
        ) && l >= 4 && off + 4 <= data.len() && data.subrange(off as int, off + 4) != exif_tag())
}

/// The lookup of the EXIF segment by index agrees with the lookup of its payload.
pub proof fn lemma_find_exif(data: Seq<u8>, segs: Seq<Segment>, i: int)
    requires
        0 <= i,
    ensures
        match find_exif_from(data, segs, i) {
            None => extract_from(data, segs, i) is None,
            Some(Err(e)) => extract_from(data, segs, i) == Some(
                Err::<Option<(Marker, Seq<u8>)>, ExifError>(e),
            ),
            Some(Ok(None)) => extract_from(data, segs, i) == Some(
                Ok::<Option<(Marker, Seq<u8>)>, ExifError>(None),
            ),
            Some(Ok(Some(k))) => i <= k < segs.len() && marker_is_app(segs[k].0) && (
            segs[k].1 matches Payload::Content(off, l) && 4 <= l && off + l <= data.len()
                && data.subrange(off as int, off + 4) == exif_tag() && extract_from(data, segs, i)
                == Some(
                Ok::<Option<(Marker, Seq<u8>)>, ExifError>(
                    Some((segs[k].0, data.subrange(off as int, off + l))),
                ),
            )) && no_exif_between(data, segs, i, k),
        },
    decreases segs.len() - i,
{
    if i < segs.len() {
        let (m, p) = segs[i];
        if marker_is_app(m) {
            match p {
                Payload::Content(off, l) => {
                    if l >= 4 && off + 4 <= data.len() && data.subrange(off as int, off + 4)
                        != exif_tag() {
                        lemma_find_exif(data, segs, i + 1);
                    }
                },
                Payload::NoContent(_) => {},
            }
        } else {
            lemma_find_exif(data, segs, i + 1);
        }
    }
}

/// The APP1 segment that a copy adds, right after SOI, to an image without an EXIF
/// segment; the copy writes the new payload in it, so its place in the image is never
/// read.
pub open spec fn new_exif_segment() -> Segment {
    (Marker::APP1, Payload::Content(0, 0))
}

/// The segments `segs` with [`new_exif_segment`] after the first one.
pub open spec fn with_exif_segment(segs: Seq<Segment>) -> Seq<Segment> {
    if segs.len() == 0 {
        segs
    } else {
        seq![segs[0], new_exif_segment()] + segs.subrange(1, segs.len() as int)
    }
}

/// The segments a copy of the image `data` (decoded into `segs`) writes, and the index of
/// the one that carries the new payload: the image's own segments and its EXIF segment
/// where it has one, else its segments with a new APP1 segment right after SOI.
pub open spec fn copy_plan(data: Seq<u8>, segs: Seq<Segment>) -> (Seq<Segment>, int) {
    match find_exif_from(data, segs, 0) {
        Some(Ok(Some(k))) => (segs, k),
        _ => (with_exif_segment(segs), 1),
    }
}

/// The bytes written for the segments `segs` from the `i`-th on, after the bytes `out`,
/// when the `k`-th segment gets the payload `exif` and the rest of the image follows SOS
/// unchanged. A new payload whose length field (its length plus the field's two bytes)
/// does not fit in 16 bits is refused as too large. `None` where the length field of a
/// segment of the image does not fit in 16 bits (the copy aborts).
pub open spec fn copy_from(
    data: Seq<u8>,
    segs: Seq<Segment>,
    i: int,
    k: int,
    exif: Seq<u8>,
    out: Seq<u8>,
) -> Option<Result<Seq<u8>, ExifError>>
    decreases segs.len() - i,
{
    if i < 0 || i >= segs.len() {
        Some(Err(ExifError::SosNotFound))
    } else {
        let (mk, p) = segs[i];
        let head = out + u16_bytes(marker_value(mk));
        if i == k {
            if exif.len() + 2 > 0xffff {
                Some(Err(ExifError::ExifTooLarge(exif.len() as usize)))
            } else {
                copy_from(
                    data,
                    segs,
                    i + 1,
                    k,
                    exif,
                    head + u16_bytes(((exif.len() as u16) + 2) as u16) + exif,
                )
            }
        } else if mk == Marker::SOS {
            match p {
                Payload::NoContent(off) => {
                    if off >= data.len() {
                        Some(Ok(head))
                    } else {
                        Some(Ok(head + data.subrange(off as int, data.len() as int)))
                    }
                },
                Payload::Content(_, _) => Some(Err(ExifError::InvalidSosPayload)),
            }
        } else {
            match p {
                Payload::Content(off, l) => {
                    if l as int + 2 > 0xffff {
                        None
                    } else if off + l > data.len() {
                        Some(Err(ExifError::UnexpectedEof))
                    } else {
                        copy_from(
                            data,
                            segs,
                            i + 1,
                            k,
                            exif,
                            head + u16_bytes((l + 2) as u16) + data.subrange(off as int, off + l),
                        )
                    }
                },
                Payload::NoContent(_) => copy_from(data, segs, i + 1, k, exif, head),
            }
        }
    }
}

/// The bytes of a copy of the image `data` (decoded into `segs`) whose EXIF payload is
/// `exif`: the EXIF segment is looked up first; then every segment is written again, the
/// EXIF segment carrying `exif`, or, where the image has none, a new APP1 segment
/// carrying `exif` right after SOI (see [`copy_plan`]).
pub open spec fn jpeg_copy(data: Seq<u8>, segs: Seq<Segment>, exif: Seq<u8>) -> Option<
    Result<Seq<u8>, ExifError>,
> {
    match find_exif_from(data, segs, 0) {
        None => None,
        Some(Err(e)) => Some(Err(e)),
        Some(Ok(_)) => copy_from(
            data,
            copy_plan(data, segs).0,
            0,
            copy_plan(data, segs).1,
            exif,
            Seq::empty(),
        ),
    }
}

/// The value of a byte-producing result, with the vector taken by its view.
pub open spec fn bytes_result(r: Result<Vec<u8>, ExifError>) -> Result<Seq<u8>, ExifError> {
    match r {
        Ok(v) => Ok(v@),
        Err(e) => Err(e),
    }
}

fn find_walk(data: &[u8], structures: &Vec<Segment>) -> (r: Option<
    Result<Option<usize>, ExifError>,
>)
    ensures
        match r {
            None => find_exif_from(data@, structures@, 0) is None,
            Some(Err(e)) => find_exif_from(data@, structures@, 0) == Some(
                Err::<Option<int>, ExifError>(e),
            ),
            Some(Ok(None)) => find_exif_from(data@, structures@, 0) == Some(
                Ok::<Option<int>, ExifError>(None),
            ),
            Some(Ok(Some(k))) => find_exif_from(data@, structures@, 0) == Some(
                Ok::<Option<int>, ExifError>(Some(k as int)),
            ),
        },
{
    let len = data.len();
    let mut i: usize = 0;
    while i < structures.len()
        invariant
            len == data@.len(),
            i <= structures@.len(),
            find_exif_from(data@, structures@, i as int) == find_exif_from(data@, structures@, 0),
        decreases structures@.len() - i,
    {
        let (m, p) = structures[i];
        if m.is_app_segment() {
            match p {
                Payload::Content(off, l) => {
                    if l < 4 {
                        return None;
                    }
                    if off > len as u64 || len as u64 - off < 4 {
                        return Some(Err(ExifError::UnexpectedEof));
                    }
                    let start = off as usize;
                    let tag: [u8; 4] = [0x45, 0x78, 0x69, 0x66];
                    assert(tag@ == exif_tag());
                    if !crate::bytes::bytes_at(data, start, tag.as_slice()) {
                        i = i + 1;
                        continue;
                    }
                    if len as u64 - off < l as u64 {
                        return Some(Err(ExifError::UnexpectedEof));
                    }
                    return Some(Ok(Some(i)));
                },
                Payload::NoContent(_) => {
                    return Some(Err(ExifError::InvalidAppPayload));
                },
            }
        }
        i = i + 1;
    }
    Some(Ok(None))
}

fn copy_walk(data: &[u8], structures: &Vec<Segment>, exif: &[u8]) -> (r: Option<
    Result<Vec<u8>, ExifError>,
>)
    ensures
        match r {
            None => jpeg_copy(data@, structures@, exif@) is None,
            Some(res) => jpeg_copy(data@, structures@, exif@) == Some(bytes_result(res)),
        },
{
    let found = match find_walk(data, structures) {
        None => {
            return None;
        },
        Some(Err(e)) => {
            return Some(Err(e));
        },
        Some(Ok(f)) => f,
    };
    let mut added: Vec<Segment> = Vec::new();
    let (plan, k): (&Vec<Segment>, usize) = match found {
        Some(k) => (structures, k),
        None => {
            if structures.len() > 0 {
                added.push(structures[0]);
                added.push((Marker::APP1, Payload::Content(0, 0)));
                let mut j: usize = 1;
                while j < structures.len()
                    invariant
                        1 <= j <= structures@.len(),
                        added@ == seq![structures@[0], new_exif_segment()] + structures@.subrange(
                            1,
                            j as int,
                        ),
                    decreases structures@.len() - j,
                {
                    added.push(structures[j]);
                    j = j + 1;
                    assert(structures@.subrange(1, j as int) =~= structures@.subrange(
                        1,
                        j - 1,
                    ).push(structures@[j - 1]));
                }
            }
            assert(added@ =~= with_exif_segment(structures@));
            (&added, 1)
        },
    };
    assert(plan@ == copy_plan(data@, structures@).0 && k as int == copy_plan(data@, structures@).1);
    let len = data.len();
    let mut out: Vec<u8> = Vec::new();
    let mut i: usize = 0;
    while i < plan.len()
        invariant
            len == data@.len(),
            i <= plan@.len(),
            copy_from(data@, plan@, i as int, k as int, exif@, out@) == jpeg_copy(
                data@,
                structures@,
                exif@,
            ),
        decreases plan@.len() - i,
    {
        let (mk, p) = plan[i];
        if i == k {
            if exif.len() > 0xffff - 2 {
                return Some(Err(ExifError::ExifTooLarge(exif.len())));
            }
            let elen = exif.len() as u16;
            push_u16_be(&mut out, mk.value());
            push_u16_be(&mut out, elen + 2);
            push_slice(&mut out, exif);
        } else if mk == Marker::SOS {
            push_u16_be(&mut out, mk.value());
            match p {
                Payload::NoContent(off) => {
                    if off < len as u64 {
                        push_range(&mut out, data, off as usize, len);
                    }
                    return Some(Ok(out));
                },
                Payload::Content(_, _) => {
                    return Some(Err(ExifError::InvalidSosPayload));
                },
            }
        } else {
            match p {
                Payload::Content(off, l) => {
                    if l > 0xffff - 2 {
                        return None;
                    }
                    if off > len as u64 || len as u64 - off < l as u64 {
                        return Some(Err(ExifError::UnexpectedEof));
                    }
                    push_u16_be(&mut out, mk.value());
                    push_u16_be(&mut out, l + 2);
                    push_range(&mut out, data, off as usize, off as usize + l as usize);
                },
                Payload::NoContent(_) => {
                    push_u16_be(&mut out, mk.value());
                },
            }
        }
        i = i + 1;
    }
    Some(Err(ExifError::SosNotFound))
}

/// The outcome of reading the EXIF payload of the image `data` decoded into `segs`.
pub open spec fn jpeg_extract(data: Seq<u8>, segs: Seq<Segment>) -> Option<
    Result<Option<Seq<u8>>, ExifError>,
> {
    match extract_from(data, segs, 0) {
        None => None,
        Some(Ok(Some((_, e)))) => Some(Ok(Some(e))),
        Some(Ok(None)) => Some(Ok(None)),
        Some(Err(e)) => Some(Err(e)),
    }
}

/// The value of an optional payload result, with the vector taken by its view.
pub open spec fn payload_result(r: Result<Option<Vec<u8>>, ExifError>) -> Result<
    Option<Seq<u8>>,
    ExifError,
> {
    match r {
        Ok(Some(v)) => Ok(Some(v@)),
        Ok(None) => Ok(None),
        Err(e) => Err(e),
    }
}

/// A JPEG image held in memory, with its decoded segments.
pub struct Jpeg {
    data: Vec<u8>,
    structures: Vec<Segment>,
}

impl Jpeg {
    /// The bytes of the image.
    pub closed spec fn bytes(&self) -> Seq<u8> {
        self.data@
    }

    /// The segments of the image, up to and including SOS.
    pub closed spec fn segments(&self) -> Seq<Segment> {
        self.structures@
    }

    #[verifier::type_invariant]
    spec fn decoded(&self) -> bool {
        jpeg_decode(self.data@) == Some(Ok::<Seq<Segment>, ExifError>(self.structures@))
    }

    /// Decodes the segments of the image `data`.
    pub fn from_bytes(data: Vec<u8>) -> (r: Result<Jpeg, ExifError>)
        requires
            jpeg_decode(data@) is Some,
        ensures
            match r {
                Ok(j) => j.bytes() == data@ && jpeg_decode(data@) == Some(
                    Ok::<Seq<Segment>, ExifError>(j.segments()),
                ),
                Err(e) => jpeg_decode(data@) == Some(Err::<Seq<Segment>, ExifError>(e)),
            },
    {
        let structures = decode_structures(data.as_slice());
        match structures {
            Ok(structures) => Ok(Jpeg { data, structures }),
            Err(e) => Err(e),
        }
    }

    /// Whether [`Jpeg::from_bytes`] may be called on `data`.
    pub fn can_decode(data: &[u8]) -> (r: bool)
        ensures
            r == (jpeg_decode(data@) is Some),
    {
        can_decode_structures(data)
    }

    /// The decoded segments.
    pub fn structures(&self) -> (r: &Vec<Segment>)
        ensures
            r@ == self.segments(),
    {
        &self.structures
    }

    /// Whether [`ExtractRawExif::extract`] may be called on this image.
    pub fn can_extract(&self) -> (r: bool)
        ensures
            r == (jpeg_extract(self.bytes(), self.segments()) is Some),
    {
        extract_walk(self.data.as_slice(), &self.structures).is_some()
    }

    /// Whether [`CopyWithRawExif::copy_with_raw_exif`] may be called with `exif`.
    pub fn can_copy_with(&self, exif: &[u8]) -> (r: bool)
        ensures
            r == (jpeg_copy(self.bytes(), self.segments(), exif@) is Some),
    {
        copy_walk(self.data.as_slice(), &self.structures, exif).is_some()
    }
}

impl ExtractRawExif for Jpeg {
    open spec fn extract_requires(&self) -> bool {
        jpeg_extract(self.bytes(), self.segments()) is Some
    }

    /// The payload of the first APP segment that starts with `Exif`, `Exif` included.
    fn extract(&self) -> (r: Result<Option<Vec<u8>>, ExifError>)
        ensures
            jpeg_extract(self.bytes(), self.segments()) == Some(payload_result(r)),
    {
        match extract_exif(self.data.as_slice(), &self.structures) {
            Ok(Some((_, exif))) => Ok(Some(exif)),
            Ok(None) => Ok(None),
            Err(e) => Err(e),
        }
    }
}

impl CopyWithRawExif for Jpeg {
    open spec fn copy_requires(&self, exif: Seq<u8>) -> bool {
        jpeg_copy(self.bytes(), self.segments(), exif) is Some
    }

    /// The image with its EXIF segment carrying `exif`, or, where it has none, with a new
    /// APP1 segment carrying `exif` right after SOI.
    fn copy_with_raw_exif(&self, exif: &[u8]) -> (r: Result<Vec<u8>, ExifError>)
        ensures
            jpeg_copy(self.bytes(), self.segments(), exif@) == Some(bytes_result(r)),
    {
        match copy_walk(self.data.as_slice(), &self.structures, exif) {
            Some(r) => r,
            None => {
                proof {
                    assert(false);
                }
                Err(ExifError::SosNotFound)
            },
        }
    }
}

/// The segments `segs` from the `i`-th on are laid out in `data` one after the other from
/// `pos`: each marker is followed by its length field and payload (where the marker has
/// one), and the last one is SOS.
pub open spec fn laid_out_from(data: Seq<u8>, segs: Seq<Segment>, i: int, pos: int) -> bool
    decreases segs.len() - i,
{
    &&& 0 <= i < segs.len()
    &&& 0 <= pos
    &&& pos + 2 <= data.len()
    &&& be16(data, pos) == marker_value(segs[i].0)
    &&& marker_has_payload(segs[i].0) == (segs[i].1 is Content)
    &&& match segs[i].1 {
        Payload::NoContent(p) => {
            &&& p == pos + 2
            &&& if segs[i].0 == Marker::SOS {
                i == segs.len() - 1
            } else {
                laid_out_from(data, segs, i + 1, pos + 2)
            }
        },
        Payload::Content(off, l) => {
            &&& segs[i].0 != Marker::SOS
            &&& pos + 4 <= data.len()
            &&& off == pos + 4
            &&& be16(data, pos + 2) == l + 2
            &&& laid_out_from(data, segs, i + 1, off + l)
        },
    }
}

proof fn lemma_decode_lays_out(data: Seq<u8>, pos: int, acc: Seq<Segment>, segs: Seq<Segment>)
    requires
        decode_from(data, pos, acc) == Some(Ok::<Seq<Segment>, ExifError>(segs)),
        data.len() <= usize::MAX,
    ensures
        acc.len() < segs.len(),
        segs.subrange(0, acc.len() as int) == acc,
        laid_out_from(data, segs, acc.len() as int, pos),
    decreases data.len() + 0x1_0004 - pos,
{
    let v = be16(data, pos) as u16;
    let m = marker_from_value(v).unwrap();
    lemma_marker_value_roundtrip(m, v);
    let p = pos + 2;
    if !marker_has_payload(m) {
        let acc2 = acc.push((m, Payload::NoContent(p as u64)));
        if m == Marker::SOS {
            assert(segs == acc2);
            assert(segs.subrange(0, acc.len() as int) =~= acc);
        } else {
            lemma_decode_lays_out(data, p, acc2, segs);
            assert(segs[acc.len() as int] == acc2[acc.len() as int]);
            assert(segs.subrange(0, acc.len() as int) =~= acc2.subrange(0, acc.len() as int));
        }
    } else {
        let plen = be16(data, p) - 2;
        let acc2 = acc.push((m, Payload::Content((p + 2) as u64, plen as u16)));
        lemma_decode_lays_out(data, p + 2 + plen, acc2, segs);
        assert(segs[acc.len() as int] == acc2[acc.len() as int]);
        assert(segs.subrange(0, acc.len() as int) =~= acc2.subrange(0, acc.len() as int));
    }
}

proof fn lemma_copy_laid_out(data: Seq<u8>, segs: Seq<Segment>, i: int, pos: int, k: int, e: Seq<u8>)
    requires
        laid_out_from(data, segs, i, pos),
        0 <= k < segs.len(),
        segs[k].1 matches Payload::Content(off, l) && off + l <= data.len() && data.subrange(
            off as int,
            off + l,
        ) == e,
    ensures
        copy_from(data, segs, i, k, e, data.subrange(0, pos)) == Some(
            Ok::<Seq<u8>, ExifError>(data),
        ),
    decreases segs.len() - i,
{
    let (mk, p) = segs[i];
    lemma_u16_bytes_of_be16(data, pos);
    let head = data.subrange(0, pos) + u16_bytes(marker_value(mk));
    assert(head =~= data.subrange(0, pos + 2));
    match p {
        Payload::NoContent(q) => {
            if i == k {
                assert(false);
            } else if mk == Marker::SOS {
                if q >= data.len() {
                    assert(head =~= data);
                } else {
                    assert(head + data.subrange(q as int, data.len() as int) =~= data);
                }
            } else {
                lemma_copy_laid_out(data, segs, i + 1, pos + 2, k, e);
            }
        },
        Payload::Content(off, l) => {
            lemma_u16_bytes_of_be16(data, pos + 2);
            assert(laid_out_from(data, segs, i + 1, off + l));
            assert(off + l + 2 <= data.len());
            let next = head + u16_bytes((l + 2) as u16) + data.subrange(off as int, off + l);
            assert(next =~= data.subrange(0, off + l));
            if i == k {
                assert(data.subrange(off as int, off + l) == e);
                assert(e.len() == l);
                assert((e.len() as u16) == l);
            }
            lemma_copy_laid_out(data, segs, i + 1, off + l, k, e);
        },
    }
}

/// Copying an image with the EXIF payload read from it gives the image back, byte for
/// byte.
pub proof fn lemma_copy_with_own_exif_is_identity(
    data: Seq<u8>,
    segs: Seq<Segment>,
    m: Marker,
    e: Seq<u8>,
)
    requires
        data.len() <= usize::MAX,
        jpeg_decode(data) == Some(Ok::<Seq<Segment>, ExifError>(segs)),
        extract_from(data, segs, 0) == Some(
            Ok::<Option<(Marker, Seq<u8>)>, ExifError>(Some((m, e))),
        ),
    ensures
        jpeg_copy(data, segs, e) == Some(Ok::<Seq<u8>, ExifError>(data)),
{
    lemma_decode_lays_out(data, 0, Seq::empty(), segs);
    lemma_find_exif(data, segs, 0);
    let k = find_exif_from(data, segs, 0)->Some_0->Ok_0->Some_0;
    assert(copy_plan(data, segs) == (segs, k));
    assert(data.subrange(0, 0) =~= Seq::<u8>::empty());
    lemma_copy_laid_out(data, segs, 0, 0, k, e);
}

} // verus!
