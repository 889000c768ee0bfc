//! The marker codes of JPEG images, held to the codes that ITU-T T.81 (Table B.1) gives
//! them: what an image made of SOI, one marker segment and SOS decodes into.

use vstd::prelude::*;

use crate::bytes::{lemma_u16_bytes_read_back, u16_bytes};
use crate::error::ExifError;
use crate::jpeg::{
    jpeg_decode, lemma_marker_value_roundtrip, marker_has_payload, marker_is_app, marker_value,
    Marker, Payload, Segment,
};

verus! {

/// An image of SOI (`FF D8`), one segment with the marker code `code`, a length field and
/// the payload `p`, then SOS (`FF DA`) and whatever `rest` follows it.
pub open spec fn one_segment_image(code: u16, p: Seq<u8>, rest: Seq<u8>) -> Seq<u8> {
    seq![0xffu8, 0xd8u8] + u16_bytes(code) + u16_bytes((p.len() + 2) as u16) + p + seq![
        0xffu8,
        0xdau8,
    ] + rest
}

/// What [`one_segment_image`] decodes into where its segment's marker is `m`: SOI, `m`
/// with the payload at offset 6 and of `p`'s length, and SOS.
pub open spec fn one_segment_segments(m: Marker, p: Seq<u8>) -> Seq<Segment> {
    seq![
        (Marker::SOI, Payload::NoContent(2)),
        (m, Payload::Content(6, p.len() as u16)),
        (Marker::SOS, Payload::NoContent((p.len() + 8) as u64)),
    ]
}

/// The image of SOI, a segment of code `code` with payload `p`, and SOS decodes into SOI,
/// the marker `m`, and SOS.
pub open spec fn decodes_as(code: u16, m: Marker, p: Seq<u8>, rest: Seq<u8>) -> bool {
    jpeg_decode(one_segment_image(code, p, rest)) == Some(
        Ok::<Seq<Segment>, ExifError>(one_segment_segments(m, p)),
    )
}

/// A segment of any marker that carries a payload, between SOI and SOS, decodes as that
/// marker with its payload's place, whatever the payload and whatever follows SOS.
pub proof fn lemma_segment_decodes(m: Marker, p: Seq<u8>, rest: Seq<u8>)
    requires
        marker_has_payload(m),
        p.len() + 2 <= 0xffff,
    ensures
        decodes_as(marker_value(m), m, p, rest),
{
    let code = marker_value(m);
    let l = (p.len() + 2) as u16;
    let data = one_segment_image(code, p, rest);
    let n = p.len() as int;
    lemma_u16_bytes_read_back(code);
    lemma_u16_bytes_read_back(l);
    lemma_marker_value_roundtrip(m, code);
    lemma_marker_value_roundtrip(Marker::SOI, 0xffd8);
    lemma_marker_value_roundtrip(Marker::SOS, 0xffda);
    assert(data.len() == n + 8 + rest.len());
    assert(data[0] == 0xff && data[1] == 0xd8);
    assert(data[2] == u16_bytes(code)[0] && data[3] == u16_bytes(code)[1]);
    assert(data[4] == u16_bytes(l)[0] && data[5] == u16_bytes(l)[1]);
    assert(data[n + 6] == 0xff && data[n + 7] == 0xda);
    let s1 = seq![(Marker::SOI, Payload::NoContent(2))];
    let s2 = s1.push((m, Payload::Content(6, n as u16)));
    let s3 = s2.push((Marker::SOS, Payload::NoContent((n + 8) as u64)));
    assert(s1 =~= Seq::<Segment>::empty().push((Marker::SOI, Payload::NoContent(2))));
    assert(s3 =~= one_segment_segments(m, p));
    assert(crate::jpeg::decode_from(data, n + 6, s2) == Some(Ok::<Seq<Segment>, ExifError>(s3)));
    assert(crate::jpeg::decode_from(data, 2, s1) == crate::jpeg::decode_from(data, n + 6, s2));
    assert(crate::jpeg::decode_from(data, 0, Seq::empty()) == crate::jpeg::decode_from(data, 2, s1));
}

/// The marker codes of T.81: every marker that carries a payload is recognised under its
/// standard code, `FF C0` to `FF CF` for the start-of-frame markers `SOF0`..`SOF15` with
/// `FF C4` for `DHT` among them, `FF DB` for `DQT`, `FF DD` for `DRI`, `FF E1` to `FF EF`
/// for `APP1`..`APP15` and `FF FE` for `COM`: an image of SOI, one such segment with any
/// payload, and SOS, followed by anything, decodes into SOI, that marker, and SOS.
pub proof fn lemma_standard_marker_codes(p: Seq<u8>, rest: Seq<u8>)
    requires
        p.len() + 2 <= 0xffff,
    ensures
        decodes_as(0xffc0, Marker::SOF0, p, rest),
        decodes_as(0xffc1, Marker::SOF1, p, rest),
        decodes_as(0xffc2, Marker::SOF2, p, rest),
        decodes_as(0xffc3, Marker::SOF3, p, rest),
        decodes_as(0xffc4, Marker::DHT, p, rest),
        decodes_as(0xffc5, Marker::SOF5, p, rest),
        decodes_as(0xffc6, Marker::SOF6, p, rest),
        decodes_as(0xffc7, Marker::SOF7, p, rest),
        decodes_as(0xffc8, Marker::SOF8, p, rest),
        decodes_as(0xffc9, Marker::SOF9, p, rest),
        decodes_as(0xffca, Marker::SOF10, p, rest),
        decodes_as(0xffcb, Marker::SOF11, p, rest),
        decodes_as(0xffcc, Marker::SOF12, p, rest),
        decodes_as(0xffcd, Marker::SOF13, p, rest),
        decodes_as(0xffce, Marker::SOF14, p, rest),
        decodes_as(0xffcf, Marker::SOF15, p, rest),
        decodes_as(0xffdb, Marker::DQT, p, rest),
        decodes_as(0xffdd, Marker::DRI, p, rest),
        decodes_as(0xffe1, Marker::APP1, p, rest),
        decodes_as(0xffe2, Marker::APP2, p, rest),
        decodes_as(0xffe3, Marker::APP3, p, rest),
        decodes_as(0xffe4, Marker::APP4, p, rest),
        decodes_as(0xffe5, Marker::APP5, p, rest),
        decodes_as(0xffe6, Marker::APP6, p, rest),
        decodes_as(0xffe7, Marker::APP7, p, rest),
        decodes_as(0xffe8, Marker::APP8, p, rest),
        decodes_as(0xffe9, Marker::APP9, p, rest),
        decodes_as(0xffea, Marker::APP10, p, rest),
        decodes_as(0xffeb, Marker::APP11, p, rest),
        decodes_as(0xffec, Marker::APP12, p, rest),
        decodes_as(0xffed, Marker::APP13, p, rest),
        decodes_as(0xffee, Marker::APP14, p, rest),
        decodes_as(0xffef, Marker::APP15, p, rest),
        decodes_as(0xfffe, Marker::COM, p, rest),
{
    lemma_segment_decodes(Marker::SOF0, p, rest);
    lemma_segment_decodes(Marker::SOF1, p, rest);
    lemma_segment_decodes(Marker::SOF2, p, rest);
    lemma_segment_decodes(Marker::SOF3, p, rest);
    lemma_segment_decodes(Marker::DHT, p, rest);
    lemma_segment_decodes(Marker::SOF5, p, rest);
    lemma_segment_decodes(Marker::SOF6, p, rest);
    lemma_segment_decodes(Marker::SOF7, p, rest);
    lemma_segment_decodes(Marker::SOF8, p, rest);
    lemma_segment_decodes(Marker::SOF9, p, rest);
    lemma_segment_decodes(Marker::SOF10, p, rest);
    lemma_segment_decodes(Marker::SOF11, p, rest);
    lemma_segment_decodes(Marker::SOF12, p, rest);
    lemma_segment_decodes(Marker::SOF13, p, rest);
    lemma_segment_decodes(Marker::SOF14, p, rest);
    lemma_segment_decodes(Marker::SOF15, p, rest);
    lemma_segment_decodes(Marker::DQT, p, rest);
    lemma_segment_decodes(Marker::DRI, p, rest);
    lemma_segment_decodes(Marker::APP1, p, rest);
    lemma_segment_decodes(Marker::APP2, p, rest);
    lemma_segment_decodes(Marker::APP3, p, rest);
    lemma_segment_decodes(Marker::APP4, p, rest);
    lemma_segment_decodes(Marker::APP5, p, rest);
    lemma_segment_decodes(Marker::APP6, p, rest);
    lemma_segment_decodes(Marker::APP7, p, rest);
    lemma_segment_decodes(Marker::APP8, p, rest);
    lemma_segment_decodes(Marker::APP9, p, rest);
    lemma_segment_decodes(Marker::APP10, p, rest);
    lemma_segment_decodes(Marker::APP11, p, rest);
    lemma_segment_decodes(Marker::APP12, p, rest);
    lemma_segment_decodes(Marker::APP13, p, rest);
    lemma_segment_decodes(Marker::APP14, p, rest);
    lemma_segment_decodes(Marker::APP15, p, rest);
    lemma_segment_decodes(Marker::COM, p, rest);
}

/// The markers without a payload stand under their T.81 codes too: `FF D8` is SOI, `FF DA`
/// is SOS (which ends the decoding) and `FF D9` is EOI, whatever follows.
pub proof fn lemma_standard_bare_codes(rest: Seq<u8>)
    ensures
        jpeg_decode(seq![0xffu8, 0xd8u8, 0xffu8, 0xd9u8, 0xffu8, 0xdau8] + rest) == Some(
            Ok::<Seq<Segment>, ExifError>(
                seq![
                    (Marker::SOI, Payload::NoContent(2)),
                    (Marker::EOI, Payload::NoContent(4)),
                    (Marker::SOS, Payload::NoContent(6)),
                ],
            ),
        ),
{
    let data = seq![0xffu8, 0xd8u8, 0xffu8, 0xd9u8, 0xffu8, 0xdau8] + rest;
    lemma_marker_value_roundtrip(Marker::SOI, 0xffd8);
    lemma_marker_value_roundtrip(Marker::EOI, 0xffd9);
    lemma_marker_value_roundtrip(Marker::SOS, 0xffda);
    assert(data[0] == 0xff && data[1] == 0xd8 && data[2] == 0xff && data[3] == 0xd9);
    assert(data[4] == 0xff && data[5] == 0xda);
    let s1 = seq![(Marker::SOI, Payload::NoContent(2))];
    let s2 = s1.push((Marker::EOI, Payload::NoContent(4)));
    let s3 = s2.push((Marker::SOS, Payload::NoContent(6)));
    assert(s3 =~= seq![
        (Marker::SOI, Payload::NoContent(2)),
        (Marker::EOI, Payload::NoContent(4)),
        (Marker::SOS, Payload::NoContent(6)),
    ]);
    assert(s1 =~= Seq::<Segment>::empty().push((Marker::SOI, Payload::NoContent(2))));
    assert(crate::jpeg::decode_from(data, 4, s2) == Some(Ok::<Seq<Segment>, ExifError>(s3)));
    assert(crate::jpeg::decode_from(data, 2, s1) == crate::jpeg::decode_from(data, 4, s2));
    assert(crate::jpeg::decode_from(data, 0, Seq::empty()) == crate::jpeg::decode_from(data, 2, s1));
}

/// Codes that T.81 gives no segment this decoder reads, or that are no marker at all, stop
/// the decoding right after SOI with `UnknownMarker`: `FF D0` to `FF D7` (RSTn), `FF DC`
/// (DNL), `FF DE`, `FF DF`, `FF E0` (APP0), `FF F0` to `FF FD` (JPGn), `FF FF`, and every
/// code below `FF C0`.
pub proof fn lemma_unknown_codes(v: u16, rest: Seq<u8>)
    requires
        v < 0xffc0 || (0xffd0 <= v <= 0xffd7) || v == 0xffdc || v == 0xffde || v == 0xffdf || v
            == 0xffe0 || (0xfff0 <= v <= 0xfffd) || v == 0xffff,
    ensures
        jpeg_decode(seq![0xffu8, 0xd8u8] + u16_bytes(v) + rest) == Some(
            Err::<Seq<Segment>, ExifError>(ExifError::UnknownMarker(v)),
        ),
{
    let data = seq![0xffu8, 0xd8u8] + u16_bytes(v) + rest;
    lemma_u16_bytes_read_back(v);
    lemma_marker_value_roundtrip(Marker::SOI, 0xffd8);
    assert(data[0] == 0xff && data[1] == 0xd8);
    assert(data[2] == u16_bytes(v)[0] && data[3] == u16_bytes(v)[1]);
    let s1 = seq![(Marker::SOI, Payload::NoContent(2))];
    assert(s1 =~= Seq::<Segment>::empty().push((Marker::SOI, Payload::NoContent(2))));
    assert(crate::jpeg::decode_from(data, 2, s1) == Some(
        Err::<Seq<Segment>, ExifError>(ExifError::UnknownMarker(v)),
    ));
    assert(crate::jpeg::decode_from(data, 0, Seq::empty()) == crate::jpeg::decode_from(data, 2, s1));
}

/// The classes of markers follow their codes: every code starts with the byte `FF`, the
/// application markers are exactly those coded `FF E1` to `FF EF`, and the decoder reads a
/// length field after every marker but SOI (`FF D8`), EOI (`FF D9`) and SOS (`FF DA`),
/// where what follows SOS is left to the scan.
pub proof fn lemma_marker_classes(m: Marker)
    ensures
        marker_value(m) / 0x100 == 0xff,
        marker_is_app(m) <==> 0xffe1 <= marker_value(m) <= 0xffef,
        !marker_has_payload(m) <==> (marker_value(m) == 0xffd8 || marker_value(m) == 0xffd9
            || marker_value(m) == 0xffda),
{
}

} // verus!
