use kapy_exif::error::ExifError;
use kapy_exif::jpeg::{decode_structures, extract_exif, Jpeg, Marker, Payload};
use kapy_exif::{CopyWithRawExif, ExtractRawExif};

fn exif_payload() -> Vec<u8> {
    let mut p = b"Exif\0\0".to_vec();
    p.extend_from_slice(b"MM\0*\0\0\0\x08");
    p
}

fn segment(marker: u16, payload: &[u8]) -> Vec<u8> {
    let mut v = marker.to_be_bytes().to_vec();
    v.extend_from_slice(&((payload.len() + 2) as u16).to_be_bytes());
    v.extend_from_slice(payload);
    v
}

/// SOI, APP1 (EXIF), DQT, SOS, scan data, EOI.
fn sample_jpeg() -> Vec<u8> {
    let mut v = vec![0xff, 0xd8];
    v.extend(segment(0xffe1, &exif_payload()));
    v.extend(segment(0xffdb, &[1, 2, 3, 4]));
    v.extend_from_slice(&[0xff, 0xda, 0x11, 0x22, 0x33, 0xff, 0xd9]);
    v
}

#[test]
fn decode_jpeg_structures() {
    let data = sample_jpeg();
    let s = decode_structures(&data).expect("Failed to decode structures");
    assert_eq!(s.len(), 4);
    assert_eq!(s[0], (Marker::SOI, Payload::NoContent(2)));
    assert_eq!(s[1], (Marker::APP1, Payload::Content(6, 14)));
    assert_eq!(s[2], (Marker::DQT, Payload::Content(24, 4)));
    assert_eq!(s[3], (Marker::SOS, Payload::NoContent(30)));
}

#[test]
fn extract_exif_from_jpeg() {
    let jpeg = Jpeg::from_bytes(sample_jpeg()).expect("Failed to open file");
    let exif = jpeg.extract().expect("Failed to extract exif").expect("Exif not found");
    assert_eq!(exif, exif_payload());
    let found = extract_exif(&sample_jpeg(), jpeg.structures()).unwrap().unwrap();
    assert_eq!(found.0, Marker::APP1);
}

#[test]
fn copy_with_raw_exif_for_jpeg() {
    let data = sample_jpeg();
    let jpeg = Jpeg::from_bytes(data.clone()).expect("Failed to open file");
    let exif = jpeg.extract().expect("Failed to extract exif").expect("Exif not found");
    let copied = jpeg.copy_with_raw_exif(&exif).expect("Failed to copy with raw exif");
    assert_eq!(copied, data);
}

#[test]
fn copy_with_longer_exif_for_jpeg() {
    let jpeg = Jpeg::from_bytes(sample_jpeg()).unwrap();
    let mut exif = exif_payload();
    exif.extend_from_slice(&[9, 9, 9]);
    let copied = jpeg.copy_with_raw_exif(&exif).unwrap();
    let mut expected = vec![0xff, 0xd8];
    expected.extend(segment(0xffe1, &exif));
    expected.extend(segment(0xffdb, &[1, 2, 3, 4]));
    expected.extend_from_slice(&[0xff, 0xda, 0x11, 0x22, 0x33, 0xff, 0xd9]);
    assert_eq!(copied, expected);
    let again = Jpeg::from_bytes(copied).unwrap();
    assert_eq!(again.extract().unwrap().unwrap(), exif);
}

#[test]
fn jpeg_without_exif() {
    let mut v = vec![0xff, 0xd8];
    v.extend(segment(0xffe2, b"ICC_PROFILE\0"));
    v.extend_from_slice(&[0xff, 0xda, 0x00]);
    let jpeg = Jpeg::from_bytes(v).unwrap();
    assert!(jpeg.extract().unwrap().is_none());
    let copied = jpeg.copy_with_raw_exif(&exif_payload()).unwrap();
    let mut expected = vec![0xff, 0xd8];
    expected.extend(segment(0xffe1, &exif_payload()));
    expected.extend(segment(0xffe2, b"ICC_PROFILE\0"));
    expected.extend_from_slice(&[0xff, 0xda, 0x00]);
    assert_eq!(copied, expected);
    let again = Jpeg::from_bytes(copied).unwrap();
    assert_eq!(again.extract().unwrap().unwrap(), exif_payload());
}

#[test]
fn copy_keeps_other_app1_segments() {
    let mut v = vec![0xff, 0xd8];
    v.extend(segment(0xffe1, &exif_payload()));
    v.extend(segment(0xffe1, b"http://ns.adobe.com/xap/1.0/\0<x/>"));
    v.extend_from_slice(&[0xff, 0xda, 0x42]);
    let jpeg = Jpeg::from_bytes(v.clone()).unwrap();
    let exif = jpeg.extract().unwrap().unwrap();
    assert_eq!(jpeg.copy_with_raw_exif(&exif).unwrap(), v);
    let mut longer = exif_payload();
    longer.push(7);
    let copied = jpeg.copy_with_raw_exif(&longer).unwrap();
    let mut expected = vec![0xff, 0xd8];
    expected.extend(segment(0xffe1, &longer));
    expected.extend(segment(0xffe1, b"http://ns.adobe.com/xap/1.0/\0<x/>"));
    expected.extend_from_slice(&[0xff, 0xda, 0x42]);
    assert_eq!(copied, expected);
}

#[test]
fn jpeg_decode_errors() {
    assert!(matches!(decode_structures(&[0xff, 0xd8]), Err(ExifError::PrematureEnd)));
    assert!(matches!(decode_structures(&[0xff, 0x00]), Err(ExifError::UnknownMarker(0xff00))));
    assert!(matches!(decode_structures(&[0xff, 0xda]), Err(ExifError::InvalidSoi)));
    assert!(matches!(decode_structures(&[0xff, 0xd8, 0xff, 0xe1, 0x00]), Err(ExifError::UnexpectedEof)));
    assert!(matches!(
        decode_structures(&[0xff, 0xd8, 0xff, 0xe1, 0x00, 0x08, 1]),
        Err(ExifError::PrematureEnd)
    ));
}

#[test]
fn jpeg_length_field_below_two_is_refused() {
    let data = [0xff, 0xd8, 0xff, 0xe1, 0x00, 0x01, 0xff, 0xda];
    assert!(!Jpeg::can_decode(&data));
    assert!(Jpeg::can_decode(&sample_jpeg()));
}

#[test]
fn jpeg_short_app_payload_is_refused_for_extract() {
    let mut v = vec![0xff, 0xd8];
    v.extend(segment(0xffe1, &[1, 2]));
    v.extend_from_slice(&[0xff, 0xda]);
    let jpeg = Jpeg::from_bytes(v).unwrap();
    assert!(!jpeg.can_extract());
}

#[test]
fn app0_is_not_a_known_marker() {
    assert_eq!(Marker::from_value(0xffe0), None);
}

#[test]
fn marker_values() {
    assert_eq!(Marker::from_value(0xffd8), Some(Marker::SOI));
    assert_eq!(Marker::from_value(0xffef), Some(Marker::APP15));
    assert_eq!(Marker::from_value(0xffd0), None);
    assert_eq!(Marker::COM.value(), 0xfffe);
    assert!(Marker::APP1.is_app_segment());
    assert!(!Marker::SOS.is_app_segment());
    assert!(!Marker::SOS.has_payload());
    assert!(Marker::DQT.has_payload());
}

#[test]
fn jpeg_copy_refuses_payload_too_long_for_a_segment() {
    let jpeg = Jpeg::from_bytes(sample_jpeg()).unwrap();
    let mut exif = exif_payload();
    exif.resize(0xffff - 1, 0);
    assert!(matches!(jpeg.copy_with_raw_exif(&exif), Err(ExifError::ExifTooLarge(n)) if n == 0xfffe));
    exif.truncate(0xffff - 2);
    let copied = jpeg.copy_with_raw_exif(&exif).unwrap();
    assert_eq!(Jpeg::from_bytes(copied).unwrap().extract().unwrap().unwrap(), exif);
}
