use kapy_exif::error::ExifError;
use kapy_exif::heic::boxes::{get_version_and_flags, Ptr};
use kapy_exif::heic::copy_with_exif::{sources_len, ItemLocationPtr, Source};
use kapy_exif::heic::{FullBox, Heic};
use kapy_exif::{CopyWithRawExif, ExtractRawExif};

fn boxed(kind: &[u8; 4], data: &[u8]) -> Vec<u8> {
    let mut v = ((data.len() + 8) as u32).to_be_bytes().to_vec();
    v.extend_from_slice(kind);
    v.extend_from_slice(data);
    v
}

fn infe(id: u16, kind: &[u8; 4]) -> Vec<u8> {
    let mut d = vec![2, 0, 0, 0];
    d.extend_from_slice(&id.to_be_bytes());
    d.extend_from_slice(&[0, 0]);
    d.extend_from_slice(kind);
    d.push(0);
    boxed(b"infe", &d)
}

fn tiff() -> Vec<u8> {
    b"MM\0*\0\0\0\x08".to_vec()
}

/// ftyp, meta (iinf with an Exif item 1 and an image item 2, iloc with one extent each),
/// and a large-size mdat holding the Exif item, `gap` filler bytes, and the image item.
fn heic_with_gap(gap: usize) -> Vec<u8> {
    let ftyp = boxed(b"ftyp", b"heic\0\0\0\0mif1");
    let mut iinf_data = vec![0, 0, 0, 0, 0, 2];
    iinf_data.extend(infe(1, b"Exif"));
    iinf_data.extend(infe(2, b"hvc1"));
    let iinf = boxed(b"iinf", &iinf_data);
    let exif_item_len: u32 = 4 + 6 + tiff().len() as u32;
    let image: Vec<u8> = vec![0xaa, 0xbb, 0xcc, 0xdd];
    // offsets are known once the lengths of ftyp and meta are: computed below
    let meta_len = 8 + 4 + iinf.len() + (8 + 4 + 2 + 2 + 2 * 16);
    let mdat_start = ftyp.len() + meta_len;
    let content_start = (mdat_start + 16) as u32;
    let image_start = content_start + exif_item_len + gap as u32;
    let mut iloc_data = vec![1, 0, 0, 0, 0x44, 0x00, 0, 2];
    for (id, off, len) in [(1u16, content_start, exif_item_len), (2u16, image_start, 4)] {
        iloc_data.extend_from_slice(&id.to_be_bytes());
        iloc_data.extend_from_slice(&[0, 0, 0, 0, 0, 1]);
        iloc_data.extend_from_slice(&off.to_be_bytes());
        iloc_data.extend_from_slice(&len.to_be_bytes());
    }
    let iloc = boxed(b"iloc", &iloc_data);
    let mut meta_data = vec![0, 0, 0, 0];
    meta_data.extend(iinf);
    meta_data.extend(iloc);
    let meta = boxed(b"meta", &meta_data);
    assert_eq!(meta.len(), meta_len);
    let mut content = vec![0, 0, 0, 6];
    content.extend_from_slice(b"Exif\0\0");
    content.extend(tiff());
    content.extend(vec![0xeeu8; gap]);
    content.extend(image);
    let mut v = ftyp;
    v.extend(meta);
    v.extend_from_slice(&[0, 0, 0, 1]);
    v.extend_from_slice(b"mdat");
    v.extend_from_slice(&((content.len() + 16) as u64).to_be_bytes());
    v.extend(content);
    v
}

fn sample_heic() -> Vec<u8> {
    heic_with_gap(0)
}

#[test]
fn read_full_box() {
    let data = sample_heic();
    let fb = FullBox::from_bytes(&data).expect("must not abort").expect("failed to read full box");
    assert_eq!(fb.ftyp.full_ptr, Ptr { offset: 0, length: 20 });
    assert_eq!(fb.ftyp.major_brand, "heic");
    assert_eq!(fb.ftyp.compatible_brands, vec!["mif1".to_string()]);
    assert_eq!(fb.media.full_ptr.length, 16 + 22);
    assert!(fb.free.is_none());
    let iinf = fb.meta.iinf_box.as_ref().unwrap();
    assert_eq!(iinf.entries.len(), 2);
    assert_eq!(iinf.entries[0].item_type, "Exif");
    assert_eq!(fb.meta.get_item_id("Exif"), Some(1));
    assert_eq!(fb.meta.get_item_id("hvc1"), Some(2));
    assert_eq!(fb.meta.get_item_id("mime"), None);
    let ptrs = fb.meta.get_item_ptr("hvc1").unwrap();
    assert_eq!(ptrs, vec![Ptr { offset: fb.media.full_ptr.offset + 16 + 18, length: 4 }]);
}

#[test]
fn heic_extract_exif_from_heic() {
    let heic = Heic::from_bytes(sample_heic()).expect("Failed to open file");
    let exif = heic.extract().expect("Failed to extract exif").expect("Exif data must be existed");
    assert_eq!(exif, tiff());
}

#[test]
fn extract_exif_extract_exif_from_heic() {
    let heic = Heic::from_bytes(sample_heic()).expect("Failed to open file");
    assert!(heic.can_extract());
    let (id, (ptr, _)) = heic.exif_ptr().expect("Exif item must be there");
    assert_eq!(id, 1);
    let exif = heic.extract().expect("Failed to extract exif").expect("Exif data must be existed");
    assert_eq!(ptr.length, 4 + 6 + exif.len());
    assert_eq!(exif, tiff());
}

#[test]
fn copy_with_raw_exif_for_heic() {
    let data = sample_heic();
    let heic = Heic::from_bytes(data.clone()).expect("Failed to open file");
    let exif = heic.extract().unwrap().unwrap();
    let copied = heic.copy_with_raw_exif(&exif).expect("Failed to copy with raw exif");
    assert_eq!(copied, data);
}

#[test]
fn copy_with_extended_exif_for_heic() {
    let heic = Heic::from_bytes(sample_heic()).expect("Failed to open file");
    let expected_mdat_length = heic.full_box().media.full_ptr.length + 1234;
    let mut exif = heic.extract().unwrap().unwrap();
    exif.extend_from_slice(&vec![0u8; 1234]);
    let expected_exif_length = exif.len() + 10;
    let copied = heic.copy_with_raw_exif(&exif).expect("Failed to copy with raw exif");
    let again = Heic::from_bytes(copied.clone()).expect("failed to decode full box");
    assert_eq!(expected_mdat_length, again.full_box().media.full_ptr.length);
    let item = again.full_box().meta.get_item("Exif").expect("Exif not found");
    assert_eq!(item.len(), 1);
    assert_eq!(item[0].1.extent_length.value() as usize, expected_exif_length);
    assert_eq!(again.extract().unwrap().unwrap(), exif);
    // the image item moved by the growth of the Exif item, and kept its bytes
    let image = again.full_box().meta.get_item_ptr("hvc1").unwrap();
    let p = image[0];
    let bytes = &copied[p.offset as usize..p.offset as usize + p.length];
    assert_eq!(bytes, &[0xaa, 0xbb, 0xcc, 0xdd]);
}

#[test]
fn copy_with_shorter_exif_pads_with_zeros() {
    let heic = Heic::from_bytes(sample_heic()).unwrap();
    let exif = vec![7u8; 3];
    let copied = heic.copy_with_raw_exif(&exif).unwrap();
    assert_eq!(copied.len(), sample_heic().len());
    let again = Heic::from_bytes(copied.clone()).unwrap();
    assert_eq!(again.extract().unwrap().unwrap(), exif);
    let image = again.full_box().meta.get_item_ptr("hvc1").unwrap();
    assert_eq!(&copied[image[0].offset as usize..image[0].offset as usize + 4], &[0xaa, 0xbb, 0xcc, 0xdd]);
}

#[test]
fn heic_errors() {
    assert!(matches!(FullBox::from_bytes(&[]), Some(Err(ExifError::MissingRequiredBoxes))));
    let unknown = boxed(b"abcd", &[]);
    assert!(matches!(FullBox::from_bytes(&unknown), Some(Err(ExifError::UnknownBoxType(0x6162_6364)))));
    let short_ftyp = boxed(b"ftyp", &[1, 2, 3, 4]);
    assert!(matches!(FullBox::from_bytes(&short_ftyp), Some(Err(ExifError::FileTypeTooShort))));
    let bad_utf8 = boxed(&[0xff, 0xfe, 0x00, 0x01], &[]);
    assert!(matches!(FullBox::from_bytes(&bad_utf8), Some(Err(ExifError::InvalidBoxType))));
    let tiny = vec![0, 0, 0, 4, b'f', b'r', b'e', b'e'];
    assert!(FullBox::from_bytes(&tiny).is_none());
    assert!(!Heic::can_decode(&tiny));
}

#[test]
fn version_and_flags() {
    assert_eq!(get_version_and_flags(&[2, 0x01, 0x02, 0x03]).unwrap(), (2, 0x010203));
    assert!(matches!(get_version_and_flags(&[1, 2, 3]), Err(ExifError::VersionAndFlagsTooShort)));
}

#[test]
fn sources_length() {
    let data = [1u8, 2, 3];
    let s = vec![
        Source::OriginFile(ItemLocationPtr { item_id: 1, ptr: Ptr { offset: 0, length: 10 } }),
        Source::Data(&data),
        Source::Zero(5),
    ];
    assert_eq!(sources_len(&s), 18);
}

#[test]
fn gap_between_extents_becomes_zeros() {
    let data = heic_with_gap(2);
    let heic = Heic::from_bytes(data.clone()).unwrap();
    let exif = heic.extract().unwrap().unwrap();
    let copied = heic.copy_with_raw_exif(&exif).unwrap();
    let mdat_start = heic.full_box().media.full_ptr.offset as usize;
    let content_start = mdat_start + 16;
    let exif_item_len = 4 + 6 + tiff().len();
    let expected_end = content_start + exif_item_len;
    let image_start = expected_end + 2;
    // the gap is written as as many zeros as lie between the Exif item's end and the image
    let zeros = image_start - expected_end;
    let total = exif_item_len + zeros + 4;
    let mut expected = data[..mdat_start].to_vec();
    expected.extend_from_slice(&[0, 0, 0, 1]);
    expected.extend_from_slice(b"mdat");
    expected.extend_from_slice(&((total + 16) as u64).to_be_bytes());
    expected.extend_from_slice(&data[content_start..expected_end]);
    expected.extend(vec![0u8; zeros]);
    expected.extend_from_slice(&[0xaa, 0xbb, 0xcc, 0xdd]);
    assert_eq!(copied, expected);
}

#[test]
fn heic_without_exif_item_has_no_payload() {
    let mut data = sample_heic();
    let at = data.windows(4).position(|w| w == b"Exif").unwrap();
    data[at..at + 4].copy_from_slice(b"mime");
    let heic = Heic::from_bytes(data).unwrap();
    assert!(heic.can_extract());
    assert_eq!(heic.extract().unwrap(), None);
}

#[test]
fn copy_across_a_gap_reads_back_and_keeps_items_in_place() {
    let heic = Heic::from_bytes(heic_with_gap(3)).unwrap();
    let mut exif = heic.extract().unwrap().unwrap();
    exif.extend_from_slice(&[5u8; 40]);
    let copied = heic.copy_with_raw_exif(&exif).unwrap();
    let again = Heic::from_bytes(copied.clone()).unwrap();
    assert_eq!(again.extract().unwrap().unwrap(), exif);
    let image = again.full_box().meta.get_item_ptr("hvc1").unwrap();
    let p = image[0];
    assert_eq!(&copied[p.offset as usize..p.offset as usize + p.length], &[0xaa, 0xbb, 0xcc, 0xdd]);
    // the gap keeps its width: zeros between the Exif item and the image item
    let exif_item = again.full_box().meta.get_item_ptr("Exif").unwrap()[0];
    let gap = &copied[exif_item.offset as usize + exif_item.length..p.offset as usize];
    assert_eq!(gap, &[0u8, 0, 0]);
}

#[test]
fn copy_adds_exif_item_to_heic_without_one() {
    let mut data = sample_heic();
    let at = data.windows(4).position(|w| w == b"Exif").unwrap();
    data[at..at + 4].copy_from_slice(b"mime");
    let heic = Heic::from_bytes(data.clone()).unwrap();
    assert_eq!(heic.extract().unwrap(), None);
    let exif = tiff();
    let copied = heic.copy_with_raw_exif(&exif).unwrap();
    let again = Heic::from_bytes(copied.clone()).unwrap();
    assert_eq!(again.extract().unwrap().unwrap(), exif);
    // the items that were there keep their bytes
    let image = again.full_box().meta.get_item_ptr("hvc1").unwrap()[0];
    assert_eq!(&copied[image.offset as usize..image.offset as usize + image.length], &[0xaa, 0xbb, 0xcc, 0xdd]);
    let old_item = heic.full_box().meta.get_item_ptr("mime").unwrap()[0];
    let moved_item = again.full_box().meta.get_item_ptr("mime").unwrap()[0];
    assert_eq!(
        &copied[moved_item.offset as usize..moved_item.offset as usize + moved_item.length],
        &data[old_item.offset as usize..old_item.offset as usize + old_item.length]
    );
    // copying the result again replaces the added item
    let mut longer = exif.clone();
    longer.extend_from_slice(&[1, 2, 3]);
    let third = again.copy_with_raw_exif(&longer).unwrap();
    assert_eq!(Heic::from_bytes(third).unwrap().extract().unwrap().unwrap(), longer);
}

#[test]
fn heic_exif_item_without_extent_is_an_error() {
    let ftyp = boxed(b"ftyp", b"heic\0\0\0\0mif1");
    let mut iinf_data = vec![0, 0, 0, 0, 0, 1];
    iinf_data.extend(infe(1, b"Exif"));
    let iinf = boxed(b"iinf", &iinf_data);
    // iloc version 1, 4-byte offsets and lengths, one entry for item 1 with no extent
    let iloc = boxed(b"iloc", &[1, 0, 0, 0, 0x44, 0x00, 0, 1, 0, 1, 0, 0, 0, 0, 0, 0]);
    let mut meta_data = vec![0, 0, 0, 0];
    meta_data.extend(iinf);
    meta_data.extend(iloc);
    let mut data = ftyp;
    data.extend(boxed(b"meta", &meta_data));
    data.extend_from_slice(&[0, 0, 0, 1]);
    data.extend_from_slice(b"mdat");
    data.extend_from_slice(&20u64.to_be_bytes());
    data.extend_from_slice(&[1, 2, 3, 4]);
    let heic = Heic::from_bytes(data).unwrap();
    assert!(heic.can_extract());
    assert!(matches!(heic.extract(), Err(ExifError::ExtentNotFound)));
}

/// ftyp, then (when `free_first`) a free box, meta, mdat: the mdat holds the image item,
/// `gap` filler bytes, then the Exif item.
fn heic_image_first(free_first: bool, gap: usize) -> Vec<u8> {
    let ftyp = boxed(b"ftyp", b"heic\0\0\0\0mif1");
    let free = boxed(b"free", &[0u8; 6]);
    let mut iinf_data = vec![0, 0, 0, 0, 0, 2];
    iinf_data.extend(infe(1, b"Exif"));
    iinf_data.extend(infe(2, b"hvc1"));
    let iinf = boxed(b"iinf", &iinf_data);
    let exif_item_len: u32 = 4 + 6 + tiff().len() as u32;
    let image: Vec<u8> = vec![0xaa, 0xbb, 0xcc, 0xdd];
    let meta_len = 8 + 4 + iinf.len() + (8 + 4 + 2 + 2 + 2 * 16);
    let mdat_start = ftyp.len() + meta_len + if free_first { free.len() } else { 0 };
    let content_start = (mdat_start + 16) as u32;
    let exif_start = content_start + 4 + gap as u32;
    let mut iloc_data = vec![1, 0, 0, 0, 0x44, 0x00, 0, 2];
    for (id, off, len) in [(1u16, exif_start, exif_item_len), (2u16, content_start, 4)] {
        iloc_data.extend_from_slice(&id.to_be_bytes());
        iloc_data.extend_from_slice(&[0, 0, 0, 0, 0, 1]);
        iloc_data.extend_from_slice(&off.to_be_bytes());
        iloc_data.extend_from_slice(&len.to_be_bytes());
    }
    let iloc = boxed(b"iloc", &iloc_data);
    let mut meta_data = vec![0, 0, 0, 0];
    meta_data.extend(iinf);
    meta_data.extend(iloc);
    let meta = boxed(b"meta", &meta_data);
    assert_eq!(meta.len(), meta_len);
    let mut content = image;
    content.extend(vec![0xeeu8; gap]);
    content.extend_from_slice(&[0, 0, 0, 6]);
    content.extend_from_slice(b"Exif\0\0");
    content.extend(tiff());
    let mut v = ftyp;
    if free_first {
        v.extend(free);
    }
    v.extend(meta);
    v.extend_from_slice(&[0, 0, 0, 1]);
    v.extend_from_slice(b"mdat");
    v.extend_from_slice(&((content.len() + 16) as u64).to_be_bytes());
    v.extend(content);
    v
}

#[test]
fn copy_reads_back_with_free_box_before_meta_and_gap_before_exif() {
    let data = heic_image_first(true, 5);
    let heic = Heic::from_bytes(data.clone()).unwrap();
    assert!(heic.full_box().free.is_some());
    let mut exif = heic.extract().unwrap().unwrap();
    exif.extend_from_slice(&[9u8; 20]);
    let copied = heic.copy_with_raw_exif(&exif).unwrap();
    assert_eq!(copied.len(), data.len() + 20);
    let again = Heic::from_bytes(copied.clone()).unwrap();
    assert_eq!(again.extract().unwrap().unwrap(), exif);
    // the mdat box stays where it was, and the gap before the Exif item becomes zeros
    assert_eq!(again.full_box().media.full_ptr.offset, heic.full_box().media.full_ptr.offset);
    let image = again.full_box().meta.get_item_ptr("hvc1").unwrap()[0];
    assert_eq!(&copied[image.offset as usize..image.offset as usize + 4], &[0xaa, 0xbb, 0xcc, 0xdd]);
    let start = image.offset as usize + 4;
    assert_eq!(&copied[start..start + 5], &[0u8; 5]);
}
