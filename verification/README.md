# kapy_exif

Extraction and replacement of raw EXIF data in JPEG and HEIC images. The library works
on the bytes of an image held in memory and is verified with Verus: each function states
its result over a mathematical model of the image format, and the properties below are
proved as lemmas.

## Layout

- `src/` — the verified library.
  - `jpeg` — markers and segments, the lookup of the EXIF payload, and the copy of an
    image with another payload; `jpeg::rewrite` holds what a copy decodes into.
  - `heic` — the top-level boxes of a HEIC file, the EXIF item, and the copy with another
    payload; `heic::boxes` decodes the `ftyp`, `meta`, `iinf` and `iloc` boxes,
    `heic::copy_with_exif` plans the new media data and rewrites `iloc` fields,
    `heic::add_exif` makes the `meta` box take a new `Exif` item where the file has none,
    `heic::reparse` shows how the `meta` box decodes after a field is written over,
    `heic::roundtrip` and `heic::rewrite` hold the laws of the copy that replaces the
    item, `heic::added_item` those of the copy that adds one.
  - `scoped_reader` — the window of a reader confined to a range.
  - `bytes`, `text`, `error` — big-endian integers, UTF-8 text, and the errors.
- `tests/` — tests on concrete images.
- `app/` — the asynchronous file and reader plumbing, and the bindings to the Exiv2
  library for reading and editing EXIF tags.

## Laws

Each law is proved for the inputs its lemma's `requires` names; the conditions are
summarised here.

- A JPEG image copied with the EXIF payload read from it comes out byte for byte
  unchanged (`jpeg::lemma_copy_with_own_exif_is_identity`), for every image that decodes
  and from which a payload is read.
- A HEIC image copied with the EXIF payload read from it comes out byte for byte
  unchanged (`heic::roundtrip::lemma_copy_with_own_exif_gives_file_back`), where its
  boxes lie back to back with a 64-bit `mdat` header, its item extents fill the media
  data without gaps, and the EXIF item has one extent whose offset field reads 6.
- A JPEG image copied with another EXIF payload (one that starts with `Exif` and whose
  length field fits in 16 bits) decodes, and reading it gives that payload back
  (`jpeg::rewrite::lemma_copy_then_extract`). The EXIF segment is replaced where the image
  has one; otherwise a new APP1 segment is added right after SOI. Every other segment
  keeps its payload, and what follows SOS is carried over.
- A HEIC image copied with another EXIF payload decodes, and reading it gives that
  payload back; the EXIF item stays where it was, and where the new item is no longer than
  the old one, the `meta` box changes only in the EXIF extent's length field
  (`heic::rewrite::lemma_copy_reads_back`).
  This holds where the boxes lie back to back as `ftyp`, `meta`, (`free`,) `mdat` or as
  `ftyp`, `free`, `meta`, `mdat`, with a 64-bit `mdat` header and the `mdat` box up to the
  end of the file; the item extents, sorted, start where the media data starts and do not
  overlap (gaps between them are allowed); the EXIF item has one extent, its new length
  fits its length field, and the items that move have one extent each. Where the extents
  also fill the media data to its end, the `mdat` box grows by as much as the EXIF item
  grew, and the media data is the file's with the EXIF extent replaced
  (`heic::rewrite::lemma_copy_then_extract`).
- A HEIC image without an `Exif` item, copied with an EXIF payload, decodes, and reading
  it gives that payload back; its `iinf` box holds the file's entries and a new one of
  type `Exif`, and its `iloc` box the file's entries, for the same items, and one more
  (`heic::added_item::lemma_add_reads_back`). This holds where the copy succeeds, the
  `iinf` box has version 0, the `iinf` entries and the `iloc` entries (of an `iloc` box of
  version 1 or 2) end where their boxes end, every child of the `meta` box ends within it,
  the `mdat` box starts at the sum of the lengths of `ftyp`, `meta` and (where there is
  one) `free`, and the payload with its header fits the item size limit.
- Decoding a `meta` box after one `iloc` field was written over gives the same box with
  that field holding the value written (`heic::reparse::lemma_meta_reread`).
- JPEG marker values and markers correspond one to one
  (`jpeg::lemma_marker_value_roundtrip`); extents sorted by offset are sorted and are a
  permutation of the input (`heic::copy_with_exif::lemma_sort_by_offset`); a field written
  into a buffer reads back as the value written
  (`heic::copy_with_exif::lemma_overwrite_reads_back`).
