//! What a copy with another EXIF payload holds: an image whose segments decode as the
//! input image's did (with a new APP1 segment after SOI where it had no EXIF segment),
//! and from which that payload is read back.

use vstd::prelude::*;

use crate::bytes::{be16, lemma_u16_bytes_read_back, u16_bytes};
use crate::error::ExifError;
use crate::jpeg::{
    copy_from, copy_plan, decode_from, exif_tag, extract_from, find_exif_from, jpeg_copy,
    jpeg_decode, jpeg_extract, laid_out_from, lemma_decode_lays_out, lemma_find_exif,
    lemma_marker_value_roundtrip, marker_from_value, marker_has_payload, marker_is_app,
    marker_value, new_exif_segment, no_exif_between, with_exif_segment, Marker, Payload,
    Segment,
};

verus! {

/// The number of bytes the copy writes for the `i`-th of the segments `segs` (up to SOS,
/// whose scan data follows), where the `k`-th carries `n` bytes of payload.
pub open spec fn written_len(segs: Seq<Segment>, i: int, k: int, n: int) -> int {
    2 + if i == k {
        2 + n
    } else {
        match segs[i].1 {
            Payload::Content(_, l) => 2 + l,
            Payload::NoContent(_) => 0,
        }
    }
}

/// Where the copy writes the marker of the `i`-th of the segments `segs`.
pub open spec fn written_at(segs: Seq<Segment>, i: int, k: int, n: int) -> int
    decreases i,
{
    if i <= 0 {
        0
    } else {
        written_at(segs, i - 1, k, n) + written_len(segs, i - 1, k, n)
    }
}

/// The segments of the copy that writes the segments `segs`, the `k`-th carrying `n` bytes
/// of payload: the same markers, with the payloads where the copy writes them.
pub open spec fn rewritten_segments(segs: Seq<Segment>, k: int, n: int) -> Seq<Segment> {
    Seq::new(
        segs.len(),
        |j: int|
            {
                let q = written_at(segs, j, k, n) + 2;
                (
                    segs[j].0,
                    if j == k {
                        Payload::Content((q + 2) as u64, n as u16)
                    } else {
                        match segs[j].1 {
                            Payload::Content(_, l) => Payload::Content((q + 2) as u64, l),
                            Payload::NoContent(_) => Payload::NoContent(q as u64),
                        }
                    },
                )
            },
    )
}

/// The segments `segs` from the `i`-th on are laid out in `data` from `pos` as
/// [`laid_out_from`] says, except the `k`-th: a payload segment (not SOS) that takes `w`
/// bytes whatever they hold.
pub open spec fn laid_out_but(data: Seq<u8>, segs: Seq<Segment>, i: int, pos: int, k: int, w: int) -> bool
    decreases segs.len() - i,
{
    &&& 0 <= i < segs.len()
    &&& 0 <= pos
    &&& if i == k {
        &&& pos <= data.len()
        &&& 0 <= w
        &&& segs[i].1 is Content
        &&& marker_has_payload(segs[i].0)
        &&& segs[i].0 != Marker::SOS
        &&& laid_out_but(data, segs, i + 1, pos + w, k, w)
    } else {
        &&& pos + 2 <= data.len()
        &&& be16(data, pos) == marker_value(segs[i].0)
        &&& marker_has_payload(segs[i].0) == (segs[i].1 is Content)
        &&& match segs[i].1 {
            Payload::NoContent(p) => {
                &&& p == pos + 2
                &&& if segs[i].0 == Marker::SOS {
                    i == segs.len() - 1
                } else {
                    laid_out_but(data, segs, i + 1, pos + 2, k, w)
                }
            },
            Payload::Content(off, l) => {
                &&& segs[i].0 != Marker::SOS
                &&& pos + 4 <= data.len()
                &&& off == pos + 4
                &&& be16(data, pos + 2) == l + 2
                &&& laid_out_but(data, segs, i + 1, off + l, k, w)
            },
        }
    }
}

/// Segments laid out in the image are laid out but for their `k`-th, a payload segment
/// that takes its own bytes.
proof fn lemma_laid_out_but_own(data: Seq<u8>, segs: Seq<Segment>, i: int, pos: int, k: int, w: int)
    requires
        laid_out_from(data, segs, i, pos),
        k < i || (i <= k < segs.len() && (segs[k].1 matches Payload::Content(_, l) && w == 4 + l)),
    ensures
        laid_out_but(data, segs, i, pos, k, w),
    decreases segs.len() - i,
{
    match segs[i].1 {
        Payload::NoContent(_) => {
            if segs[i].0 != Marker::SOS {
                lemma_laid_out_but_own(data, segs, i + 1, pos + 2, k, w);
            } else if i < k {
                assert(false);
            }
        },
        Payload::Content(off, l) => {
            lemma_laid_out_but_own(data, segs, i + 1, off + l, k, w);
        },
    }
}

/// Segments laid out in the image from the `i`-th on (`i >= 1`) are laid out, in the
/// segments with a new EXIF segment, from the `i + 1`-th on, but for that new segment.
proof fn lemma_laid_out_but_added(data: Seq<u8>, segs: Seq<Segment>, i: int, pos: int)
    requires
        laid_out_from(data, segs, i, pos),
        1 <= i,
    ensures
        laid_out_but(data, with_exif_segment(segs), i + 1, pos, 1, 0),
    decreases segs.len() - i,
{
    let t = with_exif_segment(segs);
    assert(t.len() == segs.len() + 1);
    assert(t[i + 1] == segs[i]);
    match segs[i].1 {
        Payload::NoContent(_) => {
            if segs[i].0 != Marker::SOS {
                lemma_laid_out_but_added(data, segs, i + 1, pos + 2);
            }
        },
        Payload::Content(off, l) => {
            lemma_laid_out_but_added(data, segs, i + 1, off + l);
        },
    }
}

/// The segments laid out from the `i`-th on decode, after the segments before it, into
/// `segs`.
proof fn lemma_laid_out_decodes(data: Seq<u8>, segs: Seq<Segment>, i: int, pos: int)
    requires
        laid_out_from(data, segs, i, pos),
        segs[0].0 == Marker::SOI,
        data.len() <= u64::MAX,
    ensures
        decode_from(data, pos, segs.subrange(0, i)) == Some(Ok::<Seq<Segment>, ExifError>(segs)),
    decreases segs.len() - i,
{
    let (mk, p) = segs[i];
    let v = be16(data, pos) as u16;
    lemma_marker_value_roundtrip(mk, v);
    assert(marker_from_value(v) == Some(mk));
    let acc = segs.subrange(0, i);
    match p {
        Payload::NoContent(q) => {
            let acc2 = acc.push((mk, Payload::NoContent((pos + 2) as u64)));
            assert(acc2 =~= segs.subrange(0, i + 1));
            if mk == Marker::SOS {
                assert(acc2 =~= segs);
                assert(acc2[0] == segs[0]);
            } else {
                lemma_laid_out_decodes(data, segs, i + 1, pos + 2);
            }
        },
        Payload::Content(off, l) => {
            let acc2 = acc.push((mk, Payload::Content((pos + 4) as u64, l)));
            assert(acc2 =~= segs.subrange(0, i + 1));
            lemma_laid_out_decodes(data, segs, i + 1, off + l);
        },
    }
}

/// What the copy writes after `out` starts with `out`.
proof fn lemma_copy_keeps_prefix(
    data: Seq<u8>,
    segs: Seq<Segment>,
    i: int,
    k: int,
    exif: Seq<u8>,
    out: Seq<u8>,
)
    ensures
        copy_from(data, segs, i, k, exif, out) matches Some(Ok(r)) ==> out.len() <= r.len()
            && r.subrange(0, out.len() as int) == out,
    decreases segs.len() - i,
{
    if 0 <= i < segs.len() {
        let (mk, p) = segs[i];
        let head = out + u16_bytes(marker_value(mk));
        if i == k {
            let next = head + u16_bytes(((exif.len() as u16) + 2) as u16) + exif;
            lemma_copy_keeps_prefix(data, segs, i + 1, k, exif, next);
            assert(next.subrange(0, out.len() as int) =~= out);
        } else if mk == Marker::SOS {
            match p {
                Payload::NoContent(off) => {
                    if off >= data.len() {
                        assert(head.subrange(0, out.len() as int) =~= out);
                    } else {
                        let r = head + data.subrange(off as int, data.len() as int);
                        assert(r.subrange(0, out.len() as int) =~= out);
                    }
                },
                Payload::Content(_, _) => {},
            }
        } else {
            match p {
                Payload::Content(off, l) => {
                    let next = head + u16_bytes((l + 2) as u16) + data.subrange(off as int, off + l);
                    lemma_copy_keeps_prefix(data, segs, i + 1, k, exif, next);
                    assert(next.subrange(0, out.len() as int) =~= out);
                },
                Payload::NoContent(_) => {
                    lemma_copy_keeps_prefix(data, segs, i + 1, k, exif, head);
                    assert(head.subrange(0, out.len() as int) =~= out);
                },
            }
        }
    }
}

/// Copying segments laid out in the image succeeds, where the new payload's length field
/// fits in 16 bits.
proof fn lemma_copy_succeeds(
    data: Seq<u8>,
    segs: Seq<Segment>,
    i: int,
    pos: int,
    k: int,
    w: int,
    exif: Seq<u8>,
    out: Seq<u8>,
)
    requires
        laid_out_but(data, segs, i, pos, k, w),
        exif.len() + 2 <= 0xffff,
    ensures
        copy_from(data, segs, i, k, exif, out) matches Some(Ok(_)),
    decreases segs.len() - i,
{
    let (mk, p) = segs[i];
    let head = out + u16_bytes(marker_value(mk));
    if i == k {
        let next = head + u16_bytes(((exif.len() as u16) + 2) as u16) + exif;
        lemma_copy_succeeds(data, segs, i + 1, pos + w, k, w, exif, next);
    } else {
        match p {
            Payload::NoContent(q) => {
                if mk != Marker::SOS {
                    lemma_copy_succeeds(data, segs, i + 1, pos + 2, k, w, exif, head);
                }
            },
            Payload::Content(off, l) => {
                assert(laid_out_but(data, segs, i + 1, off + l, k, w));
                assert(off + l <= data.len());
                let next = head + u16_bytes((l + 2) as u16) + data.subrange(off as int, off + l);
                lemma_copy_succeeds(data, segs, i + 1, off + l, k, w, exif, next);
            },
        }
    }
}

/// A stretch of a prefix of `r` is that stretch of `r`.
proof fn lemma_within_prefix(r: Seq<u8>, x: Seq<u8>, a: int, b: int)
    requires
        x.len() <= r.len(),
        r.subrange(0, x.len() as int) == x,
        0 <= a <= b <= x.len(),
    ensures
        r.subrange(a, b) == x.subrange(a, b),
{
    assert forall|j: int| 0 <= j < b - a implies r.subrange(a, b)[j] == x.subrange(a, b)[j] by {
        assert(r.subrange(0, x.len() as int)[a + j] == r[a + j]);
    }
    assert(r.subrange(a, b) =~= x.subrange(a, b));
}

/// The big-endian value read where the two bytes of `v` were written is `v`.
proof fn lemma_read_written_u16(r: Seq<u8>, at: int, v: u16)
    requires
        0 <= at,
        at + 2 <= r.len(),
        r.subrange(at, at + 2) == u16_bytes(v),
    ensures
        be16(r, at) == v,
{
    lemma_u16_bytes_read_back(v);
    assert(r[at] == u16_bytes(v)[0]);
    assert(r[at + 1] == u16_bytes(v)[1]);
}

/// The segments decoded from an image start with SOI.
proof fn lemma_decoded_starts_with_soi(
    data: Seq<u8>,
    pos: int,
    acc: Seq<Segment>,
    segs: Seq<Segment>,
)
    requires
        decode_from(data, pos, acc) == Some(Ok::<Seq<Segment>, ExifError>(segs)),
    ensures
        segs.len() > 0,
        segs[0].0 == Marker::SOI,
    decreases data.len() + 0x1_0004 - pos,
{
    let v = be16(data, pos) as u16;
    let m = marker_from_value(v).unwrap();
    let p = pos + 2;
    if !marker_has_payload(m) {
        if m != Marker::SOS {
            lemma_decoded_starts_with_soi(data, p, acc.push((m, Payload::NoContent(p as u64))), segs);
        }
    } else {
        let plen = be16(data, p) - 2;
        if m != Marker::SOS {
            lemma_decoded_starts_with_soi(
                data,
                p + 2 + plen,
                acc.push((m, Payload::Content((p + 2) as u64, plen as u16))),
                segs,
            );
        }
    }
}

/// The copy of segments laid out in the image is laid out in the copy as
/// [`rewritten_segments`] says.
proof fn lemma_copy_lays_out(
    data: Seq<u8>,
    segs: Seq<Segment>,
    i: int,
    pos: int,
    k: int,
    w: int,
    exif: Seq<u8>,
    prefix: Seq<u8>,
    r: Seq<u8>,
)
    requires
        laid_out_but(data, segs, i, pos, k, w),
        exif.len() + 2 <= 0xffff,
        copy_from(data, segs, i, k, exif, prefix) == Some(Ok::<Seq<u8>, ExifError>(r)),
        prefix.len() == written_at(segs, i, k, exif.len() as int),
        r.len() <= u64::MAX,
    ensures
        laid_out_from(r, rewritten_segments(segs, k, exif.len() as int), i, prefix.len() as int),
    decreases segs.len() - i,
{
    let n = exif.len() as int;
    let t = rewritten_segments(segs, k, n);
    let (mk, p) = segs[i];
    let at = prefix.len() as int;
    let head = prefix + u16_bytes(marker_value(mk));
    assert(written_at(segs, i + 1, k, n) == at + written_len(segs, i, k, n));
    if i == k {
        let len_field: u16 = ((exif.len() as u16) + 2) as u16;
        let next = head + u16_bytes(len_field) + exif;
        lemma_copy_keeps_prefix(data, segs, i + 1, k, exif, next);
        lemma_copy_lays_out(data, segs, i + 1, pos + w, k, w, exif, next, r);
        lemma_within_prefix(r, next, at, at + 2);
        assert(next.subrange(at, at + 2) =~= u16_bytes(marker_value(mk)));
        lemma_read_written_u16(r, at, marker_value(mk));
        lemma_within_prefix(r, next, at + 2, at + 4);
        assert(next.subrange(at + 2, at + 4) =~= u16_bytes(len_field));
        lemma_read_written_u16(r, at + 2, len_field);
        assert(t[i] == (mk, Payload::Content((at + 4) as u64, n as u16)));
    } else {
        match p {
            Payload::NoContent(q) => {
                if mk == Marker::SOS {
                    lemma_copy_keeps_prefix(data, segs, i, k, exif, prefix);
                    assert(r.subrange(0, head.len() as int) == head) by {
                        if q < data.len() {
                            assert(r == head + data.subrange(q as int, data.len() as int));
                        }
                        assert(r.subrange(0, head.len() as int) =~= head);
                    }
                } else {
                    lemma_copy_keeps_prefix(data, segs, i + 1, k, exif, head);
                    lemma_copy_lays_out(data, segs, i + 1, pos + 2, k, w, exif, head, r);
                }
                lemma_within_prefix(r, head, at, at + 2);
                assert(head.subrange(at, at + 2) =~= u16_bytes(marker_value(mk)));
                lemma_read_written_u16(r, at, marker_value(mk));
                assert(t[i] == (mk, Payload::NoContent((at + 2) as u64)));
            },
            Payload::Content(off, l) => {
                assert(laid_out_but(data, segs, i + 1, off + l, k, w));
                assert(off + l <= data.len());
                let len_field: u16 = (l + 2) as u16;
                let next = head + u16_bytes(len_field) + data.subrange(off as int, off + l);
                lemma_copy_keeps_prefix(data, segs, i + 1, k, exif, next);
                lemma_copy_lays_out(data, segs, i + 1, off + l, k, w, exif, next, r);
                lemma_within_prefix(r, next, at, at + 2);
                assert(next.subrange(at, at + 2) =~= u16_bytes(marker_value(mk)));
                lemma_read_written_u16(r, at, marker_value(mk));
                lemma_within_prefix(r, next, at + 2, at + 4);
                assert(next.subrange(at + 2, at + 4) =~= u16_bytes(len_field));
                lemma_read_written_u16(r, at + 2, len_field);
                assert(t[i] == (mk, Payload::Content((at + 4) as u64, l)));
            },
        }
    }
}

/// In the copy, the lookup finds the new payload, under the marker of the `k`-th segment,
/// where no segment before it is an EXIF segment.
proof fn lemma_copy_extracts(
    data: Seq<u8>,
    segs: Seq<Segment>,
    i: int,
    pos: int,
    k: int,
    w: int,
    exif: Seq<u8>,
    prefix: Seq<u8>,
    r: Seq<u8>,
)
    requires
        laid_out_but(data, segs, i, pos, k, w),
        i <= k < segs.len(),
        marker_is_app(segs[k].0),
        no_exif_between(data, segs, i, k),
        4 <= exif.len(),
        exif.len() + 2 <= 0xffff,
        exif.subrange(0, 4) == exif_tag(),
        copy_from(data, segs, i, k, exif, prefix) == Some(Ok::<Seq<u8>, ExifError>(r)),
        prefix.len() == written_at(segs, i, k, exif.len() as int),
        r.len() <= u64::MAX,
    ensures
        extract_from(r, rewritten_segments(segs, k, exif.len() as int), i) == Some(
            Ok::<Option<(Marker, Seq<u8>)>, ExifError>(Some((segs[k].0, exif))),
        ),
    decreases segs.len() - i,
{
    let n = exif.len() as int;
    let t = rewritten_segments(segs, k, n);
    let (mk, p) = segs[i];
    let at = prefix.len() as int;
    let head = prefix + u16_bytes(marker_value(mk));
    assert(written_at(segs, i + 1, k, n) == at + written_len(segs, i, k, n));
    if i == k {
        let next = head + u16_bytes(((exif.len() as u16) + 2) as u16) + exif;
        lemma_copy_keeps_prefix(data, segs, i + 1, k, exif, next);
        lemma_within_prefix(r, next, at + 4, at + 4 + n);
        assert(next.subrange(at + 4, at + 4 + n) =~= exif);
        lemma_within_prefix(r, next, at + 4, at + 8);
        assert(next.subrange(at + 4, at + 8) =~= exif.subrange(0, 4));
        assert(t[i] == (mk, Payload::Content((at + 4) as u64, n as u16)));
    } else {
        match p {
            Payload::NoContent(q) => {
                assert(!marker_is_app(mk));
                if mk == Marker::SOS {
                    assert(false);
                }
                lemma_copy_extracts(data, segs, i + 1, pos + 2, k, w, exif, head, r);
                assert(t[i] == (mk, Payload::NoContent((at + 2) as u64)));
            },
            Payload::Content(off, l) => {
                assert(laid_out_but(data, segs, i + 1, off + l, k, w));
                assert(off + l <= data.len());
                let next = head + u16_bytes((l + 2) as u16) + data.subrange(off as int, off + l);
                lemma_copy_keeps_prefix(data, segs, i + 1, k, exif, next);
                assert(t[i] == (mk, Payload::Content((at + 4) as u64, l)));
                if marker_is_app(mk) {
                    assert(l >= 4);
                    assert(data.subrange(off as int, off + 4) != exif_tag());
                    lemma_within_prefix(r, next, at + 4, at + 8);
                    assert(next.subrange(at + 4, at + 8) =~= data.subrange(off as int, off + 4));
                }
                lemma_copy_extracts(data, segs, i + 1, off + l, k, w, exif, next, r);
            },
        }
    }
}

/// The payload of the segment `s` in `data`.
pub open spec fn payload_of(data: Seq<u8>, s: Segment) -> Seq<u8> {
    match s.1 {
        Payload::Content(off, l) => data.subrange(off as int, off + l),
        Payload::NoContent(_) => Seq::empty(),
    }
}

/// What follows the marker of the segment `s` up to the end of `data`.
pub open spec fn rest_of(data: Seq<u8>, s: Segment) -> Seq<u8> {
    match s.1 {
        Payload::NoContent(off) => if off >= data.len() {
            Seq::empty()
        } else {
            data.subrange(off as int, data.len() as int)
        },
        Payload::Content(_, _) => Seq::empty(),
    }
}

/// The copy carries over the payload of every segment but the `k`-th, and what follows
/// SOS.
#[verifier::spinoff_prover]
proof fn lemma_copy_keeps_payloads(
    data: Seq<u8>,
    segs: Seq<Segment>,
    i: int,
    pos: int,
    k: int,
    w: int,
    exif: Seq<u8>,
    prefix: Seq<u8>,
    r: Seq<u8>,
)
    requires
        laid_out_but(data, segs, i, pos, k, w),
        exif.len() + 2 <= 0xffff,
        copy_from(data, segs, i, k, exif, prefix) == Some(Ok::<Seq<u8>, ExifError>(r)),
        prefix.len() == written_at(segs, i, k, exif.len() as int),
        r.len() <= u64::MAX,
    ensures
        forall|j: int|
            i <= j < segs.len() && j != k ==> payload_of(
                r,
                #[trigger] rewritten_segments(segs, k, exif.len() as int)[j],
            ) == payload_of(data, segs[j]) && (segs[j].0 == Marker::SOS ==> rest_of(
                r,
                rewritten_segments(segs, k, exif.len() as int)[j],
            ) == rest_of(data, segs[j])),
    decreases segs.len() - i,
{
    let n = exif.len() as int;
    let t = rewritten_segments(segs, k, n);
    let (mk, p) = segs[i];
    let at = prefix.len() as int;
    let head = prefix + u16_bytes(marker_value(mk));
    assert(written_at(segs, i + 1, k, n) == at + written_len(segs, i, k, n));
    if i == k {
        let next = head + u16_bytes(((exif.len() as u16) + 2) as u16) + exif;
        lemma_copy_keeps_payloads(data, segs, i + 1, pos + w, k, w, exif, next, r);
    } else {
        match p {
            Payload::NoContent(q) => {
                assert(t[i] == (mk, Payload::NoContent((at + 2) as u64)));
                if mk == Marker::SOS {
                    assert(i == segs.len() - 1);
                    lemma_copy_keeps_prefix(data, segs, i, k, exif, prefix);
                    if q < data.len() {
                        assert(r == head + data.subrange(q as int, data.len() as int));
                        assert(r.subrange(at + 2, r.len() as int) =~= data.subrange(
                            q as int,
                            data.len() as int,
                        ));
                    } else {
                        assert(r == head);
                    }
                    assert(payload_of(r, t[i]) =~= payload_of(data, segs[i]));
                } else {
                    lemma_copy_keeps_payloads(data, segs, i + 1, pos + 2, k, w, exif, head, r);
                }
            },
            Payload::Content(off, l) => {
                assert(laid_out_but(data, segs, i + 1, off + l, k, w));
                assert(off + l <= data.len());
                let next = head + u16_bytes((l + 2) as u16) + data.subrange(off as int, off + l);
                lemma_copy_keeps_prefix(data, segs, i + 1, k, exif, next);
                lemma_copy_keeps_payloads(data, segs, i + 1, off + l, k, w, exif, next, r);
                assert(t[i] == (mk, Payload::Content((at + 4) as u64, l)));
                lemma_within_prefix(r, next, at + 4, at + 4 + l);
                assert(next.subrange(at + 4, at + 4 + l) =~= data.subrange(off as int, off + l));
            },
        }
    }
}

/// The plan of a copy is laid out in the image but for the segment that gets the new
/// payload, which is an APP segment, with no EXIF segment before it.
proof fn lemma_plan_laid_out(data: Seq<u8>, segs: Seq<Segment>) -> (w: int)
    requires
        data.len() <= usize::MAX,
        jpeg_decode(data) == Some(Ok::<Seq<Segment>, ExifError>(segs)),
        find_exif_from(data, segs, 0) matches Some(Ok(_)),
    ensures
        ({
            let (t, k) = copy_plan(data, segs);
            &&& laid_out_but(data, t, 0, 0, k, w)
            &&& 0 <= k < t.len()
            &&& marker_is_app(t[k].0)
            &&& no_exif_between(data, t, 0, k)
            &&& t[0].0 == Marker::SOI
        }),
{
    lemma_decode_lays_out(data, 0, Seq::empty(), segs);
    lemma_decoded_starts_with_soi(data, 0, Seq::empty(), segs);
    lemma_find_exif(data, segs, 0);
    match find_exif_from(data, segs, 0) {
        Some(Ok(Some(k))) => {
            let l = segs[k].1->Content_1;
            lemma_laid_out_but_own(data, segs, 0, 0, k, 4 + l);
            4 + l
        },
        _ => {
            let t = with_exif_segment(segs);
            assert(segs[0].1 is NoContent);
            assert(laid_out_from(data, segs, 1, 2));
            lemma_laid_out_but_added(data, segs, 1, 2);
            assert(t[0] == segs[0]);
            assert(t[1] == new_exif_segment());
            assert(laid_out_but(data, t, 1, 2, 1, 0));
            assert(laid_out_but(data, t, 0, 0, 1, 0));
            0
        },
    }
}

/// Copying an image with an EXIF payload, then reading the copy, gives that payload back.
/// The copy writes the segments of [`copy_plan`]: the image's own, or, where it has no
/// EXIF segment, those with a new APP1 segment right after SOI. It decodes into the same
/// markers, with the payloads where the copy put them; its EXIF payload is the one
/// written; and every other segment keeps its payload, and what follows SOS is carried
/// over. This holds wherever the new payload starts with `Exif` (as every payload read
/// from an image does) and its length field fits in 16 bits.
pub proof fn lemma_copy_then_extract(data: Seq<u8>, segs: Seq<Segment>, exif: Seq<u8>)
    requires
        data.len() <= usize::MAX,
        jpeg_decode(data) == Some(Ok::<Seq<Segment>, ExifError>(segs)),
        extract_from(data, segs, 0) matches Some(Ok(_)),
        4 <= exif.len(),
        exif.len() + 2 <= 0xffff,
        exif.subrange(0, 4) == exif_tag(),
    ensures
        jpeg_copy(data, segs, exif) matches Some(Ok(out)) && (out.len() <= usize::MAX ==> ({
            let (t, k) = copy_plan(data, segs);
            let u = rewritten_segments(t, k, exif.len() as int);
            &&& jpeg_decode(out) == Some(Ok::<Seq<Segment>, ExifError>(u))
            &&& jpeg_extract(out, u) == Some(Ok::<Option<Seq<u8>>, ExifError>(Some(exif)))
            &&& forall|j: int|
                0 <= j < t.len() && j != k ==> payload_of(out, #[trigger] u[j]) == payload_of(
                    data,
                    t[j],
                ) && (t[j].0 == Marker::SOS ==> rest_of(out, u[j]) == rest_of(data, t[j]))
        })),
{
    lemma_find_exif(data, segs, 0);
    let w = lemma_plan_laid_out(data, segs);
    let (t, k) = copy_plan(data, segs);
    lemma_copy_succeeds(data, t, 0, 0, k, w, exif, Seq::empty());
    let out = copy_from(data, t, 0, k, exif, Seq::empty())->Some_0->Ok_0;
    if out.len() <= usize::MAX {
        let u = rewritten_segments(t, k, exif.len() as int);
        lemma_copy_lays_out(data, t, 0, 0, k, w, exif, Seq::empty(), out);
        lemma_laid_out_decodes(out, u, 0, 0);
        assert(u.subrange(0, 0) =~= Seq::<Segment>::empty());
        assert(u[0].0 == t[0].0);
        lemma_copy_extracts(data, t, 0, 0, k, w, exif, Seq::empty(), out);
        lemma_copy_keeps_payloads(data, t, 0, 0, k, w, exif, Seq::empty(), out);
    }
}

} // verus!
