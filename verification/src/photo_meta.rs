//! Carrying orientation, EXIF and colour profiles of a photo over to its
//! repaired copy, byte for byte.

use crate::codec::{bytes_view, image_view, png_file, write_png};
use image::ImageDecoder;
use vstd::prelude::*;
use vstd::slice::slice_subrange;

verus! {

/// The first two bytes of a JPEG file.
pub open spec fn jpeg_start() -> Seq<u8> {
    seq![0xff, 0xd8]
}

/// The first eight bytes of a PNG file.
pub open spec fn png_start() -> Seq<u8> {
    seq![0x89, 0x50, 0x4e, 0x47, 0x0d, 0x0a, 0x1a, 0x0a]
}

/// The bytes that start the payload of an EXIF segment.
pub open spec fn exif_start() -> Seq<u8> {
    seq![0x45, 0x78, 0x69, 0x66, 0, 0]
}

/// The bytes that start the payload of a colour profile segment.
pub open spec fn icc_start() -> Seq<u8> {
    seq![0x49, 0x43, 0x43, 0x5f, 0x50, 0x52, 0x4f, 0x46, 0x49, 0x4c, 0x45, 0]
}

/// `bytes` starts with `head`.
pub open spec fn leads(bytes: Seq<u8>, head: Seq<u8>) -> bool {
    bytes.len() >= head.len() && bytes.take(head.len() as int) == head
}

/// A marked stretch of a JPEG file: its marker, where it starts, and its
/// length with marker and length field.
#[derive(Clone, Copy, Debug, PartialEq, Eq, Structural)]
pub struct Segment {
    pub marker: u8,
    pub start: usize,
    pub len: usize,
}

/// A chunk of a PNG file: its type, where it starts, and its length with
/// length field, type and check sum.
#[derive(Clone, Copy, Debug, PartialEq, Eq, Structural)]
pub struct Chunk {
    pub kind: u32,
    pub start: usize,
    pub len: usize,
}

/// Two bytes as a number, high byte first.
pub open spec fn be16(bytes: Seq<u8>, i: int) -> int {
    bytes[i] * 256 + bytes[i + 1]
}

/// Four bytes as a number, high byte first.
pub open spec fn be32(bytes: Seq<u8>, i: int) -> int {
    bytes[i] * 0x100_0000 + bytes[i + 1] * 0x1_0000 + bytes[i + 2] * 0x100 + bytes[i + 3]
}

/// The segments of a JPEG file from position `i` on, up to the image data, the
/// end, or the first stretch that is not a proper segment.
pub open spec fn segments_from(bytes: Seq<u8>, i: int) -> Seq<Segment>
    decreases bytes.len() - i,
{
    if i < 0 || i + 3 >= bytes.len() || bytes[i] != 0xff {
        seq![]
    } else {
        let marker = bytes[i + 1];
        if marker == 0xff {
            segments_from(bytes, i + 1)
        } else if marker == 0xda || marker == 0xd9 {
            seq![]
        } else if marker == 0x01 || 0xd0 <= marker <= 0xd8 {
            segments_from(bytes, i + 2)
        } else {
            let len = be16(bytes, i + 2);
            if len < 2 || i + 2 + len > bytes.len() {
                seq![]
            } else {
                seq![Segment { marker, start: i as usize, len: (len + 2) as usize }]
                    + segments_from(bytes, i + 2 + len)
            }
        }
    }
}

/// The segments of a JPEG file.
pub open spec fn segments(bytes: Seq<u8>) -> Seq<Segment> {
    if bytes.len() < 4 || !leads(bytes, jpeg_start()) {
        seq![]
    } else {
        segments_from(bytes, 2)
    }
}

/// The chunk type `IEND`.
pub const IEND: u32 = 0x4945_4e44;

/// The chunk type `IHDR`.
pub const IHDR: u32 = 0x4948_4452;

/// The chunk type `eXIf`.
pub const EXIF: u32 = 0x6558_4966;

/// The chunks of a PNG file from position `i` on, up to the last one or the
/// first that is cut off.
pub open spec fn chunks_from(bytes: Seq<u8>, i: int) -> Seq<Chunk>
    decreases bytes.len() - i,
{
    if i < 0 || i + 12 > bytes.len() {
        seq![]
    } else {
        let total = 12 + be32(bytes, i);
        if total < 12 || i + total > bytes.len() {
            seq![]
        } else {
            let kind = be32(bytes, i + 4) as u32;
            let chunk = Chunk { kind, start: i as usize, len: total as usize };
            if kind == IEND {
                seq![chunk]
            } else {
                seq![chunk] + chunks_from(bytes, i + total)
            }
        }
    }
}

/// The chunks of a PNG file.
pub open spec fn chunks(bytes: Seq<u8>) -> Seq<Chunk> {
    if !leads(bytes, png_start()) {
        seq![]
    } else {
        chunks_from(bytes, 8)
    }
}

/// Tells whether bytes start with a head.
fn starts_with(bytes: &[u8], head: &[u8]) -> (r: bool)
    ensures
        r == leads(bytes@, head@),
{
    if bytes.len() < head.len() {
        return false;
    }
    let n: usize = head.len();
    let mut i: usize = 0;
    while i < n
        invariant
            n == head@.len(),
            n <= bytes@.len(),
            i <= n,
            forall|k: int| 0 <= k < i ==> bytes@[k] == head@[k],
        decreases n - i,
    {
        if bytes[i] != head[i] {
            proof {
                assert(bytes@.take(n as int)[i as int] != head@[i as int]);
            }
            return false;
        }
        i = i + 1;
    }
    proof {
        assert(bytes@.take(n as int) =~= head@);
    }
    true
}

fn is_jpeg(bytes: &[u8]) -> (r: bool)
    ensures
        r == leads(bytes@, jpeg_start()),
{
    let head: [u8; 2] = [0xff, 0xd8];
    proof {
        assert(head@ =~= jpeg_start());
    }
    starts_with(bytes, head.as_slice())
}

fn is_png(bytes: &[u8]) -> (r: bool)
    ensures
        r == leads(bytes@, png_start()),
{
    let head: [u8; 8] = [0x89, 0x50, 0x4e, 0x47, 0x0d, 0x0a, 0x1a, 0x0a];
    proof {
        assert(head@ =~= png_start());
    }
    starts_with(bytes, head.as_slice())
}

/// The segments of a JPEG file before its image data.
pub fn jpeg_segments(bytes: &[u8]) -> (r: Vec<Segment>)
    ensures
        r@ == segments(bytes@),
        forall|k: int|
            0 <= k < r@.len() ==> 4 <= (#[trigger] r@[k]).len && r@[k].start + r@[k].len
                <= bytes@.len(),
{
    let mut out: Vec<Segment> = Vec::new();
    let n: usize = bytes.len();
    proof {
        assert(out@ =~= seq![]);
    }
    if n < 4 || !is_jpeg(bytes) {
        return out;
    }
    let mut i: usize = 2;
    proof {
        assert(out@ + segments_from(bytes@, 2) =~= segments(bytes@));
    }
    while i < n && n - i > 3
        invariant_except_break
            n == bytes@.len(),
            i <= n,
            out@ + segments_from(bytes@, i as int) == segments(bytes@),
        invariant
            forall|k: int|
                0 <= k < out@.len() ==> 4 <= (#[trigger] out@[k]).len && out@[k].start + out@[k].len
                    <= bytes@.len(),
        ensures
            out@ == segments(bytes@),
        decreases n - i,
    {
        if bytes[i] != 0xff {
            proof {
                assert(out@ + segments_from(bytes@, i as int) =~= out@);
            }
            break ;
        }
        let marker: u8 = bytes[i + 1];
        if marker == 0xff {
            i = i + 1;
            continue ;
        }
        if marker == 0xda || marker == 0xd9 {
            proof {
                assert(out@ + segments_from(bytes@, i as int) =~= out@);
            }
            break ;
        }
        if marker == 0x01 || (0xd0 <= marker && marker <= 0xd8) {
            i = i + 2;
            continue ;
        }
        let len: usize = bytes[i + 2] as usize * 256 + bytes[i + 3] as usize;
        if len < 2 || len > n - i - 2 {
            proof {
                assert(out@ + segments_from(bytes@, i as int) =~= out@);
            }
            break ;
        }
        let ghost before = out@;
        let segment = Segment { marker, start: i, len: len + 2 };
        out.push(segment);
        proof {
            assert(out@ + segments_from(bytes@, i + 2 + len) =~= before + (seq![segment]
                + segments_from(bytes@, i + 2 + len)));
        }
        i = i + 2 + len;
    }
    out
}

/// Four bytes as a number, high byte first.
fn read_be32(bytes: &[u8], i: usize) -> (r: u32)
    requires
        i + 4 <= bytes@.len(),
    ensures
        r == be32(bytes@, i as int),
{
    bytes[i] as u32 * 0x100_0000 + bytes[i + 1] as u32 * 0x1_0000 + bytes[i + 2] as u32 * 0x100
        + bytes[i + 3] as u32
}

/// The chunks of a PNG file.
pub fn png_chunks(bytes: &[u8]) -> (r: Vec<Chunk>)
    ensures
        r@ == chunks(bytes@),
        forall|k: int|
            0 <= k < r@.len() ==> 12 <= (#[trigger] r@[k]).len && r@[k].start + r@[k].len
                <= bytes@.len(),
        r@.len() > 0 ==> r@[0].start == 8,
{
    let mut out: Vec<Chunk> = Vec::new();
    let n: usize = bytes.len();
    proof {
        assert(out@ =~= seq![]);
    }
    if !is_png(bytes) {
        return out;
    }
    let mut i: usize = 8;
    proof {
        assert(out@ + chunks_from(bytes@, 8) =~= chunks(bytes@));
    }
    while i < n && n - i >= 12
        invariant_except_break
            n == bytes@.len(),
            8 <= i <= n,
            out@.len() == 0 ==> i == 8,
            out@ + chunks_from(bytes@, i as int) == chunks(bytes@),
        invariant
            forall|k: int|
                0 <= k < out@.len() ==> 12 <= (#[trigger] out@[k]).len && out@[k].start
                    + out@[k].len <= bytes@.len(),
            out@.len() > 0 ==> out@[0].start == 8,
        ensures
            out@ == chunks(bytes@),
        decreases n - i,
    {
        let len: u32 = read_be32(bytes, i);
        if len as u64 > (n - i - 12) as u64 {
            proof {
                assert(out@ + chunks_from(bytes@, i as int) =~= out@);
            }
            break ;
        }
        let total: usize = 12 + len as usize;
        let kind: u32 = read_be32(bytes, i + 4);
        let ghost before = out@;
        let chunk = Chunk { kind, start: i, len: total };
        out.push(chunk);
        if kind == IEND {
            proof {
                assert(out@ =~= before + seq![chunk]);
            }
            break ;
        }
        proof {
            assert(out@ + chunks_from(bytes@, i + total) =~= before + (seq![chunk] + chunks_from(
                bytes@,
                i + total,
            )));
        }
        i = i + total;
    }
    out
}

/// The bytes of a stretch of a file.
pub open spec fn stretch(bytes: Seq<u8>, start: int, len: int) -> Seq<u8> {
    bytes.subrange(start, start + len)
}

/// A segment with an EXIF payload.
pub open spec fn is_exif(bytes: Seq<u8>, s: Segment) -> bool {
    s.marker == 0xe1 && leads(
        stretch(bytes, s.start as int, s.len as int).skip(4),
        exif_start(),
    )
}

/// A segment with a part of a colour profile.
pub open spec fn is_icc(bytes: Seq<u8>, s: Segment) -> bool {
    s.marker == 0xe2 && leads(
        stretch(bytes, s.start as int, s.len as int).skip(4),
        icc_start(),
    )
}

/// The first EXIF segment among the first `n`.
pub open spec fn first_exif(bytes: Seq<u8>, list: Seq<Segment>, n: int) -> Option<Seq<u8>>
    decreases n,
{
    if n <= 0 {
        None
    } else {
        let before = first_exif(bytes, list, n - 1);
        if before is None && is_exif(bytes, list[n - 1]) {
            Some(stretch(bytes, list[n - 1].start as int, list[n - 1].len as int))
        } else {
            before
        }
    }
}

/// The colour profile segments among the first `n`.
pub open spec fn icc_parts(bytes: Seq<u8>, list: Seq<Segment>, n: int) -> Seq<Seq<u8>>
    decreases n,
{
    if n <= 0 {
        seq![]
    } else {
        let before = icc_parts(bytes, list, n - 1);
        if is_icc(bytes, list[n - 1]) {
            before.push(stretch(bytes, list[n - 1].start as int, list[n - 1].len as int))
        } else {
            before
        }
    }
}

/// The chunk types that are carried over: `iCCP`, `eXIf`, `sRGB`, `gAMA` and
/// `cHRM`.
pub open spec fn is_carried(kind: u32) -> bool {
    ||| kind == 0x6943_4350
    ||| kind == EXIF
    ||| kind == 0x7352_4742
    ||| kind == 0x6741_4d41
    ||| kind == 0x6348_524d
}

/// The carried chunks among the first `n`.
pub open spec fn carried_chunks(bytes: Seq<u8>, list: Seq<Chunk>, n: int) -> Seq<Seq<u8>>
    decreases n,
{
    if n <= 0 {
        seq![]
    } else {
        let before = carried_chunks(bytes, list, n - 1);
        if is_carried(list[n - 1].kind) {
            before.push(stretch(bytes, list[n - 1].start as int, list[n - 1].len as int))
        } else {
            before
        }
    }
}

/// What several byte strings hold.
pub open spec fn byte_views(v: Seq<Vec<u8>>) -> Seq<Seq<u8>> {
    Seq::new(v.len(), |i: int| v[i]@)
}

/// The bytes to carry over from a photo to its repaired copy.
pub struct CarryMeta {
    pub jpeg_exif: Option<Vec<u8>>,
    pub jpeg_icc: Vec<Vec<u8>>,
    pub png_chunks: Vec<Vec<u8>>,
}

/// What a `CarryMeta` holds.
pub type CarryView = (Option<Seq<u8>>, Seq<Seq<u8>>, Seq<Seq<u8>>);

/// What is carried over from a file: EXIF and colour profile segments of a
/// JPEG file, metadata and colour chunks of a PNG file, nothing of others.
pub open spec fn carried(bytes: Seq<u8>) -> CarryView {
    if leads(bytes, jpeg_start()) {
        let list = segments(bytes);
        let n = list.len() as int;
        (first_exif(bytes, list, n), icc_parts(bytes, list, n), seq![])
    } else if leads(bytes, png_start()) {
        let list = chunks(bytes);
        (None, seq![], carried_chunks(bytes, list, list.len() as int))
    } else {
        (None, seq![], seq![])
    }
}

fn copy_of(bytes: &[u8], from: usize, to: usize) -> (r: Vec<u8>)
    requires
        from <= to <= bytes@.len(),
    ensures
        r@ == bytes@.subrange(from as int, to as int),
{
    let mut out: Vec<u8> = Vec::new();
    let mut i: usize = from;
    while i < to
        invariant
            from <= i <= to <= bytes@.len(),
            out@ == bytes@.subrange(from as int, i as int),
        decreases to - i,
    {
        out.push(bytes[i]);
        i = i + 1;
        proof {
            assert(out@ =~= bytes@.subrange(from as int, i as int));
        }
    }
    out
}

fn segment_leads(bytes: &[u8], s: &Segment, head: &[u8]) -> (r: bool)
    requires
        4 <= s.len,
        s.start + s.len <= bytes@.len(),
    ensures
        r == leads(stretch(bytes@, s.start as int, s.len as int).skip(4), head@),
{
    let n: usize = bytes.len();
    let payload = slice_subrange(bytes, s.start + 4, s.start + s.len);
    proof {
        assert(payload@ =~= stretch(bytes@, s.start as int, s.len as int).skip(4));
    }
    starts_with(payload, head)
}

impl CarryMeta {
    pub open spec fn view(&self) -> CarryView {
        (
            match self.jpeg_exif {
                Some(v) => Some(v@),
                None => None,
            },
            byte_views(self.jpeg_icc@),
            byte_views(self.png_chunks@),
        )
    }

    /// Takes what is to be carried over out of the bytes of a photo.
    pub fn read(bytes: &[u8]) -> (r: CarryMeta)
        ensures
            r.view() == carried(bytes@),
    {
        let total: usize = bytes.len();
        let mut exif: Option<Vec<u8>> = None;
        let mut icc: Vec<Vec<u8>> = Vec::new();
        let mut kept: Vec<Vec<u8>> = Vec::new();
        proof {
            assert(byte_views(icc@) =~= seq![]);
            assert(byte_views(kept@) =~= seq![]);
        }
        if is_jpeg(bytes) {
            let list = jpeg_segments(bytes);
            let exif_head: [u8; 6] = [0x45, 0x78, 0x69, 0x66, 0, 0];
            let icc_head: [u8; 12] = [
                0x49,
                0x43,
                0x43,
                0x5f,
                0x50,
                0x52,
                0x4f,
                0x46,
                0x49,
                0x4c,
                0x45,
                0,
            ];
            proof {
                assert(exif_head@ =~= exif_start());
                assert(icc_head@ =~= icc_start());
            }
            let mut i: usize = 0;
            while i < list.len()
                invariant
                    i <= list@.len(),
                    total == bytes@.len(),
                    exif_head@ == exif_start(),
                    icc_head@ == icc_start(),
                    forall|k: int|
                        0 <= k < list@.len() ==> 4 <= (#[trigger] list@[k]).len && list@[k].start
                            + list@[k].len <= bytes@.len(),
                    exif is Some <==> first_exif(bytes@, list@, i as int) is Some,
                    exif matches Some(v) ==> v@ == first_exif(bytes@, list@, i as int)->0,
                    byte_views(icc@) == icc_parts(bytes@, list@, i as int),
                decreases list@.len() - i,
            {
                let s: Segment = list[i];
                if s.marker == 0xe1 && segment_leads(bytes, &s, exif_head.as_slice()) {
                    if exif.is_none() {
                        exif = Some(copy_of(bytes, s.start, s.start + s.len));
                    }
                } else if s.marker == 0xe2 && segment_leads(bytes, &s, icc_head.as_slice()) {
                    let part = copy_of(bytes, s.start, s.start + s.len);
                    proof {
                        assert(byte_views(icc@.push(part)) =~= byte_views(icc@).push(part@));
                    }
                    icc.push(part);
                }
                i = i + 1;
            }
        } else if is_png(bytes) {
            let list = png_chunks(bytes);
            let mut i: usize = 0;
            while i < list.len()
                invariant
                    i <= list@.len(),
                    total == bytes@.len(),
                    forall|k: int|
                        0 <= k < list@.len() ==> 12 <= (#[trigger] list@[k]).len && list@[k].start
                            + list@[k].len <= bytes@.len(),
                    byte_views(kept@) == carried_chunks(bytes@, list@, i as int),
                decreases list@.len() - i,
            {
                let c: Chunk = list[i];
                if c.kind == 0x6943_4350 || c.kind == EXIF || c.kind == 0x7352_4742 || c.kind
                    == 0x6741_4d41 || c.kind == 0x6348_524d {
                    let part = copy_of(bytes, c.start, c.start + c.len);
                    proof {
                        assert(byte_views(kept@.push(part)) =~= byte_views(kept@).push(part@));
                    }
                    kept.push(part);
                }
                i = i + 1;
            }
        }
        CarryMeta { jpeg_exif: exif, jpeg_icc: icc, png_chunks: kept }
    }

    /// Tells whether there is nothing to carry over.
    pub fn is_empty(&self) -> (r: bool)
        ensures
            r == (self.view().0 is None && self.view().1.len() == 0 && self.view().2.len() == 0),
    {
        self.jpeg_exif.is_none() && self.jpeg_icc.len() == 0 && self.png_chunks.len() == 0
    }

    /// Puts the EXIF and colour profile segments right behind the start of a
    /// JPEG file, EXIF first. Other bytes come back as they are.
    pub fn splice_jpeg(&self, encoded: Vec<u8>) -> (r: Vec<u8>)
        ensures
            r@ == spliced_jpeg(self.view(), encoded@),
    {
        let mut extra: Vec<u8> = Vec::new();
        if let Some(exif) = &self.jpeg_exif {
            append_bytes(&mut extra, exif.as_slice());
        }
        append_all(&mut extra, &self.jpeg_icc);
        proof {
            assert(extra@ =~= jpeg_extra(self.view()));
        }
        if extra.len() == 0 || !is_jpeg(encoded.as_slice()) {
            return encoded;
        }
        insert_at(encoded.as_slice(), 2, extra.as_slice())
    }

    /// Puts the carried chunks right behind the header of a PNG file. Other
    /// bytes come back as they are.
    pub fn splice_png(&self, encoded: Vec<u8>) -> (r: Vec<u8>)
        ensures
            r@ == spliced_png(self.view(), encoded@),
    {
        if self.png_chunks.len() == 0 {
            return encoded;
        }
        let list = png_chunks(encoded.as_slice());
        if list.len() == 0 || list[0].kind != IHDR {
            return encoded;
        }
        let mut extra: Vec<u8> = Vec::new();
        append_all(&mut extra, &self.png_chunks);
        proof {
            assert(extra@ =~= flat(self.view().2));
        }
        let total: usize = encoded.len();
        insert_at(encoded.as_slice(), 8 + list[0].len, extra.as_slice())
    }

    /// The orientation that the carried EXIF segment asks for.
    pub fn orientation(&self) -> (r: Option<u8>)
        ensures
            r == match self.view().0 {
                Some(v) => if v.len() > 10 {
                    exif_orientation(v.skip(10))
                } else {
                    None
                },
                None => None,
            },
    {
        if let Some(exif) = &self.jpeg_exif {
            let n: usize = exif.len();
            if n > 10 {
                proof {
                    assert(exif@.subrange(10, n as int) =~= exif@.skip(10));
                }
                return read_exif_orientation(slice_subrange(exif.as_slice(), 10, n));
            }
        }
        None
    }

    /// Marks the carried EXIF data as upright, where it holds an orientation.
    pub fn clear_orientation(&mut self)
        ensures
            final(self).view() == upright(old(self).view()),
            match old(self).view().0 {
                None => final(self).view().0 is None,
                Some(v) => final(self).view().0 matches Some(u) && is_cleared_segment(v, u),
            },
            final(self).view().2.len() == old(self).view().2.len(),
            forall|k: int|
                0 <= k < final(self).view().2.len() ==> is_cleared_chunk(
                    old(self).view().2[k],
                    #[trigger] final(self).view().2[k],
                ),
    {
        let ghost given = self.view();
        if let Some(exif) = &self.jpeg_exif {
            let cleared = clear_segment(exif.as_slice());
            self.jpeg_exif = Some(cleared);
        }
        let n: usize = self.png_chunks.len();
        let mut out: Vec<Vec<u8>> = Vec::new();
        let mut i: usize = 0;
        let ghost chunks_given = given.2;
        while i < n
            invariant
                n == self.png_chunks@.len(),
                i <= n,
                chunks_given == byte_views(self.png_chunks@),
                byte_views(out@) == upright_chunks(chunks_given).take(i as int),
                out@.len() == i,
                forall|k: int|
                    0 <= k < i ==> is_cleared_chunk(chunks_given[k], (#[trigger] out@[k])@),
            decreases n - i,
        {
            let c = clear_chunk(self.png_chunks[i].as_slice());
            proof {
                let goal = upright_chunks(chunks_given);
                assert(byte_views(out@.push(c)) =~= byte_views(out@).push(c@));
                assert(goal.take(i + 1) =~= goal.take(i as int).push(goal[i as int]));
            }
            out.push(c);
            i = i + 1;
        }
        proof {
            let goal = upright_chunks(chunks_given);
            assert(goal.take(n as int) =~= goal);
        }
        self.png_chunks = out;
    }
}

/// Several byte strings one after the other.
pub open spec fn flat(parts: Seq<Seq<u8>>) -> Seq<u8>
    decreases parts.len(),
{
    if parts.len() == 0 {
        seq![]
    } else {
        flat(parts.drop_last()) + parts.last()
    }
}

/// The bytes that go behind the start of a JPEG file.
pub open spec fn jpeg_extra(meta: CarryView) -> Seq<u8> {
    (match meta.0 {
        Some(v) => v,
        None => seq![],
    }) + flat(meta.1)
}

/// `extra` put into `bytes` at position `at`.
pub open spec fn inserted(bytes: Seq<u8>, at: int, extra: Seq<u8>) -> Seq<u8> {
    bytes.take(at) + extra + bytes.skip(at)
}

/// A JPEG file with the carried segments in it.
pub open spec fn spliced_jpeg(meta: CarryView, encoded: Seq<u8>) -> Seq<u8> {
    if jpeg_extra(meta).len() == 0 || !leads(encoded, jpeg_start()) {
        encoded
    } else {
        inserted(encoded, 2, jpeg_extra(meta))
    }
}

/// A PNG file with the carried chunks in it.
pub open spec fn spliced_png(meta: CarryView, encoded: Seq<u8>) -> Seq<u8> {
    let list = chunks(encoded);
    if meta.2.len() == 0 || list.len() == 0 || list[0].kind != IHDR {
        encoded
    } else {
        inserted(encoded, 8 + list[0].len as int, flat(meta.2))
    }
}

fn append_bytes(out: &mut Vec<u8>, bytes: &[u8])
    ensures
        final(out)@ == old(out)@ + bytes@,
{
    let ghost start = out@;
    let n: usize = bytes.len();
    let mut i: usize = 0;
    proof {
        assert(start + bytes@.take(0) =~= start);
    }
    while i < n
        invariant
            n == bytes@.len(),
            i <= n,
            out@ == start + bytes@.take(i as int),
        decreases n - i,
    {
        out.push(bytes[i]);
        i = i + 1;
        proof {
            assert(out@ =~= start + bytes@.take(i as int));
        }
    }
    proof {
        assert(bytes@.take(n as int) =~= bytes@);
    }
}

fn append_all(out: &mut Vec<u8>, parts: &Vec<Vec<u8>>)
    ensures
        final(out)@ == old(out)@ + flat(byte_views(parts@)),
{
    let ghost start = out@;
    let ghost all = byte_views(parts@);
    let n: usize = parts.len();
    let mut i: usize = 0;
    proof {
        assert(all.take(0) =~= seq![]);
        assert(start + flat(all.take(0)) =~= start);
    }
    while i < n
        invariant
            n == parts@.len(),
            i <= n,
            all == byte_views(parts@),
            out@ == start + flat(all.take(i as int)),
        decreases n - i,
    {
        append_bytes(out, parts[i].as_slice());
        proof {
            assert(all.take(i + 1).drop_last() =~= all.take(i as int));
            assert(all.take(i + 1).last() == parts@[i as int]@);
            assert(out@ =~= start + flat(all.take(i + 1)));
        }
        i = i + 1;
    }
    proof {
        assert(all.take(n as int) =~= all);
    }
}

fn insert_at(bytes: &[u8], at: usize, extra: &[u8]) -> (r: Vec<u8>)
    requires
        at <= bytes@.len(),
    ensures
        r@ == inserted(bytes@, at as int, extra@),
{
    let n: usize = bytes.len();
    let mut out = copy_of(bytes, 0, at);
    append_bytes(&mut out, extra);
    append_bytes(&mut out, slice_subrange(bytes, at, n));
    proof {
        assert(bytes@.subrange(0, at as int) =~= bytes@.take(at as int));
        assert(bytes@.subrange(at as int, n as int) =~= bytes@.skip(at as int));
    }
    out
}

/// The orientation, as an EXIF code from 1 to 8, in a block of EXIF data.
pub uninterp spec fn exif_orientation(block: Seq<u8>) -> Option<u8>;

/// `image::metadata::Orientation::from_exif_chunk`: the orientation in a block
/// of EXIF data, as its EXIF code; a function of the block.
#[verifier::external_body]
pub(crate) fn read_exif_orientation(block: &[u8]) -> (r: Option<u8>)
    ensures
        r == exif_orientation(block@),
{
    image::metadata::Orientation::from_exif_chunk(block).map(|o| o.to_exif())
}

/// A block of EXIF data with its orientation set to upright.
pub uninterp spec fn orientation_cleared(block: Seq<u8>) -> Seq<u8>;

/// `image::metadata::Orientation::remove_from_exif_chunk`: sets the orientation
/// in a block of EXIF data to upright, in place. A block without a valid
/// orientation stays as it is; one with it then reads as upright.
#[verifier::external_body]
pub(crate) fn clear_exif_orientation(block: &[u8]) -> (r: Vec<u8>)
    ensures
        r@ == orientation_cleared(block@),
        r@.len() == block@.len(),
        exif_orientation(block@) is None ==> r@ == block@,
        exif_orientation(block@) is Some ==> exif_orientation(r@) == Some(1u8),
{
    let mut copy = block.to_vec();
    let _ = image::metadata::Orientation::remove_from_exif_chunk(&mut copy);
    copy
}

/// A block of EXIF data after its orientation was set to upright: the same
/// length, and the same bytes if it held none.
pub open spec fn is_cleared(block: Seq<u8>, after: Seq<u8>) -> bool {
    &&& after.len() == block.len()
    &&& exif_orientation(block) is None ==> after == block
    &&& exif_orientation(block) is Some ==> exif_orientation(after) == Some(1u8)
}

/// An EXIF segment after its orientation was set to upright: its length and
/// its first ten bytes stay.
pub open spec fn is_cleared_segment(s: Seq<u8>, after: Seq<u8>) -> bool {
    if s.len() > 10 {
        &&& after.len() == s.len()
        &&& after.take(10) == s.take(10)
        &&& is_cleared(s.skip(10), after.skip(10))
    } else {
        after == s
    }
}

/// A PNG chunk after its orientation, if it holds EXIF data, was set to upright:
/// its length, its first eight and its last four bytes stay.
pub open spec fn is_cleared_chunk(c: Seq<u8>, after: Seq<u8>) -> bool {
    if c.len() > 12 && be32(c, 4) == EXIF {
        &&& after.len() == c.len()
        &&& after.take(8) == c.take(8)
        &&& after.skip(c.len() - 4) == c.skip(c.len() - 4)
        &&& is_cleared(c.subrange(8, c.len() - 4), after.subrange(8, c.len() - 4))
    } else {
        after == c
    }
}

/// An EXIF segment with its data, from byte ten on, marked upright.
pub open spec fn upright_segment(s: Seq<u8>) -> Seq<u8> {
    if s.len() > 10 {
        s.take(10) + orientation_cleared(s.skip(10))
    } else {
        s
    }
}

/// A PNG chunk with its EXIF data, if it holds any, marked upright.
pub open spec fn upright_chunk(c: Seq<u8>) -> Seq<u8> {
    if c.len() > 12 && be32(c, 4) == EXIF {
        c.take(8) + orientation_cleared(c.subrange(8, c.len() - 4)) + c.skip(c.len() - 4)
    } else {
        c
    }
}

pub open spec fn upright_chunks(list: Seq<Seq<u8>>) -> Seq<Seq<u8>> {
    Seq::new(list.len(), |i: int| upright_chunk(list[i]))
}

/// Carried metadata marked upright.
pub open spec fn upright(meta: CarryView) -> CarryView {
    (
        match meta.0 {
            Some(v) => Some(upright_segment(v)),
            None => None,
        },
        meta.1,
        upright_chunks(meta.2),
    )
}

fn clear_segment(s: &[u8]) -> (r: Vec<u8>)
    ensures
        r@ == upright_segment(s@),
        is_cleared_segment(s@, r@),
{
    let n: usize = s.len();
    if n <= 10 {
        let r = copy_of(s, 0, n);
        proof {
            assert(r@ =~= s@);
        }
        return r;
    }
    let cleared = clear_exif_orientation(slice_subrange(s, 10, n));
    let mut out = copy_of(s, 0, 10);
    append_bytes(&mut out, cleared.as_slice());
    proof {
        assert(s@.subrange(0, 10) =~= s@.take(10));
        assert(s@.subrange(10, n as int) =~= s@.skip(10));
        assert(out@.skip(10) =~= cleared@);
        assert(out@.take(10) =~= s@.take(10));
    }
    out
}

fn clear_chunk(c: &[u8]) -> (r: Vec<u8>)
    ensures
        r@ == upright_chunk(c@),
        is_cleared_chunk(c@, r@),
{
    let n: usize = c.len();
    if n <= 12 || read_be32(c, 4) != EXIF {
        let r = copy_of(c, 0, n);
        proof {
            assert(r@ =~= c@);
        }
        return r;
    }
    let cleared = clear_exif_orientation(slice_subrange(c, 8, n - 4));
    let mut out = copy_of(c, 0, 8);
    append_bytes(&mut out, cleared.as_slice());
    append_bytes(&mut out, slice_subrange(c, n - 4, n));
    proof {
        assert(c@.subrange(0, 8) =~= c@.take(8));
        assert(c@.subrange(n - 4, n as int) =~= c@.skip(n - 4));
        assert(out@ =~= upright_chunk(c@));
        assert(out@.subrange(8, out@.len() - 4) =~= cleared@);
        assert(out@.take(8) =~= c@.take(8));
        assert(out@.skip(n - 4) =~= c@.skip(n - 4));
    }
    out
}

/// Bytes that are one JPEG segment: a marker with a length, and as many bytes.
pub open spec fn is_segment(s: Seq<u8>) -> bool {
    &&& s.len() >= 4
    &&& s[0] == 0xff
    &&& s[1] != 0xff
    &&& s[1] != 0xda
    &&& s[1] != 0xd9
    &&& s[1] != 0x01
    &&& !(0xd0 <= s[1] <= 0xd8)
    &&& be16(s, 2) >= 2
    &&& be16(s, 2) + 2 == s.len()
}

/// Bytes that are one PNG chunk other than the last.
pub open spec fn is_chunk(c: Seq<u8>) -> bool {
    &&& c.len() >= 12
    &&& be32(c, 0) + 12 == c.len()
    &&& be32(c, 4) != IEND
}

/// The bytes of the segments of a JPEG file.
pub open spec fn segment_bytes(bytes: Seq<u8>) -> Seq<Seq<u8>> {
    pieces_from(bytes, segments(bytes))
}

/// The bytes of some segments of a file.
pub open spec fn pieces_from(bytes: Seq<u8>, list: Seq<Segment>) -> Seq<Seq<u8>> {
    Seq::new(list.len(), |k: int| stretch(bytes, list[k].start as int, list[k].len as int))
}

/// The bytes of the chunks of a PNG file.
pub open spec fn chunk_bytes(bytes: Seq<u8>) -> Seq<Seq<u8>> {
    chunk_pieces(bytes, chunks(bytes))
}

/// The bytes of some chunks of a file.
pub open spec fn chunk_pieces(bytes: Seq<u8>, list: Seq<Chunk>) -> Seq<Seq<u8>> {
    Seq::new(list.len(), |k: int| stretch(bytes, list[k].start as int, list[k].len as int))
}

/// The segments behind a proper segment follow it in the list.
proof fn lemma_segment_step(bytes: Seq<u8>, i: int, s: Seq<u8>)
    requires
        is_segment(s),
        0 <= i,
        i + s.len() <= bytes.len() <= usize::MAX,
        bytes.subrange(i, i + s.len()) == s,
    ensures
        segments_from(bytes, i) == seq![
            Segment { marker: s[1], start: i as usize, len: s.len() as usize },
        ] + segments_from(bytes, i + s.len()),
{
    assert(s[0] == bytes[i] && s[1] == bytes[i + 1] && s[2] == bytes[i + 2] && s[3] == bytes[i
        + 3]);
}

proof fn lemma_segments_through(bytes: Seq<u8>, i: int, parts: Seq<Seq<u8>>)
    requires
        0 <= i,
        i + flat(parts).len() <= bytes.len() <= usize::MAX,
        bytes.subrange(i, i + flat(parts).len()) == flat(parts),
        forall|k: int| 0 <= k < parts.len() ==> is_segment(#[trigger] parts[k]),
    ensures
        pieces_from(bytes, segments_from(bytes, i)) == parts + pieces_from(
            bytes,
            segments_from(bytes, i + flat(parts).len()),
        ),
    decreases parts.len(),
{
    if parts.len() == 0 {
        assert(parts + pieces_from(bytes, segments_from(bytes, i)) =~= pieces_from(
            bytes,
            segments_from(bytes, i),
        ));
    } else {
        let init = parts.drop_last();
        let last = parts.last();
        let mid = i + flat(init).len();
        assert(is_segment(parts[parts.len() - 1]));
        assert forall|k: int| 0 <= k < init.len() implies is_segment(#[trigger] init[k]) by {
            assert(init[k] == parts[k]);
        }
        assert(bytes.subrange(i, mid) =~= flat(init)) by {
            assert(bytes.subrange(i, mid) =~= bytes.subrange(
                i,
                i + flat(parts).len(),
            ).take(flat(init).len() as int));
            assert(flat(parts).take(flat(init).len() as int) =~= flat(init));
        }
        assert(bytes.subrange(mid, mid + last.len()) =~= last) by {
            assert(bytes.subrange(mid, mid + last.len()) =~= bytes.subrange(
                i,
                i + flat(parts).len(),
            ).skip(flat(init).len() as int));
            assert(flat(parts).skip(flat(init).len() as int) =~= last);
        }
        lemma_segments_through(bytes, i, init);
        lemma_segment_step(bytes, mid, last);
        let tail = segments_from(bytes, mid + last.len());
        let head = Segment { marker: last[1], start: mid as usize, len: last.len() as usize };
        assert(pieces_from(bytes, seq![head] + tail) =~= seq![last] + pieces_from(bytes, tail));
        assert(init + (seq![last] + pieces_from(bytes, tail)) =~= parts + pieces_from(bytes, tail));
    }
}

/// The segments of the same bytes at another place.
proof fn lemma_segments_moved(a: Seq<u8>, i: int, b: Seq<u8>, j: int)
    requires
        0 <= i <= a.len() <= usize::MAX,
        0 <= j <= b.len() <= usize::MAX,
        a.skip(i) == b.skip(j),
    ensures
        pieces_from(a, segments_from(a, i)) == pieces_from(b, segments_from(b, j)),
    decreases a.len() - i,
{
    assert(a.skip(i).len() == a.len() - i);
    assert(b.skip(j).len() == b.len() - j);
    let (ra, rb) = (a.skip(i), b.skip(j));
    if i + 3 < a.len() {
        assert(ra[0] == a[i] && ra[1] == a[i + 1] && ra[2] == a[i + 2] && ra[3] == a[i + 3]);
        assert(rb[0] == b[j] && rb[1] == b[j + 1] && rb[2] == b[j + 2] && rb[3] == b[j + 3]);
    }
    if i + 3 < a.len() && a[i] == 0xff {
        let marker = a[i + 1];
        if marker == 0xff {
            assert(a.skip(i + 1) =~= a.skip(i).skip(1));
            assert(b.skip(j + 1) =~= b.skip(j).skip(1));
            lemma_segments_moved(a, i + 1, b, j + 1);
        } else if marker == 0xda || marker == 0xd9 {
        } else if marker == 0x01 || 0xd0 <= marker <= 0xd8 {
            assert(a.skip(i + 2) =~= a.skip(i).skip(2));
            assert(b.skip(j + 2) =~= b.skip(j).skip(2));
            lemma_segments_moved(a, i + 2, b, j + 2);
        } else {
            let len = be16(a, i + 2);
            assert(be16(b, j + 2) == len);
            if len < 2 || i + 2 + len > a.len() {
            } else {
                let next = 2 + len;
                assert(a.skip(i + next) =~= a.skip(i).skip(next));
                assert(b.skip(j + next) =~= b.skip(j).skip(next));
                lemma_segments_moved(a, i + next, b, j + next);
                let sa = Segment { marker, start: i as usize, len: (len + 2) as usize };
                let sb = Segment { marker, start: j as usize, len: (len + 2) as usize };
                assert(stretch(a, i, len + 2) =~= stretch(b, j, len + 2)) by {
                    assert(stretch(a, i, len + 2) =~= a.skip(i).take(len + 2));
                    assert(stretch(b, j, len + 2) =~= b.skip(j).take(len + 2));
                }
                let (ta, tb) = (segments_from(a, i + next), segments_from(b, j + next));
                assert(pieces_from(a, seq![sa] + ta) =~= seq![stretch(a, i, len + 2)]
                    + pieces_from(a, ta));
                assert(pieces_from(b, seq![sb] + tb) =~= seq![stretch(b, j, len + 2)]
                    + pieces_from(b, tb));
            }
        }
    }
}

/// The parts that go into a JPEG file, one by one.
pub open spec fn jpeg_parts(meta: CarryView) -> Seq<Seq<u8>> {
    (match meta.0 {
        Some(v) => seq![v],
        None => seq![],
    }) + meta.1
}

proof fn lemma_flat_two(a: Seq<Seq<u8>>, b: Seq<Seq<u8>>)
    ensures
        flat(a + b) == flat(a) + flat(b),
    decreases b.len(),
{
    if b.len() == 0 {
        assert(a + b =~= a);
        assert(flat(a) + flat(b) =~= flat(a));
    } else {
        lemma_flat_two(a, b.drop_last());
        assert((a + b).drop_last() =~= a + b.drop_last());
        assert((a + b).last() == b.last());
        assert(flat(a + b) =~= flat(a) + flat(b));
    }
}

/// A JPEG file with carried segments put in holds exactly these segments, byte
/// for byte, before its own.
pub proof fn lemma_spliced_jpeg_segments(meta: CarryView, encoded: Seq<u8>)
    requires
        leads(encoded, jpeg_start()),
        4 <= encoded.len(),
        encoded.len() + jpeg_extra(meta).len() <= usize::MAX,
        forall|k: int| 0 <= k < jpeg_parts(meta).len() ==> is_segment(#[trigger] jpeg_parts(meta)[k]),
    ensures
        segment_bytes(spliced_jpeg(meta, encoded)) == jpeg_parts(meta) + segment_bytes(encoded),
{
    let parts = jpeg_parts(meta);
    let extra = jpeg_extra(meta);
    let bytes = spliced_jpeg(meta, encoded);
    assert(flat(parts) == extra) by {
        match meta.0 {
            Some(v) => {
                lemma_flat_two(seq![v], meta.1);
                let one = seq![v];
                assert(one.drop_last() =~= seq![]);
                assert(flat(one.drop_last()).len() == 0);
                assert(flat(one) == flat(one.drop_last()) + one.last());
                assert(flat(one) =~= v);
            },
            None => {
                assert(parts =~= meta.1);
                assert(flat(parts) =~= extra);
            },
        }
    }
    if extra.len() == 0 {
        if parts.len() > 0 {
            assert(is_segment(parts[parts.len() - 1]));
            assert(flat(parts).len() >= parts.last().len());
        }
        assert(parts + segment_bytes(encoded) =~= segment_bytes(encoded));
    } else {
        assert(bytes =~= inserted(encoded, 2, extra));
        assert(leads(bytes, jpeg_start())) by {
            assert(bytes.take(2) =~= encoded.take(2));
        }
        assert(bytes.subrange(2, 2int + extra.len()) =~= extra);
        lemma_segments_through(bytes, 2, parts);
        assert(bytes.skip(2int + extra.len()) =~= encoded.skip(2));
        lemma_segments_moved(bytes, 2int + extra.len(), encoded, 2);
    }
}

proof fn lemma_segments_proper(bytes: Seq<u8>, i: int)
    requires
        0 <= i,
        bytes.len() <= usize::MAX,
    ensures
        forall|k: int|
            #![trigger segments_from(bytes, i)[k]]
            0 <= k < segments_from(bytes, i).len() ==> {
                let s = segments_from(bytes, i)[k];
                &&& s.start + s.len <= bytes.len()
                &&& is_segment(stretch(bytes, s.start as int, s.len as int))
                &&& s.marker == bytes[s.start + 1]
            },
    decreases bytes.len() - i,
{
    if i + 3 >= bytes.len() || bytes[i] != 0xff {
    } else {
        let marker = bytes[i + 1];
        if marker == 0xff {
            lemma_segments_proper(bytes, i + 1);
            assert(segments_from(bytes, i) == segments_from(bytes, i + 1));
        } else if marker == 0xda || marker == 0xd9 {
        } else if marker == 0x01 || 0xd0 <= marker <= 0xd8 {
            lemma_segments_proper(bytes, i + 2);
            assert(segments_from(bytes, i) == segments_from(bytes, i + 2));
        } else {
            let len = be16(bytes, i + 2);
            if len < 2 || i + 2 + len > bytes.len() {
            } else {
                lemma_segments_proper(bytes, i + 2 + len);
                let tail = segments_from(bytes, i + 2 + len);
                let list = segments_from(bytes, i);
                assert forall|k: int|
                    #![trigger list[k]]
                    0 <= k < list.len() implies {
                    let s = list[k];
                    &&& s.start + s.len <= bytes.len()
                    &&& is_segment(stretch(bytes, s.start as int, s.len as int))
                    &&& s.marker == bytes[s.start + 1]
                } by {
                    if k > 0 {
                        assert(list[k] == tail[k - 1]);
                    } else {
                        let p = stretch(bytes, i, len + 2);
                        assert(p[0] == bytes[i] && p[1] == bytes[i + 1] && p[2] == bytes[i + 2]
                            && p[3] == bytes[i + 3]);
                    }
                }
            }
        }
    }
}

proof fn lemma_icc_proper(bytes: Seq<u8>, n: int)
    requires
        bytes.len() <= usize::MAX,
        leads(bytes, jpeg_start()),
        0 <= n <= segments(bytes).len(),
    ensures
        forall|k: int|
            0 <= k < icc_parts(bytes, segments(bytes), n).len() ==> is_segment(
                #[trigger] icc_parts(bytes, segments(bytes), n)[k],
            ),
        first_exif(bytes, segments(bytes), n) matches Some(v) ==> is_segment(v),
    decreases n,
{
    if n > 0 {
        lemma_icc_proper(bytes, n - 1);
        lemma_segments_proper(bytes, 2);
        let list = segments(bytes);
        assert(list == segments_from(bytes, 2));
        assert(is_segment(stretch(bytes, list[n - 1].start as int, list[n - 1].len as int)));
        let before = icc_parts(bytes, list, n - 1);
        let now = icc_parts(bytes, list, n);
        assert forall|k: int| 0 <= k < now.len() implies is_segment(#[trigger] now[k]) by {
            if k < before.len() {
                assert(now[k] == before[k]);
            }
        }
    }
}

/// What was read from a JPEG photo can be put into a JPEG file: its segments
/// are then in that file, byte for byte, before the file's own.
pub proof fn lemma_carried_jpeg_survives(photo: Seq<u8>, encoded: Seq<u8>)
    requires
        leads(photo, jpeg_start()),
        leads(encoded, jpeg_start()),
        photo.len() <= usize::MAX,
        4 <= encoded.len(),
        encoded.len() + jpeg_extra(carried(photo)).len() <= usize::MAX,
    ensures
        segment_bytes(spliced_jpeg(carried(photo), encoded)) == jpeg_parts(carried(photo))
            + segment_bytes(encoded),
{
    let meta = carried(photo);
    let parts = jpeg_parts(meta);
    lemma_icc_proper(photo, segments(photo).len() as int);
    assert forall|k: int| 0 <= k < parts.len() implies is_segment(#[trigger] parts[k]) by {
        match meta.0 {
            Some(v) => {
                if k > 0 {
                    assert(parts[k] == meta.1[k - 1]);
                }
            },
            None => {
                assert(parts[k] == meta.1[k]);
            },
        }
    }
    lemma_spliced_jpeg_segments(meta, encoded);
}

/// The chunks behind a proper chunk follow it in the list.
proof fn lemma_chunk_step(bytes: Seq<u8>, i: int, c: Seq<u8>)
    requires
        is_chunk(c),
        0 <= i,
        i + c.len() <= bytes.len() <= usize::MAX,
        bytes.subrange(i, i + c.len()) == c,
    ensures
        chunks_from(bytes, i) == seq![
            Chunk { kind: be32(c, 4) as u32, start: i as usize, len: c.len() as usize },
        ] + chunks_from(bytes, i + c.len()),
{
    assert(c[0] == bytes[i] && c[1] == bytes[i + 1] && c[2] == bytes[i + 2] && c[3] == bytes[i
        + 3]);
    assert(c[4] == bytes[i + 4] && c[5] == bytes[i + 5] && c[6] == bytes[i + 6] && c[7] == bytes[i
        + 7]);
}

proof fn lemma_chunks_through(bytes: Seq<u8>, i: int, parts: Seq<Seq<u8>>)
    requires
        0 <= i,
        i + flat(parts).len() <= bytes.len() <= usize::MAX,
        bytes.subrange(i, i + flat(parts).len()) == flat(parts),
        forall|k: int| 0 <= k < parts.len() ==> is_chunk(#[trigger] parts[k]),
    ensures
        chunk_pieces(bytes, chunks_from(bytes, i)) == parts + chunk_pieces(
            bytes,
            chunks_from(bytes, i + flat(parts).len()),
        ),
    decreases parts.len(),
{
    if parts.len() == 0 {
        assert(parts + chunk_pieces(bytes, chunks_from(bytes, i)) =~= chunk_pieces(
            bytes,
            chunks_from(bytes, i),
        ));
    } else {
        let init = parts.drop_last();
        let last = parts.last();
        let mid = i + flat(init).len();
        assert(is_chunk(parts[parts.len() - 1]));
        assert forall|k: int| 0 <= k < init.len() implies is_chunk(#[trigger] init[k]) by {
            assert(init[k] == parts[k]);
        }
        assert(bytes.subrange(i, mid) =~= flat(init)) by {
            assert(bytes.subrange(i, mid) =~= bytes.subrange(
                i,
                i + flat(parts).len(),
            ).take(flat(init).len() as int));
            assert(flat(parts).take(flat(init).len() as int) =~= flat(init));
        }
        assert(bytes.subrange(mid, mid + last.len()) =~= last) by {
            assert(bytes.subrange(mid, mid + last.len()) =~= bytes.subrange(
                i,
                i + flat(parts).len(),
            ).skip(flat(init).len() as int));
            assert(flat(parts).skip(flat(init).len() as int) =~= last);
        }
        lemma_chunks_through(bytes, i, init);
        lemma_chunk_step(bytes, mid, last);
        let tail = chunks_from(bytes, mid + last.len());
        let head = Chunk {
            kind: be32(last, 4) as u32,
            start: mid as usize,
            len: last.len() as usize,
        };
        assert(chunk_pieces(bytes, seq![head] + tail) =~= seq![last] + chunk_pieces(bytes, tail));
        assert(init + (seq![last] + chunk_pieces(bytes, tail)) =~= parts + chunk_pieces(
            bytes,
            tail,
        ));
    }
}

/// The chunks of the same bytes at another place.
proof fn lemma_chunks_moved(a: Seq<u8>, i: int, b: Seq<u8>, j: int)
    requires
        0 <= i <= a.len() <= usize::MAX,
        0 <= j <= b.len() <= usize::MAX,
        a.skip(i) == b.skip(j),
    ensures
        chunk_pieces(a, chunks_from(a, i)) == chunk_pieces(b, chunks_from(b, j)),
    decreases a.len() - i,
{
    assert(a.skip(i).len() == a.len() - i);
    assert(b.skip(j).len() == b.len() - j);
    let (ra, rb) = (a.skip(i), b.skip(j));
    if i + 12 <= a.len() {
        assert(ra[0] == a[i] && ra[1] == a[i + 1] && ra[2] == a[i + 2] && ra[3] == a[i + 3]);
        assert(rb[0] == b[j] && rb[1] == b[j + 1] && rb[2] == b[j + 2] && rb[3] == b[j + 3]);
        assert(ra[4] == a[i + 4] && ra[5] == a[i + 5] && ra[6] == a[i + 6] && ra[7] == a[i + 7]);
        assert(rb[4] == b[j + 4] && rb[5] == b[j + 5] && rb[6] == b[j + 6] && rb[7] == b[j + 7]);
        let total = 12 + be32(a, i);
        assert(be32(b, j) == be32(a, i) && be32(b, j + 4) == be32(a, i + 4));
        if i + total <= a.len() {
            let kind = be32(a, i + 4) as u32;
            let ca = Chunk { kind, start: i as usize, len: total as usize };
            let cb = Chunk { kind, start: j as usize, len: total as usize };
            assert(stretch(a, i, total) =~= stretch(b, j, total)) by {
                assert(stretch(a, i, total) =~= ra.take(total));
                assert(stretch(b, j, total) =~= rb.take(total));
            }
            if kind == IEND {
                assert(chunk_pieces(a, seq![ca]) =~= seq![stretch(a, i, total)]);
                assert(chunk_pieces(b, seq![cb]) =~= seq![stretch(b, j, total)]);
            } else {
                assert(a.skip(i + total) =~= ra.skip(total));
                assert(b.skip(j + total) =~= rb.skip(total));
                lemma_chunks_moved(a, i + total, b, j + total);
                let (ta, tb) = (chunks_from(a, i + total), chunks_from(b, j + total));
                assert(chunk_pieces(a, seq![ca] + ta) =~= seq![stretch(a, i, total)]
                    + chunk_pieces(a, ta));
                assert(chunk_pieces(b, seq![cb] + tb) =~= seq![stretch(b, j, total)]
                    + chunk_pieces(b, tb));
            }
        }
    }
}

/// A PNG file with carried chunks put in holds its header, then exactly these
/// chunks, byte for byte, then the rest of its own.
pub proof fn lemma_spliced_png_chunks(meta: CarryView, encoded: Seq<u8>)
    requires
        encoded.len() + flat(meta.2).len() <= usize::MAX,
        chunks(encoded).len() > 0,
        chunks(encoded)[0].kind == IHDR,
        forall|k: int| 0 <= k < meta.2.len() ==> is_chunk(#[trigger] meta.2[k]),
    ensures
        chunk_bytes(spliced_png(meta, encoded)) == seq![chunk_bytes(encoded)[0]] + meta.2
            + chunk_bytes(encoded).skip(1),
{
    let list = chunks(encoded);
    let first = list[0];
    let at = 8 + first.len as int;
    let extra = flat(meta.2);
    let bytes = spliced_png(meta, encoded);
    let own = chunk_bytes(encoded);
    let head = stretch(encoded, 8, first.len as int);
    let rest = chunks_from(encoded, at);
    assert(first.start == 8);
    assert(list =~= seq![first] + rest);
    assert(own =~= seq![head] + chunk_pieces(encoded, rest));
    if meta.2.len() == 0 {
        assert(seq![own[0]] + meta.2 + own.skip(1) =~= own);
    } else {
        assert(bytes =~= inserted(encoded, at, extra));
        assert(leads(bytes, png_start())) by {
            assert(bytes.take(8) =~= encoded.take(8));
        }
        assert(head[0] == encoded[8] && head[1] == encoded[9] && head[2] == encoded[10] && head[3]
            == encoded[11]);
        assert(head[4] == encoded[12] && head[5] == encoded[13] && head[6] == encoded[14]
            && head[7] == encoded[15]);
        assert(is_chunk(head));
        assert(bytes.subrange(8, 8int + head.len()) =~= head);
        lemma_chunk_step(bytes, 8, head);
        assert(bytes.subrange(at, at + extra.len()) =~= extra);
        lemma_chunks_through(bytes, at, meta.2);
        assert(bytes.skip(at + extra.len()) =~= encoded.skip(at));
        lemma_chunks_moved(bytes, at + extra.len(), encoded, at);
        let moved = chunks_from(bytes, at);
        let lead = Chunk { kind: be32(head, 4) as u32, start: 8, len: head.len() as usize };
        assert(chunk_pieces(bytes, seq![lead] + moved) =~= seq![head] + chunk_pieces(bytes, moved));
        assert(chunk_bytes(bytes) =~= seq![own[0]] + meta.2 + own.skip(1));
    }
}

proof fn lemma_chunks_proper(bytes: Seq<u8>, i: int)
    requires
        0 <= i,
        bytes.len() <= usize::MAX,
    ensures
        forall|k: int|
            #![trigger chunks_from(bytes, i)[k]]
            0 <= k < chunks_from(bytes, i).len() ==> {
                let c = chunks_from(bytes, i)[k];
                &&& c.start + c.len <= bytes.len()
                &&& c.len >= 12
                &&& be32(stretch(bytes, c.start as int, c.len as int), 0) + 12 == c.len
                &&& be32(stretch(bytes, c.start as int, c.len as int), 4) == c.kind
            },
    decreases bytes.len() - i,
{
    if i + 12 <= bytes.len() && i + 12 + be32(bytes, i) <= bytes.len() {
        let total = 12 + be32(bytes, i);
        let kind = be32(bytes, i + 4) as u32;
        let p = stretch(bytes, i, total);
        assert(p[0] == bytes[i] && p[1] == bytes[i + 1] && p[2] == bytes[i + 2] && p[3] == bytes[i
            + 3]);
        assert(p[4] == bytes[i + 4] && p[5] == bytes[i + 5] && p[6] == bytes[i + 6] && p[7]
            == bytes[i + 7]);
        let list = chunks_from(bytes, i);
        let tail = if kind == IEND {
            seq![]
        } else {
            chunks_from(bytes, i + total)
        };
        if kind != IEND {
            lemma_chunks_proper(bytes, i + total);
        }
        let first = Chunk { kind, start: i as usize, len: total as usize };
        assert(list =~= seq![first] + tail);
        assert forall|k: int|
            #![trigger list[k]]
            0 <= k < list.len() implies {
            let c = list[k];
            &&& c.start + c.len <= bytes.len()
            &&& c.len >= 12
            &&& be32(stretch(bytes, c.start as int, c.len as int), 0) + 12 == c.len
            &&& be32(stretch(bytes, c.start as int, c.len as int), 4) == c.kind
        } by {
            if k > 0 {
                assert(list[k] == tail[k - 1]);
            }
        }
    }
}

proof fn lemma_carried_chunks_proper(bytes: Seq<u8>, n: int)
    requires
        bytes.len() <= usize::MAX,
        leads(bytes, png_start()),
        0 <= n <= chunks(bytes).len(),
    ensures
        forall|k: int|
            0 <= k < carried_chunks(bytes, chunks(bytes), n).len() ==> is_chunk(
                #[trigger] carried_chunks(bytes, chunks(bytes), n)[k],
            ),
    decreases n,
{
    if n > 0 {
        lemma_carried_chunks_proper(bytes, n - 1);
        lemma_chunks_proper(bytes, 8);
        let list = chunks(bytes);
        assert(list == chunks_from(bytes, 8));
        let c = list[n - 1];
        let before = carried_chunks(bytes, list, n - 1);
        let now = carried_chunks(bytes, list, n);
        assert forall|k: int| 0 <= k < now.len() implies is_chunk(#[trigger] now[k]) by {
            if k < before.len() {
                assert(now[k] == before[k]);
            }
        }
    }
}

/// What was read from a PNG photo can be put into a PNG file: its chunks are
/// then in that file, byte for byte, right behind the header.
pub proof fn lemma_carried_png_survives(photo: Seq<u8>, encoded: Seq<u8>)
    requires
        leads(photo, png_start()),
        photo.len() <= usize::MAX,
        encoded.len() + flat(carried(photo).2).len() <= usize::MAX,
        chunks(encoded).len() > 0,
        chunks(encoded)[0].kind == IHDR,
    ensures
        chunk_bytes(spliced_png(carried(photo), encoded)) == seq![chunk_bytes(encoded)[0]]
            + carried(photo).2 + chunk_bytes(encoded).skip(1),
{
    assert(!leads(photo, jpeg_start())) by {
        assert(photo.take(8)[0] == png_start()[0]);
        if leads(photo, jpeg_start()) {
            assert(photo.take(2)[0] == jpeg_start()[0]);
        }
    }
    lemma_carried_chunks_proper(photo, chunks(photo).len() as int);
    lemma_spliced_png_chunks(carried(photo), encoded);
}

/// The orientation of a photo, as an EXIF code from 1 to 8; `None` where the
/// bytes are no picture.
pub uninterp spec fn photo_orientation(bytes: Seq<u8>) -> Option<u8>;

/// `image::ImageReader` with the format guessed from the bytes, and
/// `image::ImageDecoder::orientation`: the orientation that the picture's
/// metadata gives, 1 where it gives none; a function of the bytes.
#[verifier::external_body]
pub(crate) fn decode_orientation(bytes: &[u8]) -> (r: Option<u8>)
    ensures
        r == photo_orientation(bytes@),
        r matches Some(code) ==> 1 <= code <= 8,
{
    let reader = image::ImageReader::new(std::io::Cursor::new(bytes)).with_guessed_format().ok()?;
    let mut decoder = reader.into_decoder().ok()?;
    decoder.orientation().ok().map(|o| o.to_exif())
}

/// The orientation of a photo; `None` where it cannot be told, which means no
/// turn.
pub fn read_orientation(bytes: &[u8]) -> (r: Option<u8>)
    ensures
        r == photo_orientation(bytes@),
{
    decode_orientation(bytes)
}

/// The picture in a file whose kind its first bytes show, or the message of
/// what went wrong.
pub uninterp spec fn decoded_any(bytes: Seq<u8>) -> Result<image::DynamicImage, Seq<char>>;

/// `image::load_from_memory`: the picture in a file whose kind its first bytes
/// show; a function of the bytes. On a damaged JPEG file it rests, as `decode`
/// does, on a decoder that is built without overflow checks.
#[verifier::external_body]
fn decode_any(bytes: &[u8]) -> (r: Result<image::DynamicImage, String>)
    ensures
        image_view(r) == decoded_any(bytes@),
{
    image::load_from_memory(bytes).map_err(|e| e.to_string())
}

/// A decoded picture turned by an orientation.
pub uninterp spec fn turned(img: image::DynamicImage, code: u8) -> image::DynamicImage;

/// `image::DynamicImage::apply_orientation`: a picture turned by an orientation,
/// an EXIF code; a function of the picture and the code.
#[verifier::external_body]
fn turn(img: image::DynamicImage, code: u8) -> (r: image::DynamicImage)
    requires
        1 <= code <= 8,
    ensures
        r == turned(img, code),
{
    let mut img = img;
    img.apply_orientation(image::metadata::Orientation::from_exif(code).unwrap());
    img
}

/// The bytes of a picture turned by an orientation and written as PNG, or the
/// message of what went wrong.
pub open spec fn turned_png(bytes: Seq<u8>, code: u8) -> Result<Seq<u8>, Seq<char>> {
    match decoded_any(bytes) {
        Ok(img) => png_file(turned(img, code)),
        Err(message) => Err(message),
    }
}

fn turn_to_png(bytes: &[u8], code: u8) -> (r: Result<Vec<u8>, String>)
    requires
        1 <= code <= 8,
    ensures
        bytes_view(r) == turned_png(bytes@, code),
{
    match decode_any(bytes) {
        Ok(img) => write_png(&turn(img, code)),
        Err(e) => Err(e),
    }
}

/// An orientation asks for a turn.
pub open spec fn needs_turn(code: Option<u8>) -> bool {
    code is Some && code != Some(1u8)
}

/// Turns a working copy upright as the original photo asks for. `Ok(None)`
/// means that the copy stays as it is; else the new bytes of the copy, as PNG.
pub fn bake_orientation_into(orig: &[u8], copy: &[u8]) -> (r: Result<Option<Vec<u8>>, String>)
    ensures
        !needs_turn(photo_orientation(orig@)) ==> r matches Ok(None),
        needs_turn(photo_orientation(orig@)) ==> match turned_png(
            copy@,
            photo_orientation(orig@)->0,
        ) {
            Ok(bytes) => r matches Ok(Some(v)) && v@ == bytes,
            Err(message) => r matches Err(e) && e@ == message,
        },
{
    match decode_orientation(orig) {
        None => Ok(None),
        Some(code) => {
            if code == 1 {
                return Ok(None);
            }
            match turn_to_png(copy, code) {
                Ok(bytes) => Ok(Some(bytes)),
                Err(e) => Err(e),
            }
        },
    }
}

} // verus!
