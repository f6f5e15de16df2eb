//! The snapshot header and the layout of the sections behind it.

use crate::bytes::{
    append_bytes, append_u32s, append_u64s, get_u32, get_u64,
};
use vstd::prelude::*;
#[allow(unused_imports)]
use crate::bytes::{
    le_bytes, lemma_le_bytes_len, lemma_u32s_round_trip, lemma_u64s_round_trip, u32_at, u32s_at, u32s_bytes,
    u64_at, u64s_bytes,
};
#[allow(unused_imports)]
use crate::snapshot::alt_pack::records_size;

verus! {

/// The version this crate writes and reads.
pub const SNAPSHOT_VERSION: u32 = 8;

/// Unreachable, in the plain distance table.
pub const ALT_UNREACHABLE: u16 = 0xFFFF;

/// Saturation marker of the plain distance table: at least this many quanta away.
pub const ALT_SATURATED: u16 = 0xFFFE;

/// The distance table is stored packed (see `alt_pack`).
pub const ALT_FORMAT_PACKED: u32 = 1;

/// Alignment of every section start.
pub const SECTION_ALIGN: u64 = 64;

/// Alignment of the distance table and of the section behind it.
pub const ALT_SECTION_ALIGN: u64 = 2097152;

/// Number of section offsets in the header.
pub const MANIFEST_OFFSET_COUNT: usize = 21;

/// Size of the header in bytes.
pub const MANIFEST_SIZE: usize = 256;

/// The four bytes that start a snapshot: "NPSS".
pub open spec fn snapshot_magic() -> Seq<u8> {
    seq![78u8, 80u8, 83u8, 83u8]
}

// ---- coordinates ----

/// Whether a coordinate fits the packed key.
pub open spec fn coord_in_range(x: int, y: int, plane: int) -> bool {
    0 <= x < 32768 && 0 <= y < 32768 && 0 <= plane < 4
}

/// The packed key of a coordinate.
pub open spec fn coord_key(x: int, y: int, plane: int) -> int {
    plane * 0x4000_0000 + y * 0x8000 + x
}

/// Packs a coordinate into one key. Keys order as (plane, y, x).
pub fn pack_coord(x: i32, y: i32, plane: i32) -> (r: u32)
    requires
        coord_in_range(x as int, y as int, plane as int),
    ensures
        r == coord_key(x as int, y as int, plane as int),
{
    let (a, b, c) = (x as u32, y as u32, plane as u32);
    assert((c << 30) | (b << 15) | a == c * 0x4000_0000 + b * 0x8000 + a) by (bit_vector)
        requires
            a < 32768,
            b < 32768,
            c < 4,
    ;
    (c << 30) | (b << 15) | a
}

/// The coordinate of a key.
pub open spec fn key_coord(key: u32) -> (int, int, int) {
    (key as int % 32768, key as int / 32768 % 32768, key as int / 0x4000_0000)
}

/// Unpacks a key into (x, y, plane).
pub fn unpack_coord(key: u32) -> (r: (i32, i32, i32))
    ensures
        (r.0 as int, r.1 as int, r.2 as int) == key_coord(key),
{
    assert(key & 0x7FFF == key % 32768) by (bit_vector);
    assert((key >> 15) & 0x7FFF == key / 32768 % 32768) by (bit_vector);
    assert(key >> 30 == key / 0x4000_0000) by (bit_vector);
    ((key & 0x7FFF) as i32, ((key >> 15) & 0x7FFF) as i32, (key >> 30) as i32)
}

/// Unpacking undoes packing.
pub proof fn law_unpack_pack(x: int, y: int, plane: int)
    requires
        coord_in_range(x, y, plane),
    ensures
        0 <= coord_key(x, y, plane) <= u32::MAX,
        key_coord(coord_key(x, y, plane) as u32) == (x, y, plane),
{
}

/// Packing undoes unpacking: every key is the key of its coordinate.
pub proof fn law_pack_unpack(key: u32)
    ensures
        ({
            let c = key_coord(key);
            coord_in_range(c.0, c.1, c.2) && coord_key(c.0, c.1, c.2) == key
        }),
{
}

/// Keys order as (plane, y, x) do.
pub proof fn law_key_order(x1: int, y1: int, p1: int, x2: int, y2: int, p2: int)
    requires
        coord_in_range(x1, y1, p1),
        coord_in_range(x2, y2, p2),
    ensures
        coord_key(x1, y1, p1) < coord_key(x2, y2, p2) <==> (p1 < p2 || (p1 == p2 && (y1 < y2 || (y1 == y2 && x1
            < x2)))),
{
}

// ---- alignment ----

/// The least multiple of `align` that is at least `off`.
#[verifier::opaque]
pub open spec fn aligned(off: int, align: int) -> int {
    (off + align - 1) / align * align
}

pub proof fn lemma_aligned(off: int, align: int)
    requires
        0 < align,
        0 <= off,
    ensures
        off <= aligned(off, align) < off + align,
        aligned(off, align) % align == 0,
{
    reveal(aligned);
    let t = off + align - 1;
    vstd::arithmetic::div_mod::lemma_fundamental_div_mod(t, align);
    assert(align * (t / align) == t / align * align) by (nonlinear_arith);
    vstd::arithmetic::div_mod::lemma_mod_multiples_basic(t / align, align);
}

/// Rounds `off` up to the section alignment.
pub fn align_up(off: u64) -> (r: u64)
    requires
        off + 63 <= u64::MAX,
    ensures
        r == aligned(off as int, 64),
{
    reveal(aligned);
    let t: u64 = off + (SECTION_ALIGN - 1);
    assert(t & !63u64 == t / 64 * 64) by (bit_vector);
    t & !63u64
}

// ---- the header ----

#[derive(Debug, Clone, Copy, PartialEq, Eq, Structural)]
pub struct SnapshotCounts {
    pub nodes: u32,
    pub walk_edges: u32,
    pub macro_edges: u32,
    /// Number of `u32` entries of the requirement tags.
    pub req_tags: u32,
    pub landmarks: u32,
    pub fairy_rings: u32,
    pub walk_components: u32,
}

#[derive(Debug, Clone, Copy, PartialEq, Eq, Structural)]
pub struct Manifest {
    pub version: u32,
    pub counts: SnapshotCounts,
    pub off_coords: u64,
    pub off_walk_offsets: u64,
    pub off_walk_dst: u64,
    pub off_walk_diag: u64,
    pub off_comp: u64,
    pub off_macro_src: u64,
    pub off_macro_dst: u64,
    pub off_macro_w: u64,
    pub off_macro_kind_first: u64,
    pub off_macro_id_first: u64,
    pub off_macro_meta_offs: u64,
    pub off_macro_meta_lens: u64,
    pub off_macro_meta_blob: u64,
    pub off_req_tags: u64,
    pub off_landmarks: u64,
    pub off_lm_tab: u64,
    pub off_fairy_nodes: u64,
    pub off_fairy_cost_ms: u64,
    pub off_fairy_meta_offs: u64,
    pub off_fairy_meta_lens: u64,
    pub off_fairy_meta_blob: u64,
    /// How the distance table is stored: `ALT_FORMAT_PACKED`, or plain.
    pub alt_format: u32,
    /// Number of exceptions of a packed distance table.
    pub alt_exceptions: u32,
}

#[derive(Debug, Clone, Copy, PartialEq, Eq)]
pub enum ManifestError {
    HeaderTooSmall,
    BadMagic,
    UnsupportedVersion(u32),
    OutOfBounds(&'static str),
    Misaligned(&'static str),
    Invalid(&'static str),
}

impl ManifestError {
    /// The message of the error.
    pub fn message(&self) -> (r: String)
        ensures
            r@ == match *self {
                ManifestError::HeaderTooSmall => "snapshot header too small"@,
                ManifestError::BadMagic => "bad magic"@,
                ManifestError::UnsupportedVersion(v) => "unsupported version "@
                    + crate::text::decimal(v as nat),
                ManifestError::OutOfBounds(name) => "section out of bounds: "@ + name@,
                ManifestError::Misaligned(name) => "section misaligned: "@ + name@,
                ManifestError::Invalid(what) => "invalid snapshot: "@ + what@,
            },
    {
        match *self {
            ManifestError::HeaderTooSmall => crate::text::owned("snapshot header too small"),
            ManifestError::BadMagic => crate::text::owned("bad magic"),
            ManifestError::UnsupportedVersion(v) => crate::text::join(
                "unsupported version ",
                crate::text::number(v as u64).as_str(),
            ),
            ManifestError::OutOfBounds(name) => crate::text::join("section out of bounds: ", name),
            ManifestError::Misaligned(name) => crate::text::join("section misaligned: ", name),
            ManifestError::Invalid(what) => crate::text::join("invalid snapshot: ", what),
        }
    }
}

/// One section that must lie in the file: its name, offset and size in bytes.
pub struct Bound {
    pub name: &'static str,
    pub off: int,
    pub size: int,
}

pub open spec fn bound(name: &'static str, off: u64, size: int) -> Bound {
    Bound { name, off: off as int, size }
}

/// Whether the section lies in a file of `len` bytes.
pub open spec fn in_file(b: Bound, len: int) -> bool {
    b.off + b.size <= len
}

/// The manifest that the first bytes of a file spell.
#[verifier::opaque]
pub open spec fn header_manifest(h: Seq<u8>) -> Manifest {
    Manifest {
        version: u32_at(h, 4),
        counts: SnapshotCounts {
            nodes: u32_at(h, 8),
            walk_edges: u32_at(h, 12),
            macro_edges: u32_at(h, 16),
            req_tags: u32_at(h, 20),
            landmarks: u32_at(h, 24),
            fairy_rings: u32_at(h, 28),
            walk_components: u32_at(h, 32),
        },
        off_coords: u64_at(h, 36),
        off_walk_offsets: u64_at(h, 44),
        off_walk_dst: u64_at(h, 52),
        off_walk_diag: u64_at(h, 60),
        off_comp: u64_at(h, 68),
        off_macro_src: u64_at(h, 76),
        off_macro_dst: u64_at(h, 84),
        off_macro_w: u64_at(h, 92),
        off_macro_kind_first: u64_at(h, 100),
        off_macro_id_first: u64_at(h, 108),
        off_macro_meta_offs: u64_at(h, 116),
        off_macro_meta_lens: u64_at(h, 124),
        off_macro_meta_blob: u64_at(h, 132),
        off_req_tags: u64_at(h, 140),
        off_landmarks: u64_at(h, 148),
        off_lm_tab: u64_at(h, 156),
        off_fairy_nodes: u64_at(h, 164),
        off_fairy_cost_ms: u64_at(h, 172),
        off_fairy_meta_offs: u64_at(h, 180),
        off_fairy_meta_lens: u64_at(h, 188),
        off_fairy_meta_blob: u64_at(h, 196),
        alt_format: u32_at(h, 204),
        alt_exceptions: u32_at(h, 208),
    }
}

/// What reading the header `h` gives.
pub open spec fn parse_result(h: Seq<u8>) -> Result<Manifest, ManifestError> {
    if h.len() < MANIFEST_SIZE {
        Err(ManifestError::HeaderTooSmall)
    } else if h.take(4) != snapshot_magic() {
        Err(ManifestError::BadMagic)
    } else if u32_at(h, 4) != SNAPSHOT_VERSION {
        Err(ManifestError::UnsupportedVersion(u32_at(h, 4)))
    } else {
        Ok(header_manifest(h))
    }
}

impl SnapshotCounts {
    pub open spec fn words(self) -> Seq<u32> {
        seq![
            self.nodes,
            self.walk_edges,
            self.macro_edges,
            self.req_tags,
            self.landmarks,
            self.fairy_rings,
            self.walk_components,
        ]
    }
}

impl Manifest {
    /// The section offsets in file order.
    pub open spec fn offset_seq(self) -> Seq<u64> {
        seq![
            self.off_coords,
            self.off_walk_offsets,
            self.off_walk_dst,
            self.off_walk_diag,
            self.off_comp,
            self.off_macro_src,
            self.off_macro_dst,
            self.off_macro_w,
            self.off_macro_kind_first,
            self.off_macro_id_first,
            self.off_macro_meta_offs,
            self.off_macro_meta_lens,
            self.off_macro_meta_blob,
            self.off_req_tags,
            self.off_landmarks,
            self.off_lm_tab,
            self.off_fairy_nodes,
            self.off_fairy_cost_ms,
            self.off_fairy_meta_offs,
            self.off_fairy_meta_lens,
            self.off_fairy_meta_blob,
        ]
    }

    /// The header of this manifest.
    #[verifier::opaque]
    pub open spec fn header_bytes(self) -> Seq<u8> {
        snapshot_magic() + u32s_bytes(seq![self.version] + self.counts.words()) + u64s_bytes(
            self.offset_seq(),
        ) + u32s_bytes(seq![self.alt_format, self.alt_exceptions]) + Seq::new(44, |i: int| 0u8)
    }

    /// Size of the distance table in bytes.
    pub open spec fn lm_tab_size(self) -> int {
        if self.alt_format == ALT_FORMAT_PACKED {
            records_size(self.counts.nodes as int, self.counts.landmarks as int) + 8
                * self.alt_exceptions
        } else {
            self.counts.nodes * self.counts.landmarks * 4
        }
    }

    /// The sections that must lie in the file, in the order in which they are tested.
    pub open spec fn bounds(self) -> Seq<Bound> {
        let n = self.counts.nodes as int;
        let e = self.counts.walk_edges as int;
        let m = self.counts.macro_edges as int;
        let fr = self.counts.fairy_rings as int;
        seq![
            bound("coords", self.off_coords, n * 4),
            bound("walk_offsets", self.off_walk_offsets, (n + 1) * 4),
            bound("walk_dst", self.off_walk_dst, e * 4),
            bound("walk_diag", self.off_walk_diag, (e + 7) / 8),
            bound("comp", self.off_comp, n * 2),
            bound("macro_src", self.off_macro_src, m * 4),
            bound("macro_dst", self.off_macro_dst, m * 4),
            bound("macro_w", self.off_macro_w, m * 4),
            bound("req_tags", self.off_req_tags, self.counts.req_tags * 4),
            bound("landmarks", self.off_landmarks, self.counts.landmarks * 4),
            bound("lm_tab", self.off_lm_tab, self.lm_tab_size()),
            bound("fairy_nodes", self.off_fairy_nodes, fr * 4),
            bound("macro_kind_first", self.off_macro_kind_first, m * 4),
            bound("macro_id_first", self.off_macro_id_first, m * 4),
            bound("macro_meta_offs", self.off_macro_meta_offs, m * 4),
            bound("macro_meta_lens", self.off_macro_meta_lens, m * 4),
            bound("fairy_cost_ms", self.off_fairy_cost_ms, fr * 4),
            bound("fairy_meta_offs", self.off_fairy_meta_offs, fr * 4),
            bound("fairy_meta_lens", self.off_fairy_meta_lens, fr * 4),
            bound("macro_meta_blob", self.off_macro_meta_blob, 0),
            bound("fairy_meta_blob", self.off_fairy_meta_blob, 0),
        ]
    }

    /// The sections that must be aligned, in the order in which they are tested: all but the two
    /// of metadata text.
    pub open spec fn alignments(self) -> Seq<Bound> {
        seq![
            bound("coords", self.off_coords, 0),
            bound("walk_offsets", self.off_walk_offsets, 0),
            bound("walk_dst", self.off_walk_dst, 0),
            bound("comp", self.off_comp, 0),
            bound("req_tags", self.off_req_tags, 0),
            bound("lm_tab", self.off_lm_tab, 0),
            bound("walk_diag", self.off_walk_diag, 0),
            bound("macro_src", self.off_macro_src, 0),
            bound("macro_dst", self.off_macro_dst, 0),
            bound("macro_w", self.off_macro_w, 0),
            bound("macro_kind_first", self.off_macro_kind_first, 0),
            bound("macro_id_first", self.off_macro_id_first, 0),
            bound("macro_meta_offs", self.off_macro_meta_offs, 0),
            bound("macro_meta_lens", self.off_macro_meta_lens, 0),
            bound("landmarks", self.off_landmarks, 0),
            bound("fairy_nodes", self.off_fairy_nodes, 0),
            bound("fairy_cost_ms", self.off_fairy_cost_ms, 0),
            bound("fairy_meta_offs", self.off_fairy_meta_offs, 0),
            bound("fairy_meta_lens", self.off_fairy_meta_lens, 0),
        ]
    }

    /// What the layout test gives for a file of `len` bytes: the first section that is out
    /// of the file, else the first that is not aligned, else success.
    pub open spec fn layout_result(self, len: int) -> Result<(), ManifestError> {
        match first_outside(self.bounds(), len) {
            Some(name) => Err(ManifestError::OutOfBounds(name)),
            None => match first_misaligned(self.alignments()) {
                Some(name) => Err(ManifestError::Misaligned(name)),
                None => Ok(()),
            },
        }
    }

    /// The section offsets in file order.
    pub fn offsets(&self) -> (r: [u64; MANIFEST_OFFSET_COUNT])
        ensures
            r@ == self.offset_seq(),
    {
        let r: [u64; 21] = [
            self.off_coords,
            self.off_walk_offsets,
            self.off_walk_dst,
            self.off_walk_diag,
            self.off_comp,
            self.off_macro_src,
            self.off_macro_dst,
            self.off_macro_w,
            self.off_macro_kind_first,
            self.off_macro_id_first,
            self.off_macro_meta_offs,
            self.off_macro_meta_lens,
            self.off_macro_meta_blob,
            self.off_req_tags,
            self.off_landmarks,
            self.off_lm_tab,
            self.off_fairy_nodes,
            self.off_fairy_cost_ms,
            self.off_fairy_meta_offs,
            self.off_fairy_meta_lens,
            self.off_fairy_meta_blob,
        ];
        assert(r@ =~= self.offset_seq());
        r
    }

    /// Reads a header.
    pub fn parse(header: &[u8]) -> (r: Result<Self, ManifestError>)
        ensures
            r == parse_result(header@),
    {
        reveal(header_manifest);
        if header.len() < MANIFEST_SIZE {
            return Err(ManifestError::HeaderTooSmall);
        }
        assert(header@.take(4) == snapshot_magic() <==> header@[0] == 78u8 && header@[1] == 80u8
            && header@[2] == 83u8 && header@[3] == 83u8) by {
            if header@[0] == 78u8 && header@[1] == 80u8 && header@[2] == 83u8 && header@[3] == 83u8 {
                assert(header@.take(4) =~= snapshot_magic());
            } else {
                assert(header@.take(4)[0] == header@[0]);
                assert(header@.take(4)[1] == header@[1]);
                assert(header@.take(4)[2] == header@[2]);
                assert(header@.take(4)[3] == header@[3]);
            }
        }
        if header[0] != 78 || header[1] != 80 || header[2] != 83 || header[3] != 83 {
            return Err(ManifestError::BadMagic);
        }
        let version: u32 = get_u32(header, 4);
        if version != SNAPSHOT_VERSION {
            return Err(ManifestError::UnsupportedVersion(version));
        }
        Ok(
            Manifest {
                version,
                counts: SnapshotCounts {
                    nodes: get_u32(header, 8),
                    walk_edges: get_u32(header, 12),
                    macro_edges: get_u32(header, 16),
                    req_tags: get_u32(header, 20),
                    landmarks: get_u32(header, 24),
                    fairy_rings: get_u32(header, 28),
                    walk_components: get_u32(header, 32),
                },
                off_coords: get_u64(header, 36),
                off_walk_offsets: get_u64(header, 44),
                off_walk_dst: get_u64(header, 52),
                off_walk_diag: get_u64(header, 60),
                off_comp: get_u64(header, 68),
                off_macro_src: get_u64(header, 76),
                off_macro_dst: get_u64(header, 84),
                off_macro_w: get_u64(header, 92),
                off_macro_kind_first: get_u64(header, 100),
                off_macro_id_first: get_u64(header, 108),
                off_macro_meta_offs: get_u64(header, 116),
                off_macro_meta_lens: get_u64(header, 124),
                off_macro_meta_blob: get_u64(header, 132),
                off_req_tags: get_u64(header, 140),
                off_landmarks: get_u64(header, 148),
                off_lm_tab: get_u64(header, 156),
                off_fairy_nodes: get_u64(header, 164),
                off_fairy_cost_ms: get_u64(header, 172),
                off_fairy_meta_offs: get_u64(header, 180),
                off_fairy_meta_lens: get_u64(header, 188),
                off_fairy_meta_blob: get_u64(header, 196),
                alt_format: get_u32(header, 204),
                alt_exceptions: get_u32(header, 208),
            },
        )
    }

    /// Writes the header.
    pub fn write_header(&self) -> (r: Vec<u8>)
        ensures
            r@ == self.header_bytes(),
            r@.len() == MANIFEST_SIZE,
    {
        reveal(Manifest::header_bytes);
        let mut out: Vec<u8> = Vec::new();
        out.push(78);
        out.push(80);
        out.push(83);
        out.push(83);
        let words: [u32; 8] = [
            self.version,
            self.counts.nodes,
            self.counts.walk_edges,
            self.counts.macro_edges,
            self.counts.req_tags,
            self.counts.landmarks,
            self.counts.fairy_rings,
            self.counts.walk_components,
        ];
        assert(words@ =~= seq![self.version] + self.counts.words());
        append_u32s(&mut out, &words);
        let offs: [u64; 21] = self.offsets();
        append_u64s(&mut out, &offs);
        let alt: [u32; 2] = [self.alt_format, self.alt_exceptions];
        assert(alt@ =~= seq![self.alt_format, self.alt_exceptions]);
        append_u32s(&mut out, &alt);
        let zeros: [u8; 44] = [0u8; 44];
        append_bytes(&mut out, &zeros);
        assert(out@ =~= self.header_bytes());
        out
    }

    /// Tests that every section lies in a file of `file_len` bytes and that every section but the
    /// two of metadata text is aligned.
    pub fn validate_layout(&self, file_len: usize) -> (r: Result<(), ManifestError>)
        ensures
            r == self.layout_result(file_len as int),
    {
        let n: u128 = self.counts.nodes as u128;
        let e: u128 = self.counts.walk_edges as u128;
        let m: u128 = self.counts.macro_edges as u128;
        let fr: u128 = self.counts.fairy_rings as u128;
        let lm: u128 = self.counts.landmarks as u128;
        let tab: u128 = self.lm_tab_bytes();
        let checks: [(&'static str, u64, u128); 21] = [
            ("coords", self.off_coords, n * 4),
            ("walk_offsets", self.off_walk_offsets, (n + 1) * 4),
            ("walk_dst", self.off_walk_dst, e * 4),
            ("walk_diag", self.off_walk_diag, (e + 7) / 8),
            ("comp", self.off_comp, n * 2),
            ("macro_src", self.off_macro_src, m * 4),
            ("macro_dst", self.off_macro_dst, m * 4),
            ("macro_w", self.off_macro_w, m * 4),
            ("req_tags", self.off_req_tags, self.counts.req_tags as u128 * 4),
            ("landmarks", self.off_landmarks, lm * 4),
            ("lm_tab", self.off_lm_tab, tab),
            ("fairy_nodes", self.off_fairy_nodes, fr * 4),
            ("macro_kind_first", self.off_macro_kind_first, m * 4),
            ("macro_id_first", self.off_macro_id_first, m * 4),
            ("macro_meta_offs", self.off_macro_meta_offs, m * 4),
            ("macro_meta_lens", self.off_macro_meta_lens, m * 4),
            ("fairy_cost_ms", self.off_fairy_cost_ms, fr * 4),
            ("fairy_meta_offs", self.off_fairy_meta_offs, fr * 4),
            ("fairy_meta_lens", self.off_fairy_meta_lens, fr * 4),
            ("macro_meta_blob", self.off_macro_meta_blob, 0),
            ("fairy_meta_blob", self.off_fairy_meta_blob, 0),
        ];
        let ghost bounds = self.bounds();
        assert forall|i: int| 0 <= i < 21 implies (#[trigger] checks@[i]).0 == bounds[i].name && checks@[i].1
            == bounds[i].off && checks@[i].2 == bounds[i].size by {}
        assert(bounds.skip(0) =~= bounds);
        let mut i: usize = 0;
        while i < 21
            invariant
                i <= 21,
                bounds == self.bounds(),
                bounds.len() == 21,
                forall|j: int|
                    0 <= j < 21 ==> (#[trigger] checks@[j]).0 == bounds[j].name && checks@[j].1
                        == bounds[j].off && checks@[j].2 == bounds[j].size,
                first_outside(bounds, file_len as int) == first_outside(
                    bounds.skip(i as int),
                    file_len as int,
                ),
            decreases 21 - i,
        {
            let (name, off, size) = checks[i];
            assert(bounds.skip(i as int)[0] == bounds[i as int]);
            assert(bounds.skip(i as int).skip(1) =~= bounds.skip(i + 1));
            if off > file_len as u64 || size > (file_len as u64 - off) as u128 {
                return Err(ManifestError::OutOfBounds(name));
            }
            i += 1;
        }
        assert(bounds.skip(21) =~= Seq::empty());
        let starts: [(&'static str, u64); 19] = [
            ("coords", self.off_coords),
            ("walk_offsets", self.off_walk_offsets),
            ("walk_dst", self.off_walk_dst),
            ("comp", self.off_comp),
            ("req_tags", self.off_req_tags),
            ("lm_tab", self.off_lm_tab),
            ("walk_diag", self.off_walk_diag),
            ("macro_src", self.off_macro_src),
            ("macro_dst", self.off_macro_dst),
            ("macro_w", self.off_macro_w),
            ("macro_kind_first", self.off_macro_kind_first),
            ("macro_id_first", self.off_macro_id_first),
            ("macro_meta_offs", self.off_macro_meta_offs),
            ("macro_meta_lens", self.off_macro_meta_lens),
            ("landmarks", self.off_landmarks),
            ("fairy_nodes", self.off_fairy_nodes),
            ("fairy_cost_ms", self.off_fairy_cost_ms),
            ("fairy_meta_offs", self.off_fairy_meta_offs),
            ("fairy_meta_lens", self.off_fairy_meta_lens),
        ];
        let ghost al = self.alignments();
        assert forall|i: int| 0 <= i < 19 implies (#[trigger] starts@[i]).0 == al[i].name && starts@[i].1
            == al[i].off by {}
        assert(al.skip(0) =~= al);
        let mut k: usize = 0;
        while k < 19
            invariant
                k <= 19,
                al == self.alignments(),
                al.len() == 19,
                forall|j: int|
                    0 <= j < 19 ==> (#[trigger] starts@[j]).0 == al[j].name && starts@[j].1 == al[j].off,
                first_outside(self.bounds(), file_len as int) is None,
                first_misaligned(al) == first_misaligned(al.skip(k as int)),
            decreases 19 - k,
        {
            let (name, off) = starts[k];
            assert(al.skip(k as int)[0] == al[k as int]);
            assert(al.skip(k as int).skip(1) =~= al.skip(k + 1));
            if off % SECTION_ALIGN != 0 {
                return Err(ManifestError::Misaligned(name));
            }
            k += 1;
        }
        assert(al.skip(19) =~= Seq::empty());
        Ok(())
    }

    fn lm_tab_bytes(&self) -> (r: u128)
        ensures
            r == self.lm_tab_size(),
            r < 0x1_0000_0000_0000_0000_0000,
    {
        let n: u128 = self.counts.nodes as u128;
        let lm: u128 = self.counts.landmarks as u128;
        let clusters: u128 = (n + 15) / 16;
        assert(n * lm <= 0xFFFF_FFFF * 0xFFFF_FFFF && clusters * (36 * lm) <= 0x1000_0000 * (36
            * 0xFFFF_FFFF) && clusters * (36 * lm) >= 0 && n * lm >= 0) by (nonlinear_arith)
            requires
                0 <= n <= 0xFFFF_FFFF,
                0 <= lm <= 0xFFFF_FFFF,
                0 <= clusters <= 0x1000_0000,
        ;
        if self.alt_format == ALT_FORMAT_PACKED {
            clusters * (36 * lm) + 8 * self.alt_exceptions as u128
        } else {
            n * lm * 4
        }
    }

    /// Start and size of the distance table.
    pub fn lm_tab_range(&self) -> (r: (u64, u128))
        ensures
            r.0 == self.off_lm_tab,
            r.1 == self.lm_tab_size(),
    {
        (self.off_lm_tab, self.lm_tab_bytes())
    }
}

/// The name of the first section that does not lie in the file.
pub open spec fn first_outside(b: Seq<Bound>, len: int) -> Option<&'static str>
    decreases b.len(),
{
    if b.len() == 0 {
        None
    } else if !in_file(b[0], len) {
        Some(b[0].name)
    } else {
        first_outside(b.skip(1), len)
    }
}

/// The name of the first section that is not aligned.
pub open spec fn first_misaligned(b: Seq<Bound>) -> Option<&'static str>
    decreases b.len(),
{
    if b.len() == 0 {
        None
    } else if b[0].off % 64 != 0 {
        Some(b[0].name)
    } else {
        first_misaligned(b.skip(1))
    }
}

proof fn lemma_none_misaligned(b: Seq<Bound>, i: int)
    requires
        first_misaligned(b) is None,
        0 <= i < b.len(),
    ensures
        b[i].off % 64 == 0,
    decreases i,
{
    if i > 0 {
        lemma_none_misaligned(b.skip(1), i - 1);
    }
}

/// In a valid layout every section that is read as numbers starts at a multiple of the section
/// alignment: all sections but the two of metadata text.
pub proof fn law_valid_layout_is_aligned(m: Manifest, len: int, i: int)
    requires
        m.layout_result(len) is Ok,
        0 <= i < 20,
        i != 12,
    ensures
        m.offset_seq()[i] % SECTION_ALIGN == 0,
{
    let al = m.alignments();
    assert forall|k: int| 0 <= k < 19 implies (#[trigger] al[k]).off % 64 == 0 by {
        lemma_none_misaligned(al, k);
    }
    assert(al[0].off == m.offset_seq()[0] && al[1].off == m.offset_seq()[1] && al[2].off == m.offset_seq()[2]);
    assert(al[6].off == m.offset_seq()[3] && al[3].off == m.offset_seq()[4] && al[7].off == m.offset_seq()[5]);
    assert(al[8].off == m.offset_seq()[6] && al[9].off == m.offset_seq()[7] && al[10].off == m.offset_seq()[8]);
    assert(al[11].off == m.offset_seq()[9] && al[12].off == m.offset_seq()[10] && al[13].off == m.offset_seq()[11]);
    assert(al[4].off == m.offset_seq()[13] && al[14].off == m.offset_seq()[14] && al[5].off == m.offset_seq()[15]);
    assert(al[15].off == m.offset_seq()[16] && al[16].off == m.offset_seq()[17] && al[17].off == m.offset_seq()[18]);
    assert(al[18].off == m.offset_seq()[19]);
}

/// A header that was written reads back as the manifest it was written from.
pub proof fn law_header_round_trip(m: Manifest, tail: Seq<u8>)
    requires
        m.version == SNAPSHOT_VERSION,
    ensures
        m.header_bytes().len() == MANIFEST_SIZE,
        parse_result(m.header_bytes() + tail) == Ok::<Manifest, ManifestError>(m),
{
    reveal(Manifest::header_bytes);
    reveal(header_manifest);
    let h = m.header_bytes() + tail;
    let w = seq![m.version] + m.counts.words();
    let o = m.offset_seq();
    let a = seq![m.alt_format, m.alt_exceptions];
    assert(h.take(4) =~= snapshot_magic());
    assert(h.subrange(4, 36) =~= u32s_bytes(w));
    assert(h.subrange(36, 204) =~= u64s_bytes(o));
    assert(h.subrange(204, 212) =~= u32s_bytes(a));
    lemma_u32s_round_trip(h, 4, w);
    lemma_u32s_round_trip(h, 204, a);
    assert(u32s_at(h, 4, 8)[0] == w[0]);
    assert(u32s_at(h, 4, 8)[1] == w[1]);
    assert(u32s_at(h, 4, 8)[2] == w[2]);
    assert(u32s_at(h, 4, 8)[3] == w[3]);
    assert(u32s_at(h, 4, 8)[4] == w[4]);
    assert(u32s_at(h, 4, 8)[5] == w[5]);
    assert(u32s_at(h, 4, 8)[6] == w[6]);
    assert(u32s_at(h, 4, 8)[7] == w[7]);
    assert(u32s_at(h, 204, 2)[0] == a[0]);
    assert(u32s_at(h, 204, 2)[1] == a[1]);
    lemma_u64s_round_trip(h, 36, o, 0);
    lemma_u64s_round_trip(h, 36, o, 1);
    lemma_u64s_round_trip(h, 36, o, 2);
    lemma_u64s_round_trip(h, 36, o, 3);
    lemma_u64s_round_trip(h, 36, o, 4);
    lemma_u64s_round_trip(h, 36, o, 5);
    lemma_u64s_round_trip(h, 36, o, 6);
    lemma_u64s_round_trip(h, 36, o, 7);
    lemma_u64s_round_trip(h, 36, o, 8);
    lemma_u64s_round_trip(h, 36, o, 9);
    lemma_u64s_round_trip(h, 36, o, 10);
    lemma_u64s_round_trip(h, 36, o, 11);
    lemma_u64s_round_trip(h, 36, o, 12);
    lemma_u64s_round_trip(h, 36, o, 13);
    lemma_u64s_round_trip(h, 36, o, 14);
    lemma_u64s_round_trip(h, 36, o, 15);
    lemma_u64s_round_trip(h, 36, o, 16);
    lemma_u64s_round_trip(h, 36, o, 17);
    lemma_u64s_round_trip(h, 36, o, 18);
    lemma_u64s_round_trip(h, 36, o, 19);
    lemma_u64s_round_trip(h, 36, o, 20);
    let g = header_manifest(h);
    assert(g.counts == m.counts);
    assert(g == m);
}

/// A header is refused where it is shorter than 256 bytes, does not begin with `NPSS`, or has another version
/// than the eighth, and for nothing else.
pub proof fn law_headers_are_refused(h: Seq<u8>)
    ensures
        parse_result(h) == Err::<Manifest, ManifestError>(ManifestError::HeaderTooSmall) <==> h.len() < 256,
        parse_result(h) == Err::<Manifest, ManifestError>(ManifestError::BadMagic) <==> h.len() >= 256 && !(h[0] == 'N' as u8 && h[1]
            == 'P' as u8 && h[2] == 'S' as u8 && h[3] == 'S' as u8),
        h.len() >= 256 && h[0] == 'N' as u8 && h[1] == 'P' as u8 && h[2] == 'S' as u8 && h[3] == 'S' as u8 ==> (parse_result(h) is Ok
            <==> u32_at(h, 4) == 8),
{
    if h.len() >= 256 {
        let m = snapshot_magic();
        assert(m[0] == 78 && m[1] == 80 && m[2] == 83 && m[3] == 83);
        let t = h.take(4);
        assert(t[0] == h[0] && t[1] == h[1] && t[2] == h[2] && t[3] == h[3]);
        if h[0] == 78 && h[1] == 80 && h[2] == 83 && h[3] == 83 {
            assert(t =~= m);
        }
    }
}

/// Whether a section of `size` bytes at `off` lies in a file of `len` bytes, at a multiple of 64.
pub open spec fn is_placed(off: u64, size: int, len: int) -> bool {
    off + size <= len && off % 64 == 0
}

proof fn lemma_first_outside(b: Seq<Bound>, len: int)
    ensures
        first_outside(b, len) is None <==> forall|i: int| 0 <= i < b.len() ==> in_file(#[trigger] b[i], len),
    decreases b.len(),
{
    if b.len() > 0 {
        lemma_first_outside(b.skip(1), len);
        assert forall|i: int| 0 < i < b.len() implies #[trigger] b[i] == b.skip(1)[i - 1] by {}
        if in_file(b[0], len) && first_outside(b.skip(1), len) is None {
            assert forall|i: int| 0 <= i < b.len() implies in_file(#[trigger] b[i], len) by {
                if i > 0 {
                    assert(in_file(b.skip(1)[i - 1], len));
                }
            }
        }
        if forall|i: int| 0 <= i < b.len() ==> in_file(#[trigger] b[i], len) {
            assert forall|i: int| 0 <= i < b.skip(1).len() implies in_file(#[trigger] b.skip(1)[i], len) by {
                assert(in_file(b[i + 1], len));
            }
        }
    }
}

/// A layout is valid only where every section lies in the file and those of numbers start at multiples of 64:
/// four bytes for each node's coordinates, two for its component, and so on.
pub proof fn law_valid_layouts_fit(m: Manifest, len: int)
    requires
        m.layout_result(len) is Ok,
    ensures
        is_placed(m.off_coords, 4 * m.counts.nodes, len),
        is_placed(m.off_walk_offsets, 4 * (m.counts.nodes + 1), len),
        is_placed(m.off_walk_dst, 4 * m.counts.walk_edges, len),
        is_placed(m.off_walk_diag, (m.counts.walk_edges + 7) / 8, len),
        is_placed(m.off_comp, 2 * m.counts.nodes, len),
        is_placed(m.off_macro_src, 4 * m.counts.macro_edges, len),
        is_placed(m.off_macro_dst, 4 * m.counts.macro_edges, len),
        is_placed(m.off_macro_w, 4 * m.counts.macro_edges, len),
        is_placed(m.off_macro_kind_first, 4 * m.counts.macro_edges, len),
        is_placed(m.off_macro_id_first, 4 * m.counts.macro_edges, len),
        is_placed(m.off_macro_meta_offs, 4 * m.counts.macro_edges, len),
        is_placed(m.off_macro_meta_lens, 4 * m.counts.macro_edges, len),
        is_placed(m.off_req_tags, 4 * m.counts.req_tags, len),
        is_placed(m.off_landmarks, 4 * m.counts.landmarks, len),
        m.alt_format != 1 ==> is_placed(m.off_lm_tab, 4 * (m.counts.nodes * m.counts.landmarks), len),
        is_placed(m.off_fairy_nodes, 4 * m.counts.fairy_rings, len),
        is_placed(m.off_fairy_cost_ms, 4 * m.counts.fairy_rings, len),
        is_placed(m.off_fairy_meta_offs, 4 * m.counts.fairy_rings, len),
        is_placed(m.off_fairy_meta_lens, 4 * m.counts.fairy_rings, len),
        m.off_macro_meta_blob <= len,
        m.off_fairy_meta_blob <= len,
{
    let b = m.bounds();
    lemma_first_outside(b, len);
    assert(in_file(b[0], len) && in_file(b[1], len) && in_file(b[2], len) && in_file(b[3], len) && in_file(b[4], len));
    assert(in_file(b[5], len) && in_file(b[6], len) && in_file(b[7], len) && in_file(b[8], len) && in_file(b[9], len));
    assert(in_file(b[10], len) && in_file(b[11], len) && in_file(b[12], len) && in_file(b[13], len) && in_file(b[14], len));
    assert(in_file(b[15], len) && in_file(b[16], len) && in_file(b[17], len) && in_file(b[18], len) && in_file(b[19], len));
    assert(in_file(b[20], len));
    let al = m.alignments();
    assert forall|k: int| 0 <= k < 19 implies (#[trigger] al[k]).off % 64 == 0 by {
        lemma_none_misaligned(al, k);
    }
    assert(al[0].off % 64 == 0 && al[1].off % 64 == 0 && al[2].off % 64 == 0 && al[3].off % 64 == 0 && al[4].off % 64 == 0);
    assert(al[5].off % 64 == 0 && al[6].off % 64 == 0 && al[7].off % 64 == 0 && al[8].off % 64 == 0 && al[9].off % 64 == 0);
    assert(al[10].off % 64 == 0 && al[11].off % 64 == 0 && al[12].off % 64 == 0 && al[13].off % 64 == 0 && al[14].off % 64 == 0);
    assert(al[15].off % 64 == 0 && al[16].off % 64 == 0 && al[17].off % 64 == 0 && al[18].off % 64 == 0);
}

}
