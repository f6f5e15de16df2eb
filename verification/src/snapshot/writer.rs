//! Building a snapshot image.

use crate::bytes::{append_bytes, append_u16s, append_u32s};
use crate::snapshot::alt_pack::pack_alt;
use crate::snapshot::manifest::{
    Manifest, SnapshotCounts, ALT_FORMAT_PACKED, ALT_SECTION_ALIGN, MANIFEST_SIZE, SECTION_ALIGN, SNAPSHOT_VERSION,
};
use vstd::prelude::*;
#[allow(unused_imports)]
use crate::bytes::{lemma_u16s_round_trip, lemma_u32s_round_trip, u16s_at, u16s_bytes, u32s_at, u32s_bytes};
#[allow(unused_imports)]
use crate::snapshot::alt_pack::{all_exceptions, packable, packed_section, records, records_size};
#[allow(unused_imports)]
use crate::snapshot::manifest::{
    aligned, first_misaligned, first_outside, in_file, law_header_round_trip, lemma_aligned, parse_result, Bound,
    ManifestError,
};
#[allow(unused_imports)]
use crate::snapshot::reader::{graph_fault, image_fault, lemma_first_outside, open_result};

verus! {

/// Why an image could not be built.
#[derive(Debug)]
pub enum WriterError {
    /// The file could not be written.
    Io(String),
    /// The named arrays do not have the length that the others ask for.
    LengthMismatch(&'static str),
}

/// How the distance table is stored.
#[derive(Debug, Clone, Copy, PartialEq, Eq, Structural)]
pub enum AltFormat {
    Plain,
    Packed,
}

#[derive(Debug, Clone, Copy, PartialEq, Eq, Structural)]
pub struct WriteOptions {
    pub alt_format: AltFormat,
}

#[derive(Debug, Clone, Copy)]
pub struct WriteResult {
    pub manifest: Manifest,
    pub hash: [u8; 32],
}

/// All inputs of an image.
///
/// Coordinates are packed keys in ascending order; the walk graph is a list of edges per
/// node with a bitmap of the diagonal ones; `lm_tab` is the plain distance table. Weights
/// and costs are the bits of single-precision numbers.
pub struct SnapshotSections<'a> {
    pub coords_packed: &'a [u32],
    pub walk_offsets: &'a [u32],
    pub walk_dst: &'a [u32],
    pub walk_diag: &'a [u8],
    pub comp: &'a [u16],
    pub walk_components: u32,
    pub macro_src: &'a [u32],
    pub macro_dst: &'a [u32],
    pub macro_w: &'a [u32],
    pub macro_kind_first: &'a [u32],
    pub macro_id_first: &'a [u32],
    pub macro_meta_offs: &'a [u32],
    pub macro_meta_lens: &'a [u32],
    pub macro_meta_blob: &'a [u8],
    pub req_tags: &'a [u32],
    pub landmarks: &'a [u32],
    pub lm_tab: &'a [u16],
    pub fairy_nodes: &'a [u32],
    pub fairy_cost_ms: &'a [u32],
    pub fairy_meta_offs: &'a [u32],
    pub fairy_meta_lens: &'a [u32],
    pub fairy_meta_blob: &'a [u8],
}

/// The BLAKE3 hash of a byte sequence.
pub uninterp spec fn blake3_of(bytes: Seq<u8>) -> [u8; 32];

/// `blake3::hash`: the 32-byte hash of `bytes`. It depends on the bytes alone.
#[verifier::external_body]
pub(crate) fn content_hash(bytes: &[u8]) -> (r: [u8; 32])
    ensures
        r == blake3_of(bytes@),
{
    *blake3::hash(bytes).as_bytes()
}

// ---- placing sections one behind the other ----

/// Alignment of section `i`.
pub open spec fn section_align(i: int) -> int {
    if i == 15 || i == 16 { 2097152 } else { 64 }
}

/// Where the first `i` sections end, behind a header of 256 bytes.
pub open spec fn end_of(p: Seq<Seq<u8>>, i: int) -> int
    decreases i,
{
    if i <= 0 { 256 } else { aligned(end_of(p, i - 1), section_align(i - 1)) + p[i - 1].len() }
}

/// Where section `i` starts.
pub open spec fn start_of(p: Seq<Seq<u8>>, i: int) -> int {
    aligned(end_of(p, i), section_align(i))
}

/// `n` zero bytes.
pub open spec fn zeros(n: int) -> Seq<u8> {
    Seq::new(n as nat, |i: int| 0u8)
}

/// The header and the first `i` sections, with padding.
pub open spec fn body(h: Seq<u8>, p: Seq<Seq<u8>>, i: int) -> Seq<u8>
    decreases i,
{
    if i <= 0 {
        h
    } else {
        body(h, p, i - 1) + zeros(start_of(p, i - 1) - end_of(p, i - 1)) + p[i - 1]
    }
}

pub proof fn lemma_end_of(p: Seq<Seq<u8>>, i: int)
    ensures
        end_of(p, i) >= 256,
    decreases i,
{
    if i > 0 {
        lemma_end_of(p, i - 1);
        lemma_aligned(end_of(p, i - 1), section_align(i - 1));
    }
}

/// Each section stands at its start, whole.
pub proof fn lemma_body(h: Seq<u8>, p: Seq<Seq<u8>>, i: int)
    requires
        h.len() == 256,
        0 <= i <= p.len(),
    ensures
        body(h, p, i).len() == end_of(p, i),
        body(h, p, i).take(256) == h,
        forall|j: int| 0 <= j < i ==> 256 <= #[trigger] start_of(p, j) && start_of(p, j) + p[j].len() <= end_of(p, i)
            && body(h, p, i).subrange(start_of(p, j), start_of(p, j) + p[j].len()) == p[j],
    decreases i,
{
    if i <= 0 {
        assert(body(h, p, i).take(256) =~= h);
    } else {
        lemma_body(h, p, i - 1);
        lemma_end_of(p, i - 1);
        lemma_aligned(end_of(p, i - 1), section_align(i - 1));
        let prev = body(h, p, i - 1);
        let b = body(h, p, i);
        assert(b.take(256) =~= prev.take(256));
        assert forall|j: int| 0 <= j < i implies 256 <= #[trigger] start_of(p, j) && start_of(p, j) + p[j].len()
            <= end_of(p, i) && b.subrange(start_of(p, j), start_of(p, j) + p[j].len()) == p[j] by {
            if j < i - 1 {
                assert(b.subrange(start_of(p, j), start_of(p, j) + p[j].len()) =~= prev.subrange(
                    start_of(p, j),
                    start_of(p, j) + p[j].len(),
                ));
            } else {
                assert(b.subrange(start_of(p, j), start_of(p, j) + p[j].len()) =~= p[j]);
            }
        }
    }
}

// ---- the image of given sections ----

impl<'a> SnapshotSections<'a> {
    pub open spec fn nodes(self) -> int {
        self.coords_packed@.len() as int
    }

    /// The first arrays whose length does not match, if any.
    pub open spec fn length_error(self) -> Option<&'static str> {
        let n = self.coords_packed@.len();
        let e = self.walk_dst@.len();
        let m = self.macro_src@.len();
        let fr = self.fairy_nodes@.len();
        if self.walk_offsets@.len() != n + 1 {
            Some("walk_offsets")
        } else if self.walk_diag@.len() != (e + 7) / 8 {
            Some("walk_diag")
        } else if self.comp@.len() != n {
            Some("comp")
        } else if self.macro_dst@.len() != m || self.macro_w@.len() != m || self.macro_kind_first@.len() != m
            || self.macro_id_first@.len() != m || self.macro_meta_offs@.len() != m || self.macro_meta_lens@.len() != m {
            Some("macro arrays")
        } else if self.lm_tab@.len() != n * self.landmarks@.len() * 2 {
            Some("lm_tab")
        } else if self.fairy_cost_ms@.len() != fr || self.fairy_meta_offs@.len() != fr
            || self.fairy_meta_lens@.len() != fr {
            Some("fairy arrays")
        } else {
            None
        }
    }

    /// The bytes of the distance table.
    pub open spec fn table_bytes(self, f: AltFormat) -> Seq<u8> {
        match f {
            AltFormat::Plain => u16s_bytes(self.lm_tab@),
            AltFormat::Packed => packed_section(self.lm_tab@, self.nodes(), self.landmarks@.len() as int),
        }
    }

    /// The bytes of the sections, in file order.
    #[verifier::opaque]
    pub open spec fn payloads(self, f: AltFormat) -> Seq<Seq<u8>> {
        seq![
            u32s_bytes(self.coords_packed@),
            u32s_bytes(self.walk_offsets@),
            u32s_bytes(self.walk_dst@),
            self.walk_diag@,
            u16s_bytes(self.comp@),
            u32s_bytes(self.macro_src@),
            u32s_bytes(self.macro_dst@),
            u32s_bytes(self.macro_w@),
            u32s_bytes(self.macro_kind_first@),
            u32s_bytes(self.macro_id_first@),
            u32s_bytes(self.macro_meta_offs@),
            u32s_bytes(self.macro_meta_lens@),
            self.macro_meta_blob@,
            u32s_bytes(self.req_tags@),
            u32s_bytes(self.landmarks@),
            self.table_bytes(f),
            u32s_bytes(self.fairy_nodes@),
            u32s_bytes(self.fairy_cost_ms@),
            u32s_bytes(self.fairy_meta_offs@),
            u32s_bytes(self.fairy_meta_lens@),
            self.fairy_meta_blob@,
        ]
    }

    /// The manifest of the image.
    pub open spec fn manifest_of(self, f: AltFormat) -> Manifest {
        let p = self.payloads(f);
        Manifest {
            version: SNAPSHOT_VERSION,
            counts: SnapshotCounts {
                nodes: self.coords_packed@.len() as u32,
                walk_edges: self.walk_dst@.len() as u32,
                macro_edges: self.macro_src@.len() as u32,
                req_tags: self.req_tags@.len() as u32,
                landmarks: self.landmarks@.len() as u32,
                fairy_rings: self.fairy_nodes@.len() as u32,
                walk_components: self.walk_components,
            },
            off_coords: start_of(p, 0) as u64,
            off_walk_offsets: start_of(p, 1) as u64,
            off_walk_dst: start_of(p, 2) as u64,
            off_walk_diag: start_of(p, 3) as u64,
            off_comp: start_of(p, 4) as u64,
            off_macro_src: start_of(p, 5) as u64,
            off_macro_dst: start_of(p, 6) as u64,
            off_macro_w: start_of(p, 7) as u64,
            off_macro_kind_first: start_of(p, 8) as u64,
            off_macro_id_first: start_of(p, 9) as u64,
            off_macro_meta_offs: start_of(p, 10) as u64,
            off_macro_meta_lens: start_of(p, 11) as u64,
            off_macro_meta_blob: start_of(p, 12) as u64,
            off_req_tags: start_of(p, 13) as u64,
            off_landmarks: start_of(p, 14) as u64,
            off_lm_tab: start_of(p, 15) as u64,
            off_fairy_nodes: start_of(p, 16) as u64,
            off_fairy_cost_ms: start_of(p, 17) as u64,
            off_fairy_meta_offs: start_of(p, 18) as u64,
            off_fairy_meta_lens: start_of(p, 19) as u64,
            off_fairy_meta_blob: start_of(p, 20) as u64,
            alt_format: if f is Packed { ALT_FORMAT_PACKED } else { 0 },
            alt_exceptions: if f is Packed {
                all_exceptions(self.lm_tab@, self.nodes(), self.landmarks@.len() as int).len() as u32
            } else {
                0
            },
        }
    }

    /// The image without its trailing hash.
    pub open spec fn content(self, f: AltFormat) -> Seq<u8> {
        body(self.manifest_of(f).header_bytes(), self.payloads(f), 21)
    }

    /// The image.
    pub open spec fn image(self, f: AltFormat) -> Seq<u8> {
        self.content(f) + blake3_of(self.content(f))@
    }

    /// Whether the counts fit the header's fields and the image fits memory.
    pub open spec fn fits(self, f: AltFormat) -> bool {
        &&& self.coords_packed@.len() <= u32::MAX
        &&& self.walk_dst@.len() <= u32::MAX
        &&& self.macro_src@.len() <= u32::MAX
        &&& self.req_tags@.len() <= u32::MAX
        &&& self.landmarks@.len() <= u32::MAX
        &&& self.fairy_nodes@.len() <= u32::MAX
        &&& end_of(self.payloads(f), 21) + 32 <= usize::MAX
        &&& f is Packed ==> 0 < self.landmarks@.len() <= 0x8000 && all_exceptions(
            self.lm_tab@,
            self.nodes(),
            self.landmarks@.len() as int,
        ).len() <= u32::MAX
    }
}

fn u32_section(v: &[u32]) -> (r: Vec<u8>)
    ensures
        r@ == u32s_bytes(v@),
{
    let mut out: Vec<u8> = Vec::new();
    append_u32s(&mut out, v);
    assert(out@ =~= u32s_bytes(v@));
    out
}

fn u16_section(v: &[u16]) -> (r: Vec<u8>)
    ensures
        r@ == u16s_bytes(v@),
{
    let mut out: Vec<u8> = Vec::new();
    append_u16s(&mut out, v);
    assert(out@ =~= u16s_bytes(v@));
    out
}

fn byte_section(v: &[u8]) -> (r: Vec<u8>)
    ensures
        r@ == v@,
{
    let mut out: Vec<u8> = Vec::new();
    append_bytes(&mut out, v);
    assert(out@ =~= v@);
    out
}

/// The views of owned byte strings.
pub open spec fn views(v: Seq<Vec<u8>>) -> Seq<Seq<u8>> {
    Seq::new(v.len(), |i: int| v[i]@)
}

/// Where each section starts, and where the last one ends.
fn layout(parts: &Vec<Vec<u8>>) -> (r: Vec<u64>)
    requires
        parts@.len() == 21,
        end_of(views(parts@), 21) + 32 <= usize::MAX,
    ensures
        r@.len() == 21,
        forall|i: int| 0 <= i < 21 ==> #[trigger] r@[i] == start_of(views(parts@), i),
{
    let ghost p = views(parts@);
    let mut offs: Vec<u64> = Vec::new();
    let mut cur: u64 = MANIFEST_SIZE as u64;
    let mut i: usize = 0;
    while i < 21
        invariant
            i <= 21,
            parts@.len() == 21,
            p == views(parts@),
            end_of(p, 21) + 32 <= usize::MAX,
            cur == end_of(p, i as int),
            offs@.len() == i,
            forall|k: int| 0 <= k < i ==> #[trigger] offs@[k] == start_of(p, k),
        decreases 21 - i,
    {
        let align: u64 = if i == 15 || i == 16 { ALT_SECTION_ALIGN } else { SECTION_ALIGN };
        proof {
            lemma_end_of(p, i as int);
            lemma_end_grows(p, i + 1, 21);
            lemma_aligned(end_of(p, i as int), section_align(i as int));
        }
        let rest: u64 = cur % align;
        let start: u64 = if rest == 0 { cur } else { cur + (align - rest) };
        proof {
            lemma_round(cur as int, align as int);
        }
        offs.push(start);
        assert(p[i as int] == parts@[i as int]@);
        cur = start + parts[i].len() as u64;
        i += 1;
    }
    offs
}

proof fn lemma_round(x: int, a: int)
    requires
        0 <= x,
        0 < a,
    ensures
        aligned(x, a) == (if x % a == 0 { x } else { x + (a - x % a) }),
{
    lemma_aligned(x, a);
    let r = if x % a == 0 { x } else { x + (a - x % a) };
    let d = aligned(x, a) - r;
    vstd::arithmetic::div_mod::lemma_fundamental_div_mod(x, a);
    vstd::arithmetic::div_mod::lemma_fundamental_div_mod(aligned(x, a), a);
    let q = aligned(x, a) / a;
    let t = x / a;
    if x % a == 0 {
        assert(q == t) by (nonlinear_arith)
            requires
                a * t <= a * q < a * t + a,
                0 < a,
        ;
    } else {
        assert(q == t + 1) by (nonlinear_arith)
            requires
                a * t < a * q < a * t + 2 * a,
                0 < a,
        ;
        assert(a * q == a * t + a) by (nonlinear_arith)
            requires
                q == t + 1,
        ;
    }
}

proof fn lemma_end_grows(p: Seq<Seq<u8>>, i: int, j: int)
    requires
        0 <= i <= j,
    ensures
        end_of(p, i) <= end_of(p, j),
    decreases j - i,
{
    if i < j {
        lemma_end_grows(p, i, j - 1);
        lemma_end_of(p, j - 1);
        lemma_aligned(end_of(p, j - 1), section_align(j - 1));
    }
}

/// The header and the sections, padded to their starts.
fn assemble(header: &[u8], parts: &Vec<Vec<u8>>, offs: &Vec<u64>) -> (r: Vec<u8>)
    requires
        header@.len() == 256,
        parts@.len() == 21,
        offs@.len() == 21,
        end_of(views(parts@), 21) + 32 <= usize::MAX,
        forall|i: int| 0 <= i < 21 ==> #[trigger] offs@[i] == start_of(views(parts@), i),
    ensures
        r@ == body(header@, views(parts@), 21),
{
    let ghost p = views(parts@);
    let mut out: Vec<u8> = Vec::new();
    append_bytes(&mut out, header);
    assert(out@ =~= header@);
    let mut i: usize = 0;
    while i < 21
        invariant
            i <= 21,
            header@.len() == 256,
            parts@.len() == 21,
            offs@.len() == 21,
            p == views(parts@),
            end_of(p, 21) + 32 <= usize::MAX,
            forall|k: int| 0 <= k < 21 ==> #[trigger] offs@[k] == start_of(p, k),
            out@ == body(header@, p, i as int),
        decreases 21 - i,
    {
        proof {
            lemma_body(header@, p, i as int);
            lemma_end_of(p, i as int);
            lemma_end_grows(p, i + 1, 21);
            lemma_aligned(end_of(p, i as int), section_align(i as int));
        }
        let ghost before = out@;
        let target: usize = offs[i] as usize;
        while out.len() < target
            invariant
                before.len() <= out@.len() <= target,
                out@ == before + zeros(out@.len() - before.len()),
            decreases target - out@.len(),
        {
            out.push(0);
            assert(out@ =~= before + zeros(out@.len() - before.len()));
        }
        append_bytes(&mut out, parts[i].as_slice());
        assert(p[i as int] == parts@[i as int]@);
        i += 1;
    }
    out
}

/// The distance table is no longer than the image.
proof fn lemma_table_in(s: SnapshotSections, f: AltFormat)
    ensures
        s.payloads(f).len() == 21,
        s.table_bytes(f).len() <= end_of(s.payloads(f), 21),
{
    reveal(SnapshotSections::payloads);
    let p = s.payloads(f);
    lemma_end_of(p, 15);
    lemma_aligned(end_of(p, 15), section_align(15));
    lemma_end_grows(p, 16, 21);
}

/// The first arrays whose length does not match.
fn check_lengths(s: &SnapshotSections) -> (r: Option<&'static str>)
    ensures
        r == s.length_error(),
{
    let n: usize = s.coords_packed.len();
    let e: usize = s.walk_dst.len();
    let m: usize = s.macro_src.len();
    let fr: usize = s.fairy_nodes.len();
    let lm: usize = s.landmarks.len();
    if s.walk_offsets.len() == 0 || s.walk_offsets.len() - 1 != n {
        return Some("walk_offsets");
    }
    if s.walk_diag.len() != e / 8 + if e % 8 != 0 { 1 } else { 0 } {
        return Some("walk_diag");
    }
    if s.comp.len() != n {
        return Some("comp");
    }
    if s.macro_dst.len() != m || s.macro_w.len() != m || s.macro_kind_first.len() != m || s.macro_id_first.len() != m
        || s.macro_meta_offs.len() != m || s.macro_meta_lens.len() != m {
        return Some("macro arrays");
    }
    assert(n * lm <= 0xFFFF_FFFF_FFFF_FFFF * 0xFFFF_FFFF_FFFF_FFFF && n * lm >= 0) by (nonlinear_arith)
        requires
            0 <= n <= 0xFFFF_FFFF_FFFF_FFFF,
            0 <= lm <= 0xFFFF_FFFF_FFFF_FFFF,
    ;
    let cells: u128 = n as u128 * lm as u128;
    let have: usize = s.lm_tab.len();
    if have % 2 != 0 || (have / 2) as u128 != cells {
        return Some("lm_tab");
    }
    if s.fairy_cost_ms.len() != fr || s.fairy_meta_offs.len() != fr || s.fairy_meta_lens.len() != fr {
        return Some("fairy arrays");
    }
    None
}

/// The bytes of the sections, given those of the distance table.
fn build_parts(s: &SnapshotSections, table: Vec<u8>, format: AltFormat) -> (r: Vec<Vec<u8>>)
    requires
        table@ == s.table_bytes(format),
    ensures
        views(r@) == s.payloads(format),
        r@.len() == 21,
{
    let mut parts: Vec<Vec<u8>> = Vec::new();
    parts.push(u32_section(s.coords_packed));
    parts.push(u32_section(s.walk_offsets));
    parts.push(u32_section(s.walk_dst));
    parts.push(byte_section(s.walk_diag));
    parts.push(u16_section(s.comp));
    parts.push(u32_section(s.macro_src));
    parts.push(u32_section(s.macro_dst));
    parts.push(u32_section(s.macro_w));
    parts.push(u32_section(s.macro_kind_first));
    parts.push(u32_section(s.macro_id_first));
    parts.push(u32_section(s.macro_meta_offs));
    parts.push(u32_section(s.macro_meta_lens));
    parts.push(byte_section(s.macro_meta_blob));
    parts.push(u32_section(s.req_tags));
    parts.push(u32_section(s.landmarks));
    parts.push(table);
    parts.push(u32_section(s.fairy_nodes));
    parts.push(u32_section(s.fairy_cost_ms));
    parts.push(u32_section(s.fairy_meta_offs));
    parts.push(u32_section(s.fairy_meta_lens));
    parts.push(byte_section(s.fairy_meta_blob));
    proof {
        reveal(SnapshotSections::payloads);
    }
    assert(views(parts@) =~= s.payloads(format));
    parts
}

/// The manifest of the image, given the section starts.
fn build_manifest(s: &SnapshotSections, offs: &Vec<u64>, format: AltFormat, exceptions: u32) -> (r: Manifest)
    requires
        s.fits(format),
        offs@.len() == 21,
        forall|i: int| 0 <= i < 21 ==> #[trigger] offs@[i] == start_of(s.payloads(format), i),
        exceptions == s.manifest_of(format).alt_exceptions,
    ensures
        r == s.manifest_of(format),
{
    let n: usize = s.coords_packed.len();
    let e: usize = s.walk_dst.len();
    let m: usize = s.macro_src.len();
    let fr: usize = s.fairy_nodes.len();
    let lm: usize = s.landmarks.len();
    Manifest {
        version: SNAPSHOT_VERSION,
        counts: SnapshotCounts {
            nodes: n as u32,
            walk_edges: e as u32,
            macro_edges: m as u32,
            req_tags: s.req_tags.len() as u32,
            landmarks: lm as u32,
            fairy_rings: fr as u32,
            walk_components: s.walk_components,
        },
        off_coords: offs[0],
        off_walk_offsets: offs[1],
        off_walk_dst: offs[2],
        off_walk_diag: offs[3],
        off_comp: offs[4],
        off_macro_src: offs[5],
        off_macro_dst: offs[6],
        off_macro_w: offs[7],
        off_macro_kind_first: offs[8],
        off_macro_id_first: offs[9],
        off_macro_meta_offs: offs[10],
        off_macro_meta_lens: offs[11],
        off_macro_meta_blob: offs[12],
        off_req_tags: offs[13],
        off_landmarks: offs[14],
        off_lm_tab: offs[15],
        off_fairy_nodes: offs[16],
        off_fairy_cost_ms: offs[17],
        off_fairy_meta_offs: offs[18],
        off_fairy_meta_lens: offs[19],
        off_fairy_meta_blob: offs[20],
        alt_format: match format {
            AltFormat::Plain => 0,
            AltFormat::Packed => ALT_FORMAT_PACKED,
        },
        alt_exceptions: exceptions,
    }
}

/// Builds the image of `s`: header, sections at aligned starts, and the content hash.
pub fn write_snapshot(s: &SnapshotSections, opts: &WriteOptions) -> (r: Result<(Vec<u8>, WriteResult), WriterError>)
    requires
        s.length_error() is None ==> s.fits(opts.alt_format),
    ensures
        match s.length_error() {
            Some(name) => r is Err && r->Err_0 is LengthMismatch && r->Err_0->LengthMismatch_0 == name,
            None => r is Ok && r->Ok_0.0@ == s.image(opts.alt_format) && r->Ok_0.1.manifest == s.manifest_of(
                opts.alt_format,
            ) && r->Ok_0.1.hash == blake3_of(s.content(opts.alt_format)),
        },
{
    if let Some(name) = check_lengths(s) {
        return Err(WriterError::LengthMismatch(name));
    }
    let format: AltFormat = opts.alt_format;
    let ghost p = s.payloads(format);
    proof {
        lemma_table_in(*s, format);
        assert(s.nodes() * (2 * s.landmarks@.len()) == s.nodes() * s.landmarks@.len() * 2) by (nonlinear_arith);
    }
    let (table, exceptions): (Vec<u8>, u32) = match format {
        AltFormat::Plain => (u16_section(s.lm_tab), 0),
        AltFormat::Packed => pack_alt(s.lm_tab, s.coords_packed.len(), s.landmarks.len()),
    };
    let parts: Vec<Vec<u8>> = build_parts(s, table, format);
    let offs: Vec<u64> = layout(&parts);
    let manifest: Manifest = build_manifest(s, &offs, format, exceptions);
    let header: Vec<u8> = manifest.write_header();
    let mut image: Vec<u8> = assemble(header.as_slice(), &parts, &offs);
    let hash: [u8; 32] = content_hash(image.as_slice());
    append_bytes(&mut image, &hash);
    Ok((image, WriteResult { manifest, hash }))
}

/// Builds the image of `s` with a plain distance table.
pub fn write_snapshot_v8(s: &SnapshotSections) -> (r: Result<(Vec<u8>, WriteResult), WriterError>)
    requires
        s.length_error() is None ==> s.fits(AltFormat::Plain),
    ensures
        match s.length_error() {
            Some(name) => r is Err && r->Err_0 is LengthMismatch && r->Err_0->LengthMismatch_0 == name,
            None => r is Ok && r->Ok_0.0@ == s.image(AltFormat::Plain) && r->Ok_0.1.manifest == s.manifest_of(
                AltFormat::Plain,
            ) && r->Ok_0.1.hash == blake3_of(s.content(AltFormat::Plain)),
        },
{
    write_snapshot(s, &WriteOptions { alt_format: AltFormat::Plain })
}

// ---- reading back ----

proof fn lemma_start_aligned(p: Seq<Seq<u8>>, i: int)
    ensures
        start_of(p, i) % 64 == 0,
        start_of(p, i) % section_align(i) == 0,
        start_of(p, i) >= end_of(p, i),
{
    lemma_end_of(p, i);
    lemma_aligned(end_of(p, i), section_align(i));
    let x = start_of(p, i);
    assert(x % 2097152 == 0 ==> x % 64 == 0);
}

/// The table section has the size that the manifest gives it.
proof fn lemma_table_size(s: SnapshotSections, f: AltFormat)
    requires
        s.length_error() is None,
        s.fits(f),
    ensures
        s.table_bytes(f).len() == s.manifest_of(f).lm_tab_size(),
{
    let n = s.nodes();
    let lm = s.landmarks@.len() as int;
    match f {
        AltFormat::Plain => {
            assert(n * lm * 2 * 2 == n * lm * 4) by (nonlinear_arith);
        },
        AltFormat::Packed => {
            assert(records_size(n, lm) >= 0) by (nonlinear_arith)
                requires
                    records_size(n, lm) == (n + 15) / 16 * (18 * (2 * lm)),
                    n >= 0,
                    lm >= 0,
            ;
        },
    }
}

/// An image starts with its header and holds each section at the start that the header gives.
proof fn lemma_image(s: SnapshotSections, f: AltFormat)
    requires
        s.length_error() is None,
        s.fits(f),
    ensures
        parse_result(s.image(f)) == Ok::<Manifest, ManifestError>(s.manifest_of(f)),
        s.content(f).len() == end_of(s.payloads(f), 21),
        s.image(f).len() == s.content(f).len() + 32,
        forall|i: int|
            0 <= i < 21 ==> 256 <= #[trigger] start_of(s.payloads(f), i) && start_of(s.payloads(f), i)
                + s.payloads(f)[i].len() <= s.content(f).len() && s.image(f).subrange(
                start_of(s.payloads(f), i),
                start_of(s.payloads(f), i) + s.payloads(f)[i].len(),
            ) == s.payloads(f)[i],
{
    let p = s.payloads(f);
    let h = s.manifest_of(f).header_bytes();
    lemma_table_in(s, f);
    law_header_round_trip(s.manifest_of(f), Seq::empty());
    lemma_body(h, p, 21);
    let c = s.content(f);
    let b = s.image(f);
    let rest = b.skip(256);
    assert(h + rest =~= b) by {
        assert(c.take(256) =~= b.take(256));
    }
    law_header_round_trip(s.manifest_of(f), rest);
    assert forall|i: int| 0 <= i < 21 implies 256 <= #[trigger] start_of(p, i) && start_of(p, i) + p[i].len() <= c.len()
        && b.subrange(start_of(p, i), start_of(p, i) + p[i].len()) == p[i] by {
        assert(b.subrange(start_of(p, i), start_of(p, i) + p[i].len()) =~= c.subrange(
            start_of(p, i),
            start_of(p, i) + p[i].len(),
        ));
    }
}

/// The layout that the writer chooses is a valid one: every section lies in the image and the
/// typed ones are aligned. The distance table and the section behind it start at multiples of
/// two mebibytes.
pub proof fn law_layout_valid(s: SnapshotSections, f: AltFormat)
    requires
        s.length_error() is None,
        s.fits(f),
    ensures
        s.manifest_of(f).layout_result(s.image(f).len() as int) == Ok::<(), ManifestError>(()),
        s.manifest_of(f).off_lm_tab % ALT_SECTION_ALIGN == 0,
        s.manifest_of(f).off_fairy_nodes % ALT_SECTION_ALIGN == 0,
        s.manifest_of(f).off_macro_meta_blob <= s.manifest_of(f).off_req_tags,
{
    let p = s.payloads(f);
    let m = s.manifest_of(f);
    let len = s.image(f).len() as int;
    lemma_image(s, f);
    lemma_table_size(s, f);
    lemma_starts(s, f);
    lemma_first_outside(m.bounds(), len);
    assert(m.bounds().len() == 21);
    lemma_bound(s, f);
    assert forall|i: int| 0 <= i < 20 && i != 12 implies #[trigger] start_of(p, i) % section_align(i) == 0 by {
        lemma_start_aligned(p, i);
    }
    lemma_start_aligned(p, 13);
    lemma_all_aligned(m.alignments());
    lemma_end_of(p, 12);
    lemma_aligned(end_of(p, 12), section_align(12));
}

/// The offsets of the manifest are the section starts, and they fit the header.
proof fn lemma_starts(s: SnapshotSections, f: AltFormat)
    requires
        s.length_error() is None,
        s.fits(f),
    ensures
        forall|i: int| 0 <= i < 21 ==> #[trigger] s.manifest_of(f).offset_seq()[i] == start_of(s.payloads(f), i),
        forall|i: int| 0 <= i < 21 ==> 0 <= #[trigger] start_of(s.payloads(f), i) <= u64::MAX,
{
    let p = s.payloads(f);
    lemma_image(s, f);
    assert forall|i: int| 0 <= i < 21 implies 0 <= #[trigger] start_of(p, i) <= u64::MAX by {
        assert(start_of(p, i) + p[i].len() <= s.content(f).len());
    }
}

/// A bound about the start of a section and no more bytes than it has is met.
proof fn lemma_bound_at(s: SnapshotSections, f: AltFormat, i: int, k: int)
    requires
        s.length_error() is None,
        s.fits(f),
        0 <= k < 21,
        s.manifest_of(f).bounds()[i].off == s.manifest_of(f).offset_seq()[k],
        s.manifest_of(f).bounds()[i].size <= s.payloads(f)[k].len(),
    ensures
        in_file(s.manifest_of(f).bounds()[i], s.image(f).len() as int),
{
    lemma_starts(s, f);
    lemma_image(s, f);
    let p = s.payloads(f);
    assert(start_of(p, k) + p[k].len() <= s.content(f).len());
}

/// Every bound is met.
proof fn lemma_bound(s: SnapshotSections, f: AltFormat)
    requires
        s.length_error() is None,
        s.fits(f),
    ensures
        forall|i: int| 0 <= i < 21 ==> in_file(#[trigger] s.manifest_of(f).bounds()[i], s.image(f).len() as int),
{
    let p = s.payloads(f);
    let b = s.manifest_of(f).bounds();
    let o = s.manifest_of(f).offset_seq();
    lemma_table_size(s, f);
    assert({
        &&& b[0].off == o[0] && b[0].size <= p[0].len()
        &&& b[1].off == o[1] && b[1].size <= p[1].len()
        &&& b[2].off == o[2] && b[2].size <= p[2].len()
        &&& b[3].off == o[3] && b[3].size <= p[3].len()
        &&& b[4].off == o[4] && b[4].size <= p[4].len()
        &&& b[5].off == o[5] && b[5].size <= p[5].len()
        &&& b[6].off == o[6] && b[6].size <= p[6].len()
        &&& b[7].off == o[7] && b[7].size <= p[7].len()
        &&& b[8].off == o[13] && b[8].size <= p[13].len()
        &&& b[9].off == o[14] && b[9].size <= p[14].len()
        &&& b[10].off == o[15] && b[10].size <= p[15].len()
        &&& b[11].off == o[16] && b[11].size <= p[16].len()
        &&& b[12].off == o[8] && b[12].size <= p[8].len()
        &&& b[13].off == o[9] && b[13].size <= p[9].len()
        &&& b[14].off == o[10] && b[14].size <= p[10].len()
        &&& b[15].off == o[11] && b[15].size <= p[11].len()
        &&& b[16].off == o[17] && b[16].size <= p[17].len()
        &&& b[17].off == o[18] && b[17].size <= p[18].len()
        &&& b[18].off == o[19] && b[18].size <= p[19].len()
        &&& b[19].off == o[12] && b[19].size <= p[12].len()
        &&& b[20].off == o[20] && b[20].size <= p[20].len()
    }) by {
        reveal(SnapshotSections::payloads);
    }
    lemma_bound_at(s, f, 0, 0);
    lemma_bound_at(s, f, 1, 1);
    lemma_bound_at(s, f, 2, 2);
    lemma_bound_at(s, f, 3, 3);
    lemma_bound_at(s, f, 4, 4);
    lemma_bound_at(s, f, 5, 5);
    lemma_bound_at(s, f, 6, 6);
    lemma_bound_at(s, f, 7, 7);
    lemma_bound_at(s, f, 8, 13);
    lemma_bound_at(s, f, 9, 14);
    lemma_bound_at(s, f, 10, 15);
    lemma_bound_at(s, f, 11, 16);
    lemma_bound_at(s, f, 12, 8);
    lemma_bound_at(s, f, 13, 9);
    lemma_bound_at(s, f, 14, 10);
    lemma_bound_at(s, f, 15, 11);
    lemma_bound_at(s, f, 16, 17);
    lemma_bound_at(s, f, 17, 18);
    lemma_bound_at(s, f, 18, 19);
    lemma_bound_at(s, f, 19, 12);
    lemma_bound_at(s, f, 20, 20);
}

proof fn lemma_all_aligned(b: Seq<Bound>)
    requires
        forall|i: int| 0 <= i < b.len() ==> (#[trigger] b[i]).off % 64 == 0,
    ensures
        first_misaligned(b) is None,
    decreases b.len(),
{
    if b.len() > 0 {
        assert forall|i: int| 0 <= i < b.skip(1).len() implies (#[trigger] b.skip(1)[i]).off % 64 == 0 by {
            assert(b.skip(1)[i] == b[i + 1]);
        }
        lemma_all_aligned(b.skip(1));
    }
}

/// What was written reads back: opening the image of given sections gives the manifest it was
/// written with, exactly when their walk graph is valid, and each section holds what was
/// written. The last 32 bytes are the hash of all bytes before them.
#[verifier::spinoff_prover]
#[verifier::rlimit(60)]
pub proof fn law_read_back(s: SnapshotSections, f: AltFormat)
    requires
        s.length_error() is None,
        s.fits(f),
    ensures
        ({
            let b = s.image(f);
            let m = s.manifest_of(f);
            &&& open_result(b) == match graph_fault(
                s.walk_offsets@,
                s.walk_dst@,
                s.coords_packed@,
                s.walk_dst@.len() as int,
            ) {
                Some(what) => Err::<Manifest, ManifestError>(ManifestError::Invalid(what)),
                None => Ok::<Manifest, ManifestError>(m),
            }
            &&& u32s_at(b, m.off_coords as int, m.counts.nodes as nat) == s.coords_packed@
            &&& u32s_at(b, m.off_walk_offsets as int, (m.counts.nodes + 1) as nat) == s.walk_offsets@
            &&& u32s_at(b, m.off_walk_dst as int, m.counts.walk_edges as nat) == s.walk_dst@
            &&& b.subrange(m.off_walk_diag as int, m.off_walk_diag + s.walk_diag@.len()) == s.walk_diag@
            &&& u16s_at(b, m.off_comp as int, m.counts.nodes as nat) == s.comp@
            &&& u32s_at(b, m.off_macro_src as int, m.counts.macro_edges as nat) == s.macro_src@
            &&& u32s_at(b, m.off_macro_dst as int, m.counts.macro_edges as nat) == s.macro_dst@
            &&& u32s_at(b, m.off_macro_w as int, m.counts.macro_edges as nat) == s.macro_w@
            &&& u32s_at(b, m.off_macro_kind_first as int, m.counts.macro_edges as nat) == s.macro_kind_first@
            &&& u32s_at(b, m.off_macro_id_first as int, m.counts.macro_edges as nat) == s.macro_id_first@
            &&& u32s_at(b, m.off_macro_meta_offs as int, m.counts.macro_edges as nat) == s.macro_meta_offs@
            &&& u32s_at(b, m.off_macro_meta_lens as int, m.counts.macro_edges as nat) == s.macro_meta_lens@
            &&& b.subrange(m.off_macro_meta_blob as int, m.off_macro_meta_blob + s.macro_meta_blob@.len())
                == s.macro_meta_blob@
            &&& u32s_at(b, m.off_req_tags as int, m.counts.req_tags as nat) == s.req_tags@
            &&& u32s_at(b, m.off_landmarks as int, m.counts.landmarks as nat) == s.landmarks@
            &&& f is Plain ==> u16s_at(b, m.off_lm_tab as int, s.lm_tab@.len()) == s.lm_tab@
            &&& b.subrange(m.off_lm_tab as int, m.off_lm_tab + m.lm_tab_size()) == s.table_bytes(f)
            &&& u32s_at(b, m.off_fairy_nodes as int, m.counts.fairy_rings as nat) == s.fairy_nodes@
            &&& u32s_at(b, m.off_fairy_cost_ms as int, m.counts.fairy_rings as nat) == s.fairy_cost_ms@
            &&& u32s_at(b, m.off_fairy_meta_offs as int, m.counts.fairy_rings as nat) == s.fairy_meta_offs@
            &&& u32s_at(b, m.off_fairy_meta_lens as int, m.counts.fairy_rings as nat) == s.fairy_meta_lens@
            &&& b.subrange(m.off_fairy_meta_blob as int, b.len() - 32) == s.fairy_meta_blob@
            &&& b.skip(b.len() - 32) == blake3_of(b.take(b.len() - 32))@
        }),
{
    let p = s.payloads(f);
    let m = s.manifest_of(f);
    let b = s.image(f);
    reveal(open_result);
    lemma_image(s, f);
    law_layout_valid(s, f);
    lemma_words_back(s, f);
    lemma_macro_words_back(s, f);
    assert(p[20] == s.fairy_meta_blob@) by {
        reveal(SnapshotSections::payloads);
    }
    lemma_starts(s, f);
    assert(m.off_fairy_meta_blob == start_of(p, 20)) by {
        assert(m.offset_seq()[20] == start_of(p, 20));
    }
    assert(end_of(p, 21) == start_of(p, 20) + p[20].len());
    assert(b.take(b.len() - 32) =~= s.content(f));
    assert(b.skip(b.len() - 32) =~= blake3_of(s.content(f))@);
}

/// A section of `u32`s reads back.
proof fn lemma_u32_section(s: SnapshotSections, f: AltFormat, i: int, v: Seq<u32>)
    requires
        s.length_error() is None,
        s.fits(f),
        0 <= i < 21,
        s.payloads(f)[i] == u32s_bytes(v),
    ensures
        u32s_at(s.image(f), s.manifest_of(f).offset_seq()[i] as int, v.len()) == v,
{
    lemma_image(s, f);
    lemma_starts(s, f);
    let p = s.payloads(f);
    assert(start_of(p, i) >= 256);
    lemma_u32s_round_trip(s.image(f), start_of(p, i), v);
}

proof fn lemma_words_back(s: SnapshotSections, f: AltFormat)
    requires
        s.length_error() is None,
        s.fits(f),
    ensures
        ({
            let b = s.image(f);
            let m = s.manifest_of(f);
            &&& u32s_at(b, m.off_coords as int, m.counts.nodes as nat) == s.coords_packed@
            &&& u32s_at(b, m.off_walk_offsets as int, (m.counts.nodes + 1) as nat) == s.walk_offsets@
            &&& u32s_at(b, m.off_walk_dst as int, m.counts.walk_edges as nat) == s.walk_dst@
            &&& b.subrange(m.off_walk_diag as int, m.off_walk_diag + s.walk_diag@.len()) == s.walk_diag@
            &&& u16s_at(b, m.off_comp as int, m.counts.nodes as nat) == s.comp@
            &&& b.subrange(m.off_macro_meta_blob as int, m.off_macro_meta_blob + s.macro_meta_blob@.len())
                == s.macro_meta_blob@
            &&& u32s_at(b, m.off_req_tags as int, m.counts.req_tags as nat) == s.req_tags@
            &&& u32s_at(b, m.off_landmarks as int, m.counts.landmarks as nat) == s.landmarks@
            &&& f is Plain ==> u16s_at(b, m.off_lm_tab as int, s.lm_tab@.len()) == s.lm_tab@
            &&& b.subrange(m.off_lm_tab as int, m.off_lm_tab + m.lm_tab_size()) == s.table_bytes(f)
        }),
{
    let p = s.payloads(f);
    let m = s.manifest_of(f);
    let b = s.image(f);
    let o = m.offset_seq();
    lemma_image(s, f);
    lemma_starts(s, f);
    lemma_table_size(s, f);
    assert(p[0] == u32s_bytes(s.coords_packed@) && p[1] == u32s_bytes(s.walk_offsets@) && p[2] == u32s_bytes(
        s.walk_dst@,
    ) && p[3] == s.walk_diag@ && p[4] == u16s_bytes(s.comp@) && p[12] == s.macro_meta_blob@ && p[13] == u32s_bytes(
        s.req_tags@,
    ) && p[14] == u32s_bytes(s.landmarks@) && p[15] == s.table_bytes(f)) by {
        reveal(SnapshotSections::payloads);
    }
    lemma_u32_section(s, f, 0, s.coords_packed@);
    lemma_u32_section(s, f, 1, s.walk_offsets@);
    lemma_u32_section(s, f, 2, s.walk_dst@);
    lemma_u32_section(s, f, 13, s.req_tags@);
    lemma_u32_section(s, f, 14, s.landmarks@);
    assert(o[3] == start_of(p, 3) && o[4] == start_of(p, 4) && o[12] == start_of(p, 12) && o[15] == start_of(p, 15));
    lemma_u16s_round_trip(b, start_of(p, 4), s.comp@);
    if f is Plain {
        lemma_u16s_round_trip(b, start_of(p, 15), s.lm_tab@);
    }
}

proof fn lemma_macro_words_back(s: SnapshotSections, f: AltFormat)
    requires
        s.length_error() is None,
        s.fits(f),
    ensures
        ({
            let b = s.image(f);
            let m = s.manifest_of(f);
            &&& u32s_at(b, m.off_macro_src as int, m.counts.macro_edges as nat) == s.macro_src@
            &&& u32s_at(b, m.off_macro_dst as int, m.counts.macro_edges as nat) == s.macro_dst@
            &&& u32s_at(b, m.off_macro_w as int, m.counts.macro_edges as nat) == s.macro_w@
            &&& u32s_at(b, m.off_macro_kind_first as int, m.counts.macro_edges as nat) == s.macro_kind_first@
            &&& u32s_at(b, m.off_macro_id_first as int, m.counts.macro_edges as nat) == s.macro_id_first@
            &&& u32s_at(b, m.off_macro_meta_offs as int, m.counts.macro_edges as nat) == s.macro_meta_offs@
            &&& u32s_at(b, m.off_macro_meta_lens as int, m.counts.macro_edges as nat) == s.macro_meta_lens@
            &&& u32s_at(b, m.off_fairy_nodes as int, m.counts.fairy_rings as nat) == s.fairy_nodes@
            &&& u32s_at(b, m.off_fairy_cost_ms as int, m.counts.fairy_rings as nat) == s.fairy_cost_ms@
            &&& u32s_at(b, m.off_fairy_meta_offs as int, m.counts.fairy_rings as nat) == s.fairy_meta_offs@
            &&& u32s_at(b, m.off_fairy_meta_lens as int, m.counts.fairy_rings as nat) == s.fairy_meta_lens@
        }),
{
    let p = s.payloads(f);
    assert(p[5] == u32s_bytes(s.macro_src@) && p[6] == u32s_bytes(s.macro_dst@) && p[7] == u32s_bytes(s.macro_w@)
        && p[8] == u32s_bytes(s.macro_kind_first@) && p[9] == u32s_bytes(s.macro_id_first@) && p[10] == u32s_bytes(
        s.macro_meta_offs@,
    ) && p[11] == u32s_bytes(s.macro_meta_lens@) && p[16] == u32s_bytes(s.fairy_nodes@) && p[17] == u32s_bytes(
        s.fairy_cost_ms@,
    ) && p[18] == u32s_bytes(s.fairy_meta_offs@) && p[19] == u32s_bytes(s.fairy_meta_lens@)) by {
        reveal(SnapshotSections::payloads);
    }
    lemma_u32_section(s, f, 5, s.macro_src@);
    lemma_u32_section(s, f, 6, s.macro_dst@);
    lemma_u32_section(s, f, 7, s.macro_w@);
    lemma_u32_section(s, f, 8, s.macro_kind_first@);
    lemma_u32_section(s, f, 9, s.macro_id_first@);
    lemma_u32_section(s, f, 10, s.macro_meta_offs@);
    lemma_u32_section(s, f, 11, s.macro_meta_lens@);
    lemma_u32_section(s, f, 16, s.fairy_nodes@);
    lemma_u32_section(s, f, 17, s.fairy_cost_ms@);
    lemma_u32_section(s, f, 18, s.fairy_meta_offs@);
    lemma_u32_section(s, f, 19, s.fairy_meta_lens@);
}

}
