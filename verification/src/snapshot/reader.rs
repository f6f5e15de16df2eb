//! Reading a snapshot image.

use crate::bytes::{get_u16s, get_u32s};
use crate::snapshot::manifest::{
    pack_coord, unpack_coord, Manifest, ManifestError, SnapshotCounts, ALT_FORMAT_PACKED, MANIFEST_SIZE,
};
use crate::text::to_hex;
use vstd::prelude::*;
#[allow(unused_imports)]
use crate::bytes::{u16s_at, u32s_at};
#[allow(unused_imports)]
use crate::snapshot::manifest::{coord_in_range, coord_key, first_outside, in_file, key_coord, parse_result, Bound};
#[allow(unused_imports)]
use crate::text::hex;

verus! {

/// Every `KEY_SAMPLE_STRIDE`-th coordinate key is kept in the sample.
pub const KEY_SAMPLE_STRIDE: usize = 256;

/// Why a snapshot could not be opened.
#[derive(Debug)]
pub enum SnapshotError {
    /// The file could not be read.
    Io(String),
    Manifest(ManifestError),
}

/// A walk edge runs along an axis or diagonally.
#[derive(Debug, Clone, Copy, PartialEq, Eq, Structural)]
pub enum WalkStep {
    Cardinal,
    Diagonal,
}

impl WalkStep {
    /// The cost of the step in milliseconds, as the bit pattern of a binary32 number: 300, or the
    /// number next to 300 times the square root of two.
    pub fn cost_bits(self) -> (r: u32)
        ensures
            r == (if self is Cardinal { 0x4396_0000u32 } else { 0x43d4_21cdu32 }),
    {
        match self {
            WalkStep::Cardinal => 0x4396_0000,
            WalkStep::Diagonal => 0x43d4_21cd,
        }
    }

    /// The cost of the step in whole milliseconds: 300, or 300 times the square root of two.
    pub fn cost_ms(self) -> (r: u32)
        ensures
            r == (if self is Cardinal { 300u32 } else { 424u32 }),
    {
        match self {
            WalkStep::Cardinal => 300,
            WalkStep::Diagonal => 424,
        }
    }
}

/// An opened snapshot: the image, its manifest and its typed sections.
pub struct Snapshot {
    image: Vec<u8>,
    head: Manifest,
    coords: Vec<u32>,
    offsets: Vec<u32>,
    dst: Vec<u32>,
    comp: Vec<u16>,
    m_src: Vec<u32>,
    m_dst: Vec<u32>,
    m_w: Vec<u32>,
    m_kind: Vec<u32>,
    m_id: Vec<u32>,
    m_offs: Vec<u32>,
    m_lens: Vec<u32>,
    tags: Vec<u32>,
    lms: Vec<u32>,
    tab: Vec<u16>,
    f_nodes: Vec<u32>,
    f_cost: Vec<u32>,
    f_offs: Vec<u32>,
    f_lens: Vec<u32>,
    key_sample: Vec<u32>,
}

/// Whether the offsets never fall and no node has more than eight walk edges.
pub open spec fn offsets_monotone(offs: Seq<u32>) -> bool {
    forall|i: int| 0 <= i < offs.len() - 1 ==> (#[trigger] offs[i]) <= offs[i + 1] && offs[i + 1] - offs[i] <= 8
}

/// Whether every destination is a node.
pub open spec fn destinations_valid(dst: Seq<u32>, n: int) -> bool {
    forall|i: int| 0 <= i < dst.len() ==> #[trigger] dst[i] < n
}

/// Whether each key is above the one before it.
pub open spec fn keys_ascend(keys: Seq<u32>) -> bool {
    forall|i: int| 0 <= i < keys.len() - 1 ==> (#[trigger] keys[i]) < keys[i + 1]
}

/// What is wrong with a walk graph of `e` edges, if anything.
pub open spec fn graph_fault(offs: Seq<u32>, dst: Seq<u32>, keys: Seq<u32>, e: int) -> Option<&'static str> {
    if offs.len() == 0 || offs[0] != 0 || offs.last() != e {
        Some("walk_offsets must start at 0 and end at walk_edges")
    } else if !offsets_monotone(offs) {
        Some("walk_offsets not monotone or degree > 8")
    } else if !destinations_valid(dst, keys.len() as int) {
        Some("walk_dst references a node out of range")
    } else if !keys_ascend(keys) {
        Some("coordinate keys not strictly ascending")
    } else {
        None
    }
}

/// What `validate_graph` gives for an image with manifest `m`.
pub open spec fn image_fault(b: Seq<u8>, m: Manifest) -> Option<&'static str> {
    graph_fault(
        u32s_at(b, m.off_walk_offsets as int, (m.counts.nodes + 1) as nat),
        u32s_at(b, m.off_walk_dst as int, m.counts.walk_edges as nat),
        u32s_at(b, m.off_coords as int, m.counts.nodes as nat),
        m.counts.walk_edges as int,
    )
}

/// What opening the image `b` gives: its manifest, or the error.
#[verifier::opaque]
pub open spec fn open_result(b: Seq<u8>) -> Result<Manifest, ManifestError> {
    match parse_result(b) {
        Err(e) => Err(e),
        Ok(m) => match m.layout_result(b.len() as int) {
            Err(e) => Err(e),
            Ok(()) => match image_fault(b, m) {
                Some(what) => Err(ManifestError::Invalid(what)),
                None => Ok(m),
            },
        },
    }
}

/// The piece of `blob` at the `idx`-th offset and length, if there is one and it fits.
pub open spec fn blob_piece(blob: Seq<u8>, offs: Seq<u32>, lens: Seq<u32>, idx: int) -> Option<Seq<u8>> {
    if idx >= offs.len() || offs[idx] + lens[idx] > blob.len() {
        None
    } else {
        Some(blob.subrange(offs[idx] as int, offs[idx] + lens[idx]))
    }
}

/// Whether bit `slot` of a bitmap is set.
pub open spec fn bit_set(map: Seq<u8>, slot: int) -> bool {
    map[slot / 8] & (1u8 << ((slot % 8) as u8)) != 0
}

impl Snapshot {
    /// The image.
    pub closed spec fn bytes(self) -> Seq<u8> {
        self.image@
    }

    /// The manifest.
    pub closed spec fn man(self) -> Manifest {
        self.head
    }

    /// Node keys, in node order.
    pub open spec fn keys(self) -> Seq<u32> {
        u32s_at(self.bytes(), self.man().off_coords as int, self.man().counts.nodes as nat)
    }

    /// Start of each node's walk edges.
    pub open spec fn walk_starts(self) -> Seq<u32> {
        u32s_at(self.bytes(), self.man().off_walk_offsets as int, (self.man().counts.nodes + 1) as nat)
    }

    /// Destination of each walk edge.
    pub open spec fn walk_ends(self) -> Seq<u32> {
        u32s_at(self.bytes(), self.man().off_walk_dst as int, self.man().counts.walk_edges as nat)
    }

    /// The bitmap of diagonal walk edges.
    pub open spec fn diagonals(self) -> Seq<u8> {
        let off = self.man().off_walk_diag as int;
        self.bytes().subrange(off, off + (self.man().counts.walk_edges + 7) / 8)
    }

    /// Walk component of each node.
    pub open spec fn components(self) -> Seq<u16> {
        u16s_at(self.bytes(), self.man().off_comp as int, self.man().counts.nodes as nat)
    }

    /// A section with one `u32` per macro edge.
    pub open spec fn macro_words(self, off: u64) -> Seq<u32> {
        u32s_at(self.bytes(), off as int, self.man().counts.macro_edges as nat)
    }

    /// A section with one `u32` per fairy ring.
    pub open spec fn fairy_words(self, off: u64) -> Seq<u32> {
        u32s_at(self.bytes(), off as int, self.man().counts.fairy_rings as nat)
    }

    /// The plain distance table; empty where the table is packed.
    pub open spec fn plain_table(self) -> Seq<u16> {
        if self.man().alt_format == ALT_FORMAT_PACKED {
            Seq::empty()
        } else {
            u16s_at(
                self.bytes(),
                self.man().off_lm_tab as int,
                (self.man().counts.nodes * self.man().counts.landmarks * 2) as nat,
            )
        }
    }

    /// The metadata of the fairy rings: from its offset up to the trailing hash.
    pub open spec fn fairy_blob(self) -> Seq<u8> {
        let start = self.man().off_fairy_meta_blob as int;
        let end = if self.bytes().len() >= 32 { self.bytes().len() - 32 } else { 0 };
        if start <= end { self.bytes().subrange(start, end) } else { Seq::empty() }
    }

    /// Whether the typed sections hold what the image spells.
    pub closed spec fn sections_read(self) -> bool {
        let m = self.head;
        &&& self.coords@ == self.keys()
        &&& self.offsets@ == self.walk_starts()
        &&& self.dst@ == self.walk_ends()
        &&& self.comp@ == self.components()
        &&& self.m_src@ == self.macro_words(m.off_macro_src)
        &&& self.m_dst@ == self.macro_words(m.off_macro_dst)
        &&& self.m_w@ == self.macro_words(m.off_macro_w)
        &&& self.m_kind@ == self.macro_words(m.off_macro_kind_first)
        &&& self.m_id@ == self.macro_words(m.off_macro_id_first)
        &&& self.m_offs@ == self.macro_words(m.off_macro_meta_offs)
        &&& self.m_lens@ == self.macro_words(m.off_macro_meta_lens)
        &&& self.tags@ == u32s_at(self.image@, m.off_req_tags as int, m.counts.req_tags as nat)
        &&& self.lms@ == u32s_at(self.image@, m.off_landmarks as int, m.counts.landmarks as nat)
        &&& self.tab@ == self.plain_table()
        &&& self.f_nodes@ == self.fairy_words(m.off_fairy_nodes)
        &&& self.f_cost@ == self.fairy_words(m.off_fairy_cost_ms)
        &&& self.f_offs@ == self.fairy_words(m.off_fairy_meta_offs)
        &&& self.f_lens@ == self.fairy_words(m.off_fairy_meta_lens)
        &&& self.key_sample@.len() == (self.coords@.len() + 255) / 256
        &&& forall|i: int| 0 <= i < self.key_sample@.len() ==> #[trigger] self.key_sample@[i] == self.coords@[256 * i]
    }

    /// Whether the image was opened: it has a readable header, its sections lie in it and its
    /// walk graph is valid.
    pub open spec fn wf(self) -> bool {
        &&& open_result(self.bytes()) == Ok::<Manifest, ManifestError>(self.man())
        &&& self.sections_read()
    }

    /// What being opened means for the sections and the walk graph.
    pub proof fn lemma_wf(self)
        requires
            self.wf(),
        ensures
            self.man().layout_result(self.bytes().len() as int) is Ok,
            keys_ascend(self.keys()),
            offsets_monotone(self.walk_starts()),
            destinations_valid(self.walk_ends(), self.man().counts.nodes as int),
            self.walk_starts()[0] == 0,
            self.walk_starts()[self.man().counts.nodes as int] == self.man().counts.walk_edges,
            self.man().off_coords + self.man().counts.nodes * 4 <= self.bytes().len(),
            self.man().off_walk_diag + (self.man().counts.walk_edges + 7) / 8 <= self.bytes().len(),
            self.man().off_req_tags <= self.bytes().len(),
            self.man().off_lm_tab + self.man().lm_tab_size() <= self.bytes().len(),
    {
        reveal(open_result);
        lemma_layout_ok(self.man(), self.bytes().len() as int);
    }

    /// Opens an image.
    pub fn open(image: Vec<u8>) -> (r: Result<Self, SnapshotError>)
        ensures
            match open_result(image@) {
                Ok(m) => r is Ok && r->Ok_0.wf() && r->Ok_0.bytes() == image@ && r->Ok_0.man() == m,
                Err(e) => r is Err && r->Err_0 is Manifest && r->Err_0->Manifest_0 == e,
            },
    {
        reveal(open_result);
        let head: Manifest = match Manifest::parse(image.as_slice()) {
            Ok(m) => m,
            Err(e) => {
                return Err(SnapshotError::Manifest(e));
            },
        };
        let layout: Result<(), ManifestError> = head.validate_layout(image.len());
        if let Err(e) = layout {
            return Err(SnapshotError::Manifest(e));
        }
        proof {
            lemma_layout_ok(head, image@.len() as int);
        }
        let c: SnapshotCounts = head.counts;
        let n: usize = c.nodes as usize;
        let e: usize = c.walk_edges as usize;
        let m: usize = c.macro_edges as usize;
        let f: usize = c.fairy_rings as usize;
        let b: &[u8] = image.as_slice();
        let coords: Vec<u32> = get_u32s(b, head.off_coords as usize, n);
        let offsets: Vec<u32> = get_u32s(b, head.off_walk_offsets as usize, n + 1);
        let dst: Vec<u32> = get_u32s(b, head.off_walk_dst as usize, e);
        if let Some(what) = validate_graph(offsets.as_slice(), dst.as_slice(), coords.as_slice(), e) {
            return Err(SnapshotError::Manifest(ManifestError::Invalid(what)));
        }
        let comp: Vec<u16> = get_u16s(b, head.off_comp as usize, n);
        let m_src: Vec<u32> = get_u32s(b, head.off_macro_src as usize, m);
        let m_dst: Vec<u32> = get_u32s(b, head.off_macro_dst as usize, m);
        let m_w: Vec<u32> = get_u32s(b, head.off_macro_w as usize, m);
        let m_kind: Vec<u32> = get_u32s(b, head.off_macro_kind_first as usize, m);
        let m_id: Vec<u32> = get_u32s(b, head.off_macro_id_first as usize, m);
        let m_offs: Vec<u32> = get_u32s(b, head.off_macro_meta_offs as usize, m);
        let m_lens: Vec<u32> = get_u32s(b, head.off_macro_meta_lens as usize, m);
        let tags: Vec<u32> = get_u32s(b, head.off_req_tags as usize, c.req_tags as usize);
        let lms: Vec<u32> = get_u32s(b, head.off_landmarks as usize, c.landmarks as usize);
        let tab: Vec<u16> = if head.alt_format == ALT_FORMAT_PACKED {
            Vec::new()
        } else {
            let size: (u64, u128) = head.lm_tab_range();
            get_u16s(b, head.off_lm_tab as usize, (size.1 / 2) as usize)
        };
        let f_nodes: Vec<u32> = get_u32s(b, head.off_fairy_nodes as usize, f);
        let f_cost: Vec<u32> = get_u32s(b, head.off_fairy_cost_ms as usize, f);
        let f_offs: Vec<u32> = get_u32s(b, head.off_fairy_meta_offs as usize, f);
        let f_lens: Vec<u32> = get_u32s(b, head.off_fairy_meta_lens as usize, f);
        let key_sample: Vec<u32> = sample(coords.as_slice());
        Ok(
            Snapshot {
                image,
                head,
                coords,
                offsets,
                dst,
                comp,
                m_src,
                m_dst,
                m_w,
                m_kind,
                m_id,
                m_offs,
                m_lens,
                tags,
                lms,
                tab,
                f_nodes,
                f_cost,
                f_offs,
                f_lens,
                key_sample,
            },
        )
    }

    /// The trailing content hash in hexadecimal; `None` where the image is too short for one.
    pub fn tail_hash_hex(&self) -> (r: Option<String>)
        ensures
            self.bytes().len() < MANIFEST_SIZE + 32 ==> r is None,
            self.bytes().len() >= MANIFEST_SIZE + 32 ==> r is Some && r->0@ == hex(
                self.bytes().skip(self.bytes().len() - 32),
            ),
    {
        let len: usize = self.image.len();
        if len < MANIFEST_SIZE + 32 {
            return None;
        }
        let tail: &[u8] = &self.image.as_slice()[len - 32..len];
        assert(tail@ =~= self.image@.skip(len - 32));
        Some(to_hex(tail))
    }

    pub fn manifest(&self) -> (r: &Manifest)
        ensures
            *r == self.man(),
    {
        &self.head
    }

    pub fn counts(&self) -> (r: SnapshotCounts)
        ensures
            r == self.man().counts,
    {
        self.head.counts
    }

    pub fn coords_packed(&self) -> (r: &[u32])
        requires
            self.wf(),
        ensures
            r@ == self.keys(),
    {
        self.coords.as_slice()
    }

    pub fn walk_offsets(&self) -> (r: &[u32])
        requires
            self.wf(),
        ensures
            r@ == self.walk_starts(),
    {
        self.offsets.as_slice()
    }

    pub fn walk_dst(&self) -> (r: &[u32])
        requires
            self.wf(),
        ensures
            r@ == self.walk_ends(),
    {
        self.dst.as_slice()
    }

    pub fn walk_diag(&self) -> (r: &[u8])
        requires
            self.wf(),
        ensures
            r@ == self.diagonals(),
    {
        proof {
            self.lemma_wf();
        }
        let len: usize = self.image.len();
        let start: usize = self.head.off_walk_diag as usize;
        let e: usize = self.head.counts.walk_edges as usize;
        let size: usize = e / 8 + if e % 8 != 0 { 1 } else { 0 };
        &self.image.as_slice()[start..start + size]
    }

    pub fn comp_ids(&self) -> (r: &[u16])
        requires
            self.wf(),
        ensures
            r@ == self.components(),
    {
        self.comp.as_slice()
    }

    pub fn macro_src(&self) -> (r: &[u32])
        requires
            self.wf(),
        ensures
            r@ == self.macro_words(self.man().off_macro_src),
    {
        self.m_src.as_slice()
    }

    pub fn macro_dst(&self) -> (r: &[u32])
        requires
            self.wf(),
        ensures
            r@ == self.macro_words(self.man().off_macro_dst),
    {
        self.m_dst.as_slice()
    }

    /// The weights of the macro edges, as the bits of single-precision numbers.
    pub fn macro_w(&self) -> (r: &[u32])
        requires
            self.wf(),
        ensures
            r@ == self.macro_words(self.man().off_macro_w),
    {
        self.m_w.as_slice()
    }

    pub fn macro_kind_first(&self) -> (r: &[u32])
        requires
            self.wf(),
        ensures
            r@ == self.macro_words(self.man().off_macro_kind_first),
    {
        self.m_kind.as_slice()
    }

    pub fn macro_id_first(&self) -> (r: &[u32])
        requires
            self.wf(),
        ensures
            r@ == self.macro_words(self.man().off_macro_id_first),
    {
        self.m_id.as_slice()
    }

    pub fn macro_meta_offs(&self) -> (r: &[u32])
        requires
            self.wf(),
        ensures
            r@ == self.macro_words(self.man().off_macro_meta_offs),
    {
        self.m_offs.as_slice()
    }

    pub fn macro_meta_lens(&self) -> (r: &[u32])
        requires
            self.wf(),
        ensures
            r@ == self.macro_words(self.man().off_macro_meta_lens),
    {
        self.m_lens.as_slice()
    }

    /// The metadata of the macro edges: up to the requirement tags.
    pub fn macro_meta_blob(&self) -> (r: &[u8])
        requires
            self.wf(),
            self.man().off_macro_meta_blob <= self.man().off_req_tags,
        ensures
            r@ == self.bytes().subrange(self.man().off_macro_meta_blob as int, self.man().off_req_tags as int),
    {
        proof {
            self.lemma_wf();
        }
        let len: usize = self.image.len();
        &self.image.as_slice()[self.head.off_macro_meta_blob as usize..self.head.off_req_tags as usize]
    }

    /// The metadata of macro edge `idx`.
    pub fn macro_meta_at(&self, idx: usize) -> (r: Option<&[u8]>)
        requires
            self.wf(),
            idx < self.man().counts.macro_edges ==> self.man().off_macro_meta_blob <= self.man().off_req_tags,
        ensures
            match blob_piece(
                self.bytes().subrange(self.man().off_macro_meta_blob as int, self.man().off_req_tags as int),
                self.macro_words(self.man().off_macro_meta_offs),
                self.macro_words(self.man().off_macro_meta_lens),
                idx as int,
            ) {
                Some(p) => r is Some && r->0@ == p,
                None => r is None,
            },
    {
        if idx >= self.macro_meta_offs().len() {
            return None;
        }
        piece(self.macro_meta_blob(), self.macro_meta_offs(), self.macro_meta_lens(), idx)
    }

    pub fn req_tags(&self) -> (r: &[u32])
        requires
            self.wf(),
        ensures
            r@ == u32s_at(self.bytes(), self.man().off_req_tags as int, self.man().counts.req_tags as nat),
    {
        self.tags.as_slice()
    }

    pub fn landmarks(&self) -> (r: &[u32])
        requires
            self.wf(),
        ensures
            r@ == u32s_at(self.bytes(), self.man().off_landmarks as int, self.man().counts.landmarks as nat),
    {
        self.lms.as_slice()
    }

    /// The packed distance table, where the snapshot stores one.
    pub fn lm_packed(&self) -> (r: Option<&[u8]>)
        requires
            self.wf(),
        ensures
            self.man().alt_format != ALT_FORMAT_PACKED ==> r is None,
            self.man().alt_format == ALT_FORMAT_PACKED ==> r is Some && r->0@ == self.bytes().subrange(
                self.man().off_lm_tab as int,
                self.man().off_lm_tab + self.man().lm_tab_size(),
            ),
    {
        if self.head.alt_format != ALT_FORMAT_PACKED {
            return None;
        }
        proof {
            self.lemma_wf();
        }
        let len: usize = self.image.len();
        let range: (u64, u128) = self.head.lm_tab_range();
        let start: usize = range.0 as usize;
        Some(&self.image.as_slice()[start..start + range.1 as usize])
    }

    /// The plain distance table; empty where the table is packed.
    pub fn lm_tab(&self) -> (r: &[u16])
        requires
            self.wf(),
        ensures
            r@ == self.plain_table(),
    {
        self.tab.as_slice()
    }

    pub fn fairy_nodes(&self) -> (r: &[u32])
        requires
            self.wf(),
        ensures
            r@ == self.fairy_words(self.man().off_fairy_nodes),
    {
        self.f_nodes.as_slice()
    }

    /// The costs of the fairy rings, as the bits of single-precision numbers.
    pub fn fairy_cost_ms(&self) -> (r: &[u32])
        requires
            self.wf(),
        ensures
            r@ == self.fairy_words(self.man().off_fairy_cost_ms),
    {
        self.f_cost.as_slice()
    }

    pub fn fairy_meta_offs(&self) -> (r: &[u32])
        requires
            self.wf(),
        ensures
            r@ == self.fairy_words(self.man().off_fairy_meta_offs),
    {
        self.f_offs.as_slice()
    }

    pub fn fairy_meta_lens(&self) -> (r: &[u32])
        requires
            self.wf(),
        ensures
            r@ == self.fairy_words(self.man().off_fairy_meta_lens),
    {
        self.f_lens.as_slice()
    }

    pub fn fairy_meta_blob(&self) -> (r: &[u8])
        ensures
            r@ == self.fairy_blob(),
    {
        let len: usize = self.image.len();
        let end: usize = if len >= 32 { len - 32 } else { 0 };
        if self.head.off_fairy_meta_blob <= end as u64 {
            &self.image.as_slice()[self.head.off_fairy_meta_blob as usize..end]
        } else {
            let none: &[u8] = &self.image.as_slice()[0..0];
            assert(none@ =~= Seq::empty());
            none
        }
    }

    /// The metadata of fairy ring `idx`.
    pub fn fairy_meta_at(&self, idx: usize) -> (r: Option<&[u8]>)
        requires
            self.wf(),
        ensures
            match blob_piece(
                self.fairy_blob(),
                self.fairy_words(self.man().off_fairy_meta_offs),
                self.fairy_words(self.man().off_fairy_meta_lens),
                idx as int,
            ) {
                Some(p) => r is Some && r->0@ == p,
                None => r is None,
            },
    {
        piece(self.fairy_meta_blob(), self.fairy_meta_offs(), self.fairy_meta_lens(), idx)
    }

    /// The coordinate of node `id`; the origin for an id that is no node.
    pub fn node_coord(&self, id: u32) -> (r: (i32, i32, i32))
        requires
            self.wf(),
        ensures
            (r.0 as int, r.1 as int, r.2 as int) == (if id < self.keys().len() {
                key_coord(self.keys()[id as int])
            } else {
                (0int, 0int, 0int)
            }),
    {
        let i: usize = id as usize;
        if i < self.coords.len() {
            unpack_coord(self.coords[i])
        } else {
            (0, 0, 0)
        }
    }

    /// The node at a coordinate.
    pub fn find_node(&self, x: i32, y: i32, plane: i32) -> (r: Option<u32>)
        requires
            self.wf(),
        ensures
            match r {
                Some(id) => coord_in_range(x as int, y as int, plane as int) && id < self.keys().len()
                    && self.keys()[id as int] == coord_key(x as int, y as int, plane as int),
                None => !coord_in_range(x as int, y as int, plane as int) || forall|id: int|
                    0 <= id < self.keys().len() ==> #[trigger] self.keys()[id] != coord_key(
                        x as int,
                        y as int,
                        plane as int,
                    ),
            },
    {
        if x < 0 || x >= 32768 || y < 0 || y >= 32768 || plane < 0 || plane >= 4 {
            return None;
        }
        let key: u32 = pack_coord(x, y, plane);
        assert(forall|i: int, j: int| 0 <= i < j < self.coords@.len() ==> self.coords@[i] < self.coords@[j]) by {
            self.lemma_wf();
            lemma_ascending(self.coords@);
        }
        let keys: &[u32] = self.coords.as_slice();
        let below: usize = self.samples_up_to(key);
        if below == 0 {
            assert forall|id: int| 0 <= id < keys@.len() implies #[trigger] keys@[id] != key by {
                assert(keys@[0] > key);
            }
            return None;
        }
        let start: usize = (below - 1) * KEY_SAMPLE_STRIDE;
        let total: usize = keys.len();
        let end: usize = if total - start >= KEY_SAMPLE_STRIDE { start + KEY_SAMPLE_STRIDE } else { total };
        assert(end < total ==> end == 256 * below && keys@[256 * below] > key);
        match search(keys, start, end, key) {
            Some(i) => Some(i as u32),
            None => {
                assert forall|id: int| 0 <= id < keys@.len() implies #[trigger] keys@[id] != key by {
                    if id < start {
                        assert(keys@[id] < keys@[start as int]);
                    } else if id > end {
                        assert(keys@[end as int] < keys@[id]);
                    }
                }
                None
            },
        }
    }

    /// How many samples are at most the key.
    fn samples_up_to(&self, key: u32) -> (r: usize)
        requires
            self.wf(),
            forall|i: int, j: int| 0 <= i < j < self.coords@.len() ==> self.coords@[i] < self.coords@[j],
        ensures
            r <= (self.coords@.len() + 255) / 256,
            r > 0 ==> self.coords@[256 * (r - 1)] <= key,
            256 * r < self.coords@.len() ==> self.coords@[256 * r] > key,
    {
        let mut lo: usize = 0;
        let mut hi: usize = self.key_sample.len();
        while lo < hi
            invariant
                lo <= hi <= self.key_sample@.len(),
                self.sections_read(),
                lo > 0 ==> self.coords@[256 * (lo - 1)] <= key,
                hi < self.key_sample@.len() ==> self.coords@[256 * hi] > key,
            decreases hi - lo,
        {
            let mid: usize = lo + (hi - lo) / 2;
            assert(self.key_sample@[mid as int] == self.coords@[256 * mid]);
            if self.key_sample[mid] <= key {
                lo = mid + 1;
            } else {
                hi = mid;
            }
        }
        lo
    }

    /// Whether and how a walk edge leads from `u` to `v`: by the first of `u`'s edges there.
    pub fn walk_edge_weight(&self, u: u32, v: u32) -> (r: Option<WalkStep>)
        requires
            self.wf(),
        ensures
            match r {
                Some(step) => exists|slot: int|
                    #[trigger] self.is_first_slot(u as int, v, slot) && (step is Diagonal <==> bit_set(
                        self.diagonals(),
                        slot,
                    )),
                None => forall|slot: int| !#[trigger] self.is_slot(u as int, v, slot),
            },
    {
        let i: usize = u as usize;
        if u as u64 + 1 >= self.offsets.len() as u64 {
            return None;
        }
        proof {
            self.lemma_wf();
            lemma_monotone(self.offsets@, i as int, i + 1);
            lemma_monotone(self.offsets@, i + 1, self.offsets@.len() - 1);
        }
        let s: usize = self.offsets[i] as usize;
        let e: usize = self.offsets[i + 1] as usize;
        let diag: &[u8] = self.walk_diag();
        let mut slot: usize = s;
        while slot < e
            invariant
                s <= slot <= e,
                e <= self.dst@.len(),
                diag@ == self.diagonals(),
                diag@.len() == (self.dst@.len() + 7) / 8,
                self.wf(),
                i == u,
                i + 1 < self.offsets@.len(),
                s == self.walk_starts()[i as int],
                e == self.walk_starts()[i + 1],
                forall|k: int| s <= k < slot ==> #[trigger] self.dst@[k] != v,
            decreases e - slot,
        {
            if self.dst[slot] == v {
                proof {
                    assert(self.is_first_slot(u as int, v, slot as int));
                }
                let bit: u8 = (slot % 8) as u8;
                let is_diag: bool = diag[slot / 8] & (1u8 << bit) != 0;
                return Some(
                    if is_diag {
                        WalkStep::Diagonal
                    } else {
                        WalkStep::Cardinal
                    },
                );
            }
            slot += 1;
        }
        None
    }

    /// Whether `slot` is a walk edge from `u` to `v`.
    pub open spec fn is_slot(self, u: int, v: u32, slot: int) -> bool {
        &&& 0 <= u < self.man().counts.nodes
        &&& self.walk_starts()[u] <= slot < self.walk_starts()[u + 1]
        &&& self.walk_ends()[slot] == v
    }

    /// Whether `slot` is the first walk edge from `u` to `v`.
    pub open spec fn is_first_slot(self, u: int, v: u32, slot: int) -> bool {
        &&& self.is_slot(u, v, slot)
        &&& forall|k: int| k < slot ==> !#[trigger] self.is_slot(u, v, k)
    }
}

/// Where a key stands among ascending ones, between two positions.
fn search(keys: &[u32], start: usize, end: usize, key: u32) -> (r: Option<usize>)
    requires
        start <= end <= keys@.len(),
        forall|i: int, j: int| 0 <= i < j < keys@.len() ==> keys@[i] < keys@[j],
    ensures
        match r {
            Some(i) => start <= i < end && keys@[i as int] == key,
            None => forall|i: int| start <= i < end ==> #[trigger] keys@[i] != key,
        },
{
    let mut a: usize = start;
    let mut b: usize = end;
    while a < b
        invariant
            start <= a <= b <= end,
            end <= keys@.len(),
            forall|i: int, j: int| 0 <= i < j < keys@.len() ==> keys@[i] < keys@[j],
            forall|i: int| start <= i < a ==> #[trigger] keys@[i] < key,
            forall|i: int| b <= i < end ==> #[trigger] keys@[i] > key,
        decreases b - a,
    {
        let mid: usize = a + (b - a) / 2;
        let k: u32 = keys[mid];
        if k == key {
            return Some(mid);
        }
        if k < key {
            a = mid + 1;
        } else {
            b = mid;
        }
    }
    None
}

/// The piece of `blob` at the `idx`-th offset and length.
fn piece<'a>(blob: &'a [u8], offs: &[u32], lens: &[u32], idx: usize) -> (r: Option<&'a [u8]>)
    requires
        offs@.len() == lens@.len(),
    ensures
        match blob_piece(blob@, offs@, lens@, idx as int) {
            Some(p) => r is Some && r->0@ == p,
            None => r is None,
        },
{
    if idx >= offs.len() {
        return None;
    }
    let o: u64 = offs[idx] as u64;
    let l: u64 = lens[idx] as u64;
    if o + l <= blob.len() as u64 {
        Some(&blob[o as usize..(o + l) as usize])
    } else {
        None
    }
}

/// Every 256th key.
fn sample(keys: &[u32]) -> (r: Vec<u32>)
    ensures
        r@.len() == (keys@.len() + 255) / 256,
        forall|i: int| 0 <= i < r@.len() ==> #[trigger] r@[i] == keys@[256 * i],
{
    let len: usize = keys.len();
    let mut r: Vec<u32> = Vec::new();
    let count: usize = len / KEY_SAMPLE_STRIDE + if len % KEY_SAMPLE_STRIDE != 0 { 1 } else { 0 };
    let mut i: usize = 0;
    while i < count
        invariant
            i <= count,
            count == (keys@.len() + 255) / 256,
            len == keys@.len(),
            r@.len() == i,
            forall|k: int| 0 <= k < i ==> #[trigger] r@[k] == keys@[256 * k],
        decreases count - i,
    {
        r.push(keys[i * KEY_SAMPLE_STRIDE]);
        i += 1;
    }
    r
}

/// Tests the walk graph: offsets, destinations and coordinate keys.
fn validate_graph(offs: &[u32], dst: &[u32], keys: &[u32], e: usize) -> (r: Option<&'static str>)
    requires
        offs@.len() == keys@.len() + 1,
    ensures
        r == graph_fault(offs@, dst@, keys@, e as int),
{
    let n: usize = keys.len();
    let count: usize = offs.len();
    if offs[0] != 0 || offs[count - 1] as usize != e {
        return Some("walk_offsets must start at 0 and end at walk_edges");
    }
    let mut i: usize = 0;
    while i + 1 < count
        invariant
            count == offs@.len(),
            i + 1 <= count,
            forall|k: int| 0 <= k < i ==> (#[trigger] offs@[k]) <= offs@[k + 1] && offs@[k + 1] - offs@[k] <= 8,
            offs@.len() > 0,
            offs@[0] == 0,
            offs@.last() == e,
        decreases count - i,
    {
        if offs[i + 1] < offs[i] || offs[i + 1] - offs[i] > 8 {
            assert(!offsets_monotone(offs@)) by {
                assert(!(offs@[i as int] <= offs@[i + 1] && offs@[i + 1] - offs@[i as int] <= 8));
            }
            return Some("walk_offsets not monotone or degree > 8");
        }
        i += 1;
    }
    let mut j: usize = 0;
    while j < dst.len()
        invariant
            j <= dst@.len(),
            n == keys@.len(),
            forall|k: int| 0 <= k < j ==> #[trigger] dst@[k] < n,
            offs@.len() > 0,
            offs@[0] == 0,
            offs@.last() == e,
            offsets_monotone(offs@),
        decreases dst@.len() - j,
    {
        if dst[j] as usize >= n {
            return Some("walk_dst references a node out of range");
        }
        j += 1;
    }
    let mut k: usize = 0;
    while k + 1 < n
        invariant
            n == keys@.len(),
            k < n || n == 0,
            k == 0 || k + 1 <= n,
            forall|i: int| 0 <= i < k ==> (#[trigger] keys@[i]) < keys@[i + 1],
            offs@.len() > 0,
            offs@[0] == 0,
            offs@.last() == e,
            offsets_monotone(offs@),
            destinations_valid(dst@, n as int),
        decreases n - k,
    {
        if keys[k] >= keys[k + 1] {
            assert(!keys_ascend(keys@)) by {
                assert(!(keys@[k as int] < keys@[k + 1]));
            }
            return Some("coordinate keys not strictly ascending");
        }
        k += 1;
    }
    None
}

/// Ascending neighbours make an ascending sequence.
pub proof fn lemma_ascending(keys: Seq<u32>)
    requires
        keys_ascend(keys),
    ensures
        forall|i: int, j: int| 0 <= i < j < keys.len() ==> keys[i] < keys[j],
{
    assert forall|i: int, j: int| 0 <= i < j < keys.len() implies keys[i] < keys[j] by {
        lemma_ascending_pair(keys, i, j);
    }
}

proof fn lemma_ascending_pair(keys: Seq<u32>, i: int, j: int)
    requires
        keys_ascend(keys),
        0 <= i < j < keys.len(),
    ensures
        keys[i] < keys[j],
    decreases j - i,
{
    assert(keys[j - 1] < keys[j - 1 + 1]);
    if i < j - 1 {
        lemma_ascending_pair(keys, i, j - 1);
    }
}

/// Offsets that never fall are ordered.
pub proof fn lemma_monotone(offs: Seq<u32>, i: int, j: int)
    requires
        offsets_monotone(offs),
        0 <= i <= j < offs.len(),
    ensures
        offs[i] <= offs[j],
    decreases j - i,
{
    if i < j {
        assert(offs[j - 1] <= offs[j - 1 + 1]);
        lemma_monotone(offs, i, j - 1);
    }
}

/// The first section outside the file is none exactly when all lie in it.
pub proof fn lemma_first_outside(b: Seq<Bound>, len: int)
    ensures
        first_outside(b, len) is None <==> forall|i: int| 0 <= i < b.len() ==> in_file(#[trigger] b[i], len),
    decreases b.len(),
{
    if b.len() > 0 {
        lemma_first_outside(b.skip(1), len);
        assert forall|i: int| 0 < i < b.len() implies b[i] == #[trigger] b.skip(1)[i - 1] by {}
        if in_file(b[0], len) && first_outside(b.skip(1), len) is None {
            assert forall|i: int| 0 <= i < b.len() implies in_file(#[trigger] b[i], len) by {
                if i > 0 {
                    assert(b.skip(1)[i - 1] == b[i]);
                }
            }
        }
        if forall|i: int| 0 <= i < b.len() ==> in_file(#[trigger] b[i], len) {
            assert forall|i: int| 0 <= i < b.skip(1).len() implies in_file(#[trigger] b.skip(1)[i], len) by {
                assert(b.skip(1)[i] == b[i + 1]);
            }
        }
    }
}

/// In a valid layout every section lies in the file.
pub proof fn lemma_layout_ok(m: Manifest, len: int)
    requires
        m.layout_result(len) is Ok,
    ensures
        forall|i: int| 0 <= i < 21 ==> in_file(#[trigger] m.bounds()[i], len),
        m.off_coords + m.counts.nodes * 4 <= len,
        m.off_walk_offsets + (m.counts.nodes + 1) * 4 <= len,
        m.off_walk_dst + m.counts.walk_edges * 4 <= len,
        m.off_walk_diag + (m.counts.walk_edges + 7) / 8 <= len,
        m.off_comp + m.counts.nodes * 2 <= len,
        m.off_macro_src + m.counts.macro_edges * 4 <= len,
        m.off_macro_dst + m.counts.macro_edges * 4 <= len,
        m.off_macro_w + m.counts.macro_edges * 4 <= len,
        m.off_req_tags + m.counts.req_tags * 4 <= len,
        m.off_landmarks + m.counts.landmarks * 4 <= len,
        m.off_lm_tab + m.lm_tab_size() <= len,
        m.off_fairy_nodes + m.counts.fairy_rings * 4 <= len,
        m.off_macro_kind_first + m.counts.macro_edges * 4 <= len,
        m.off_macro_id_first + m.counts.macro_edges * 4 <= len,
        m.off_macro_meta_offs + m.counts.macro_edges * 4 <= len,
        m.off_macro_meta_lens + m.counts.macro_edges * 4 <= len,
        m.off_fairy_cost_ms + m.counts.fairy_rings * 4 <= len,
        m.off_fairy_meta_offs + m.counts.fairy_rings * 4 <= len,
        m.off_fairy_meta_lens + m.counts.fairy_rings * 4 <= len,
        m.off_macro_meta_blob <= len,
        m.off_fairy_meta_blob <= len,
{
    let b = m.bounds();
    lemma_first_outside(b, len);
    assert(in_file(b[0], len) && in_file(b[1], len) && in_file(b[2], len) && in_file(b[3], len) && in_file(
        b[4],
        len,
    ) && in_file(b[5], len) && in_file(b[6], len) && in_file(b[7], len) && in_file(b[8], len) && in_file(b[9], len)
        && in_file(b[10], len) && in_file(b[11], len) && in_file(b[12], len) && in_file(b[13], len) && in_file(
        b[14],
        len,
    ) && in_file(b[15], len) && in_file(b[16], len) && in_file(b[17], len) && in_file(b[18], len) && in_file(
        b[19],
        len,
    ) && in_file(b[20], len));
}

/// A piece of a blob stands where its offset and its length say, and there is none only where it would not fit
/// or has no offset.
pub proof fn law_pieces_of_blobs(blob: Seq<u8>, offs: Seq<u32>, lens: Seq<u32>, idx: int)
    requires
        0 <= idx,
        offs.len() == lens.len(),
    ensures
        blob_piece(blob, offs, lens, idx) is Some <==> idx < offs.len() && offs[idx] + lens[idx] <= blob.len(),
        blob_piece(blob, offs, lens, idx) matches Some(p) ==> p.len() == lens[idx] && forall|k: int|
            0 <= k < p.len() ==> #[trigger] p[k] == blob[offs[idx] + k],
{
}

}
