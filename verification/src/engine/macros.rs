//! Macro edges, global teleports and fairy rings, as the metadata of a snapshot describes them.

use crate::engine::fx_map::{pair_number, FxIndex};
use crate::engine::eligibility::EligibilityMask;
use crate::engine::millis::Millis;
use crate::engine::weight::Weight;
use crate::json::{parse_json, Json};
use crate::snapshot::manifest::Manifest;
use crate::snapshot::reader::Snapshot;
use crate::text::{owned, same};
use vstd::prelude::*;
#[allow(unused_imports)]
use crate::bytes::u32s_at;
#[allow(unused_imports)]
use crate::engine::eligibility::all_hold;
#[allow(unused_imports)]
use crate::engine::fx_map::{entry, law_pair_key, no_entries, pair_key};
#[allow(unused_imports)]
use crate::json::{array_view, lemma_array_view, member, parsed_json, JsonV};
#[allow(unused_imports)]
use crate::snapshot::reader::blob_piece;

verus! {

/// The place of each requirement id among the first `n` tags, four words each. Of two tags with
/// one id the later counts.
pub open spec fn tag_index(words: Seq<u32>, n: nat) -> Map<u64, usize>
    decreases n,
{
    if n == 0 {
        no_entries()
    } else {
        tag_index(words, (n - 1) as nat).insert(words[4 * (n - 1)] as u64, (n - 1) as usize)
    }
}

/// The requirement tags of a snapshot.
pub open spec fn tag_words(s: Snapshot) -> Seq<u32> {
    u32s_at(s.bytes(), s.man().off_req_tags as int, s.man().counts.req_tags as nat)
}

/// The place of each requirement id among the tags of a snapshot.
pub open spec fn tags_of(s: Snapshot) -> Map<u64, usize> {
    tag_index(tag_words(s), tag_words(s).len() / 4)
}

/// The place of each requirement id among the tags of the snapshot; nothing without one.
pub fn build_req_tag_index(snapshot: Option<&Snapshot>) -> (r: FxIndex)
    requires
        snapshot is Some ==> snapshot->0.wf(),
    ensures
        r@ == match snapshot {
            Some(s) => tags_of(*s),
            None => no_entries(),
        },
{
    let mut map: FxIndex = FxIndex::new();
    if let Some(s) = snapshot {
        let words: &[u32] = s.req_tags();
        let len: usize = words.len();
        let n: usize = len / 4;
        let mut k: usize = 0;
        while k < n
            invariant
                k <= n,
                n == len / 4,
                len == words@.len(),
                map@ == tag_index(words@, k as nat),
            decreases n - k,
        {
            map.insert(words[4 * k] as u64, k);
            k += 1;
        }
    }
    map
}

/// The tag of one entry of a requirement list: that of the id, or one that never holds where the
/// id is unknown. What is no number is passed over.
pub open spec fn tag_for(v: JsonV, ids: Map<u64, usize>) -> Option<usize> {
    match v {
        JsonV::Num(n) => if 0 <= n <= u64::MAX {
            match entry(ids, (n as u64 as u32) as u64) {
                Some(i) => Some(i),
                None => Some(usize::MAX),
            }
        } else {
            None
        },
        _ => None,
    }
}

/// The tags of a list of requirements.
pub open spec fn tags_in(a: Seq<JsonV>, ids: Map<u64, usize>) -> Seq<usize>
    decreases a.len(),
{
    if a.len() == 0 {
        Seq::empty()
    } else {
        match tag_for(a.last(), ids) {
            Some(i) => tags_in(a.drop_last(), ids).push(i),
            None => tags_in(a.drop_last(), ids),
        }
    }
}

/// The list under a key; empty where there is none.
pub open spec fn list_at(v: JsonV, key: Seq<char>) -> Seq<JsonV> {
    match member(v, key) {
        Some(JsonV::Arr(a)) => a,
        _ => Seq::empty(),
    }
}

/// The requirement tags that a document names.
pub open spec fn doc_reqs(doc: JsonV, ids: Map<u64, usize>) -> Seq<usize> {
    tags_in(list_at(doc, "requirements"@), ids)
}

/// The requirement tags that a document names. An unknown id gives a tag that never holds.
pub fn decode_reqs(val: &Json, ids: &FxIndex) -> (r: Vec<usize>)
    ensures
        r@ == doc_reqs(val@, ids@),
{
    let mut reqs: Vec<usize> = Vec::new();
    if let Some(list) = val.get("requirements") {
        if let Some(arr) = list.as_array() {
            proof {
                lemma_array_view(arr@);
            }
            let ghost a = array_view(arr@);
            let mut i: usize = 0;
            while i < arr.len()
                invariant
                    i <= arr@.len(),
                    a == array_view(arr@),
                    a.len() == arr@.len(),
                    forall|k: int| 0 <= k < arr@.len() ==> #[trigger] a[k] == arr@[k]@,
                    reqs@ == tags_in(a.take(i as int), ids@),
                decreases arr@.len() - i,
            {
                assert(a.take(i + 1).drop_last() =~= a.take(i as int));
                assert(a.take(i + 1).last() == arr@[i as int]@);
                if let Some(rid) = arr[i].as_u64() {
                    match ids.get(rid as u32 as u64) {
                        Some(t) => {
                            reqs.push(t);
                        },
                        None => {
                            reqs.push(usize::MAX);
                        },
                    }
                }
                i += 1;
            }
            assert(a.take(i as int) =~= a);
        }
    }
    reqs
}

/// The number of a kind of edge; 0 for a kind that is not known.
pub open spec fn kind_number(kind: Seq<char>) -> u32 {
    if kind == "door"@ {
        1
    } else if kind == "lodestone"@ {
        2
    } else if kind == "npc"@ {
        3
    } else if kind == "object"@ {
        4
    } else if kind == "item"@ {
        5
    } else if kind == "ifslot"@ {
        6
    } else if kind == "poa_item"@ {
        7
    } else if kind == "use_on"@ {
        8
    } else {
        0
    }
}

pub fn kind_code(kind: &str) -> (r: u32)
    ensures
        r == kind_number(kind@),
{
    if same(kind, "door") {
        1
    } else if same(kind, "lodestone") {
        2
    } else if same(kind, "npc") {
        3
    } else if same(kind, "object") {
        4
    } else if same(kind, "item") {
        5
    } else if same(kind, "ifslot") {
        6
    } else if same(kind, "poa_item") {
        7
    } else if same(kind, "use_on") {
        8
    } else {
        0
    }
}

/// A teleport that can be used from anywhere.
#[derive(Debug)]
pub struct GlobalTeleport {
    pub dst: u32,
    pub cost: Weight,
    pub reqs: Vec<usize>,
    pub kind_first: u32,
    /// The teleport's own entry in the metadata.
    pub meta: Json,
}

/// What a teleport holds.
pub struct GlobalV {
    pub dst: u32,
    pub cost: Weight,
    pub reqs: Seq<usize>,
    pub kind_first: u32,
    pub meta: JsonV,
}

impl View for GlobalTeleport {
    type V = GlobalV;

    open spec fn view(&self) -> GlobalV {
        GlobalV { dst: self.dst, cost: self.cost, reqs: self.reqs@, kind_first: self.kind_first, meta: self.meta@ }
    }
}

/// The unsigned number under a key; 0 where there is none.
pub open spec fn unsigned_at(v: JsonV, key: Seq<char>) -> u64 {
    match member(v, key) {
        Some(JsonV::Num(n)) => if 0 <= n <= u64::MAX { n as u64 } else { 0 },
        _ => 0,
    }
}

/// The weight nearest to the number of milliseconds under a key; nothing where there is none.
pub open spec fn weight_at(v: JsonV, key: Seq<char>) -> Weight {
    match member(v, key) {
        Some(JsonV::Num(n)) => Millis::whole(n).narrowed(),
        Some(JsonV::Float(bits)) => Millis { bits }.narrowed(),
        _ => Weight { bits: 0 },
    }
}

fn read_weight(v: &Json, key: &str) -> (r: Weight)
    ensures
        r == weight_at(v@, key@),
{
    match v.get(key) {
        Some(Json::Int(n)) => Millis::from_signed(*n).to_weight(),
        Some(Json::UInt(n)) => Millis::from_unsigned(*n).to_weight(),
        Some(Json::Float(bits)) => Millis { bits: *bits }.to_weight(),
        _ => Weight { bits: 0 },
    }
}

/// The number under a key; 0 where there is none.
pub open spec fn signed_at(v: JsonV, key: Seq<char>) -> i64 {
    match member(v, key) {
        Some(JsonV::Num(n)) => if i64::MIN <= n <= i64::MAX { n as i64 } else { 0 },
        _ => 0,
    }
}

/// The text under a key.
pub open spec fn text_at(v: JsonV, key: Seq<char>) -> Option<Seq<char>> {
    match member(v, key) {
        Some(JsonV::Str(s)) => Some(s),
        _ => None,
    }
}

pub fn read_unsigned(v: &Json, key: &str) -> (r: u64)
    ensures
        r == unsigned_at(v@, key@),
{
    match v.get(key) {
        Some(x) => match x.as_u64() {
            Some(n) => n,
            None => 0,
        },
        None => 0,
    }
}

pub fn read_signed(v: &Json, key: &str) -> (r: i64)
    ensures
        r == signed_at(v@, key@),
{
    match v.get(key) {
        Some(x) => match x.as_i64() {
            Some(n) => n,
            None => 0,
        },
        None => 0,
    }
}

pub fn read_text(v: &Json, key: &str) -> (r: Option<String>)
    ensures
        match text_at(v@, key@) {
            Some(s) => r is Some && r->0@ == s,
            None => r is None,
        },
{
    match v.get(key) {
        Some(x) => match x.as_str() {
            Some(s) => Some(owned(s)),
            None => None,
        },
        None => None,
    }
}

/// The kind of the first step of a teleport.
pub open spec fn first_kind(g: JsonV) -> u32 {
    let steps = list_at(g, "steps"@);
    if steps.len() > 0 {
        match text_at(steps[0], "kind"@) {
            Some(s) => kind_number(s),
            None => 0,
        }
    } else {
        0
    }
}

fn read_first_kind(g: &Json) -> (r: u32)
    ensures
        r == first_kind(g@),
{
    if let Some(steps) = g.get("steps") {
        if let Some(arr) = steps.as_array() {
            proof {
                lemma_array_view(arr@);
            }
            if arr.len() > 0 {
                if let Some(kind) = arr[0].get("kind") {
                    if let Some(s) = kind.as_str() {
                        return kind_code(s);
                    }
                }
            }
        }
    }
    0
}

/// The teleport that an entry of the metadata describes.
pub open spec fn global_of(g: JsonV, ids: Map<u64, usize>) -> GlobalV {
    GlobalV {
        dst: unsigned_at(g, "dst"@) as u32,
        cost: weight_at(g, "cost_ms"@),
        reqs: doc_reqs(g, ids),
        kind_first: first_kind(g),
        meta: g,
    }
}

/// The teleports of a list of entries, without those that lead nowhere.
pub open spec fn globals_in(a: Seq<JsonV>, ids: Map<u64, usize>) -> Seq<GlobalV>
    decreases a.len(),
{
    if a.len() == 0 {
        Seq::empty()
    } else {
        let g = global_of(a.last(), ids);
        if g.dst == 0 { globals_in(a.drop_last(), ids) } else { globals_in(a.drop_last(), ids).push(g) }
    }
}

/// What a list of teleports holds.
pub open spec fn global_views(s: Seq<GlobalTeleport>) -> Seq<GlobalV> {
    Seq::new(s.len(), |i: int| s[i]@)
}

fn read_globals(arr: &Vec<Json>, ids: &FxIndex, out: &mut Vec<GlobalTeleport>)
    ensures
        global_views(final(out)@) == global_views(old(out)@) + globals_in(array_view(arr@), ids@),
{
    proof {
        lemma_array_view(arr@);
    }
    let ghost a = array_view(arr@);
    let ghost before = global_views(out@);
    let mut i: usize = 0;
    assert(global_views(out@) =~= before + globals_in(a.take(0), ids@));
    while i < arr.len()
        invariant
            i <= arr@.len(),
            a == array_view(arr@),
            a.len() == arr@.len(),
            forall|k: int| 0 <= k < arr@.len() ==> #[trigger] a[k] == arr@[k]@,
            global_views(out@) == before + globals_in(a.take(i as int), ids@),
        decreases arr@.len() - i,
    {
        assert(a.take(i + 1).drop_last() =~= a.take(i as int));
        assert(a.take(i + 1).last() == arr@[i as int]@);
        let g: &Json = &arr[i];
        let dst: u32 = read_unsigned(g, "dst") as u32;
        if dst != 0 {
            let ghost was = out@;
            let t: GlobalTeleport = GlobalTeleport {
                dst,
                cost: read_weight(g, "cost_ms"),
                reqs: decode_reqs(g, ids),
                kind_first: read_first_kind(g),
                meta: g.copy(),
            };
            out.push(t);
            assert(global_views(out@) =~= global_views(was).push(t@));
        }
        assert(global_views(out@) =~= before + globals_in(a.take(i + 1), ids@));
        i += 1;
    }
    assert(a.take(i as int) =~= a);
}

/// The document of macro edge `i`, where it has one that can be read.
pub open spec fn meta_doc(s: Snapshot, i: int) -> Option<JsonV> {
    match blob_piece(
        s.bytes().subrange(s.man().off_macro_meta_blob as int, s.man().off_req_tags as int),
        s.macro_words(s.man().off_macro_meta_offs),
        s.macro_words(s.man().off_macro_meta_lens),
        i,
    ) {
        Some(b) => parsed_json(b),
        None => None,
    }
}

/// Whether the metadata of the macro edges, where there are any, has its place in the image.
pub open spec fn macro_blob_placed(s: Snapshot) -> bool {
    s.man().counts.macro_edges > 0 ==> s.man().off_macro_meta_blob <= s.man().off_req_tags
}

/// Whether the metadata of the macro edges has its place in the image.
pub fn is_macro_blob_placed(s: &Snapshot) -> (r: bool)
    ensures
        r == macro_blob_placed(*s),
{
    let m: &Manifest = s.manifest();
    m.counts.macro_edges == 0 || m.off_macro_meta_blob <= m.off_req_tags
}

fn read_meta(s: &Snapshot, i: usize) -> (r: Option<Json>)
    requires
        s.wf(),
        macro_blob_placed(*s),
    ensures
        match meta_doc(*s, i as int) {
            Some(v) => r is Some && r->0@ == v,
            None => r is None,
        },
{
    match s.macro_meta_at(i) {
        Some(b) => parse_json(b),
        None => None,
    }
}

/// Whether macro edge `i` is no edge but carries the global teleports.
pub open spec fn is_carrier(s: Snapshot, i: int) -> bool {
    s.macro_words(s.man().off_macro_src)[i] == 0 && s.macro_words(s.man().off_macro_dst)[i] == 0
}

/// The requirement tags of macro edge `i` in a search.
pub open spec fn edge_reqs_of(s: Snapshot, i: int) -> Seq<usize> {
    match meta_doc(s, i) {
        Some(doc) => if is_carrier(s, i) { Seq::empty() } else { doc_reqs(doc, tags_of(s)) },
        None => Seq::empty(),
    }
}

/// The global teleports that the first `k` macro edges carry.
pub open spec fn carried(s: Snapshot, k: int) -> Seq<GlobalV>
    decreases k,
{
    if k <= 0 {
        Seq::empty()
    } else {
        let rest = carried(s, k - 1);
        match meta_doc(s, k - 1) {
            Some(doc) => if is_carrier(s, k - 1) {
                rest + globals_in(list_at(doc, "global"@), tags_of(s))
            } else {
                rest
            },
            None => rest,
        }
    }
}

/// What is kept of an edge's metadata.
#[derive(Debug)]
pub enum MacroMeta {
    /// There is none that can be read.
    Empty,
    Parsed(Json),
    /// The edge carries the global teleports, each of which keeps its own part.
    Carrier,
}

/// An edge's requirement tags and metadata.
#[derive(Debug)]
pub struct MacroEdgeInfo {
    pub reqs: Vec<usize>,
    pub meta: MacroMeta,
}

impl MacroEdgeInfo {
    /// Whether this is what a snapshot says of macro edge `i`.
    pub open spec fn tells(self, s: Snapshot, i: int) -> bool {
        match meta_doc(s, i) {
            Some(doc) => {
                &&& self.reqs@ == doc_reqs(doc, tags_of(s))
                &&& if is_carrier(s, i) {
                    self.meta is Carrier
                } else {
                    self.meta is Parsed && self.meta->Parsed_0@ == doc
                }
            },
            None => self.reqs@.len() == 0 && self.meta is Empty,
        }
    }
}

/// The macro edges from `a` to `b` among the first `k`, in order.
pub open spec fn edges_between(src: Seq<u32>, dst: Seq<u32>, a: u32, b: u32, k: int) -> Seq<u32>
    decreases k,
{
    if k <= 0 {
        Seq::empty()
    } else if src[k - 1] == a && dst[k - 1] == b {
        edges_between(src, dst, a, b, k - 1).push((k - 1) as u32)
    } else {
        edges_between(src, dst, a, b, k - 1)
    }
}

/// The macro edges by their ends, and what is known of each.
pub struct MacroLookup {
    by_pair: FxIndex,
    groups: Vec<Vec<u32>>,
    edges: Vec<MacroEdgeInfo>,
}

impl MacroLookup {
    pub closed spec fn wf(self) -> bool {
        &&& forall|k: u64| #[trigger] self.by_pair@.contains_key(k) ==> self.by_pair@[k] < self.groups@.len() && self.groups@[
            self.by_pair@[k] as int]@.len() > 0
        &&& forall|k: u64, l: u64|
            #![trigger self.by_pair@[k], self.by_pair@[l]]
            self.by_pair@.contains_key(k) && self.by_pair@.contains_key(l) && k != l ==> self.by_pair@[k]
                != self.by_pair@[l]
    }

    /// The edges from `a` to `b`.
    pub closed spec fn between(self, a: u32, b: u32) -> Seq<u32> {
        match entry(self.by_pair@, pair_key(a, b)) {
            Some(g) => self.groups@[g as int]@,
            None => Seq::empty(),
        }
    }

    /// What is known of each edge.
    pub closed spec fn infos(self) -> Seq<MacroEdgeInfo> {
        self.edges@
    }

    /// The requirement tags of edge `i`; none for one that is not there.
    pub open spec fn reqs(self, i: int) -> Seq<usize> {
        if 0 <= i < self.infos().len() { self.infos()[i].reqs@ } else { Seq::empty() }
    }

    /// Whether this tells of the macro edges of a snapshot.
    pub open spec fn describes(self, s: Snapshot) -> bool {
        let (src, dst) = (s.macro_words(s.man().off_macro_src), s.macro_words(s.man().off_macro_dst));
        &&& self.wf()
        &&& self.infos().len() == src.len()
        &&& forall|i: int| 0 <= i < src.len() ==> (#[trigger] self.infos()[i]).tells(s, i)
        &&& forall|a: u32, b: u32| #[trigger] self.between(a, b) == edges_between(src, dst, a, b, src.len() as int)
    }

    /// A lookup without edges.
    pub fn new() -> (r: MacroLookup)
        ensures
            r.wf(),
            r.infos().len() == 0,
            forall|a: u32, b: u32| (#[trigger] r.between(a, b)).len() == 0,
    {
        MacroLookup { by_pair: FxIndex::new(), groups: Vec::new(), edges: Vec::new() }
    }

    /// Adds the next edge, from `a` to `b`.
    fn add(&mut self, a: u32, b: u32, info: MacroEdgeInfo)
        requires
            old(self).wf(),
        ensures
            final(self).wf(),
            final(self).infos() == old(self).infos().push(info),
            forall|x: u32, y: u32| #[trigger]
                final(self).between(x, y) == if x == a && y == b {
                    old(self).between(x, y).push(old(self).infos().len() as u32)
                } else {
                    old(self).between(x, y)
                },
    {
        let ghost before = *self;
        let idx: u32 = self.edges.len() as u32;
        self.edges.push(info);
        let key: u64 = pair_number(a, b);
        match self.by_pair.get(key) {
            Some(g) => {
                let mut row: Vec<u32> = Vec::new();
                std::mem::swap(&mut row, &mut self.groups[g]);
                row.push(idx);
                self.groups.set(g, row);
                assert(self.groups@ =~= before.groups@.update(g as int, self.groups@[g as int]));
                assert(self.groups@[g as int]@ == before.groups@[g as int]@.push(idx));
                assert(self.wf());
                assert forall|x: u32, y: u32| #[trigger]
                    self.between(x, y) == if x == a && y == b {
                        before.between(x, y).push(idx)
                    } else {
                        before.between(x, y)
                    } by {
                    law_pair_key(x, y, a, b);
                    let k = pair_key(x, y);
                    if self.by_pair@.contains_key(k) && k != key {
                        assert(self.by_pair@[k] != self.by_pair@[key]);
                    }
                }
            },
            None => {
                let mut row: Vec<u32> = Vec::new();
                row.push(idx);
                self.by_pair.insert(key, self.groups.len());
                self.groups.push(row);
                assert(row@ =~= Seq::empty().push(idx));
                assert(self.wf());
                assert forall|x: u32, y: u32| #[trigger]
                    self.between(x, y) == if x == a && y == b {
                        before.between(x, y).push(idx)
                    } else {
                        before.between(x, y)
                    } by {
                    law_pair_key(x, y, a, b);
                    let k = pair_key(x, y);
                    if before.by_pair@.contains_key(k) {
                        assert(before.by_pair@[k] < before.groups@.len());
                    }
                }
            },
        }
    }

    /// The macro edges from `src` to `dst`, in order.
    pub fn get(&self, src: u32, dst: u32) -> (r: Option<&Vec<u32>>)
        requires
            self.wf(),
        ensures
            match r {
                Some(v) => v@ == self.between(src, dst) && v@.len() > 0,
                None => self.between(src, dst).len() == 0,
            },
    {
        match self.by_pair.get(pair_number(src, dst)) {
            Some(g) => Some(&self.groups[g]),
            None => None,
        }
    }

    /// Whether the mask satisfies the requirements of edge `idx`.
    pub fn allowed(&self, idx: usize, mask: &EligibilityMask) -> (r: bool)
        ensures
            r == all_hold(mask.satisfied@, self.reqs(idx as int)),
    {
        if idx < self.edges.len() {
            mask.satisfies_all(&self.edges[idx].reqs)
        } else {
            true
        }
    }

    /// A copy of the requirement tags of edge `idx`.
    pub fn edge_reqs(&self, idx: usize) -> (r: Vec<usize>)
        ensures
            r@ == self.reqs(idx as int),
    {
        if idx < self.edges.len() {
            copy_tags(&self.edges[idx].reqs)
        } else {
            Vec::new()
        }
    }

    /// A copy of the metadata of edge `idx`; an empty object where there is none.
    pub fn meta_value(&self, snap: &Snapshot, idx: usize) -> (r: Json)
        requires
            snap.wf(),
            macro_blob_placed(*snap),
            self.describes(*snap),
        ensures
            r@ == match meta_doc(*snap, idx as int) {
                Some(doc) => doc,
                None => JsonV::Obj(Map::empty()),
            },
    {
        if idx < self.edges.len() {
            assert(self.infos()[idx as int].tells(*snap, idx as int));
            match &self.edges[idx].meta {
                MacroMeta::Parsed(v) => {
                    return v.copy();
                },
                MacroMeta::Empty => {
                    return Json::object();
                },
                MacroMeta::Carrier => {},
            }
        }
        match read_meta(snap, idx) {
            Some(v) => v,
            None => Json::object(),
        }
    }
}

/// A copy of the tags.
pub fn copy_tags(v: &Vec<usize>) -> (r: Vec<usize>)
    ensures
        r@ == v@,
{
    let mut r: Vec<usize> = Vec::new();
    let mut i: usize = 0;
    while i < v.len()
        invariant
            i <= v@.len(),
            r@ == v@.take(i as int),
        decreases v@.len() - i,
    {
        r.push(v[i]);
        assert(r@ =~= v@.take(i + 1));
        i += 1;
    }
    assert(v@.take(i as int) =~= v@);
    r
}

/// Reads the macro edges of a snapshot: the requirement tags of each edge, the global teleports
/// and the lookup.
pub fn build_neighbor_provider(snapshot: &Snapshot) -> (r: (
    Vec<Vec<usize>>,
    Vec<GlobalTeleport>,
    MacroLookup,
))
    requires
        snapshot.wf(),
        macro_blob_placed(*snapshot),
    ensures
        r.0@.len() == snapshot.man().counts.macro_edges,
        forall|i: int| 0 <= i < r.0@.len() ==> (#[trigger] r.0@[i])@ == edge_reqs_of(*snapshot, i),
        global_views(r.1@) == carried(*snapshot, snapshot.man().counts.macro_edges as int),
        r.2.describes(*snapshot),
{
    let ids: FxIndex = build_req_tag_index(Some(snapshot));
    let src: &[u32] = snapshot.macro_src();
    let dst: &[u32] = snapshot.macro_dst();
    let len: usize = src.len();
    let mut macro_reqs: Vec<Vec<usize>> = Vec::new();
    let mut globals: Vec<GlobalTeleport> = Vec::new();
    let mut lookup: MacroLookup = MacroLookup::new();
    let mut idx: usize = 0;
    assert(global_views(globals@) =~= carried(*snapshot, 0));
    while idx < len
        invariant
            idx <= len,
            len == src@.len(),
            len == dst@.len(),
            src@ == snapshot.macro_words(snapshot.man().off_macro_src),
            dst@ == snapshot.macro_words(snapshot.man().off_macro_dst),
            ids@ == tags_of(*snapshot),
            snapshot.wf(),
            macro_blob_placed(*snapshot),
            macro_reqs@.len() == idx,
            forall|i: int| 0 <= i < idx ==> (#[trigger] macro_reqs@[i])@ == edge_reqs_of(*snapshot, i),
            global_views(globals@) == carried(*snapshot, idx as int),
            lookup.wf(),
            lookup.infos().len() == idx,
            forall|i: int| 0 <= i < idx ==> (#[trigger] lookup.infos()[i]).tells(*snapshot, i),
            forall|a: u32, b: u32| #[trigger] lookup.between(a, b) == edges_between(src@, dst@, a, b, idx as int),
        decreases len - idx,
    {
        let carrier: bool = src[idx] == 0 && dst[idx] == 0;
        assert(carrier == is_carrier(*snapshot, idx as int));
        let ghost before = lookup;
        let mut reqs: Vec<usize> = Vec::new();
        let info: MacroEdgeInfo = match read_meta(snapshot, idx) {
            Some(val) => {
                let own: Vec<usize> = decode_reqs(&val, &ids);
                if carrier {
                    let ghost was = global_views(globals@);
                    assert(was + Seq::<GlobalV>::empty() =~= was);
                    if let Some(list) = val.get("global") {
                        if let Some(arr) = list.as_array() {
                            read_globals(arr, &ids, &mut globals);
                        }
                    }
                    MacroEdgeInfo { reqs: own, meta: MacroMeta::Carrier }
                } else {
                    reqs = copy_tags(&own);
                    MacroEdgeInfo { reqs: own, meta: MacroMeta::Parsed(val) }
                }
            },
            None => MacroEdgeInfo { reqs: Vec::new(), meta: MacroMeta::Empty },
        };
        assert(info.tells(*snapshot, idx as int));
        assert(reqs@ =~= edge_reqs_of(*snapshot, idx as int));
        macro_reqs.push(reqs);
        lookup.add(src[idx], dst[idx], info);
        assert forall|i: int| 0 <= i < idx + 1 implies (#[trigger] lookup.infos()[i]).tells(*snapshot, i) by {
            if i < idx {
                assert(lookup.infos()[i] == before.infos()[i]);
            }
        }
        assert forall|a: u32, b: u32| #[trigger] lookup.between(a, b) == edges_between(src@, dst@, a, b, idx + 1) by {
            assert(before.between(a, b) == edges_between(src@, dst@, a, b, idx as int));
        }
        idx += 1;
    }
    (macro_reqs, globals, lookup)
}

/// A fairy ring.
#[derive(Debug)]
pub struct FairyRing {
    pub node: u32,
    pub object_id: u64,
    pub x: i32,
    pub y: i32,
    pub plane: i32,
    pub cost_ms: Weight,
    pub code: String,
    pub action: Option<String>,
    pub req_tag_idxs: Vec<usize>,
}

/// What a ring holds.
pub struct RingV {
    pub node: u32,
    pub object_id: u64,
    pub x: i32,
    pub y: i32,
    pub plane: i32,
    pub cost_ms: Weight,
    pub code: Seq<char>,
    pub action: Option<Seq<char>>,
    pub reqs: Seq<usize>,
}

impl View for FairyRing {
    type V = RingV;

    open spec fn view(&self) -> RingV {
        RingV {
            node: self.node,
            object_id: self.object_id,
            x: self.x,
            y: self.y,
            plane: self.plane,
            cost_ms: self.cost_ms,
            code: self.code@,
            action: match self.action {
                Some(a) => Some(a@),
                None => None,
            },
            reqs: self.req_tag_idxs@,
        }
    }
}

/// The document of fairy ring `i`, where it has one that can be read.
pub open spec fn ring_doc(s: Snapshot, i: int) -> Option<JsonV> {
    match blob_piece(
        s.fairy_blob(),
        s.fairy_words(s.man().off_fairy_meta_offs),
        s.fairy_words(s.man().off_fairy_meta_lens),
        i,
    ) {
        Some(b) => parsed_json(b),
        None => None,
    }
}

/// Fairy ring `i` of a snapshot. What its document does not say is 0, empty or absent.
pub open spec fn ring_of(s: Snapshot, i: int) -> RingV {
    let node = s.fairy_words(s.man().off_fairy_nodes)[i];
    let cost_ms = Weight { bits: s.fairy_words(s.man().off_fairy_cost_ms)[i] };
    match ring_doc(s, i) {
        Some(doc) => RingV {
            node,
            object_id: unsigned_at(doc, "object_id"@),
            x: signed_at(doc, "x"@) as i32,
            y: signed_at(doc, "y"@) as i32,
            plane: signed_at(doc, "plane"@) as i32,
            cost_ms,
            code: match text_at(doc, "code"@) {
                Some(c) => c,
                None => Seq::empty(),
            },
            action: text_at(doc, "action"@),
            reqs: doc_reqs(doc, tags_of(s)),
        },
        None => RingV {
            node,
            object_id: 0,
            x: 0,
            y: 0,
            plane: 0,
            cost_ms,
            code: Seq::empty(),
            action: None,
            reqs: Seq::empty(),
        },
    }
}

/// The ring at each node, among the first `k`. Of two rings at one node the later counts.
pub open spec fn ring_index(nodes: Seq<u32>, k: nat) -> Map<u64, usize>
    decreases k,
{
    if k == 0 {
        no_entries()
    } else {
        ring_index(nodes, (k - 1) as nat).insert(nodes[k - 1] as u64, (k - 1) as usize)
    }
}

fn empty_text() -> (r: String)
    ensures
        r@ == Seq::<char>::empty(),
{
    proof {
        reveal_strlit("");
    }
    let r: String = owned("");
    assert(r@ =~= Seq::<char>::empty());
    r
}

fn read_ring(snapshot: &Snapshot, ids: &FxIndex, idx: usize, node: u32, cost: u32) -> (r: FairyRing)
    requires
        snapshot.wf(),
        ids@ == tags_of(*snapshot),
        idx < snapshot.man().counts.fairy_rings,
        node == snapshot.fairy_words(snapshot.man().off_fairy_nodes)[idx as int],
        cost == snapshot.fairy_words(snapshot.man().off_fairy_cost_ms)[idx as int],
    ensures
        r@ == ring_of(*snapshot, idx as int),
{
    let cost_ms: Weight = Weight { bits: cost };
    let doc: Option<Json> = match snapshot.fairy_meta_at(idx) {
        Some(b) => parse_json(b),
        None => None,
    };
    match doc {
        Some(val) => {
            let code: String = match read_text(&val, "code") {
                Some(c) => c,
                None => empty_text(),
            };
            FairyRing {
                node,
                object_id: read_unsigned(&val, "object_id"),
                x: read_signed(&val, "x") as i32,
                y: read_signed(&val, "y") as i32,
                plane: read_signed(&val, "plane") as i32,
                cost_ms,
                code,
                action: read_text(&val, "action"),
                req_tag_idxs: decode_reqs(&val, ids),
            }
        },
        None => FairyRing {
            node,
            object_id: 0,
            x: 0,
            y: 0,
            plane: 0,
            cost_ms,
            code: empty_text(),
            action: None,
            req_tag_idxs: Vec::new(),
        },
    }
}

/// Reads the fairy rings of a snapshot, and at which node each stands.
pub fn build_fairy_rings(snapshot: &Snapshot) -> (r: (Vec<FairyRing>, FxIndex))
    requires
        snapshot.wf(),
    ensures
        r.0@.len() == snapshot.man().counts.fairy_rings,
        forall|i: int| 0 <= i < r.0@.len() ==> (#[trigger] r.0@[i])@ == ring_of(*snapshot, i),
        r.1@ == ring_index(
            snapshot.fairy_words(snapshot.man().off_fairy_nodes),
            snapshot.man().counts.fairy_rings as nat,
        ),
{
    let ids: FxIndex = build_req_tag_index(Some(snapshot));
    let nodes: &[u32] = snapshot.fairy_nodes();
    let costs: &[u32] = snapshot.fairy_cost_ms();
    let count: usize = nodes.len();
    let mut rings: Vec<FairyRing> = Vec::new();
    let mut at_node: FxIndex = FxIndex::new();
    let mut idx: usize = 0;
    while idx < count
        invariant
            idx <= count,
            count == nodes@.len(),
            count == costs@.len(),
            count == snapshot.man().counts.fairy_rings,
            nodes@ == snapshot.fairy_words(snapshot.man().off_fairy_nodes),
            costs@ == snapshot.fairy_words(snapshot.man().off_fairy_cost_ms),
            snapshot.wf(),
            ids@ == tags_of(*snapshot),
            rings@.len() == idx,
            forall|i: int| 0 <= i < idx ==> (#[trigger] rings@[i])@ == ring_of(*snapshot, i),
            at_node@ == ring_index(nodes@, idx as nat),
        decreases count - idx,
    {
        let ring: FairyRing = read_ring(snapshot, &ids, idx, nodes[idx], costs[idx]);
        at_node.insert(nodes[idx] as u64, idx);
        rings.push(ring);
        idx += 1;
    }
    (rings, at_node)
}

proof fn lemma_tags_in(a: Seq<JsonV>, ids: Map<u64, usize>)
    ensures
        forall|t: usize| #[trigger] tags_in(a, ids).contains(t) <==> exists|i: int|
            0 <= i < a.len() && tag_for(#[trigger] a[i], ids) == Some(t),
    decreases a.len(),
{
    if a.len() > 0 {
        let short = a.drop_last();
        lemma_tags_in(short, ids);
        let (s, all) = (tags_in(short, ids), tags_in(a, ids));
        assert forall|t: usize| #[trigger] all.contains(t) <==> exists|i: int|
            0 <= i < a.len() && tag_for(#[trigger] a[i], ids) == Some(t) by {
            if all.contains(t) {
                let j = choose|j: int| 0 <= j < all.len() && all[j] == t;
                if j < s.len() {
                    assert(s[j] == t);
                    assert(s.contains(t));
                    let i = choose|i: int| 0 <= i < short.len() && tag_for(#[trigger] short[i], ids) == Some(t);
                    assert(tag_for(a[i], ids) == Some(t));
                } else {
                    assert(tag_for(a[a.len() - 1], ids) == Some(t));
                }
            }
            if exists|i: int| 0 <= i < a.len() && tag_for(#[trigger] a[i], ids) == Some(t) {
                let i = choose|i: int| 0 <= i < a.len() && tag_for(#[trigger] a[i], ids) == Some(t);
                if i < short.len() {
                    assert(tag_for(short[i], ids) == Some(t));
                    assert(s.contains(t));
                    let j = choose|j: int| 0 <= j < s.len() && s[j] == t;
                    assert(all[j] == t);
                } else {
                    assert(all[all.len() - 1] == t);
                }
            }
        }
    }
}

/// The tags of a document are those of the ids that its list of requirements names: a known id has its
/// tag among them, and with an unknown one no mask satisfies them.
pub proof fn law_requirements_are_read(doc: JsonV, ids: Map<u64, usize>, list: Seq<JsonV>, i: int, n: u64, mask: Seq<bool>)
    requires
        member(doc, "requirements"@) == Some(JsonV::Arr(list)),
        0 <= i < list.len(),
        list[i] == JsonV::Num(n as int),
        mask.len() <= usize::MAX,
    ensures
        entry(ids, (n as u32) as u64) is Some ==> doc_reqs(doc, ids).contains(entry(ids, (n as u32) as u64)->0),
        entry(ids, (n as u32) as u64) is None ==> !all_hold(mask, doc_reqs(doc, ids)),
{
    lemma_tags_in(list, ids);
    assert(tag_for(list[i], ids) is Some);
    if entry(ids, (n as u32) as u64) is None {
        let reqs = doc_reqs(doc, ids);
        assert(reqs.contains(usize::MAX));
        let k = choose|k: int| 0 <= k < reqs.len() && reqs[k] == usize::MAX;
        assert(!crate::engine::eligibility::holds(mask, reqs[k]));
    }
}

/// A document names no other tags: each is that of a number in its list of requirements, and without
/// such a list there are none.
pub proof fn law_only_named_requirements(doc: JsonV, ids: Map<u64, usize>, t: usize)
    requires
        doc_reqs(doc, ids).contains(t),
    ensures
        exists|list: Seq<JsonV>, i: int|
            member(doc, "requirements"@) == Some(JsonV::Arr(list)) && 0 <= i < list.len() && (#[trigger] list[i]) is Num && 0
                <= list[i]->Num_0 <= u64::MAX && match entry(ids, ((list[i]->Num_0 as u64) as u32) as u64) {
                Some(k) => t == k,
                None => t == usize::MAX,
            },
{
    let list = list_at(doc, "requirements"@);
    lemma_tags_in(list, ids);
    let i = choose|i: int| 0 <= i < list.len() && tag_for(#[trigger] list[i], ids) == Some(t);
    assert(list[i] is Num);
}

/// The place of a requirement id is that of the last tag with the id.
pub proof fn law_tags_are_found_by_id(words: Seq<u32>, n: nat, id: u32)
    requires
        n <= usize::MAX,
    ensures
        match entry(tag_index(words, n), id as u64) {
            Some(k) => k < n && words[4 * k] == id && forall|j: int| k < j < n ==> #[trigger] words[4 * j] != id,
            None => forall|j: int| 0 <= j < n ==> #[trigger] words[4 * j] != id,
        },
    decreases n,
{
    if n > 0 {
        law_tags_are_found_by_id(words, (n - 1) as nat, id);
    }
}

proof fn lemma_globals_in(a: Seq<JsonV>, ids: Map<u64, usize>)
    ensures
        forall|i: int|
            0 <= i < a.len() && global_of(#[trigger] a[i], ids).dst != 0 ==> globals_in(a, ids).contains(global_of(a[i], ids)),
        forall|j: int|
            0 <= j < globals_in(a, ids).len() ==> (#[trigger] globals_in(a, ids)[j]).dst != 0 && exists|i: int|
                0 <= i < a.len() && global_of(#[trigger] a[i], ids) == globals_in(a, ids)[j],
    decreases a.len(),
{
    if a.len() > 0 {
        let short = a.drop_last();
        lemma_globals_in(short, ids);
        let (s, all) = (globals_in(short, ids), globals_in(a, ids));
        assert forall|i: int| 0 <= i < a.len() && global_of(#[trigger] a[i], ids).dst != 0 implies all.contains(
            global_of(a[i], ids),
        ) by {
            if i < short.len() {
                assert(short[i] == a[i]);
                assert(s.contains(global_of(short[i], ids)));
                let j = choose|j: int| 0 <= j < s.len() && s[j] == global_of(short[i], ids);
                assert(all[j] == s[j]);
            } else {
                assert(all[all.len() - 1] == global_of(a[i], ids));
            }
        }
        assert forall|j: int| 0 <= j < all.len() implies (#[trigger] all[j]).dst != 0 && exists|i: int|
            0 <= i < a.len() && global_of(#[trigger] a[i], ids) == all[j] by {
            if j < s.len() {
                assert(all[j] == s[j]);
                let i = choose|i: int| 0 <= i < short.len() && global_of(#[trigger] short[i], ids) == s[j];
                assert(global_of(a[i], ids) == all[j]);
            } else {
                assert(global_of(a[a.len() - 1], ids) == all[j]);
            }
        }
    }
}

proof fn lemma_carried(s: Snapshot, k: int)
    ensures
        forall|e: int, i: int|
            #![trigger list_at(meta_doc(s, e)->0, "global"@)[i]]
            0 <= e < k && is_carrier(s, e) && meta_doc(s, e) is Some && 0 <= i < list_at(meta_doc(s, e)->0, "global"@).len()
                && global_of(list_at(meta_doc(s, e)->0, "global"@)[i], tags_of(s)).dst != 0 ==> carried(s, k).contains(
                global_of(list_at(meta_doc(s, e)->0, "global"@)[i], tags_of(s)),
            ),
        forall|j: int|
            0 <= j < carried(s, k).len() ==> (#[trigger] carried(s, k)[j]).dst != 0 && exists|e: int, i: int|
                #![trigger list_at(meta_doc(s, e)->0, "global"@)[i]]
                0 <= e < k && is_carrier(s, e) && meta_doc(s, e) is Some && 0 <= i < list_at(
                    meta_doc(s, e)->0,
                    "global"@,
                ).len() && carried(s, k)[j] == global_of(list_at(meta_doc(s, e)->0, "global"@)[i], tags_of(s)),
    decreases k,
{
    if k > 0 {
        lemma_carried(s, k - 1);
        let (rest, all) = (carried(s, k - 1), carried(s, k));
        let own = list_at(meta_doc(s, k - 1)->0, "global"@);
        let more = globals_in(own, tags_of(s));
        let adds = meta_doc(s, k - 1) is Some && is_carrier(s, k - 1);
        lemma_globals_in(own, tags_of(s));
        assert forall|e: int, i: int|
            #![trigger list_at(meta_doc(s, e)->0, "global"@)[i]]
            0 <= e < k && is_carrier(s, e) && meta_doc(s, e) is Some && 0 <= i < list_at(meta_doc(s, e)->0, "global"@).len()
                && global_of(list_at(meta_doc(s, e)->0, "global"@)[i], tags_of(s)).dst != 0 implies all.contains(
            global_of(list_at(meta_doc(s, e)->0, "global"@)[i], tags_of(s)),
        ) by {
            let g = global_of(list_at(meta_doc(s, e)->0, "global"@)[i], tags_of(s));
            if e < k - 1 {
                let j = choose|j: int| 0 <= j < rest.len() && rest[j] == g;
                assert(all[j] == g);
            } else {
                assert(more.contains(global_of(own[i], tags_of(s))));
                let j = choose|j: int| 0 <= j < more.len() && more[j] == g;
                assert(all[rest.len() + j] == g);
            }
        }
        assert forall|j: int| 0 <= j < all.len() implies (#[trigger] all[j]).dst != 0 && exists|e: int, i: int|
            #![trigger list_at(meta_doc(s, e)->0, "global"@)[i]]
            0 <= e < k && is_carrier(s, e) && meta_doc(s, e) is Some && 0 <= i < list_at(meta_doc(s, e)->0, "global"@).len()
                && all[j] == global_of(list_at(meta_doc(s, e)->0, "global"@)[i], tags_of(s)) by {
            if j < rest.len() {
                assert(all[j] == rest[j]);
                let (e, i) = choose|e: int, i: int|
                    #![trigger list_at(meta_doc(s, e)->0, "global"@)[i]]
                    0 <= e < k - 1 && is_carrier(s, e) && meta_doc(s, e) is Some && 0 <= i < list_at(
                        meta_doc(s, e)->0,
                        "global"@,
                    ).len() && rest[j] == global_of(list_at(meta_doc(s, e)->0, "global"@)[i], tags_of(s));
                assert(all[j] == global_of(list_at(meta_doc(s, e)->0, "global"@)[i], tags_of(s)));
            } else {
                assert(adds);
                assert(all[j] == more[j - rest.len()]);
                let i = choose|i: int| 0 <= i < own.len() && global_of(#[trigger] own[i], tags_of(s)) == more[j - rest.len()];
                assert(all[j] == global_of(list_at(meta_doc(s, k - 1)->0, "global"@)[i], tags_of(s)));
            }
        }
    }
}

/// A snapshot has the global teleports that the carriers among its macro edges list, without those that
/// lead to node 0: each with its end, its cost, the tags of its requirements and its own entry.
pub proof fn law_global_teleports_are_carried(s: Snapshot, e: int, i: int)
    requires
        0 <= e < s.man().counts.macro_edges,
        s.macro_words(s.man().off_macro_src)[e] == 0 && s.macro_words(s.man().off_macro_dst)[e] == 0,
        meta_doc(s, e) is Some,
        0 <= i < list_at(meta_doc(s, e)->0, "global"@).len(),
        unsigned_at(list_at(meta_doc(s, e)->0, "global"@)[i], "dst"@) as u32 != 0,
    ensures
        exists|j: int|
            0 <= j < carried(s, s.man().counts.macro_edges as int).len() && ({
                let g = #[trigger] carried(s, s.man().counts.macro_edges as int)[j];
                let own = list_at(meta_doc(s, e)->0, "global"@)[i];
                g.meta == own && g.dst == unsigned_at(own, "dst"@) as u32 && g.cost == weight_at(own, "cost_ms"@) && g.reqs
                    == doc_reqs(own, tags_of(s)) && g.kind_first == first_kind(own)
            }),
{
    let k = s.man().counts.macro_edges as int;
    lemma_carried(s, k);
    let own = list_at(meta_doc(s, e)->0, "global"@)[i];
    let all = carried(s, k);
    assert(all.contains(global_of(own, tags_of(s))));
    let j = choose|j: int| 0 <= j < all.len() && all[j] == global_of(own, tags_of(s));
    assert(all[j].meta == own);
}

/// A snapshot has no other global teleports.
pub proof fn law_only_carried_teleports(s: Snapshot, j: int)
    requires
        0 <= j < carried(s, s.man().counts.macro_edges as int).len(),
    ensures
        carried(s, s.man().counts.macro_edges as int)[j].dst != 0,
        exists|e: int, i: int|
            #![trigger list_at(meta_doc(s, e)->0, "global"@)[i]]
            0 <= e < s.man().counts.macro_edges && s.macro_words(s.man().off_macro_src)[e] == 0 && s.macro_words(
                s.man().off_macro_dst,
            )[e] == 0 && meta_doc(s, e) is Some && 0 <= i < list_at(meta_doc(s, e)->0, "global"@).len() && carried(
                s,
                s.man().counts.macro_edges as int,
            )[j].meta == list_at(meta_doc(s, e)->0, "global"@)[i],
{
    lemma_carried(s, s.man().counts.macro_edges as int);
    let all = carried(s, s.man().counts.macro_edges as int);
    let (e, i) = choose|e: int, i: int|
        #![trigger list_at(meta_doc(s, e)->0, "global"@)[i]]
        0 <= e < s.man().counts.macro_edges && is_carrier(s, e) && meta_doc(s, e) is Some && 0 <= i < list_at(
            meta_doc(s, e)->0,
            "global"@,
        ).len() && all[j] == global_of(list_at(meta_doc(s, e)->0, "global"@)[i], tags_of(s));
    assert(all[j].meta == list_at(meta_doc(s, e)->0, "global"@)[i]);
}

/// The macro edges between two nodes are those that lead from the one to the other, in their order.
pub proof fn law_edges_between(src: Seq<u32>, dst: Seq<u32>, a: u32, b: u32, k: int)
    requires
        0 <= k <= src.len(),
        k <= u32::MAX,
    ensures
        forall|j: int|
            0 <= j < edges_between(src, dst, a, b, k).len() ==> (#[trigger] edges_between(src, dst, a, b, k)[j]) < k && src[
                edges_between(src, dst, a, b, k)[j] as int] == a && dst[edges_between(src, dst, a, b, k)[j] as int] == b,
        forall|i: int|
            0 <= i < k && #[trigger] src[i] == a && dst[i] == b ==> edges_between(src, dst, a, b, k).contains(i as u32),
        forall|i: int, j: int|
            #![trigger edges_between(src, dst, a, b, k)[i], edges_between(src, dst, a, b, k)[j]]
            0 <= i < j < edges_between(src, dst, a, b, k).len() ==> edges_between(src, dst, a, b, k)[i] < edges_between(
                src,
                dst,
                a,
                b,
                k,
            )[j],
    decreases k,
{
    if k > 0 {
        law_edges_between(src, dst, a, b, k - 1);
        let (s, all) = (edges_between(src, dst, a, b, k - 1), edges_between(src, dst, a, b, k));
        assert forall|i: int| 0 <= i < k && #[trigger] src[i] == a && dst[i] == b implies all.contains(i as u32) by {
            if i < k - 1 {
                assert(s.contains(i as u32));
                let j = choose|j: int| 0 <= j < s.len() && s[j] == i as u32;
                assert(all[j] == i as u32);
            } else {
                assert(all[all.len() - 1] == i as u32);
            }
        }
        assert forall|i: int, j: int| #![trigger all[i], all[j]] 0 <= i < j < all.len() implies all[i] < all[j] by {
            if j < s.len() {
                assert(s[i] < s[j]);
            } else {
                assert(s[i] < k - 1);
            }
        }
    }
}

/// The ring at a node is the last one that stands there.
pub proof fn law_rings_are_found_by_node(nodes: Seq<u32>, k: nat, n: u32)
    requires
        k <= nodes.len(),
        k <= usize::MAX,
    ensures
        match entry(ring_index(nodes, k), n as u64) {
            Some(i) => i < k && nodes[i as int] == n && forall|j: int| i < j < k ==> #[trigger] nodes[j] != n,
            None => forall|j: int| 0 <= j < k ==> #[trigger] nodes[j] != n,
        },
    decreases k,
{
    if k > 0 {
        law_rings_are_found_by_node(nodes, (k - 1) as nat, n);
    }
}

/// A fairy ring stands at the node and costs what the snapshot's tables say, and is otherwise what its
/// own document says.
pub proof fn law_rings_are_read(s: Snapshot, i: int, doc: JsonV)
    requires
        ring_doc(s, i) == Some(doc),
    ensures
        ring_of(s, i).node == s.fairy_words(s.man().off_fairy_nodes)[i],
        ring_of(s, i).cost_ms.bits == s.fairy_words(s.man().off_fairy_cost_ms)[i],
        ring_of(s, i).reqs == doc_reqs(doc, tags_of(s)),
        member(doc, "x"@) matches Some(JsonV::Num(n)) ==> (i32::MIN <= n <= i32::MAX ==> ring_of(s, i).x == n),
        member(doc, "y"@) matches Some(JsonV::Num(n)) ==> (i32::MIN <= n <= i32::MAX ==> ring_of(s, i).y == n),
        member(doc, "plane"@) matches Some(JsonV::Num(n)) ==> (i32::MIN <= n <= i32::MAX ==> ring_of(s, i).plane == n),
        member(doc, "object_id"@) matches Some(JsonV::Num(n)) ==> (0 <= n <= u64::MAX ==> ring_of(s, i).object_id == n),
        member(doc, "code"@) matches Some(JsonV::Str(c)) ==> ring_of(s, i).code == c,
        member(doc, "action"@) matches Some(JsonV::Str(c)) ==> ring_of(s, i).action == Some(c),
{
}

/// The numbers of the kinds of edges.
pub proof fn law_kinds_have_numbers(kind: Seq<char>)
    ensures
        kind_number("door"@) == 1,
        kind_number("lodestone"@) == 2,
        kind_number("npc"@) == 3,
        kind_number("object"@) == 4,
        kind_number("item"@) == 5,
        kind_number("ifslot"@) == 6,
        kind_number("poa_item"@) == 7,
        kind_number("use_on"@) == 8,
        kind != "door"@ && kind != "lodestone"@ && kind != "npc"@ && kind != "object"@ && kind != "item"@ && kind
            != "ifslot"@ && kind != "poa_item"@ && kind != "use_on"@ ==> kind_number(kind) == 0,
{
    reveal_strlit("door");
    reveal_strlit("lodestone");
    reveal_strlit("npc");
    reveal_strlit("object");
    reveal_strlit("item");
    reveal_strlit("ifslot");
    reveal_strlit("poa_item");
    reveal_strlit("use_on");
    assert("door"@.len() == 4 && "lodestone"@.len() == 9 && "npc"@.len() == 3 && "object"@.len() == 6 && "item"@.len() == 4
        && "ifslot"@.len() == 6 && "poa_item"@.len() == 8 && "use_on"@.len() == 6);
    assert("door"@[0] == 'd' && "item"@[0] == 'i' && "object"@[0] == 'o' && "ifslot"@[0] == 'i' && "use_on"@[0] == 'u');
}

}
