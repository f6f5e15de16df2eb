//! Chains of nodes: where a node leads once every node it hands on to was used.

use crate::cost::CostModel;
use crate::graph::tables::{NodeRow, Place, RequirementRow, RowTable};
use crate::json::Json;
use crate::models::{NodeRef, Tile};
use crate::options::SearchOptions;
use crate::text::{owned, same, to_lowercase, trim};
use vstd::prelude::*;
#[allow(unused_imports)]
use crate::cost::node_price;
#[allow(unused_imports)]
use crate::graph::tables::first_row;
#[allow(unused_imports)]
use crate::json::{array_view, lemma_array_view, member, JsonV};
#[allow(unused_imports)]
use crate::models::NodeRefV;
#[allow(unused_imports)]
use crate::text::{lowercased, trimmed};

verus! {

/// A rectangle of tiles; without a plane, on whichever plane one is.
#[derive(Debug, Clone, Copy, PartialEq, Eq, Structural)]
pub struct Bounds2D {
    pub min_x: i32,
    pub max_x: i32,
    pub min_y: i32,
    pub max_y: i32,
    pub plane: Option<i32>,
}

pub open spec fn least(a: i32, b: i32) -> i32 {
    if a <= b { a } else { b }
}

pub open spec fn most(a: i32, b: i32) -> i32 {
    if a <= b { b } else { a }
}

impl Bounds2D {
    /// Whether there is a tile in the rectangle.
    pub open spec fn valid(self) -> bool {
        self.min_x <= self.max_x && self.min_y <= self.max_y
    }

    /// The rectangle of one tile.
    pub open spec fn of_tile(t: Tile) -> Bounds2D {
        Bounds2D { min_x: t.x, max_x: t.x, min_y: t.y, max_y: t.y, plane: Some(t.plane) }
    }

    /// The rectangle round both; on a plane only where both are on it.
    pub open spec fn around(self, o: Bounds2D) -> Bounds2D {
        Bounds2D {
            min_x: least(self.min_x, o.min_x),
            max_x: most(self.max_x, o.max_x),
            min_y: least(self.min_y, o.min_y),
            max_y: most(self.max_y, o.max_y),
            plane: if self.plane == o.plane { self.plane } else { None },
        }
    }

    pub fn is_valid(&self) -> (r: bool)
        ensures
            r == self.valid(),
    {
        self.min_x <= self.max_x && self.min_y <= self.max_y
    }

    pub fn single_tile(tile: Tile) -> (r: Bounds2D)
        ensures
            r == Bounds2D::of_tile(tile),
    {
        Bounds2D { min_x: tile.x, max_x: tile.x, min_y: tile.y, max_y: tile.y, plane: Some(tile.plane) }
    }

    /// The rectangle, where all four sides are given and hold a tile between them.
    pub fn from_optional(
        min_x: Option<i32>,
        max_x: Option<i32>,
        min_y: Option<i32>,
        max_y: Option<i32>,
        plane: Option<i32>,
    ) -> (r: Option<Bounds2D>)
        ensures
            r == sides(min_x, max_x, min_y, max_y, plane),
    {
        match (min_x, max_x, min_y, max_y) {
            (Some(ax), Some(bx), Some(ay), Some(by)) => {
                let b: Bounds2D = Bounds2D { min_x: ax, max_x: bx, min_y: ay, max_y: by, plane };
                if b.is_valid() {
                    Some(b)
                } else {
                    None
                }
            },
            _ => None,
        }
    }

    pub fn merge(&self, other: &Bounds2D) -> (r: Bounds2D)
        ensures
            r == self.around(*other),
    {
        let one: bool = match (self.plane, other.plane) {
            (Some(a), Some(b)) => a == b,
            (None, None) => true,
            _ => false,
        };
        Bounds2D {
            min_x: if self.min_x <= other.min_x { self.min_x } else { other.min_x },
            max_x: if self.max_x <= other.max_x { other.max_x } else { self.max_x },
            min_y: if self.min_y <= other.min_y { self.min_y } else { other.min_y },
            max_y: if self.max_y <= other.max_y { other.max_y } else { self.max_y },
            plane: if one { self.plane } else { None },
        }
    }
}

/// The rectangle with the given sides, where there is one.
pub open spec fn sides(
    min_x: Option<i32>,
    max_x: Option<i32>,
    min_y: Option<i32>,
    max_y: Option<i32>,
    plane: Option<i32>,
) -> Option<Bounds2D> {
    if min_x is Some && max_x is Some && min_y is Some && max_y is Some && min_x->0 <= max_x->0 && min_y->0 <= max_y->0 {
        Some(Bounds2D { min_x: min_x->0, max_x: max_x->0, min_y: min_y->0, max_y: max_y->0, plane })
    } else {
        None
    }
}

/// Where a node leads.
pub open spec fn leads_to(p: Place) -> Option<Bounds2D> {
    match p {
        Place::Door { inside, outside } => Some(Bounds2D::of_tile(inside).around(Bounds2D::of_tile(outside))),
        Place::Spot(t) => Some(Bounds2D::of_tile(t)),
        Place::Area { min_x, max_x, min_y, max_y, plane } => sides(min_x, max_x, min_y, max_y, plane),
    }
}

fn destination_bounds(p: &Place) -> (r: Option<Bounds2D>)
    ensures
        r == leads_to(*p),
{
    match p {
        Place::Door { inside, outside } => Some(
            Bounds2D::single_tile(*inside).merge(&Bounds2D::single_tile(*outside)),
        ),
        Place::Spot(t) => Some(Bounds2D::single_tile(*t)),
        Place::Area { min_x, max_x, min_y, max_y, plane } => Bounds2D::from_optional(*min_x, *max_x, *min_y, *max_y, *plane),
    }
}

/// The kinds of nodes.
#[derive(Debug, Clone, Copy, PartialEq, Eq, Structural)]
pub enum NodeKind {
    Door,
    Lodestone,
    Object,
    Ifslot,
    Npc,
    Item,
}

impl NodeKind {
    pub open spec fn label(self) -> Seq<char> {
        match self {
            NodeKind::Door => "door"@,
            NodeKind::Lodestone => "lodestone"@,
            NodeKind::Object => "object"@,
            NodeKind::Ifslot => "ifslot"@,
            NodeKind::Npc => "npc"@,
            NodeKind::Item => "item"@,
        }
    }

    pub fn name(&self) -> (r: &'static str)
        ensures
            r@ == self.label(),
    {
        match self {
            NodeKind::Door => "door",
            NodeKind::Lodestone => "lodestone",
            NodeKind::Object => "object",
            NodeKind::Ifslot => "ifslot",
            NodeKind::Npc => "npc",
            NodeKind::Item => "item",
        }
    }
}

/// The kind of a name.
pub open spec fn kind_named(name: Seq<char>) -> Option<NodeKind> {
    if name == "door"@ {
        Some(NodeKind::Door)
    } else if name == "lodestone"@ {
        Some(NodeKind::Lodestone)
    } else if name == "object"@ {
        Some(NodeKind::Object)
    } else if name == "ifslot"@ {
        Some(NodeKind::Ifslot)
    } else if name == "npc"@ {
        Some(NodeKind::Npc)
    } else if name == "item"@ {
        Some(NodeKind::Item)
    } else {
        None
    }
}

fn kind_of_name(name: &str) -> (r: Option<NodeKind>)
    ensures
        r == kind_named(name@),
{
    if same(name, "door") {
        Some(NodeKind::Door)
    } else if same(name, "lodestone") {
        Some(NodeKind::Lodestone)
    } else if same(name, "object") {
        Some(NodeKind::Object)
    } else if same(name, "ifslot") {
        Some(NodeKind::Ifslot)
    } else if same(name, "npc") {
        Some(NodeKind::Npc)
    } else if same(name, "item") {
        Some(NodeKind::Item)
    } else {
        None
    }
}

/// The nodes of each kind, and the requirements that they name.
pub struct NodeTables {
    pub doors: RowTable,
    pub lodestones: RowTable,
    pub objects: RowTable,
    pub ifslots: RowTable,
    pub npcs: RowTable,
    pub items: RowTable,
    pub requirements: Vec<RequirementRow>,
}

impl NodeTables {
    pub open spec fn of_kind(self, kind: NodeKind) -> Seq<NodeRow> {
        match kind {
            NodeKind::Door => self.doors@,
            NodeKind::Lodestone => self.lodestones@,
            NodeKind::Object => self.objects@,
            NodeKind::Ifslot => self.ifslots@,
            NodeKind::Npc => self.npcs@,
            NodeKind::Item => self.items@,
        }
    }

    pub fn table(&self, kind: NodeKind) -> (r: &RowTable)
        ensures
            r@ == self.of_kind(kind),
    {
        match kind {
            NodeKind::Door => &self.doors,
            NodeKind::Lodestone => &self.lodestones,
            NodeKind::Object => &self.objects,
            NodeKind::Ifslot => &self.ifslots,
            NodeKind::Npc => &self.npcs,
            NodeKind::Item => &self.items,
        }
    }
}

/// What is laid down for the nodes of a kind.
pub open spec fn laid_down(model: CostModel, kind: NodeKind) -> Option<i64> {
    match kind {
        NodeKind::Door => model.door,
        NodeKind::Lodestone => model.lodestone,
        NodeKind::Object => model.object,
        NodeKind::Ifslot => model.ifslot,
        NodeKind::Npc => model.npc,
        NodeKind::Item => model.item,
    }
}

fn node_cost(model: &CostModel, kind: NodeKind, row: Option<i64>) -> (r: i64)
    ensures
        r == node_price(laid_down(*model, kind), row),
{
    match kind {
        NodeKind::Door => model.door_cost(row),
        NodeKind::Lodestone => model.lodestone_cost(row),
        NodeKind::Object => model.object_cost(row),
        NodeKind::Ifslot => model.ifslot_cost(row),
        NodeKind::Npc => model.npc_cost(row),
        NodeKind::Item => model.item_cost(row),
    }
}

/// The name of a kind without white space round it and in lower case.
pub open spec fn plain_name(s: Seq<char>) -> Seq<char> {
    lowercased(trimmed(s))
}

pub fn normalise_type(s: &str) -> (r: String)
    ensures
        r@ == plain_name(s@),
{
    to_lowercase(trim(s))
}

/// An integer that fits 64 bits.
pub open spec fn int_of(v: Option<JsonV>) -> Option<i64> {
    match v {
        Some(JsonV::Num(n)) => if i64::MIN <= n <= i64::MAX { Some(n as i64) } else { None },
        _ => None,
    }
}

/// Whether an entry of a list gives the value of a key.
pub open spec fn gives(item: JsonV, key: Seq<char>) -> bool {
    member(item, "key"@) == Some(JsonV::Str(key)) && int_of(member(item, "value"@)) is Some
}

/// The value that the last entry for a key gives.
pub open spec fn last_value(items: Seq<JsonV>, key: Seq<char>) -> Option<i64>
    decreases items.len(),
{
    if items.len() == 0 {
        None
    } else if gives(items.last(), key) {
        int_of(member(items.last(), "value"@))
    } else {
        last_value(items.drop_last(), key)
    }
}

/// The value that was given for a key: in the object `requirements_map` where there is one, else
/// in the list `requirements`.
pub open spec fn given_value(extras: JsonV, key: Seq<char>) -> Option<i64> {
    match member(extras, "requirements_map"@) {
        Some(JsonV::Obj(m)) => if m.contains_key(key) { int_of(Some(m[key])) } else { None },
        _ => match member(extras, "requirements"@) {
            Some(JsonV::Arr(items)) => last_value(items, key),
            _ => None,
        },
    }
}

fn last_value_of(items: &Vec<Json>, key: &str) -> (r: Option<i64>)
    ensures
        r == last_value(array_view(items@), key@),
{
    let ghost all = array_view(items@);
    proof {
        lemma_array_view(items@);
    }
    let mut i: usize = items.len();
    assert(all.take(i as int) =~= all);
    while i > 0
        invariant
            i <= items@.len(),
            all == array_view(items@),
            all.len() == items@.len(),
            forall|j: int| 0 <= j < items@.len() ==> #[trigger] all[j] == items@[j]@,
            last_value(all, key@) == last_value(all.take(i as int), key@),
        decreases i,
    {
        i -= 1;
        assert(all.take(i + 1).drop_last() =~= all.take(i as int));
        assert(all.take(i + 1).last() == items@[i as int]@);
        let named: bool = match items[i].get("key") {
            Some(k) => match k.as_str() {
                Some(k) => same(k, key),
                None => false,
            },
            None => false,
        };
        if named {
            if let Some(v) = items[i].get("value") {
                if let Some(n) = v.as_i64() {
                    return Some(n);
                }
            }
        }
    }
    None
}

/// The value that was given for a key.
pub fn value_given(extras: &Json, key: &str) -> (r: Option<i64>)
    ensures
        r == given_value(extras@, key@),
{
    if let Some(m) = extras.get("requirements_map") {
        if m.is_object() {
            return match m.get(key) {
                Some(v) => v.as_i64(),
                None => None,
            };
        }
    }
    match extras.get("requirements") {
        Some(list) => match list.as_array() {
            Some(items) => last_value_of(items, key),
            None => None,
        },
        None => None,
    }
}

/// Whether a comparison holds; one that is not known compares as `>=`.
pub open spec fn compares(op: Option<Seq<char>>, actual: i64, wanted: i64) -> bool {
    if op == Some("=="@) {
        actual == wanted
    } else if op == Some("!="@) {
        actual != wanted
    } else if op == Some(">"@) {
        actual > wanted
    } else if op == Some("<="@) {
        actual <= wanted
    } else if op == Some("<"@) {
        actual < wanted
    } else {
        actual >= wanted
    }
}

pub open spec fn text_view(s: Option<String>) -> Option<Seq<char>> {
    match s {
        Some(t) => Some(t@),
        None => None,
    }
}

/// Whether a requirement is met. One that names no key or no value is.
pub open spec fn requirement_met(r: RequirementRow, extras: JsonV) -> bool {
    match (r.key, r.value) {
        (Some(key), Some(wanted)) => match given_value(extras, key@) {
            Some(actual) => compares(text_view(r.comparison), actual, wanted),
            None => false,
        },
        _ => true,
    }
}

pub fn eval_requirement(r: &RequirementRow, extras: &Json) -> (b: bool)
    ensures
        b == requirement_met(*r, extras@),
{
    let key: &String = match &r.key {
        Some(k) => k,
        None => {
            return true;
        },
    };
    let wanted: i64 = match r.value {
        Some(v) => v,
        None => {
            return true;
        },
    };
    let actual: i64 = match value_given(extras, key.as_str()) {
        Some(v) => v,
        None => {
            return false;
        },
    };
    match &r.comparison {
        Some(op) => {
            let op: &str = op.as_str();
            proof {
                reveal_strlit("==");
                reveal_strlit("!=");
                reveal_strlit(">");
                reveal_strlit("<=");
                reveal_strlit("<");
            }
            if same(op, "==") {
                actual == wanted
            } else if same(op, "!=") {
                actual != wanted
            } else if same(op, ">") {
                actual > wanted
            } else if same(op, "<=") {
                actual <= wanted
            } else if same(op, "<") {
                actual < wanted
            } else {
                actual >= wanted
            }
        },
        None => actual >= wanted,
    }
}

/// Whether the first requirement with an id is met; one that is not known is not.
pub open spec fn passes(reqs: Seq<RequirementRow>, extras: JsonV, id: i32) -> bool
    decreases reqs.len(),
{
    if reqs.len() == 0 {
        false
    } else if reqs[0].id == id {
        requirement_met(reqs[0], extras)
    } else {
        passes(reqs.skip(1), extras, id)
    }
}

pub fn req_passes(reqs: &Vec<RequirementRow>, extras: &Json, id: i32) -> (b: bool)
    ensures
        b == passes(reqs@, extras@, id),
{
    let mut i: usize = 0;
    assert(reqs@.skip(0) =~= reqs@);
    while i < reqs.len()
        invariant
            i <= reqs@.len(),
            passes(reqs@, extras@, id) == passes(reqs@.skip(i as int), extras@, id),
        decreases reqs@.len() - i,
    {
        assert(reqs@.skip(i as int).skip(1) =~= reqs@.skip(i + 1));
        if reqs[i].id == id {
            return eval_requirement(&reqs[i], extras);
        }
        i += 1;
    }
    false
}

/// A node of a chain, with what it costs and where it leads.
#[derive(Debug)]
pub struct ChainLink<'a> {
    pub ref_: NodeRef,
    pub cost_ms: i64,
    pub destination: Option<Bounds2D>,
    pub row: &'a NodeRow,
}

pub struct LinkV {
    pub ref_: NodeRefV,
    pub cost_ms: i64,
    pub destination: Option<Bounds2D>,
    pub row: NodeRow,
}

impl<'a> ChainLink<'a> {
    pub open spec fn view(self) -> LinkV {
        LinkV { ref_: self.ref_@, cost_ms: self.cost_ms, destination: self.destination, row: *self.row }
    }
}

pub open spec fn links_view(s: Seq<ChainLink>) -> Seq<LinkV> {
    s.map_values(|l: ChainLink| l.view())
}

/// Whether a chain holds a node.
pub open spec fn holds(links: Seq<LinkV>, n: NodeRefV) -> bool {
    exists|i: int| 0 <= i < links.len() && (#[trigger] links[i]).ref_ == n
}

/// The row of a node.
pub open spec fn row_of(t: NodeTables, n: NodeRefV) -> Option<NodeRow> {
    match kind_named(n.type_) {
        Some(kind) => match first_row(t.of_kind(kind), n.id) {
            Some(i) => Some(t.of_kind(kind)[i as int]),
            None => None,
        },
        None => None,
    }
}

/// A node's link of a chain.
pub open spec fn link_of(model: CostModel, n: NodeRefV, row: NodeRow) -> LinkV {
    LinkV {
        ref_: n,
        cost_ms: node_price(laid_down(model, kind_named(n.type_)->0), row.cost),
        destination: leads_to(row.place),
        row,
    }
}

/// The node that a node hands on to.
pub open spec fn next_ref(row: NodeRow) -> Option<NodeRefV> {
    match (row.next_node_type, row.next_node_id) {
        (Some(t), Some(id)) => Some(NodeRefV { type_: plain_name(t@), id }),
        _ => None,
    }
}

/// The chain that goes on from `links` with the node `n`, and why it breaks off, if it does.
pub open spec fn chase(
    t: NodeTables,
    model: CostModel,
    extras: JsonV,
    depth: nat,
    links: Seq<LinkV>,
    n: NodeRefV,
) -> (Seq<LinkV>, Option<Seq<char>>)
    decreases depth - links.len(),
{
    if links.len() >= depth {
        (links, Some("chain-depth-exceeded"@))
    } else if holds(links, n) {
        (links, Some("cycle-detected"@))
    } else {
        match row_of(t, n) {
            None => (links, Some("missing-node"@)),
            Some(row) => {
                if row.requirement_id is Some && !passes(t.requirements@, extras, row.requirement_id->0) {
                    (links, Some("requirement-unmet"@))
                } else {
                    let longer = links.push(link_of(model, n, row));
                    match next_ref(row) {
                        Some(m) => chase(t, model, extras, depth, longer, m),
                        None => (longer, None),
                    }
                }
            },
        }
    }
}

/// What the links cost together.
pub open spec fn links_cost(links: Seq<LinkV>) -> int
    decreases links.len(),
{
    if links.len() == 0 { 0 } else { links_cost(links.drop_last()) + links.last().cost_ms }
}

/// The nearest integer of 64 bits.
pub open spec fn capped(n: int) -> i64 {
    if n > i64::MAX {
        i64::MAX
    } else if n < i64::MIN {
        i64::MIN
    } else {
        n as i64
    }
}

/// Where a chain ends.
pub open spec fn chain_end(links: Seq<LinkV>) -> Option<Bounds2D> {
    if links.len() == 0 { None } else { links.last().destination }
}

/// A chain of nodes.
#[derive(Debug)]
pub struct ChainResolution<'a> {
    pub start: NodeRef,
    pub links: Vec<ChainLink<'a>>,
    pub total_cost_ms: i64,
    pub destination: Option<Bounds2D>,
    pub failure_reason: Option<String>,
}

/// Whether a resolution is that of the chain from `start` on.
pub open spec fn is_chain(r: ChainResolution, t: NodeTables, model: CostModel, extras: JsonV, depth: nat, start: NodeRefV) -> bool {
    let n = NodeRefV { type_: plain_name(start.type_), id: start.id };
    let (links, failure) = chase(t, model, extras, depth, Seq::empty(), n);
    &&& r.start@ == n
    &&& links_view(r.links@) == links
    &&& r.total_cost_ms == capped(links_cost(links))
    &&& r.destination == chain_end(links)
    &&& text_view(r.failure_reason) == (if failure is None && chain_end(links) is None {
        Some("missing-destination"@)
    } else {
        failure
    })
}

impl<'a> ChainResolution<'a> {
    /// Whether the chain leads somewhere.
    pub open spec fn succeeded(self) -> bool {
        self.failure_reason is None && self.destination is Some
    }

    pub fn is_success(&self) -> (r: bool)
        ensures
            r == self.succeeded(),
    {
        self.failure_reason.is_none() && self.destination.is_some()
    }

    /// The last node of the chain.
    pub fn terminal_ref(&self) -> (r: Option<&NodeRef>)
        ensures
            self.links@.len() == 0 ==> r is None,
            self.links@.len() > 0 ==> r is Some && *r->0 == self.links@.last().ref_,
    {
        let n: usize = self.links.len();
        if n == 0 {
            None
        } else {
            Some(&self.links[n - 1].ref_)
        }
    }
}

/// Follows chains of nodes.
pub struct NodeChainResolver<'a> {
    pub tables: &'a NodeTables,
    pub cost_model: &'a CostModel,
    pub options: &'a SearchOptions,
}

fn holds_ref(links: &Vec<ChainLink>, n: &NodeRef) -> (r: bool)
    ensures
        r == holds(links_view(links@), n@),
{
    let mut i: usize = 0;
    while i < links.len()
        invariant
            i <= links@.len(),
            forall|j: int| 0 <= j < i ==> (#[trigger] links_view(links@)[j]).ref_ != n@,
        decreases links@.len() - i,
    {
        assert(links_view(links@)[i as int] == links@[i as int].view());
        if links[i].ref_.id == n.id && same(links[i].ref_.type_.as_str(), n.type_.as_str()) {
            return true;
        }
        i += 1;
    }
    false
}

/// The nearest integer of 64 bits.
fn cap(n: i128) -> (r: i64)
    ensures
        r == capped(n as int),
{
    if n > i64::MAX as i128 {
        i64::MAX
    } else if n < i64::MIN as i128 {
        i64::MIN
    } else {
        n as i64
    }
}

impl<'a> NodeChainResolver<'a> {
    pub fn new(tables: &'a NodeTables, cost_model: &'a CostModel, options: &'a SearchOptions) -> (r: NodeChainResolver<'a>)
        ensures
            *r.tables == *tables && *r.cost_model == *cost_model && *r.options == *options,
    {
        NodeChainResolver { tables, cost_model, options }
    }

    fn fetch_node(&self, n: &NodeRef) -> (r: Option<&'a NodeRow>)
        ensures
            match row_of(*self.tables, n@) {
                Some(row) => r is Some && *r->0 == row,
                None => r is None,
            },
    {
        match kind_of_name(n.type_.as_str()) {
            Some(kind) => self.tables.table(kind).fetch(n.id),
            None => None,
        }
    }

    /// Follows the chain that starts with a node. It breaks off where it gets too long, comes
    /// back to a node, or comes to a node that is not there or whose requirement is not met; and
    /// it fails where its last node leads nowhere.
    pub fn resolve(&self, start: &NodeRef) -> (r: ChainResolution<'a>)
        ensures
            is_chain(r, *self.tables, *self.cost_model, self.options.extras@, self.options.max_chain_depth as nat, start@),
    {
        let mut current: NodeRef = NodeRef { type_: normalise_type(start.type_.as_str()), id: start.id };
        let first: NodeRef = current.copy();
        let ghost (t, model, extras) = (*self.tables, *self.cost_model, self.options.extras@);
        let depth: u32 = self.options.max_chain_depth;
        let ghost want = chase(t, model, extras, depth as nat, Seq::empty(), current@);
        let mut links: Vec<ChainLink<'a>> = Vec::new();
        let mut total: i128 = 0;
        let mut failure: Option<String> = None;
        let mut done: bool = false;
        assert(links_view(links@) =~= Seq::<LinkV>::empty());
        while !done
            invariant
                t == *self.tables && model == *self.cost_model && extras == self.options.extras@,
                links@.len() <= depth,
                -0x8000_0000_0000_0000 * links@.len() <= total <= 0x8000_0000_0000_0000 * links@.len(),
                total == links_cost(links_view(links@)),
                !done ==> failure is None && chase(t, model, extras, depth as nat, links_view(links@), current@) == want,
                done ==> want == (links_view(links@), text_view(failure)),
            decreases depth + 1 - links@.len(), (if done { 0int } else { 1int }),
        {
            let ghost before = links_view(links@);
            if links.len() >= depth as usize {
                failure = Some(owned("chain-depth-exceeded"));
                done = true;
            } else if holds_ref(&links, &current) {
                failure = Some(owned("cycle-detected"));
                done = true;
            } else {
                match self.fetch_node(&current) {
                    None => {
                        failure = Some(owned("missing-node"));
                        done = true;
                    },
                    Some(row) => {
                        let met: bool = match row.requirement_id {
                            Some(id) => req_passes(&self.tables.requirements, &self.options.extras, id),
                            None => true,
                        };
                        if !met {
                            failure = Some(owned("requirement-unmet"));
                            done = true;
                        } else if let Some(kind) = kind_of_name(current.type_.as_str()) {
                            let cost_ms: i64 = node_cost(self.cost_model, kind, row.cost);
                            let link: ChainLink<'a> = ChainLink {
                                ref_: current.copy(),
                                cost_ms,
                                destination: destination_bounds(&row.place),
                                row,
                            };
                            let ghost l = link.view();
                            links.push(link);
                            total = total + cost_ms as i128;
                            proof {
                                assert(l == link_of(model, current@, *row));
                                assert(links_view(links@) =~= before.push(l));
                                assert(before.push(l).drop_last() =~= before);
                            }
                            match (&row.next_node_type, row.next_node_id) {
                                (Some(nt), Some(nid)) => {
                                    current = NodeRef { type_: normalise_type(nt.as_str()), id: nid };
                                },
                                _ => {
                                    done = true;
                                },
                            }
                        } else {
                            done = true;
                        }
                    },
                }
            }
        }
        let n: usize = links.len();
        let destination: Option<Bounds2D> = if n == 0 {
            None
        } else {
            links[n - 1].destination
        };
        proof {
            if n > 0 {
                assert(links_view(links@).last() == links@.last().view());
            }
        }
        if failure.is_none() && destination.is_none() {
            failure = Some(owned("missing-destination"));
        }
        ChainResolution { start: first, links, total_cost_ms: cap(total), destination, failure_reason: failure }
    }
}

/// Whether no node comes twice.
pub open spec fn once_each(links: Seq<LinkV>) -> bool {
    forall|i: int, j: int| 0 <= i < j < links.len() ==> (#[trigger] links[i]).ref_ != (#[trigger] links[j]).ref_
}

/// Whether each node but the last hands on to the one after it.
pub open spec fn handed_on(links: Seq<LinkV>) -> bool {
    forall|i: int| 0 <= i < links.len() - 1 ==> next_ref((#[trigger] links[i]).row) == Some(links[i + 1].ref_)
}

proof fn lemma_chase(t: NodeTables, model: CostModel, extras: JsonV, depth: nat, links: Seq<LinkV>, n: NodeRefV)
    requires
        links.len() <= depth,
        once_each(links),
        handed_on(links),
        links.len() > 0 ==> next_ref(links.last().row) == Some(n),
    ensures
        ({
            let (all, failure) = chase(t, model, extras, depth, links, n);
            &&& links.len() <= all.len() <= depth
            &&& all.take(links.len() as int) == links
            &&& once_each(all)
            &&& handed_on(all)
            &&& failure is None ==> all.len() > 0 && next_ref(all.last().row) is None
        }),
    decreases depth - links.len(),
{
    assert(links.take(links.len() as int) =~= links);
    if links.len() < depth && !holds(links, n) {
        if let Some(row) = row_of(t, n) {
            if row.requirement_id is Some && !passes(t.requirements@, extras, row.requirement_id->0) {
            } else {
                let longer = links.push(link_of(model, n, row));
                assert forall|i: int, j: int| 0 <= i < j < longer.len() implies (#[trigger] longer[i]).ref_ != (
                #[trigger] longer[j]).ref_ by {
                    if j == links.len() {
                        assert(links[i].ref_ != n);
                    }
                }
                assert forall|i: int| 0 <= i < longer.len() - 1 implies next_ref((#[trigger] longer[i]).row) == Some(
                    longer[i + 1].ref_,
                ) by {
                    if i < links.len() - 1 {
                        assert(next_ref(links[i].row) == Some(links[i + 1].ref_));
                    }
                }
                assert(longer.take(links.len() as int) =~= links);
                if let Some(m) = next_ref(row) {
                    lemma_chase(t, model, extras, depth, longer, m);
                    let all = chase(t, model, extras, depth, longer, m).0;
                    assert(all.take(links.len() as int) =~= all.take(longer.len() as int).take(links.len() as int));
                }
            }
        }
    }
}

/// A chain comes to no node twice and is no longer than allowed; each node hands on to the next,
/// and where nothing breaks the chain off its last node hands on to none.
pub proof fn law_chains_come_to_an_end(t: NodeTables, model: CostModel, extras: JsonV, depth: nat, n: NodeRefV)
    ensures
        ({
            let (links, failure) = chase(t, model, extras, depth, Seq::empty(), n);
            &&& links.len() <= depth
            &&& once_each(links)
            &&& handed_on(links)
            &&& failure is None ==> links.len() > 0 && next_ref(links.last().row) is None
        }),
{
    lemma_chase(t, model, extras, depth, Seq::empty(), n);
}

/// A requirement with a key and a value is met exactly where a value is given for the key that compares
/// with it as is asked: `==`, `!=`, `>`, `<=` or `<`, and as `>=` where another comparison is asked for
/// or none. One without a key or without a value is always met.
pub proof fn law_requirements_compare(r: RequirementRow, extras: JsonV, actual: i64, wanted: i64)
    requires
        r.key is Some && r.value == Some(wanted),
        given_value(extras, r.key->0@) == Some(actual),
    ensures
        text_view(r.comparison) == Some("=="@) ==> (requirement_met(r, extras) <==> actual == wanted),
        text_view(r.comparison) == Some("!="@) ==> (requirement_met(r, extras) <==> actual != wanted),
        text_view(r.comparison) == Some(">"@) ==> (requirement_met(r, extras) <==> actual > wanted),
        text_view(r.comparison) == Some("<="@) ==> (requirement_met(r, extras) <==> actual <= wanted),
        text_view(r.comparison) == Some("<"@) ==> (requirement_met(r, extras) <==> actual < wanted),
        text_view(r.comparison) == Some(">="@) || r.comparison is None ==> (requirement_met(r, extras) <==> actual >= wanted),
{
    reveal_strlit("==");
    reveal_strlit("!=");
    reveal_strlit(">");
    reveal_strlit("<=");
    reveal_strlit("<");
    reveal_strlit(">=");
    assert("=="@[0] == '=' && "!="@[0] == '!' && ">"@[0] == '>' && "<="@[0] == '<' && "<"@[0] == '<' && ">="@[0] == '>');
    assert("=="@.len() == 2 && ">"@.len() == 1 && "<="@.len() == 2 && "<"@.len() == 1 && ">="@.len() == 2);
}

/// A requirement whose value is not given is not met; one that names no key or no value is.
pub proof fn law_requirements_need_a_value(r: RequirementRow, extras: JsonV)
    ensures
        r.key is Some && r.value is Some && given_value(extras, r.key->0@) is None ==> !requirement_met(r, extras),
        r.key is None || r.value is None ==> requirement_met(r, extras),
{
}

proof fn lemma_last_value(items: Seq<JsonV>, key: Seq<char>)
    ensures
        match last_value(items, key) {
            Some(v) => exists|i: int|
                0 <= i < items.len() && gives(#[trigger] items[i], key) && int_of(member(items[i], "value"@)) == Some(v)
                    && forall|j: int| i < j < items.len() ==> !gives(#[trigger] items[j], key),
            None => forall|j: int| 0 <= j < items.len() ==> !gives(#[trigger] items[j], key),
        },
    decreases items.len(),
{
    if items.len() > 0 {
        let short = items.drop_last();
        lemma_last_value(short, key);
        if gives(items.last(), key) {
            assert(gives(items[items.len() - 1], key));
        } else if last_value(short, key) is Some {
            let v = last_value(short, key)->0;
            let i = choose|i: int|
                0 <= i < short.len() && gives(#[trigger] short[i], key) && int_of(member(short[i], "value"@)) == Some(v)
                    && forall|j: int| i < j < short.len() ==> !gives(#[trigger] short[j], key);
            assert(gives(items[i], key));
            assert forall|j: int| i < j < items.len() implies !gives(#[trigger] items[j], key) by {
                if j < short.len() {
                    assert(!gives(short[j], key));
                }
            }
        } else {
            assert forall|j: int| 0 <= j < items.len() implies !gives(#[trigger] items[j], key) by {
                if j < short.len() {
                    assert(!gives(short[j], key));
                }
            }
        }
    }
}

/// The value that is given for a key is that of the object of requirements, where there is one; else
/// that of the last entry for the key in the list of requirements that has one.
pub proof fn law_given_values(extras: JsonV, key: Seq<char>, m: Map<Seq<char>, JsonV>, items: Seq<JsonV>, n: i64, i: int)
    ensures
        member(extras, "requirements_map"@) == Some(JsonV::Obj(m)) && m.contains_key(key) && m[key] == JsonV::Num(n as int)
            ==> given_value(extras, key) == Some(n),
        member(extras, "requirements_map"@) == Some(JsonV::Obj(m)) && !m.contains_key(key) ==> given_value(extras, key) is None,
        member(extras, "requirements_map"@) is None && member(extras, "requirements"@) == Some(JsonV::Arr(items)) && 0 <= i
            < items.len() && member(items[i], "key"@) == Some(JsonV::Str(key)) && member(items[i], "value"@) == Some(
            JsonV::Num(n as int),
        ) && (forall|j: int| i < j < items.len() ==> member(#[trigger] items[j], "key"@) != Some(JsonV::Str(key)))
            ==> given_value(extras, key) == Some(n),
        member(extras, "requirements_map"@) is None && member(extras, "requirements"@) is None ==> given_value(extras, key) is None,
{
    lemma_last_value(items, key);
    if member(extras, "requirements_map"@) is None && member(extras, "requirements"@) == Some(JsonV::Arr(items)) && 0 <= i
        < items.len() && member(items[i], "key"@) == Some(JsonV::Str(key)) && member(items[i], "value"@) == Some(
        JsonV::Num(n as int),
    ) && (forall|j: int| i < j < items.len() ==> member(#[trigger] items[j], "key"@) != Some(JsonV::Str(key))) {
        assert(gives(items[i], key));
        let v = last_value(items, key)->0;
        let k = choose|k: int|
            0 <= k < items.len() && gives(#[trigger] items[k], key) && int_of(member(items[k], "value"@)) == Some(v)
                && forall|j: int| k < j < items.len() ==> !gives(#[trigger] items[j], key);
        assert(k == i) by {
            if k < i {
                assert(!gives(items[i], key));
            }
            if k > i {
                assert(member(items[k], "key"@) != Some(JsonV::Str(key)));
            }
        }
    }
}

/// An id passes exactly where the first requirement with it is met.
pub proof fn law_first_requirement_decides(reqs: Seq<RequirementRow>, extras: JsonV, id: i32)
    ensures
        passes(reqs, extras, id) <==> exists|i: int|
            0 <= i < reqs.len() && (#[trigger] reqs[i]).id == id && requirement_met(reqs[i], extras) && forall|j: int|
                0 <= j < i ==> (#[trigger] reqs[j]).id != id,
    decreases reqs.len(),
{
    if reqs.len() > 0 {
        let rest = reqs.skip(1);
        law_first_requirement_decides(rest, extras, id);
        if reqs[0].id == id {
            if exists|i: int|
                0 <= i < reqs.len() && (#[trigger] reqs[i]).id == id && requirement_met(reqs[i], extras) && forall|j: int|
                    0 <= j < i ==> (#[trigger] reqs[j]).id != id {
                let i = choose|i: int|
                    0 <= i < reqs.len() && (#[trigger] reqs[i]).id == id && requirement_met(reqs[i], extras) && forall|j: int|
                        0 <= j < i ==> (#[trigger] reqs[j]).id != id;
                assert(i == 0) by {
                    if i > 0 {
                        assert(reqs[0].id != id);
                    }
                }
            }
        } else {
            if passes(rest, extras, id) {
                let i = choose|i: int|
                    0 <= i < rest.len() && (#[trigger] rest[i]).id == id && requirement_met(rest[i], extras) && forall|j: int|
                        0 <= j < i ==> (#[trigger] rest[j]).id != id;
                assert(reqs[i + 1].id == id);
                assert forall|j: int| 0 <= j < i + 1 implies (#[trigger] reqs[j]).id != id by {
                    if j > 0 {
                        assert(rest[j - 1].id != id);
                    }
                }
            }
            if exists|i: int|
                0 <= i < reqs.len() && (#[trigger] reqs[i]).id == id && requirement_met(reqs[i], extras) && forall|j: int|
                    0 <= j < i ==> (#[trigger] reqs[j]).id != id {
                let i = choose|i: int|
                    0 <= i < reqs.len() && (#[trigger] reqs[i]).id == id && requirement_met(reqs[i], extras) && forall|j: int|
                        0 <= j < i ==> (#[trigger] reqs[j]).id != id;
                assert(rest[i - 1].id == id);
                assert forall|j: int| 0 <= j < i - 1 implies (#[trigger] rest[j]).id != id by {
                    assert(reqs[j + 1].id != id);
                }
            }
        }
    }
}

/// Whether a link is that of its node: the row is the node's, what it requires is met, and it costs what
/// the node costs and leads where the node leads.
pub open spec fn is_right_link(t: NodeTables, model: CostModel, extras: JsonV, l: LinkV) -> bool {
    &&& row_of(t, l.ref_) == Some(l.row)
    &&& l.row.requirement_id is Some ==> passes(t.requirements@, extras, l.row.requirement_id->0)
    &&& l.destination == leads_to(l.row.place)
    &&& l.cost_ms == match laid_down(model, kind_named(l.ref_.type_)->0) {
        Some(c) => c,
        None => match l.row.cost {
            Some(c) => c,
            None => 600,
        },
    }
}

proof fn lemma_links_right(t: NodeTables, model: CostModel, extras: JsonV, depth: nat, links: Seq<LinkV>, n: NodeRefV)
    requires
        links.len() <= depth,
        forall|i: int| 0 <= i < links.len() ==> is_right_link(t, model, extras, #[trigger] links[i]),
        links.len() > 0 ==> next_ref(links.last().row) == Some(n),
    ensures
        ({
            let (all, failure) = chase(t, model, extras, depth, links, n);
            let m = if all.len() == links.len() { Some(n) } else { next_ref(all.last().row) };
            &&& all.len() >= links.len()
            &&& forall|i: int| 0 <= i < all.len() ==> is_right_link(t, model, extras, #[trigger] all[i])
            &&& forall|i: int| 0 <= i < links.len() ==> all[i] == #[trigger] links[i]
            &&& all.len() > links.len() ==> all[links.len() as int].ref_ == n
            &&& failure is None <==> m is None
            &&& failure == Some("requirement-unmet"@) ==> all.len() < depth && row_of(t, m->0) is Some && row_of(
                t,
                m->0,
            )->0.requirement_id is Some && !passes(t.requirements@, extras, row_of(t, m->0)->0.requirement_id->0)
            &&& m is Some && all.len() < depth && !holds(all, m->0) && row_of(t, m->0) is Some ==> failure == Some(
                "requirement-unmet"@,
            )
            &&& m is Some && all.len() >= depth ==> failure == Some("chain-depth-exceeded"@)
            &&& m is Some && all.len() < depth && holds(all, m->0) ==> failure == Some("cycle-detected"@)
            &&& m is Some && all.len() < depth && !holds(all, m->0) && row_of(t, m->0) is None ==> failure == Some(
                "missing-node"@,
            )
        }),
    decreases depth - links.len(),
{
    reveal_strlit("requirement-unmet");
    reveal_strlit("chain-depth-exceeded");
    reveal_strlit("cycle-detected");
    reveal_strlit("missing-node");
    assert("requirement-unmet"@.len() == 17 && "chain-depth-exceeded"@.len() == 20 && "cycle-detected"@.len() == 14
        && "missing-node"@.len() == 12);
    if links.len() < depth && !holds(links, n) {
        if let Some(row) = row_of(t, n) {
            if !(row.requirement_id is Some && !passes(t.requirements@, extras, row.requirement_id->0)) {
                let l = link_of(model, n, row);
                let longer = links.push(l);
                assert(is_right_link(t, model, extras, l));
                assert forall|i: int| 0 <= i < longer.len() implies is_right_link(t, model, extras, #[trigger] longer[i]) by {
                    if i < links.len() {
                        assert(longer[i] == links[i]);
                    }
                }
                if let Some(m) = next_ref(row) {
                    lemma_links_right(t, model, extras, depth, longer, m);
                    let all = chase(t, model, extras, depth, longer, m).0;
                    assert(all[links.len() as int] == longer[links.len() as int]);
                    assert forall|i: int| 0 <= i < links.len() implies all[i] == #[trigger] links[i] by {
                        assert(all[i] == longer[i]);
                    }
                }
            }
        }
    }
}

/// A chain starts with its node and goes over nodes whose requirements are met, each at its cost. It
/// breaks off exactly where it comes to a node that it cannot go over: too many, one that it holds
/// already, one that is not there, or one whose requirement is not met.
pub proof fn law_chains_meet_requirements(t: NodeTables, model: CostModel, extras: JsonV, depth: nat, n: NodeRefV)
    ensures
        ({
            let (all, failure) = chase(t, model, extras, depth, Seq::empty(), n);
            let m = if all.len() == 0 { Some(n) } else { next_ref(all.last().row) };
            &&& forall|i: int| 0 <= i < all.len() ==> is_right_link(t, model, extras, #[trigger] all[i])
            &&& all.len() > 0 ==> all[0].ref_ == n
            &&& failure is None <==> m is None
            &&& failure == Some("requirement-unmet"@) ==> all.len() < depth && row_of(t, m->0) is Some && row_of(
                t,
                m->0,
            )->0.requirement_id is Some && !passes(t.requirements@, extras, row_of(t, m->0)->0.requirement_id->0)
            &&& m is Some && all.len() < depth && !holds(all, m->0) && row_of(t, m->0) is Some ==> failure == Some(
                "requirement-unmet"@,
            )
            &&& m is Some && all.len() >= depth ==> failure == Some("chain-depth-exceeded"@)
            &&& m is Some && all.len() < depth && holds(all, m->0) ==> failure == Some("cycle-detected"@)
            &&& m is Some && all.len() < depth && !holds(all, m->0) && row_of(t, m->0) is None ==> failure == Some(
                "missing-node"@,
            )
        }),
{
    lemma_links_right(t, model, extras, depth, Seq::empty(), n);
}

/// The links of a chain cost together what each of them costs: a chain costs what its first part and its
/// last link cost.
pub proof fn law_chain_costs_add_up(links: Seq<LinkV>, l: LinkV)
    ensures
        links_cost(Seq::empty()) == 0,
        links_cost(links.push(l)) == links_cost(links) + l.cost_ms,
        chain_end(links.push(l)) == l.destination,
        i64::MIN <= links_cost(links) <= i64::MAX ==> capped(links_cost(links)) == links_cost(links),
{
    assert(links.push(l).drop_last() =~= links);
}

/// A kind of node is found by its name, and by no other.
pub proof fn law_kinds_have_names(kind: NodeKind, name: Seq<char>)
    ensures
        kind_named(kind.label()) == Some(kind),
        kind_named(name) is Some ==> kind_named(name)->0.label() == name,
{
    reveal_strlit("door");
    reveal_strlit("lodestone");
    reveal_strlit("object");
    reveal_strlit("ifslot");
    reveal_strlit("npc");
    reveal_strlit("item");
    assert("door"@.len() == 4 && "lodestone"@.len() == 9 && "object"@.len() == 6 && "ifslot"@.len() == 6 && "npc"@.len() == 3
        && "item"@.len() == 4);
    assert("door"@[0] == 'd' && "item"@[0] == 'i' && "object"@[0] == 'o' && "ifslot"@[0] == 'i');
}

/// Where a node leads: a door to the rectangle round its two tiles, a spot to its tile, an area to the
/// rectangle with its sides.
pub proof fn law_places_lead_somewhere(a: Tile, b: Tile, t: Tile)
    ensures
        leads_to(Place::Spot(t)) == Some(
            Bounds2D { min_x: t.x, max_x: t.x, min_y: t.y, max_y: t.y, plane: Some(t.plane) },
        ),
        leads_to(Place::Door { inside: a, outside: b }) matches Some(r) && r.min_x <= a.x <= r.max_x && r.min_x <= b.x
            <= r.max_x && r.min_y <= a.y <= r.max_y && r.min_y <= b.y <= r.max_y && (r.min_x == a.x || r.min_x == b.x) && (
        r.max_x == a.x || r.max_x == b.x) && (r.min_y == a.y || r.min_y == b.y) && (r.max_y == a.y || r.max_y == b.y)
            && r.plane == (if a.plane == b.plane { Some(a.plane) } else { None }),
{
}

}
