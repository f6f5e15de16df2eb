//! Data shared by the planners.

use crate::json::{is_metadata_empty, Json};
use crate::text::owned;
use vstd::prelude::*;
#[allow(unused_imports)]
use crate::json::{array_view, JsonV};

verus! {

/// A tile of the world grid.
#[derive(Debug, Clone, Copy, PartialEq, Eq, Hash, Structural)]
pub struct Tile {
    pub x: i32,
    pub y: i32,
    pub plane: i32,
}

/// A node: its kind and its number among the nodes of that kind.
#[derive(Debug)]
pub struct NodeRef {
    pub type_: String,
    pub id: i32,
}

/// What names a node.
pub struct NodeRefV {
    pub type_: Seq<char>,
    pub id: i32,
}

impl View for NodeRef {
    type V = NodeRefV;

    open spec fn view(&self) -> NodeRefV {
        NodeRefV { type_: self.type_@, id: self.id }
    }
}

impl NodeRef {
    pub fn new(type_: &str, id: i32) -> (r: NodeRef)
        ensures
            r@ == (NodeRefV { type_: type_@, id }),
    {
        NodeRef { type_: owned(type_), id }
    }

    pub fn copy(&self) -> (r: NodeRef)
        ensures
            r@ == self@,
    {
        NodeRef { type_: self.type_.clone(), id: self.id }
    }

    /// The node as an object.
    pub fn to_json(&self) -> (r: Json)
        ensures
            r@ == node_json(self@),
    {
        Json::object().with("type", Json::text(self.type_.as_str())).with("id", Json::Int(self.id as i64))
    }
}

pub open spec fn node_json(n: NodeRefV) -> JsonV {
    JsonV::Obj(Map::<Seq<char>, JsonV>::empty().insert("type"@, JsonV::Str(n.type_)).insert("id"@, JsonV::Num(n.id as int)))
}

/// A list of three numbers.
pub open spec fn tile_json(t: Tile) -> JsonV {
    JsonV::Arr(seq![JsonV::Num(t.x as int), JsonV::Num(t.y as int), JsonV::Num(t.plane as int)])
}

impl Tile {
    /// The tile as a list of three numbers.
    pub fn to_json(&self) -> (r: Json)
        ensures
            r@ == tile_json(*self),
    {
        let mut a: Vec<Json> = Vec::new();
        a.push(Json::Int(self.x as i64));
        a.push(Json::Int(self.y as i64));
        a.push(Json::Int(self.plane as i64));
        proof {
            crate::json::lemma_array_view(a@);
            assert(array_view(a@) =~= tile_json(*self)->Arr_0);
        }
        Json::Array(a)
    }
}

/// A rectangle of tiles, by two opposite corners.
#[derive(Debug, Clone, Copy, PartialEq, Eq, Structural)]
pub struct Rect {
    pub min: Tile,
    pub max: Tile,
}

pub open spec fn rect_json(r: Rect) -> JsonV {
    JsonV::Obj(Map::<Seq<char>, JsonV>::empty().insert("min"@, tile_json(r.min)).insert("max"@, tile_json(r.max)))
}

impl Rect {
    pub fn to_json(&self) -> (r: Json)
        ensures
            r@ == rect_json(*self),
    {
        Json::object().with("min", self.min.to_json()).with("max", self.max.to_json())
    }
}

/// One action of a path.
#[derive(Debug)]
pub struct ActionStep {
    pub type_: String,
    pub from_rect: Rect,
    pub to_rect: Rect,
    pub cost_ms: i64,
    pub node: Option<NodeRef>,
    pub metadata: Option<Json>,
}

/// A path with its actions, or why there is none.
#[derive(Debug)]
pub struct PathResult {
    pub path: Option<Vec<Tile>>,
    pub actions: Vec<ActionStep>,
    pub reason: Option<String>,
    pub expanded: u64,
    pub cost_ms: i64,
}

/// What every action is written with.
pub open spec fn step_base(type_: Seq<char>, from: Rect, to: Rect, cost_ms: i64) -> Map<Seq<char>, JsonV> {
    Map::<Seq<char>, JsonV>::empty().insert("type"@, JsonV::Str(type_)).insert("from"@, rect_json(from)).insert(
        "to"@,
        rect_json(to),
    ).insert("cost_ms"@, JsonV::Num(cost_ms as int))
}

/// The object that an action is written as: the node where there is one, and the metadata where
/// there is any.
pub open spec fn step_json(s: ActionStep) -> JsonV {
    let base = step_base(s.type_@, s.from_rect, s.to_rect, s.cost_ms);
    let noded = match s.node {
        Some(n) => base.insert("node"@, node_json(n@)),
        None => base,
    };
    JsonV::Obj(
        match s.metadata {
            Some(m) => if m@ == JsonV::Obj(Map::empty()) { noded } else { noded.insert("metadata"@, m@) },
            None => noded,
        },
    )
}

impl ActionStep {
    /// The action as an object. Without metadata, or with empty metadata, it has no such member.
    pub fn to_json(&self) -> (r: Json)
        ensures
            r@ == step_json(*self),
    {
        let base: Json = Json::object().with("type", Json::text(self.type_.as_str())).with("from", self.from_rect.to_json()).with(
            "to",
            self.to_rect.to_json(),
        ).with("cost_ms", Json::Int(self.cost_ms));
        let noded: Json = match &self.node {
            Some(n) => base.with("node", n.to_json()),
            None => base,
        };
        if is_metadata_empty(&self.metadata) {
            noded
        } else {
            match &self.metadata {
                Some(m) => noded.with("metadata", m.copy()),
                None => noded,
            }
        }
    }
}

}
