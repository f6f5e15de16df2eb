//! What a search may use, and how far it may go.

use crate::json::Json;
use vstd::prelude::*;
#[allow(unused_imports)]
use crate::json::JsonV;

verus! {

pub const DEFAULT_MAX_EXPANSIONS: u64 = 1_000_000;

pub const DEFAULT_TIMEOUT_MS: u64 = 5_000;

pub const DEFAULT_MAX_CHAIN_DEPTH: u32 = 5_000;

#[derive(Debug)]
pub struct SearchOptions {
    pub use_doors: bool,
    pub use_lodestones: bool,
    pub use_objects: bool,
    pub use_ifslots: bool,
    pub use_npcs: bool,
    pub use_items: bool,
    pub max_expansions: u64,
    pub timeout_ms: u64,
    pub max_chain_depth: u32,
    pub door_cost_override: Option<i64>,
    pub lodestone_cost_override: Option<i64>,
    pub object_cost_override: Option<i64>,
    pub ifslot_cost_override: Option<i64>,
    pub npc_cost_override: Option<i64>,
    pub item_cost_override: Option<i64>,
    /// Whatever else was given, as an object.
    pub extras: Json,
}

impl Default for SearchOptions {
    fn default() -> (r: SearchOptions)
        ensures
            r.use_doors && r.use_lodestones && r.use_objects && r.use_ifslots && r.use_npcs && r.use_items,
            r.max_expansions == DEFAULT_MAX_EXPANSIONS,
            r.timeout_ms == DEFAULT_TIMEOUT_MS,
            r.max_chain_depth == DEFAULT_MAX_CHAIN_DEPTH,
            r.door_cost_override == Some(600i64),
            r.lodestone_cost_override == Some(17000i64),
            r.object_cost_override == Some(2000i64),
            r.ifslot_cost_override == Some(1000i64),
            r.npc_cost_override == Some(1000i64),
            r.item_cost_override == Some(3000i64),
            r.extras@ == JsonV::Obj(Map::empty()),
    {
        SearchOptions {
            use_doors: true,
            use_lodestones: true,
            use_objects: true,
            use_ifslots: true,
            use_npcs: true,
            use_items: true,
            max_expansions: DEFAULT_MAX_EXPANSIONS,
            timeout_ms: DEFAULT_TIMEOUT_MS,
            max_chain_depth: DEFAULT_MAX_CHAIN_DEPTH,
            door_cost_override: Some(600),
            lodestone_cost_override: Some(17000),
            object_cost_override: Some(2000),
            ifslot_cost_override: Some(1000),
            npc_cost_override: Some(1000),
            item_cost_override: Some(3000),
            extras: Json::object(),
        }
    }
}

impl SearchOptions {
    /// Whether only steps are left: no node of any kind may be used.
    pub fn movement_only(&self) -> (r: bool)
        ensures
            r == (!self.use_doors && !self.use_lodestones && !self.use_objects && !self.use_ifslots && !self.use_npcs
                && !self.use_items),
    {
        !(self.use_doors || self.use_lodestones || self.use_objects || self.use_ifslots || self.use_npcs || self.use_items)
    }
}

}
