//! What steps and nodes cost.

use crate::options::SearchOptions;
use vstd::prelude::*;

verus! {

/// What a step costs.
pub const DEFAULT_STEP_COST_MS: i64 = 600;

/// What a node costs for which no cost is given.
pub const DEFAULT_NODE_COST_MS: i64 = 600;

/// What steps cost, and what nodes cost whatever their rows say.
#[derive(Debug, Clone, Copy, PartialEq, Eq, Structural)]
pub struct CostModel {
    pub step_cost_ms: i64,
    pub door: Option<i64>,
    pub lodestone: Option<i64>,
    pub object: Option<i64>,
    pub ifslot: Option<i64>,
    pub npc: Option<i64>,
    pub item: Option<i64>,
}

/// What a node costs: what is laid down for its kind, else what its row says, else what is usual.
pub open spec fn node_price(laid_down: Option<i64>, row: Option<i64>) -> i64 {
    match laid_down {
        Some(c) => c,
        None => match row {
            Some(c) => c,
            None => DEFAULT_NODE_COST_MS,
        },
    }
}

fn price(laid_down: Option<i64>, row: Option<i64>) -> (r: i64)
    ensures
        r == node_price(laid_down, row),
{
    match laid_down {
        Some(c) => c,
        None => match row {
            Some(c) => c,
            None => DEFAULT_NODE_COST_MS,
        },
    }
}

impl CostModel {
    pub fn new(options: &SearchOptions) -> (r: CostModel)
        ensures
            r.step_cost_ms == DEFAULT_STEP_COST_MS,
            r.door == options.door_cost_override,
            r.lodestone == options.lodestone_cost_override,
            r.object == options.object_cost_override,
            r.ifslot == options.ifslot_cost_override,
            r.npc == options.npc_cost_override,
            r.item == options.item_cost_override,
    {
        CostModel {
            step_cost_ms: DEFAULT_STEP_COST_MS,
            door: options.door_cost_override,
            lodestone: options.lodestone_cost_override,
            object: options.object_cost_override,
            ifslot: options.ifslot_cost_override,
            npc: options.npc_cost_override,
            item: options.item_cost_override,
        }
    }

    pub fn door_cost(&self, row: Option<i64>) -> (r: i64)
        ensures
            r == node_price(self.door, row),
    {
        price(self.door, row)
    }

    pub fn lodestone_cost(&self, row: Option<i64>) -> (r: i64)
        ensures
            r == node_price(self.lodestone, row),
    {
        price(self.lodestone, row)
    }

    pub fn object_cost(&self, row: Option<i64>) -> (r: i64)
        ensures
            r == node_price(self.object, row),
    {
        price(self.object, row)
    }

    pub fn ifslot_cost(&self, row: Option<i64>) -> (r: i64)
        ensures
            r == node_price(self.ifslot, row),
    {
        price(self.ifslot, row)
    }

    pub fn npc_cost(&self, row: Option<i64>) -> (r: i64)
        ensures
            r == node_price(self.npc, row),
    {
        price(self.npc, row)
    }

    pub fn item_cost(&self, row: Option<i64>) -> (r: i64)
        ensures
            r == node_price(self.item, row),
    {
        price(self.item, row)
    }
}

/// What is laid down for a kind of node is what it costs; else what its row says; else 600 milliseconds.
pub proof fn law_prices(laid_down: i64, row: i64, other: Option<i64>)
    ensures
        node_price(Some(laid_down), other) == laid_down,
        node_price(None, Some(row)) == row,
        node_price(None, None) == 600,
{
}

}
