//! Rows of the world database.

use crate::requirements::Num;
use vstd::prelude::*;

verus! {

/// A cluster of tiles.
#[derive(Debug, Clone, Copy)]
pub struct Cluster {
    pub cluster_id: i64,
    pub plane: i64,
    pub label: Option<i64>,
    pub tile_count: Option<i64>,
}

/// A tile of a cluster.
#[derive(Debug, Clone, Copy)]
pub struct ClusterTile {
    pub cluster_id: i64,
    pub x: i64,
    pub y: i64,
    pub plane: i64,
}

/// An entrance of a cluster.
#[derive(Debug, Clone)]
pub struct ClusterEntrance {
    pub entrance_id: i64,
    pub cluster_id: i64,
    pub x: i64,
    pub y: i64,
    pub plane: i64,
    pub neighbor_dir: String,
    pub teleport_edge_id: Option<i64>,
}

/// A connection of two entrances inside a cluster.
#[derive(Debug, Clone)]
pub struct ClusterIntraConnection {
    pub entrance_from: i64,
    pub entrance_to: i64,
    pub cost: i64,
    pub path_blob: Option<Vec<u8>>,
}

/// A connection of two entrances of neighbouring clusters.
#[derive(Debug, Clone, Copy)]
pub struct ClusterInterConnection {
    pub entrance_from: i64,
    pub entrance_to: i64,
    pub cost: i64,
}

/// A tile of the world.
#[derive(Debug, Clone)]
pub struct TileRow {
    pub x: i64,
    pub y: i64,
    pub plane: i64,
    pub flag: i64,
    pub blocked: i64,
    pub walk_mask: i64,
    pub blocked_mask: i64,
    pub walk_data: Option<String>,
}

/// A teleport between tiles or entrances.
#[derive(Debug, Clone)]
pub struct AbstractTeleportEdge {
    pub edge_id: i64,
    pub kind: String,
    pub node_id: i64,
    pub src_x: Option<i64>,
    pub src_y: Option<i64>,
    pub src_plane: Option<i64>,
    pub dst_x: i64,
    pub dst_y: i64,
    pub dst_plane: i64,
    pub cost: i64,
    pub requirement_id: Option<i64>,
    pub src_entrance: Option<i64>,
    pub dst_entrance: Option<i64>,
}

/// One condition of a requirement. All conditions with one id must hold.
#[derive(Debug, Clone)]
pub struct TeleportRequirement {
    pub id: i64,
    pub meta_info: Option<String>,
    pub key: Option<String>,
    pub value: Option<String>,
    pub comparison: Option<String>,
    /// The value as a number, where it spells one.
    pub number: Option<Num>,
}

/// A door.
#[derive(Debug, Clone)]
pub struct TeleportDoorNode {
    pub id: i64,
    pub direction: Option<String>,
    pub real_id_open: Option<i64>,
    pub real_id_closed: Option<i64>,
    pub location_open_x: Option<i64>,
    pub location_open_y: Option<i64>,
    pub location_open_plane: Option<i64>,
    pub location_closed_x: Option<i64>,
    pub location_closed_y: Option<i64>,
    pub location_closed_plane: Option<i64>,
    pub tile_inside_x: Option<i64>,
    pub tile_inside_y: Option<i64>,
    pub tile_inside_plane: Option<i64>,
    pub tile_outside_x: Option<i64>,
    pub tile_outside_y: Option<i64>,
    pub tile_outside_plane: Option<i64>,
    pub open_action: Option<String>,
    pub cost: Option<i64>,
    pub next_node_type: Option<String>,
    pub next_node_id: Option<i64>,
    pub requirement_id: Option<i64>,
}

/// An interface slot that teleports.
#[derive(Debug, Clone)]
pub struct TeleportIfSlotNode {
    pub id: i64,
    pub interface_id: Option<i64>,
    pub component_id: Option<i64>,
    pub slot_id: Option<i64>,
    pub click_id: Option<i64>,
    pub dest_min_x: Option<i64>,
    pub dest_max_x: Option<i64>,
    pub dest_min_y: Option<i64>,
    pub dest_max_y: Option<i64>,
    pub dest_plane: Option<i64>,
    pub cost: Option<i64>,
    pub next_node_type: Option<String>,
    pub next_node_id: Option<i64>,
    pub requirement_id: Option<i64>,
}

/// An item that teleports.
#[derive(Debug, Clone)]
pub struct TeleportItemNode {
    pub id: i64,
    pub item_id: Option<i64>,
    pub action: Option<String>,
    pub dest_min_x: Option<i64>,
    pub dest_max_x: Option<i64>,
    pub dest_min_y: Option<i64>,
    pub dest_max_y: Option<i64>,
    pub dest_plane: Option<i64>,
    pub next_node_type: Option<String>,
    pub next_node_id: Option<i64>,
    pub cost: Option<i64>,
    pub requirement_id: Option<i64>,
}

/// A lodestone.
#[derive(Debug, Clone)]
pub struct TeleportLodestoneNode {
    pub id: i64,
    pub lodestone: Option<String>,
    pub dest_x: Option<i64>,
    pub dest_y: Option<i64>,
    pub dest_plane: Option<i64>,
    pub cost: Option<i64>,
    pub next_node_type: Option<String>,
    pub next_node_id: Option<i64>,
    pub requirement_id: Option<i64>,
}

/// A character that teleports.
#[derive(Debug, Clone)]
pub struct TeleportNpcNode {
    pub id: i64,
    pub match_type: Option<String>,
    pub npc_id: Option<i64>,
    pub npc_name: Option<String>,
    pub action: Option<String>,
    pub dest_min_x: Option<i64>,
    pub dest_max_x: Option<i64>,
    pub dest_min_y: Option<i64>,
    pub dest_max_y: Option<i64>,
    pub dest_plane: Option<i64>,
    pub search_radius: Option<i64>,
    pub cost: Option<i64>,
    pub orig_min_x: Option<i64>,
    pub orig_max_x: Option<i64>,
    pub orig_min_y: Option<i64>,
    pub orig_max_y: Option<i64>,
    pub orig_plane: Option<i64>,
    pub next_node_type: Option<String>,
    pub next_node_id: Option<i64>,
    pub requirement_id: Option<i64>,
}

/// An object that teleports.
#[derive(Debug, Clone)]
pub struct TeleportObjectNode {
    pub id: i64,
    pub match_type: Option<String>,
    pub object_id: Option<i64>,
    pub object_name: Option<String>,
    pub action: Option<String>,
    pub dest_min_x: Option<i64>,
    pub dest_max_x: Option<i64>,
    pub dest_min_y: Option<i64>,
    pub dest_max_y: Option<i64>,
    pub dest_plane: Option<i64>,
    pub orig_min_x: Option<i64>,
    pub orig_max_x: Option<i64>,
    pub orig_min_y: Option<i64>,
    pub orig_max_y: Option<i64>,
    pub orig_plane: Option<i64>,
    pub search_radius: Option<i64>,
    pub cost: Option<i64>,
    pub next_node_type: Option<String>,
    pub next_node_id: Option<i64>,
    pub requirement_id: Option<i64>,
}

}
