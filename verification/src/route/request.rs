//! Route requests: what is asked for, by whom, and whether it can be answered.

use crate::engine::eligibility::{build_mask_from_u32, ClientEntry, ClientValue, EligibilityMask};
use crate::json::Json;
use crate::models::Tile;
use crate::route::abilities::{DiveConfig, SurgeConfig};
use crate::route::reachable::find_tile;
use crate::snapshot::reader::Snapshot;
use crate::text::{owned, parse_i64, same, same_ignoring_ascii_case, trim};
use vstd::prelude::*;
#[allow(unused_imports)]
use crate::engine::eligibility::{key_hash, law_tags_ask_the_last_value, meets_tag, tag_met};
#[allow(unused_imports)]
use crate::engine::macros::tag_words;
#[allow(unused_imports)]
use crate::json::JsonV;
#[allow(unused_imports)]
use crate::route::reachable::is_node_at;
#[allow(unused_imports)]
use crate::text::{ascii_lowered, signed_value, trimmed};

verus! {

/// Something that a caller has.
#[derive(Debug)]
pub struct RequirementKV {
    pub key: String,
    pub value: Json,
}

#[derive(Debug, Clone, Copy, PartialEq, Eq, Structural)]
pub struct RouteOptions {
    pub return_geometry: bool,
    pub only_actions: bool,
}

/// A request for a route.
#[derive(Debug)]
pub struct RouteRequest {
    pub start_id: Option<u32>,
    pub goal_id: Option<u32>,
    pub start: Option<Tile>,
    pub goal: Option<Tile>,
    pub requirements: Vec<RequirementKV>,
    pub options: RouteOptions,
    pub surge: SurgeConfig,
    pub dive: DiveConfig,
    pub seed: Option<u64>,
}

/// Why a request is refused.
#[derive(Debug, Clone, Copy, PartialEq, Eq, Structural)]
pub enum RouteError {
    WarmingUp,
    SnapshotNotLoaded,
    GoalTileNotFound,
    MissingEndpoints,
    OutOfRange,
    AtCapacity,
    DeadlineExceeded,
}

impl RouteError {
    /// The HTTP status.
    pub open spec fn code(self) -> u16 {
        match self {
            RouteError::WarmingUp => 503,
            RouteError::SnapshotNotLoaded => 503,
            RouteError::GoalTileNotFound => 400,
            RouteError::MissingEndpoints => 400,
            RouteError::OutOfRange => 400,
            RouteError::AtCapacity => 503,
            RouteError::DeadlineExceeded => 504,
        }
    }

    pub fn status(&self) -> (r: u16)
        ensures
            r == self.code(),
    {
        match self {
            RouteError::WarmingUp => 503,
            RouteError::SnapshotNotLoaded => 503,
            RouteError::GoalTileNotFound => 400,
            RouteError::MissingEndpoints => 400,
            RouteError::OutOfRange => 400,
            RouteError::AtCapacity => 503,
            RouteError::DeadlineExceeded => 504,
        }
    }

    pub open spec fn text(self) -> Seq<char> {
        match self {
            RouteError::WarmingUp => "warming up (snapshot populate / context pre-warm); retry"@,
            RouteError::SnapshotNotLoaded => "snapshot not loaded"@,
            RouteError::GoalTileNotFound => "goal tile not found in snapshot"@,
            RouteError::MissingEndpoints => {
                "missing start/goal; provide start_id/goal_id or start/goal with {wx,wy,plane}"@
            },
            RouteError::OutOfRange => "start_id/goal_id out of range"@,
            RouteError::AtCapacity => "search capacity exhausted; retry"@,
            RouteError::DeadlineExceeded => "route deadline exceeded"@,
        }
    }

    pub fn message(&self) -> (r: &'static str)
        ensures
            r@ == self.text(),
    {
        match self {
            RouteError::WarmingUp => "warming up (snapshot populate / context pre-warm); retry",
            RouteError::SnapshotNotLoaded => "snapshot not loaded",
            RouteError::GoalTileNotFound => "goal tile not found in snapshot",
            RouteError::MissingEndpoints => {
                "missing start/goal; provide start_id/goal_id or start/goal with {wx,wy,plane}"
            },
            RouteError::OutOfRange => "start_id/goal_id out of range",
            RouteError::AtCapacity => "search capacity exhausted; retry",
            RouteError::DeadlineExceeded => "route deadline exceeded",
        }
    }
}

/// The ends of a route. Without a start node it enters the map through a global teleport.
#[derive(Debug, Clone, Copy, PartialEq, Eq, Structural)]
pub struct Endpoints {
    pub sid: u32,
    pub gid: u32,
    pub virtual_start: bool,
}

/// Whether `r` are the ends that a request asks for. Ids count before tiles; a start tile that is
/// not on the map makes a route without a start node, a goal tile that is not makes none.
pub open spec fn resolves(s: Snapshot, req: RouteRequest, r: Result<Endpoints, RouteError>) -> bool {
    let nodes = s.man().counts.nodes;
    match (req.start_id, req.goal_id) {
        (Some(sid), Some(gid)) => if sid >= nodes || gid >= nodes {
            r == Err::<Endpoints, RouteError>(RouteError::OutOfRange)
        } else {
            r == Ok::<Endpoints, RouteError>(Endpoints { sid, gid, virtual_start: false })
        },
        _ => match (req.start, req.goal) {
            (Some(start), Some(goal)) => if forall|id: u32| !#[trigger] is_node_at(s, goal, id) {
                r == Err::<Endpoints, RouteError>(RouteError::GoalTileNotFound)
            } else {
                &&& r is Ok
                &&& is_node_at(s, goal, r->Ok_0.gid)
                &&& r->Ok_0.virtual_start == forall|id: u32| !#[trigger] is_node_at(s, start, id)
                &&& if r->Ok_0.virtual_start {
                    r->Ok_0.sid == 0
                } else {
                    is_node_at(s, start, r->Ok_0.sid)
                }
            },
            _ => r == Err::<Endpoints, RouteError>(RouteError::MissingEndpoints),
        },
    }
}

/// The ends that a request asks for.
pub fn resolve_endpoints(snap: &Snapshot, req: &RouteRequest) -> (r: Result<Endpoints, RouteError>)
    requires
        snap.wf(),
    ensures
        resolves(*snap, *req, r),
        r is Ok ==> r->Ok_0.gid < snap.man().counts.nodes && (r->Ok_0.virtual_start || r->Ok_0.sid
            < snap.man().counts.nodes),
{
    let nodes: u32 = snap.counts().nodes;
    if let (Some(sid), Some(gid)) = (req.start_id, req.goal_id) {
        if sid >= nodes || gid >= nodes {
            return Err(RouteError::OutOfRange);
        }
        return Ok(Endpoints { sid, gid, virtual_start: false });
    }
    match (req.start, req.goal) {
        (Some(start), Some(goal)) => {
            let gid: u32 = match find_tile(snap, goal) {
                Some(id) => id,
                None => {
                    return Err(RouteError::GoalTileNotFound);
                },
            };
            assert(is_node_at(*snap, goal, gid));
            match find_tile(snap, start) {
                Some(sid) => {
                    assert(is_node_at(*snap, start, sid));
                    Ok(Endpoints { sid, gid, virtual_start: false })
                },
                None => Ok(Endpoints { sid: 0, gid, virtual_start: true }),
            }
        },
        _ => Err(RouteError::MissingEndpoints),
    }
}

/// Whether one thing that a caller has is the quick teleport.
pub open spec fn is_quick_tele(kv: RequirementKV) -> bool {
    ascii_lowered(trimmed(kv.key@)) == ascii_lowered("hasQuickTele"@) && match kv.value@ {
        JsonV::Num(n) => n == 1,
        JsonV::Bool(b) => b,
        JsonV::Str(s) => trimmed(s) == "1"@,
        _ => false,
    }
}

/// Whether a caller has the quick teleport.
pub fn req_has_quick_tele(reqs: &Vec<RequirementKV>) -> (r: bool)
    ensures
        r == exists|i: int| 0 <= i < reqs@.len() && is_quick_tele(#[trigger] reqs@[i]),
{
    let mut i: usize = 0;
    while i < reqs.len()
        invariant
            i <= reqs@.len(),
            forall|k: int| 0 <= k < i ==> !is_quick_tele(#[trigger] reqs@[k]),
        decreases reqs@.len() - i,
    {
        let kv: &RequirementKV = &reqs[i];
        if same_ignoring_ascii_case(trim(kv.key.as_str()), "hasQuickTele") {
            let one: bool = match kv.value.as_i64() {
                Some(n) => n == 1,
                None => false,
            };
            let yes: bool = match kv.value.as_bool() {
                Some(b) => b,
                None => false,
            };
            let text: bool = match kv.value.as_str() {
                Some(s) => same(trim(s), "1"),
                None => false,
            };
            if one || yes || text {
                assert(is_quick_tele(reqs@[i as int]));
                return true;
            }
        }
        assert(!is_quick_tele(reqs@[i as int]));
        i += 1;
    }
    false
}

/// What a value counts as: a number as it is, true as 1 and false as 0, a text that spells a
/// number as that number, another text as it is without white space around it.
pub enum ClientV {
    Num(int),
    Str(Seq<char>),
}

pub open spec fn client_view(v: ClientValue) -> ClientV {
    match v {
        ClientValue::Num(n) => ClientV::Num(n as int),
        ClientValue::Str(s) => ClientV::Str(s@),
    }
}

/// What a value counts as; lists, objects and numbers with a fraction count as nothing.
pub open spec fn counts_as(v: JsonV) -> Option<ClientV> {
    match v {
        JsonV::Num(n) => if i64::MIN <= n <= i64::MAX {
            Some(ClientV::Num(n))
        } else if 0 <= n <= u64::MAX {
            Some(ClientV::Num((n as u64) as i64 as int))
        } else {
            None
        },
        JsonV::Bool(b) => Some(ClientV::Num(if b { 1 } else { 0 })),
        JsonV::Str(s) => match signed_value(trimmed(s)) {
            Some(n) => if i64::MIN <= n <= i64::MAX {
                Some(ClientV::Num(n))
            } else {
                Some(ClientV::Str(trimmed(s)))
            },
            None => Some(ClientV::Str(trimmed(s))),
        },
        _ => None,
    }
}

fn client_value(v: &Json) -> (r: Option<ClientValue>)
    ensures
        match counts_as(v@) {
            Some(c) => r is Some && client_view(r->0) == c,
            None => r is None,
        },
{
    if let Some(n) = v.as_i64() {
        return Some(ClientValue::Num(n));
    }
    if let Some(u) = v.as_u64() {
        return Some(ClientValue::Num(u as i64));
    }
    if let Some(b) = v.as_bool() {
        return Some(ClientValue::Num(if b { 1 } else { 0 }));
    }
    if let Some(s) = v.as_str() {
        let t: &str = trim(s);
        return match parse_i64(t) {
            Some(n) => Some(ClientValue::Num(n)),
            None => Some(ClientValue::Str(owned(t))),
        };
    }
    None
}

/// What the first `k` things that a caller has count as, under their keys.
pub open spec fn client_list(reqs: Seq<RequirementKV>, k: int) -> Seq<(Seq<char>, ClientV)>
    decreases k,
{
    if k <= 0 {
        Seq::empty()
    } else {
        match counts_as(reqs[k - 1].value@) {
            Some(v) => client_list(reqs, k - 1).push((reqs[k - 1].key@, v)),
            None => client_list(reqs, k - 1),
        }
    }
}

/// What a list of entries holds.
pub open spec fn entries_view(e: Seq<ClientEntry>) -> Seq<(Seq<char>, ClientV)> {
    Seq::new(e.len(), |i: int| (e[i].key@, client_view(e[i].value)))
}

/// What a caller has, as it counts.
pub fn client_entries(reqs: &Vec<RequirementKV>) -> (r: Vec<ClientEntry>)
    ensures
        entries_view(r@) == client_list(reqs@, reqs@.len() as int),
{
    let mut out: Vec<ClientEntry> = Vec::new();
    let mut i: usize = 0;
    assert(entries_view(out@) =~= client_list(reqs@, 0));
    while i < reqs.len()
        invariant
            i <= reqs@.len(),
            entries_view(out@) == client_list(reqs@, i as int),
        decreases reqs@.len() - i,
    {
        if let Some(value) = client_value(&reqs[i].value) {
            let ghost before = out@;
            let e: ClientEntry = ClientEntry { key: owned(reqs[i].key.as_str()), value };
            out.push(e);
            assert(entries_view(out@) =~= entries_view(before).push((e.key@, client_view(e.value))));
        }
        i += 1;
    }
    out
}

/// Whether the mask says which tags of a snapshot a caller satisfies.
pub open spec fn mask_of(s: Snapshot, reqs: Seq<RequirementKV>, mask: Seq<bool>) -> bool {
    exists|e: Seq<ClientEntry>| #[trigger]
        entries_view(e) == client_list(reqs, reqs.len() as int) && mask.len() == tag_words(s).len() / 4 && forall|t: int|
            0 <= t < mask.len() ==> #[trigger] mask[t] == tag_met(tag_words(s), e, t)
}

/// Which tags of a snapshot a caller satisfies.
pub fn profile_mask(snap: &Snapshot, reqs: &Vec<RequirementKV>) -> (r: EligibilityMask)
    requires
        snap.wf(),
    ensures
        mask_of(*snap, reqs@, r.satisfied@),
{
    let entries: Vec<ClientEntry> = client_entries(reqs);
    let ghost e = entries@;
    let r: EligibilityMask = build_mask_from_u32(snap.req_tags(), &entries);
    assert(entries_view(e) == client_list(reqs@, reqs@.len() as int));
    r
}

/// The seed that counts, and whether one was passed over: none where seeds are switched off.
pub fn effective_seed(seed: Option<u64>, seeding_disabled: bool) -> (r: (Option<u64>, bool))
    ensures
        r == (if seeding_disabled { (None::<u64>, seed is Some) } else { (seed, false) }),
{
    if seeding_disabled {
        (None, seed.is_some())
    } else {
        (seed, false)
    }
}

/// The status that an error is answered with: 503 where the service cannot answer now, 504 where it was
/// too slow, and 400 where the request is wrong.
pub proof fn law_errors_have_their_status(e: RouteError)
    ensures
        e.code() == 503 <==> e is WarmingUp || e is SnapshotNotLoaded || e is AtCapacity,
        e.code() == 504 <==> e is DeadlineExceeded,
        e.code() == 400 <==> e is GoalTileNotFound || e is MissingEndpoints || e is OutOfRange,
{
}

/// The ids of a request count where both are given: they are the ends, where they are nodes, and the
/// request is out of range where one is not.
pub proof fn law_ids_are_the_ends(s: Snapshot, req: RouteRequest, sid: u32, gid: u32, r: Result<Endpoints, RouteError>)
    requires
        req.start_id == Some(sid) && req.goal_id == Some(gid),
        resolves(s, req, r),
    ensures
        sid < s.man().counts.nodes && gid < s.man().counts.nodes ==> r is Ok && r->Ok_0.sid == sid && r->Ok_0.gid == gid
            && !r->Ok_0.virtual_start,
        sid >= s.man().counts.nodes || gid >= s.man().counts.nodes ==> r is Err && r->Err_0 is OutOfRange,
{
}

/// Without both ids the tiles count: the ends are nodes that stand on them. A goal that is not on the map
/// is an error, a start that is not is entered elsewhere, and without both tiles the request lacks its
/// ends.
pub proof fn law_tiles_are_the_ends(s: Snapshot, req: RouteRequest, r: Result<Endpoints, RouteError>)
    requires
        req.start_id is None || req.goal_id is None,
        resolves(s, req, r),
    ensures
        req.start is None || req.goal is None ==> r is Err && r->Err_0 is MissingEndpoints,
        req.start is Some && req.goal is Some && r is Ok ==> is_node_at(s, req.goal->0, r->Ok_0.gid) && (r->Ok_0.virtual_start
            || is_node_at(s, req.start->0, r->Ok_0.sid)),
        req.start is Some && req.goal is Some && r is Err ==> r->Err_0 is GoalTileNotFound && forall|id: u32| !#[trigger]
            is_node_at(s, req.goal->0, id),
        r is Ok ==> (r->Ok_0.virtual_start <==> forall|id: u32| !#[trigger] is_node_at(s, req.start->0, id)),
{
}

/// What a value counts as: a number as itself, as far as 64 bits go; true as 1 and false as 0; a text
/// that spells a number as the number, and another as it is without the white space around it.
pub proof fn law_values_count(n: i64, b: bool, t: Seq<char>)
    ensures
        counts_as(JsonV::Num(n as int)) == Some(ClientV::Num(n as int)),
        counts_as(JsonV::Bool(b)) == Some(ClientV::Num(if b { 1 } else { 0 })),
        counts_as(JsonV::Null) is None,
        signed_value(trimmed(t)) == Some(n as int) ==> counts_as(JsonV::Str(t)) == Some(ClientV::Num(n as int)),
        signed_value(trimmed(t)) is None ==> counts_as(JsonV::Str(t)) == Some(ClientV::Str(trimmed(t))),
{
}

proof fn lemma_client_list(reqs: Seq<RequirementKV>, k: int)
    requires
        0 <= k <= reqs.len(),
    ensures
        client_list(reqs, k).len() <= k,
        forall|i: int|
            0 <= i < k && counts_as((#[trigger] reqs[i]).value@) is Some ==> client_list(reqs, k).contains(
                (reqs[i].key@, counts_as(reqs[i].value@)->0),
            ),
    decreases k,
{
    if k > 0 {
        lemma_client_list(reqs, k - 1);
        let (s, all) = (client_list(reqs, k - 1), client_list(reqs, k));
        assert forall|i: int| 0 <= i < k && counts_as((#[trigger] reqs[i]).value@) is Some implies all.contains(
            (reqs[i].key@, counts_as(reqs[i].value@)->0),
        ) by {
            let e = (reqs[i].key@, counts_as(reqs[i].value@)->0);
            if i < k - 1 {
                let j = choose|j: int| 0 <= j < s.len() && s[j] == e;
                assert(all[j] == e);
            } else {
                assert(all[all.len() - 1] == e);
            }
        }
    }
}

proof fn lemma_client_from(reqs: Seq<RequirementKV>, k: int, j: int) -> (i: int)
    requires
        0 <= k <= reqs.len(),
        0 <= j < client_list(reqs, k).len(),
    ensures
        0 <= i < k,
        counts_as(reqs[i].value@) == Some(client_list(reqs, k)[j].1),
        reqs[i].key@ == client_list(reqs, k)[j].0,
    decreases k,
{
    let s = client_list(reqs, k - 1);
    if j < s.len() {
        assert(client_list(reqs, k)[j] == s[j]);
        lemma_client_from(reqs, k - 1, j)
    } else {
        k - 1
    }
}

/// A caller that gives one value under the key of a tag satisfies the tag exactly where the value, as it
/// counts, is what the tag asks for; one that gives none under it does not satisfy it.
pub proof fn law_profiles_satisfy_tags(s: Snapshot, reqs: Seq<RequirementKV>, mask: Seq<bool>, t: int, i: int, n: i64)
    requires
        mask_of(s, reqs, mask),
        0 <= t < mask.len(),
        0 <= i < reqs.len(),
        counts_as(reqs[i].value@) == Some(ClientV::Num(n as int)),
        key_hash(reqs[i].key@) == tag_words(s)[4 * t + 1],
        forall|j: int|
            0 <= j < reqs.len() && j != i ==> key_hash((#[trigger] reqs[j]).key@) != tag_words(s)[4 * t + 1],
    ensures
        mask[t] == meets_tag(ClientValue::Num(n), tag_words(s)[4 * t + 2], tag_words(s)[4 * t + 3]),
{
    let k = reqs.len() as int;
    let w = tag_words(s);
    let hash = w[4 * t + 1];
    let list = client_list(reqs, k);
    let e = choose|e: Seq<ClientEntry>| #[trigger]
        entries_view(e) == list && mask.len() == w.len() / 4 && forall|x: int|
            0 <= x < mask.len() ==> #[trigger] mask[x] == tag_met(w, e, x);
    lemma_client_list(reqs, k);
    let want = (reqs[i].key@, ClientV::Num(n as int));
    assert(list.contains(want));
    let p = choose|p: int| 0 <= p < list.len() && list[p] == want;
    assert(entries_view(e)[p] == (e[p].key@, client_view(e[p].value)));
    assert(e[p].value == ClientValue::Num(n));
    law_tags_ask_the_last_value(w, e, t);
    assert forall|x: int| 0 <= x < e.len() && key_hash((#[trigger] e[x]).key@) == hash implies e[x].value
        == ClientValue::Num(n) by {
        assert(entries_view(e)[x] == (e[x].key@, client_view(e[x].value)));
        let y = lemma_client_from(reqs, k, x);
        assert(y == i) by {
            if y != i {
                assert(key_hash(reqs[y].key@) != hash);
            }
        }
    }
    if meets_tag(ClientValue::Num(n), w[4 * t + 2], w[4 * t + 3]) {
        assert(tag_met(w, e, t)) by {
            lemma_last_entry(e, hash, p);
        }
    }
}

/// Where an entry has the hash there is a last one that has it.
proof fn lemma_last_entry(e: Seq<ClientEntry>, hash: u32, p: int)
    requires
        0 <= p < e.len(),
        key_hash(e[p].key@) == hash,
    ensures
        exists|i: int|
            0 <= i < e.len() && key_hash((#[trigger] e[i]).key@) == hash && forall|j: int|
                i < j < e.len() ==> key_hash((#[trigger] e[j]).key@) != hash,
    decreases e.len() - p,
{
    if exists|j: int| p < j < e.len() && key_hash((#[trigger] e[j]).key@) == hash {
        let j = choose|j: int| p < j < e.len() && key_hash((#[trigger] e[j]).key@) == hash;
        lemma_last_entry(e, hash, j);
    } else {
        assert(key_hash(e[p].key@) == hash);
    }
}

/// A caller has the quick teleport exactly by a key that spells `hasquicktele`, whatever the case of its
/// letters and the white space round it, with the value 1, true, or a text that spells 1.
pub proof fn law_quick_teleports(kv: RequirementKV)
    ensures
        is_quick_tele(kv) <==> ascii_lowered(trimmed(kv.key@)) == "hasquicktele"@ && (kv.value@ == JsonV::Num(1) || kv.value@
            == JsonV::Bool(true) || (kv.value@ is Str && trimmed(kv.value@->Str_0) == "1"@)),
{
    reveal_strlit("hasQuickTele");
    reveal_strlit("hasquicktele");
    assert(ascii_lowered("hasQuickTele"@) =~= "hasquicktele"@);
}

}
