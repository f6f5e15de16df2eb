//! Clustered one-byte encoding of the landmark distance table.
//!
//! The plain table holds one `u16` per (node, lane): a node's row has `2 * landmarks`
//! lanes. Distances of neighbouring nodes are close, so rows are stored as one-byte
//! offsets from a per-cluster, per-lane base:
//!
//! ```text
//! record(c) = [ base: S x u16 ][ node 0: S x u8 ] ... [ node 15: S x u8 ]
//! ```
//!
//! A finite value that lies too far from its base is coded `CODE_UNKNOWN` and kept in an
//! exception list, sorted by (node, lane), behind the records.

use crate::snapshot::manifest::{ALT_SATURATED, ALT_UNREACHABLE};
use vstd::prelude::*;

verus! {

/// Nodes per cluster record.
pub const ALT_CLUSTER: usize = 16;

/// Largest exact offset.
pub const OFF_MAX: u8 = 252;

/// A finite value outside the cluster's offset range.
pub const CODE_UNKNOWN: u8 = 253;

/// `ALT_SATURATED`.
pub const CODE_SAT: u8 = 254;

/// `ALT_UNREACHABLE`.
pub const CODE_UNREACH: u8 = 255;

/// Bytes per exception entry: node (4), lane (2), value (2).
pub const EXCEPTION_BYTES: usize = 8;

/// What stands in for a `CODE_UNKNOWN` lane, per lane parity.
///
/// The substitute must never make a distance bound larger: the saturation marker disables
/// a lane that is subtracted, and zero understates a lane that is subtracted from. Neither
/// is the unreachable marker, so reachability stays exact.
#[derive(Clone, Copy, Debug, PartialEq, Eq, Structural)]
pub struct Unknown {
    pub even: u16,
    pub odd: u16,
}

impl Unknown {
    /// A node row in the forward heuristic.
    pub fn fwd_node() -> (r: Unknown)
        ensures
            r == (Unknown { even: ALT_SATURATED, odd: 0 }),
    {
        Unknown { even: ALT_SATURATED, odd: 0 }
    }

    /// The goal row in forward selection.
    pub fn goal() -> (r: Unknown)
        ensures
            r == (Unknown { even: 0, odd: ALT_SATURATED }),
    {
        Unknown { even: 0, odd: ALT_SATURATED }
    }

    /// A node row in the backward heuristic.
    pub fn rev_node() -> (r: Unknown)
        ensures
            r == (Unknown { even: ALT_SATURATED, odd: ALT_SATURATED }),
    {
        Unknown { even: ALT_SATURATED, odd: ALT_SATURATED }
    }

    /// An anchor row in the backward aggregation.
    pub fn anchor() -> (r: Unknown)
        ensures
            r == (Unknown { even: ALT_SATURATED, odd: 0 }),
    {
        Unknown { even: ALT_SATURATED, odd: 0 }
    }
}

/// Lanes per row.
pub open spec fn lanes(landmarks: int) -> int {
    2 * landmarks
}

/// Size of one cluster record in bytes.
pub open spec fn record_size(landmarks: int) -> int {
    18 * lanes(landmarks)
}

/// Number of clusters that hold `nodes` nodes.
pub open spec fn cluster_count(nodes: int) -> int {
    (nodes + 15) / 16
}

/// Size of all cluster records in bytes.
pub open spec fn records_size(nodes: int, landmarks: int) -> int {
    cluster_count(nodes) * record_size(landmarks)
}

/// Bytes of one cluster record for `landmarks` landmarks.
pub fn record_bytes(landmarks: usize) -> (r: usize)
    requires
        record_size(landmarks as int) <= usize::MAX,
    ensures
        r == record_size(landmarks as int),
{
    let s: usize = 2 * landmarks;
    2 * s + ALT_CLUSTER * s
}

/// Size of the cluster records for `nodes` nodes (the exception list follows).
pub fn packed_bytes(nodes: usize, landmarks: usize) -> (r: usize)
    requires
        record_size(landmarks as int) <= usize::MAX,
        records_size(nodes as int, landmarks as int) <= usize::MAX,
    ensures
        r == records_size(nodes as int, landmarks as int),
{
    let clusters: usize = nodes / ALT_CLUSTER + if nodes % ALT_CLUSTER != 0 { 1 } else { 0 };
    assert(clusters == cluster_count(nodes as int));
    clusters * record_bytes(landmarks)
}

// ---- the encoding, as a function of the plain table ----

/// The entry of node `u` in lane `lane` of a plain table with `s` lanes per row.
pub open spec fn entry(tab: Seq<u16>, s: int, u: int, lane: int) -> u16 {
    tab[u * s + lane]
}

/// The least exact value of a lane over the nodes `lo..hi`, or `0xFFFF` if none is exact.
pub open spec fn min_exact(tab: Seq<u16>, s: int, lane: int, lo: int, hi: int) -> u16
    decreases hi - lo,
{
    if hi <= lo {
        0xFFFF
    } else {
        let m = min_exact(tab, s, lane, lo, hi - 1);
        let v = entry(tab, s, hi - 1, lane);
        if v < ALT_SATURATED && v < m {
            v
        } else {
            m
        }
    }
}

/// One past the last node of cluster `c`.
pub open spec fn cluster_end(nodes: int, c: int) -> int {
    if 16 * c + 16 <= nodes {
        16 * c + 16
    } else {
        nodes
    }
}

/// The base of a lane in cluster `c`: its least exact value there, or zero.
pub open spec fn lane_base(tab: Seq<u16>, nodes: int, s: int, c: int, lane: int) -> u16 {
    let m = min_exact(tab, s, lane, 16 * c, cluster_end(nodes, c));
    if m == 0xFFFF {
        0
    } else {
        m
    }
}

/// The code of value `v` over base `base`.
pub open spec fn code_of(v: u16, base: u16) -> u8 {
    if v == ALT_UNREACHABLE {
        CODE_UNREACH
    } else if v == ALT_SATURATED {
        CODE_SAT
    } else if v - base <= OFF_MAX {
        (v - base) as u8
    } else {
        CODE_UNKNOWN
    }
}

/// Whether the entry needs an exception.
pub open spec fn is_exception(tab: Seq<u16>, nodes: int, s: int, u: int, lane: int) -> bool {
    let v = entry(tab, s, u, lane);
    v < ALT_SATURATED && v - lane_base(tab, nodes, s, u / 16, lane) > OFF_MAX
}

/// Byte `j` of the record of cluster `c`.
pub open spec fn record_byte(tab: Seq<u16>, nodes: int, s: int, c: int, j: int) -> u8 {
    if j < 2 * s {
        let b = lane_base(tab, nodes, s, c, j / 2);
        if j % 2 == 0 {
            (b % 256) as u8
        } else {
            (b / 256) as u8
        }
    } else {
        let i = (j - 2 * s) / s;
        let lane = (j - 2 * s) % s;
        let u = 16 * c + i;
        if u < nodes {
            code_of(entry(tab, s, u, lane), lane_base(tab, nodes, s, c, lane))
        } else {
            CODE_UNREACH
        }
    }
}

/// The cluster records.
pub open spec fn records(tab: Seq<u16>, nodes: int, landmarks: int) -> Seq<u8> {
    let s = lanes(landmarks);
    let rec = record_size(landmarks);
    Seq::new(
        records_size(nodes, landmarks) as nat,
        |k: int| record_byte(tab, nodes, s, k / rec, k % rec),
    )
}

/// The table positions below `k` that need an exception, in ascending order.
pub open spec fn exception_list(tab: Seq<u16>, nodes: int, s: int, k: int) -> Seq<int>
    decreases k,
{
    if k <= 0 {
        Seq::empty()
    } else {
        let rest = exception_list(tab, nodes, s, k - 1);
        if is_exception(tab, nodes, s, (k - 1) / s, (k - 1) % s) {
            rest.push(k - 1)
        } else {
            rest
        }
    }
}

/// Byte `b` of the exception entry for table position `k`.
pub open spec fn exception_byte(tab: Seq<u16>, s: int, k: int, b: int) -> u8 {
    let node = k / s;
    let lane = k % s;
    let v = tab[k] as int;
    if b == 0 {
        (node % 256) as u8
    } else if b == 1 {
        (node / 256 % 256) as u8
    } else if b == 2 {
        (node / 65536 % 256) as u8
    } else if b == 3 {
        (node / 16777216 % 256) as u8
    } else if b == 4 {
        (lane % 256) as u8
    } else if b == 5 {
        (lane / 256 % 256) as u8
    } else if b == 6 {
        (v % 256) as u8
    } else {
        (v / 256 % 256) as u8
    }
}

/// The exception entries for the positions in `list`, as bytes.
pub open spec fn exception_bytes(tab: Seq<u16>, s: int, list: Seq<int>) -> Seq<u8> {
    Seq::new(8 * list.len(), |p: int| exception_byte(tab, s, list[p / 8], p % 8))
}

/// The positions of `tab` that need an exception.
pub open spec fn all_exceptions(tab: Seq<u16>, nodes: int, landmarks: int) -> Seq<int> {
    exception_list(tab, nodes, lanes(landmarks), nodes * lanes(landmarks))
}

/// The whole packed section of `tab`.
pub open spec fn packed_section(tab: Seq<u16>, nodes: int, landmarks: int) -> Seq<u8> {
    records(tab, nodes, landmarks) + exception_bytes(
        tab,
        lanes(landmarks),
        all_exceptions(tab, nodes, landmarks),
    )
}

/// Whether `tab` is a plain table that the packed format can hold.
pub open spec fn packable(tab: Seq<u16>, nodes: int, landmarks: int) -> bool {
    &&& 0 < landmarks
    &&& lanes(landmarks) <= 0x1_0000
    &&& 0 <= nodes <= 0x1_0000_0000
    &&& tab.len() == nodes * lanes(landmarks)
}

// ---- arithmetic ----

proof fn lemma_pos_bound(u: int, nodes: int, s: int, lane: int)
    requires
        0 <= u < nodes,
        0 <= lane < s,
    ensures
        0 <= u * s + lane < nodes * s,
{
    assert(u * s >= 0 && u * s + s <= nodes * s) by (nonlinear_arith)
        requires
            0 <= u < nodes,
            0 < s,
    ;
}

proof fn lemma_div_mod(q: int, r: int, d: int)
    requires
        0 <= r < d,
        0 <= q,
    ensures
        (q * d + r) / d == q,
        (q * d + r) % d == r,
        q * d + r >= 0,
{
    vstd::arithmetic::div_mod::lemma_fundamental_div_mod_converse(q * d + r, d, q, r);
    assert(q * d >= 0) by (nonlinear_arith)
        requires
            0 <= q,
            0 < d,
    ;
}

proof fn lemma_div_mod_parts(k: int, d: int)
    requires
        0 <= k,
        0 < d,
    ensures
        0 <= k / d,
        0 <= k % d < d,
        k == (k / d) * d + k % d,
{
    vstd::arithmetic::div_mod::lemma_fundamental_div_mod(k, d);
    assert(d * (k / d) == (k / d) * d) by (nonlinear_arith);
    assert(k / d >= 0) by (nonlinear_arith)
        requires
            0 <= k,
            0 < d,
    ;
}

/// The base of a lane is at most each exact value of the lane in the cluster.
proof fn lemma_min_exact(tab: Seq<u16>, s: int, lane: int, lo: int, hi: int, u: int)
    requires
        lo <= u < hi,
        entry(tab, s, u, lane) < ALT_SATURATED,
    ensures
        min_exact(tab, s, lane, lo, hi) <= entry(tab, s, u, lane),
    decreases hi - lo,
{
    if u < hi - 1 {
        lemma_min_exact(tab, s, lane, lo, hi - 1, u);
    }
}

proof fn lemma_base_le(tab: Seq<u16>, nodes: int, s: int, u: int, lane: int)
    requires
        0 <= u < nodes,
        entry(tab, s, u, lane) < ALT_SATURATED,
    ensures
        lane_base(tab, nodes, s, u / 16, lane) <= entry(tab, s, u, lane),
{
    lemma_min_exact(tab, s, lane, 16 * (u / 16), cluster_end(nodes, u / 16), u);
}

// ---- encoding ----

/// Reads one entry of the plain table.
fn at(tab: &[u16], s: usize, u: usize, lane: usize) -> (r: u16)
    requires
        u * s + lane < tab@.len(),
    ensures
        r == entry(tab@, s as int, u as int, lane as int),
{
    let len: usize = tab.len();
    assert(u * s >= 0) by (nonlinear_arith);
    assert(u * s + lane < len);
    tab[u * s + lane]
}

/// The base of lane `lane` over the nodes `first..last`.
fn compute_base(tab: &[u16], s: usize, lane: usize, first: usize, last: usize) -> (r: u16)
    requires
        lane < s,
        first <= last,
        last * s <= tab@.len(),
    ensures
        r == ({
            let m = min_exact(tab@, s as int, lane as int, first as int, last as int);
            if m == 0xFFFF {
                0
            } else {
                m
            }
        }),
{
    let mut base: u16 = 0xFFFF;
    let mut u: usize = first;
    while u < last
        invariant
            lane < s,
            first <= u <= last,
            last * s <= tab@.len(),
            base == min_exact(tab@, s as int, lane as int, first as int, u as int),
        decreases last - u,
    {
        proof {
            lemma_pos_bound(u as int, last as int, s as int, lane as int);
        }
        let v: u16 = at(tab, s, u, lane);
        if v < ALT_SATURATED && v < base {
            base = v;
        }
        u += 1;
    }
    if base == 0xFFFF {
        0
    } else {
        base
    }
}

fn encode(v: u16, base: u16) -> (r: u8)
    requires
        v < ALT_SATURATED ==> base <= v,
    ensures
        r == code_of(v, base),
{
    if v == ALT_UNREACHABLE {
        CODE_UNREACH
    } else if v == ALT_SATURATED {
        CODE_SAT
    } else if v - base <= OFF_MAX as u16 {
        (v - base) as u8
    } else {
        CODE_UNKNOWN
    }
}

/// Appends the record of cluster `c`.
fn push_record(
    out: &mut Vec<u8>,
    tab: &[u16],
    nodes: usize,
    landmarks: usize,
    c: usize,
)
    requires
        packable(tab@, nodes as int, landmarks as int),
        c < cluster_count(nodes as int),
        old(out)@ == records(tab@, nodes as int, landmarks as int).take(
            c * record_size(landmarks as int),
        ),
        records_size(nodes as int, landmarks as int) <= usize::MAX,
    ensures
        final(out)@ == records(tab@, nodes as int, landmarks as int).take(
            (c + 1) * record_size(landmarks as int),
        ),
{
    let ghost n = nodes as int;
    let ghost lm = landmarks as int;
    let s: usize = 2 * landmarks;
    let ghost rec = record_size(lm);
    let ghost all = records(tab@, n, lm);
    assert((c + 1) * rec <= records_size(n, lm) && c * rec >= 0 && (c + 1) * rec == c * rec + rec)
        by (nonlinear_arith)
        requires
            0 <= c < cluster_count(n),
            rec > 0,
            records_size(n, lm) == cluster_count(n) * rec,
    ;
    let first: usize = c * ALT_CLUSTER;
    let last: usize = if nodes - first >= ALT_CLUSTER { first + ALT_CLUSTER } else { nodes };
    assert(last == cluster_end(n, c as int));
    assert(last * s <= tab@.len()) by (nonlinear_arith)
        requires
            last <= n,
            s > 0,
            tab@.len() == n * s,
    ;
    let mut bases: Vec<u16> = Vec::new();
    let mut lane: usize = 0;
    while lane < s
        invariant
            lane <= s,
            s == lanes(lm),
            n == nodes,
            lm == landmarks,
            rec == record_size(lm),
            all == records(tab@, n, lm),
            packable(tab@, n, lm),
            first == 16 * c,
            last == cluster_end(n, c as int),
            first <= last,
            last * s <= tab@.len(),
            c * rec >= 0,
            c * rec + rec <= all.len(),
            bases@.len() == lane,
            forall|l: int| 0 <= l < lane ==> bases@[l] == lane_base(tab@, n, s as int, c as int, l),
            out@ == all.take(c * rec + 2 * lane),
        decreases s - lane,
    {
        let b: u16 = compute_base(tab, s, lane, first, last);
        proof {
            lemma_div_mod(c as int, 2 * lane as int, rec);
            lemma_div_mod(c as int, 2 * lane + 1, rec);
        }
        out.push((b % 256) as u8);
        out.push((b / 256) as u8);
        assert(out@ =~= all.take(c * rec + 2 * (lane + 1)));
        bases.push(b);
        lane += 1;
    }
    let mut i: usize = 0;
    while i < ALT_CLUSTER
        invariant
            i <= 16,
            s == lanes(lm),
            n == nodes,
            lm == landmarks,
            rec == record_size(lm),
            all == records(tab@, n, lm),
            packable(tab@, n, lm),
            first == 16 * c,
            last == cluster_end(n, c as int),
            first <= last,
            last * s <= tab@.len(),
            c * rec >= 0,
            c * rec + rec <= all.len(),
            bases@.len() == s,
            forall|l: int| 0 <= l < s ==> bases@[l] == lane_base(tab@, n, s as int, c as int, l),
            out@ == all.take(c * rec + 2 * s + i * s),
        decreases 16 - i,
    {
        let mut lane: usize = 0;
        assert(i * s + s <= 16 * s && (i + 1) * s == i * s + s && 0 <= i * s) by (nonlinear_arith)
            requires
                0 <= i < 16,
                s > 0,
        ;
        while lane < s
            invariant
                lane <= s,
                i < 16,
                s == lanes(lm),
                n == nodes,
                lm == landmarks,
                rec == record_size(lm),
                all == records(tab@, n, lm),
                packable(tab@, n, lm),
                first == 16 * c,
                last == cluster_end(n, c as int),
                first <= last,
                last * s <= tab@.len(),
                c * rec >= 0,
                c * rec + rec <= all.len(),
                0 <= i * s,
                i * s + s <= 16 * s,
                bases@.len() == s,
                forall|l: int|
                    0 <= l < s ==> bases@[l] == lane_base(tab@, n, s as int, c as int, l),
                out@ == all.take(c * rec + 2 * s + i * s + lane),
            decreases s - lane,
        {
            proof {
                let j = 2 * s + i * s + lane;
                lemma_div_mod(c as int, j, rec);
                lemma_div_mod(i as int, lane as int, s as int);
            }
            let code: u8 = if i < last - first {
                let u: usize = first + i;
                proof {
                    lemma_pos_bound(u as int, last as int, s as int, lane as int);
                    assert(u as int / 16 == c);
                    if entry(tab@, s as int, u as int, lane as int) < ALT_SATURATED {
                        lemma_base_le(tab@, n, s as int, u as int, lane as int);
                    }
                }
                encode(at(tab, s, u, lane), bases[lane])
            } else {
                CODE_UNREACH
            };
            out.push(code);
            assert(out@ =~= all.take(c * rec + 2 * s + i * s + lane + 1));
            lane += 1;
        }
        i += 1;
    }
}

/// The exception list grows by the position just passed, or stays.
fn push_exception(out: &mut Vec<u8>, tab: &[u16], s: usize, u: usize, lane: usize, Ghost(list): Ghost<Seq<int>>, Ghost(head): Ghost<Seq<u8>>)
    requires
        lane < s <= 0x1_0000,
        u < 0x1_0000_0000,
        u * s + lane < tab@.len(),
        old(out)@ == head + exception_bytes(tab@, s as int, list),
    ensures
        final(out)@ == head + exception_bytes(tab@, s as int, list.push(u * s + lane)),
{
    proof {
        lemma_div_mod(u as int, lane as int, s as int);
    }
    let v: u16 = at(tab, s, u, lane);
    out.push((u % 256) as u8);
    out.push((u / 256 % 256) as u8);
    out.push((u / 65536 % 256) as u8);
    out.push((u / 16777216 % 256) as u8);
    out.push((lane % 256) as u8);
    out.push((lane / 256 % 256) as u8);
    out.push((v % 256) as u8);
    out.push((v / 256 % 256) as u8);
    assert(out@ =~= head + exception_bytes(tab@, s as int, list.push(u * s + lane)));
}

/// Encodes a plain table (`nodes * 2 * landmarks` entries): the section bytes (cluster
/// records, then exceptions) and the number of exceptions.
pub fn pack_alt(tab: &[u16], nodes: usize, landmarks: usize) -> (r: (Vec<u8>, u32))
    requires
        packable(tab@, nodes as int, landmarks as int),
        packed_section(tab@, nodes as int, landmarks as int).len() <= usize::MAX,
        all_exceptions(tab@, nodes as int, landmarks as int).len() <= u32::MAX,
    ensures
        r.0@ == packed_section(tab@, nodes as int, landmarks as int),
        r.1 == all_exceptions(tab@, nodes as int, landmarks as int).len(),
{
    let ghost n = nodes as int;
    let ghost lm = landmarks as int;
    let s: usize = 2 * landmarks;
    let ghost rec = record_size(lm);
    let clusters: usize = nodes / ALT_CLUSTER + if nodes % ALT_CLUSTER != 0 { 1 } else { 0 };
    let mut out: Vec<u8> = Vec::new();
    let mut c: usize = 0;
    assert(cluster_count(n) * rec >= 0) by (nonlinear_arith)
        requires
            cluster_count(n) >= 0,
            rec > 0,
    ;
    assert(out@ =~= records(tab@, n, lm).take(0 * rec));
    while c < clusters
        invariant
            c <= clusters,
            clusters == cluster_count(n),
            n == nodes,
            lm == landmarks,
            rec == record_size(lm),
            packable(tab@, n, lm),
            records_size(n, lm) <= usize::MAX,
            out@ == records(tab@, n, lm).take(c * rec),
        decreases clusters - c,
    {
        push_record(&mut out, tab, nodes, landmarks, c);
        c += 1;
    }
    let ghost head = records(tab@, n, lm);
    assert(head.take(clusters * rec) =~= head);
    let mut count: u32 = 0;
    let mut u: usize = 0;
    assert(out@ =~= head + exception_bytes(tab@, s as int, exception_list(tab@, n, s as int, 0)));
    while u < nodes
        invariant
            u <= nodes,
            n == nodes,
            lm == landmarks,
            s == lanes(lm),
            packable(tab@, n, lm),
            out@ == head + exception_bytes(
                tab@,
                s as int,
                exception_list(tab@, n, s as int, u * s),
            ),
            count == exception_list(tab@, n, s as int, u * s).len(),
            all_exceptions(tab@, n, lm).len() <= u32::MAX,
        decreases nodes - u,
    {
        let mut lane: usize = 0;
        while lane < s
            invariant
                lane <= s,
                u < nodes,
                n == nodes,
                lm == landmarks,
                s == lanes(lm),
                packable(tab@, n, lm),
                out@ == head + exception_bytes(
                    tab@,
                    s as int,
                    exception_list(tab@, n, s as int, u * s + lane),
                ),
                count == exception_list(tab@, n, s as int, u * s + lane).len(),
                all_exceptions(tab@, n, lm).len() <= u32::MAX,
            decreases s - lane,
        {
            let ghost list = exception_list(tab@, n, s as int, u * s + lane);
            proof {
                lemma_pos_bound(u as int, n, s as int, lane as int);
                lemma_div_mod(u as int, lane as int, s as int);
                lemma_exceptions_grow(tab@, n, s as int, u * s + lane + 1, n * s);
            }
            let v: u16 = at(tab, s, u, lane);
            if v < ALT_SATURATED {
                let first: usize = u / ALT_CLUSTER * ALT_CLUSTER;
                let last: usize = if nodes - first >= ALT_CLUSTER {
                    first + ALT_CLUSTER
                } else {
                    nodes
                };
                proof {
                    assert(last * s <= n * s) by (nonlinear_arith)
                        requires
                            last <= n,
                            s > 0,
                    ;
                    assert(last == cluster_end(n, u as int / 16));
                    assert(first == 16 * (u as int / 16));
                    lemma_base_le(tab@, n, s as int, u as int, lane as int);
                }
                let base: u16 = compute_base(tab, s, lane, first, last);
                if v - base > OFF_MAX as u16 {
                    push_exception(&mut out, tab, s, u, lane, Ghost(list), Ghost(head));
                    count += 1;
                }
            }
            lane += 1;
        }
        assert((u + 1) * s == u * s + s) by (nonlinear_arith);
        u += 1;
    }
    (out, count)
}

proof fn lemma_exceptions_grow(tab: Seq<u16>, nodes: int, s: int, a: int, b: int)
    requires
        a <= b,
    ensures
        exception_list(tab, nodes, s, a).len() <= exception_list(tab, nodes, s, b).len(),
    decreases b - a,
{
    if a < b {
        lemma_exceptions_grow(tab, nodes, s, a, b - 1);
    }
}

// ---- decoding ----

/// The node of exception `i`.
pub open spec fn exception_node(exc: Seq<u8>, i: int) -> int {
    exc[8 * i] + 256 * exc[8 * i + 1] + 65536 * exc[8 * i + 2] + 16777216 * exc[8 * i + 3]
}

/// The lane of exception `i`.
pub open spec fn exception_lane(exc: Seq<u8>, i: int) -> int {
    exc[8 * i + 4] + 256 * exc[8 * i + 5]
}

/// The value of exception `i`.
pub open spec fn exception_value(exc: Seq<u8>, i: int) -> u16 {
    (exc[8 * i + 6] + 256 * exc[8 * i + 7]) as u16
}

/// Whether the exceptions ascend by (node, lane), with no pair twice.
pub open spec fn exceptions_sorted(exc: Seq<u8>) -> bool {
    forall|i: int, j: int|
        #![trigger exception_node(exc, i), exception_node(exc, j)]
        0 <= i < j < exc.len() / 8 ==> exception_node(exc, i) < exception_node(exc, j) || (
        exception_node(exc, i) == exception_node(exc, j) && exception_lane(exc, i)
            < exception_lane(exc, j))
}

/// Whether exception `i` is the one of `lane` of node `u`.
pub open spec fn exception_is(exc: Seq<u8>, i: int, u: int, lane: int) -> bool {
    &&& 0 <= i < exc.len() / 8
    &&& exception_node(exc, i) == u
    &&& exception_lane(exc, i) == lane
}

/// The excepted value of `lane` of node `u`, if there is one.
pub open spec fn excepted(exc: Seq<u8>, u: int, lane: int) -> Option<u16> {
    if exists|i: int| exception_is(exc, i, u, lane) {
        Some(exception_value(exc, choose|i: int| exception_is(exc, i, u, lane)))
    } else {
        None
    }
}

/// The base of `lane` in the record of node `u`.
pub open spec fn stored_base(data: Seq<u8>, landmarks: int, u: int, lane: int) -> int {
    let p = (u / 16) * record_size(landmarks) + 2 * lane;
    data[p] + 256 * data[p + 1]
}

/// The code of `lane` of node `u`.
pub open spec fn stored_code(data: Seq<u8>, landmarks: int, u: int, lane: int) -> u8 {
    let s = lanes(landmarks);
    data[(u / 16) * record_size(landmarks) + 2 * s + (u % 16) * s + lane]
}

/// The value of `lane` of node `u`, with `unk` for a code that gives none.
pub open spec fn decoded(data: Seq<u8>, landmarks: int, u: int, lane: int, unk: Unknown) -> u16 {
    let code = stored_code(data, landmarks, u, lane);
    if code == CODE_UNREACH {
        ALT_UNREACHABLE
    } else if code == CODE_SAT {
        ALT_SATURATED
    } else if code == CODE_UNKNOWN {
        if lane % 2 == 0 {
            unk.even
        } else {
            unk.odd
        }
    } else {
        (stored_base(data, landmarks, u, lane) + code) as u16
    }
}

/// Whether no offset of node `u` carries its value past `u16`.
pub open spec fn offsets_fit(data: Seq<u8>, landmarks: int, u: int) -> bool {
    forall|lane: int|
        0 <= lane < lanes(landmarks) && #[trigger] stored_code(data, landmarks, u, lane) <= OFF_MAX
            ==> stored_base(data, landmarks, u, lane) + stored_code(data, landmarks, u, lane)
            <= 0xFFFF
}

/// The value of `lane` of node `u` with the exceptions looked up.
pub open spec fn decoded_exact(
    data: Seq<u8>,
    exc: Seq<u8>,
    landmarks: int,
    u: int,
    lane: int,
) -> u16 {
    match excepted(exc, u, lane) {
        Some(v) => v,
        None => decoded(
            data,
            landmarks,
            u,
            lane,
            Unknown { even: ALT_SATURATED, odd: 0 },
        ),
    }
}

/// A borrowed packed table.
#[derive(Clone, Copy)]
pub struct PackedAlt<'a> {
    /// Cluster records.
    pub data: &'a [u8],
    pub landmarks: usize,
    /// Exception entries, `EXCEPTION_BYTES` each.
    pub exceptions: &'a [u8],
}

impl<'a> PackedAlt<'a> {
    /// Whether the record of node `u` lies in the table.
    pub open spec fn has_node(self, u: int) -> bool {
        &&& 0 <= u
        &&& (u / 16 + 1) * record_size(self.landmarks as int) <= self.data@.len()
    }

    /// Splits a packed section (records, then exceptions) for `nodes` nodes.
    pub fn from_section(section: &'a [u8], nodes: usize, landmarks: usize) -> (r: Self)
        requires
            record_size(landmarks as int) <= usize::MAX,
            records_size(nodes as int, landmarks as int) <= section@.len(),
        ensures
            r.landmarks == landmarks,
            r.data@ == section@.take(records_size(nodes as int, landmarks as int)),
            r.exceptions@ == section@.skip(records_size(nodes as int, landmarks as int)).take(
                (section@.len() - records_size(nodes as int, landmarks as int)) / 8 * 8,
            ),
    {
        let len: usize = section.len();
        let rec: usize = packed_bytes(nodes, landmarks);
        let n: usize = (len - rec) / EXCEPTION_BYTES * EXCEPTION_BYTES;
        let data: &'a [u8] = &section[0..rec];
        let exceptions: &'a [u8] = &section[rec..rec + n];
        assert(exceptions@ =~= section@.skip(rec as int).take(n as int));
        PackedAlt { data, landmarks, exceptions }
    }

    fn exception(&self, i: usize) -> (r: (u32, u16, u16))
        requires
            i < self.exceptions@.len() / 8,
        ensures
            r.0 == exception_node(self.exceptions@, i as int),
            r.1 == exception_lane(self.exceptions@, i as int),
            r.2 == exception_value(self.exceptions@, i as int),
    {
        let e: &[u8] = self.exceptions;
        let len: usize = e.len();
        let p: usize = i * EXCEPTION_BYTES;
        (
            e[p] as u32 + 256 * e[p + 1] as u32 + 65536 * e[p + 2] as u32 + 16777216
                * e[p + 3] as u32,
            e[p + 4] as u16 + 256 * e[p + 5] as u16,
            e[p + 6] as u16 + 256 * e[p + 7] as u16,
        )
    }

    /// The bases of node `u`'s cluster (little-endian `u16`s) and the node's code row.
    pub fn parts(&self, u: usize) -> (r: (&'a [u8], &'a [u8]))
        requires
            self.has_node(u as int),
            self.landmarks > 0,
        ensures
            r.0@.len() == 2 * lanes(self.landmarks as int),
            r.1@.len() == lanes(self.landmarks as int),
            forall|lane: int|
                #![trigger r.1@[lane]]
                0 <= lane < lanes(self.landmarks as int) ==> r.1@[lane] == stored_code(
                    self.data@,
                    self.landmarks as int,
                    u as int,
                    lane,
                ) && r.0@[2 * lane] + 256 * r.0@[2 * lane + 1] == stored_base(
                    self.data@,
                    self.landmarks as int,
                    u as int,
                    lane,
                ),
    {
        let len: usize = self.data.len();
        let ghost rec = record_size(self.landmarks as int);
        let ghost q = u as int / 16;
        assert((q + 1) * rec == q * rec + rec && q * rec >= 0) by (nonlinear_arith)
            requires
                q >= 0,
                rec >= 0,
        ;
        let s: usize = 2 * self.landmarks;
        let size: usize = record_bytes(self.landmarks);
        let start: usize = (u / ALT_CLUSTER) * size;
        let i: usize = u % ALT_CLUSTER;
        assert(i * s >= 0 && i * s + s <= 16 * s) by (nonlinear_arith)
            requires
                0 <= i < 16,
                s >= 0,
        ;
        let row: usize = start + 2 * s + i * s;
        (&self.data[start..start + 2 * s], &self.data[row..row + s])
    }

    /// Decodes node `u`'s row into `out`, with the given substitute for unknown lanes.
    pub fn decode_row(&self, u: usize, unk: Unknown, out: &mut [u16])
        requires
            self.has_node(u as int),
            self.landmarks > 0,
            old(out)@.len() >= lanes(self.landmarks as int),
            offsets_fit(self.data@, self.landmarks as int, u as int),
        ensures
            final(out)@.len() == old(out)@.len(),
            forall|lane: int|
                0 <= lane < lanes(self.landmarks as int) ==> final(out)@[lane] == decoded(
                    self.data@,
                    self.landmarks as int,
                    u as int,
                    lane,
                    unk,
                ),
            forall|lane: int|
                lanes(self.landmarks as int) <= lane < old(out)@.len() ==> final(out)@[lane]
                    == old(out)@[lane],
    {
        let parts: (&[u8], &[u8]) = self.parts(u);
        let base: &[u8] = parts.0;
        let row: &[u8] = parts.1;
        let width: usize = base.len();
        let ghost before = out@;
        let mut lane: usize = 0;
        while lane < row.len()
            invariant
                lane <= row@.len(),
                self.landmarks > 0,
                row@.len() == lanes(self.landmarks as int),
                base@.len() == width,
                width == 2 * lanes(self.landmarks as int),
                offsets_fit(self.data@, self.landmarks as int, u as int),
                out@.len() == before.len(),
                before.len() >= row@.len(),
                forall|l: int|
                    #![trigger row@[l]]
                    0 <= l < row@.len() ==> row@[l] == stored_code(
                        self.data@,
                        self.landmarks as int,
                        u as int,
                        l,
                    ) && base@[2 * l] + 256 * base@[2 * l + 1] == stored_base(
                        self.data@,
                        self.landmarks as int,
                        u as int,
                        l,
                    ),
                forall|l: int|
                    0 <= l < lane ==> out@[l] == decoded(
                        self.data@,
                        self.landmarks as int,
                        u as int,
                        l,
                        unk,
                    ),
                forall|l: int| lane <= l < before.len() ==> out@[l] == before[l],
            decreases row@.len() - lane,
        {
            let code: u8 = row[lane];
            let b: u32 = base[2 * lane] as u32 + 256 * base[2 * lane + 1] as u32;
            out[lane] = if code == CODE_UNREACH {
                ALT_UNREACHABLE
            } else if code == CODE_SAT {
                ALT_SATURATED
            } else if code == CODE_UNKNOWN {
                if lane % 2 == 0 {
                    unk.even
                } else {
                    unk.odd
                }
            } else {
                (b + code as u32) as u16
            };
            lane += 1;
        }
    }

    /// Decodes node `u`'s row into `out`, with unknown lanes taken from the exceptions.
    pub fn decode_row_exact(&self, u: usize, out: &mut [u16])
        requires
            self.has_node(u as int),
            self.landmarks > 0,
            u <= u32::MAX,
            old(out)@.len() >= lanes(self.landmarks as int),
            offsets_fit(self.data@, self.landmarks as int, u as int),
            exceptions_sorted(self.exceptions@),
            forall|i: int|
                0 <= i < self.exceptions@.len() / 8 && #[trigger] exception_node(
                    self.exceptions@,
                    i,
                ) == u ==> exception_lane(self.exceptions@, i) < lanes(self.landmarks as int),
        ensures
            final(out)@.len() == old(out)@.len(),
            forall|lane: int|
                0 <= lane < lanes(self.landmarks as int) ==> final(out)@[lane] == decoded_exact(
                    self.data@,
                    self.exceptions@,
                    self.landmarks as int,
                    u as int,
                    lane,
                ),
            forall|lane: int|
                lanes(self.landmarks as int) <= lane < old(out)@.len() ==> final(out)@[lane]
                    == old(out)@[lane],
    {
        let ghost before = out@;
        self.decode_row(u, Unknown::fwd_node(), out);
        let ghost plain = out@;
        let ghost exc = self.exceptions@;
        let n: usize = self.exceptions.len() / EXCEPTION_BYTES;
        let mut lo: usize = 0;
        let mut hi: usize = n;
        while lo < hi
            invariant
                lo <= hi <= n,
                n == exc.len() / 8,
                exc == self.exceptions@,
                exceptions_sorted(exc),
                forall|i: int| 0 <= i < lo ==> #[trigger] exception_node(exc, i) < u,
                forall|i: int| hi <= i < n ==> #[trigger] exception_node(exc, i) >= u,
                u <= u32::MAX,
            decreases hi - lo,
        {
            let mid: usize = lo + (hi - lo) / 2;
            if self.exception(mid).0 < u as u32 {
                lo = mid + 1;
            } else {
                hi = mid;
            }
        }
        let first: usize = lo;
        let mut i: usize = first;
        while i < n
            invariant_except_break
                forall|k: int| first <= k < i ==> #[trigger] exception_node(exc, k) == u,
            invariant
                first <= i <= n,
                n == exc.len() / 8,
                exc == self.exceptions@,
                exceptions_sorted(exc),
                u <= u32::MAX,
                forall|k: int| 0 <= k < first ==> #[trigger] exception_node(exc, k) < u,
                forall|k: int| first <= k < n ==> #[trigger] exception_node(exc, k) >= u,
                out@.len() == plain.len(),
                plain.len() >= lanes(self.landmarks as int),
                forall|k: int|
                    0 <= k < n && #[trigger] exception_node(exc, k) == u ==> exception_lane(
                        exc,
                        k,
                    ) < lanes(self.landmarks as int),
                forall|k: int|
                    #![trigger exception_lane(exc, k)]
                    first <= k < i ==> out@[exception_lane(exc, k)] == exception_value(exc, k),
                forall|l: int|
                    0 <= l < plain.len() && (forall|k: int|
                        first <= k < i ==> #[trigger] exception_lane(exc, k) != l) ==> out@[l]
                        == plain[l],
            ensures
                forall|k: int| first <= k < i ==> #[trigger] exception_node(exc, k) == u,
                forall|k: int| i <= k < n ==> #[trigger] exception_node(exc, k) != u,
            decreases n - i,
        {
            let (node, lane, value) = self.exception(i);
            if node != u as u32 {
                assert forall|k: int| i <= k < n implies #[trigger] exception_node(exc, k) != u by {
                    assert(exception_node(exc, i as int) > u);
                }
                break;
            }
            let ghost prev = out@;
            out[lane as usize] = value;
            proof {
                assert forall|k: int|
                    #![trigger exception_lane(exc, k)]
                    first <= k < i + 1 implies out@[exception_lane(exc, k)] == exception_value(
                    exc,
                    k,
                ) by {
                    if k < i {
                        assert(exception_node(exc, k) == u);
                        assert(exception_node(exc, i as int) == u);
                        assert(exception_lane(exc, k) < exception_lane(exc, i as int));
                        assert(prev[exception_lane(exc, k)] == exception_value(exc, k));
                    }
                }
                assert forall|l: int|
                    0 <= l < plain.len() && (forall|k: int|
                        first <= k < i + 1 ==> #[trigger] exception_lane(exc, k)
                            != l) implies out@[l] == plain[l] by {
                    assert(exception_lane(exc, i as int) != l);
                    assert(prev[l] == plain[l]);
                }
            }
            i += 1;
        }
        proof {
            assert forall|l: int| 0 <= l < lanes(self.landmarks as int) implies out@[l]
                == decoded_exact(self.data@, exc, self.landmarks as int, u as int, l) by {
                if exists|k: int| exception_is(exc, k, u as int, l) {
                    let k = choose|k: int| exception_is(exc, k, u as int, l);
                    assert(exception_node(exc, k) == u);
                    assert(first <= k < i);
                    assert(out@[exception_lane(exc, k)] == exception_value(exc, k));
                } else {
                    assert forall|k: int| first <= k < i implies #[trigger] exception_lane(exc, k)
                        != l by {
                        assert(exception_node(exc, k) == u);
                        assert(!exception_is(exc, k, u as int, l));
                    }
                    assert(out@[l] == plain[l]);
                }
            }
            assert forall|l: int| lanes(self.landmarks as int) <= l < before.len() implies out@[l]
                == before[l] by {
                assert forall|k: int| first <= k < i implies #[trigger] exception_lane(exc, k)
                    != l by {
                    assert(exception_node(exc, k) == u);
                }
                assert(out@[l] == plain[l]);
            }
        }
    }
}

// ---- what the encoding keeps ----

/// The record of node `u` stores the base and the code of each of its lanes.
proof fn lemma_stored(tab: Seq<u16>, nodes: int, landmarks: int, u: int, lane: int)
    requires
        packable(tab, nodes, landmarks),
        0 <= u < nodes,
        0 <= lane < lanes(landmarks),
    ensures
        (u / 16 + 1) * record_size(landmarks) <= records(tab, nodes, landmarks).len(),
        stored_base(records(tab, nodes, landmarks), landmarks, u, lane) == lane_base(
            tab,
            nodes,
            lanes(landmarks),
            u / 16,
            lane,
        ),
        stored_code(records(tab, nodes, landmarks), landmarks, u, lane) == code_of(
            entry(tab, lanes(landmarks), u, lane),
            lane_base(tab, nodes, lanes(landmarks), u / 16, lane),
        ),
{
    let s = lanes(landmarks);
    let rec = record_size(landmarks);
    let c = u / 16;
    let i = u % 16;
    let n = cluster_count(nodes);
    assert((c + 1) * rec <= n * rec && (c + 1) * rec == c * rec + rec && c * rec >= 0)
        by (nonlinear_arith)
        requires
            0 <= c < n,
            rec > 0,
    ;
    assert(i * s >= 0 && i * s + s <= 16 * s) by (nonlinear_arith)
        requires
            0 <= i < 16,
            s > 0,
    ;
    lemma_div_mod(c, 2 * lane, rec);
    lemma_div_mod(c, 2 * lane + 1, rec);
    lemma_div_mod(c, 2 * s + i * s + lane, rec);
    lemma_div_mod(i, lane, s);
}

/// The exception list ascends and holds exactly the positions below `k` that need one.
proof fn lemma_exception_list(tab: Seq<u16>, nodes: int, s: int, k: int)
    ensures
        ({
            let l = exception_list(tab, nodes, s, k);
            &&& forall|i: int, j: int| 0 <= i < j < l.len() ==> l[i] < l[j]
            &&& forall|i: int|
                0 <= i < l.len() ==> 0 <= #[trigger] l[i] < k && is_exception(
                    tab,
                    nodes,
                    s,
                    l[i] / s,
                    l[i] % s,
                )
            &&& forall|p: int|
                0 <= p < k && is_exception(tab, nodes, s, p / s, p % s)
                    ==> #[trigger] l.contains(p)
        }),
    decreases k,
{
    if k > 0 {
        lemma_exception_list(tab, nodes, s, k - 1);
        let rest = exception_list(tab, nodes, s, k - 1);
        let l = exception_list(tab, nodes, s, k);
        assert forall|p: int|
            0 <= p < k && is_exception(tab, nodes, s, p / s, p % s) implies #[trigger] l.contains(
            p,
        ) by {
            if p < k - 1 {
                assert(rest.contains(p));
                let i = choose|i: int| 0 <= i < rest.len() && rest[i] == p;
                assert(l[i] == p);
            } else {
                assert(l[l.len() - 1] == p);
            }
        }
    }
}

proof fn lemma_four_bytes(n: int)
    requires
        0 <= n < 0x1_0000_0000,
    ensures
        n == n % 256 + 256 * (n / 256 % 256) + 65536 * (n / 65536 % 256) + 16777216 * (n / 16777216 % 256),
{
}

proof fn lemma_two_bytes(n: int)
    requires
        0 <= n < 0x1_0000,
    ensures
        n == n % 256 + 256 * (n / 256 % 256),
{
}

/// The bytes of an exception entry.
proof fn lemma_exception_at(tab: Seq<u16>, s: int, list: Seq<int>, i: int, b: int)
    requires
        0 <= i < list.len(),
        0 <= b < 8,
    ensures
        exception_bytes(tab, s, list)[8 * i + b] == exception_byte(tab, s, list[i], b),
{
    assert((8 * i + b) / 8 == i);
    assert((8 * i + b) % 8 == b);
}

/// An exception entry reads back as its node, lane and value.
proof fn lemma_exception_entry(tab: Seq<u16>, s: int, list: Seq<int>, i: int)
    requires
        0 < s <= 0x1_0000,
        0 <= i < list.len(),
        0 <= list[i] / s < 0x1_0000_0000,
        0 <= list[i] % s < s,
    ensures
        exception_node(exception_bytes(tab, s, list), i) == list[i] / s,
        exception_lane(exception_bytes(tab, s, list), i) == list[i] % s,
        exception_value(exception_bytes(tab, s, list), i) == tab[list[i]],
{
    let node = list[i] / s;
    let lane = list[i] % s;
    let v = tab[list[i]] as int;
    lemma_four_bytes(node);
    lemma_two_bytes(lane);
    lemma_two_bytes(v);
    lemma_exception_at(tab, s, list, i, 0);
    lemma_exception_at(tab, s, list, i, 1);
    lemma_exception_at(tab, s, list, i, 2);
    lemma_exception_at(tab, s, list, i, 3);
    lemma_exception_at(tab, s, list, i, 4);
    lemma_exception_at(tab, s, list, i, 5);
    lemma_exception_at(tab, s, list, i, 6);
    lemma_exception_at(tab, s, list, i, 7);
}

/// The records of a packed section.
pub open spec fn section_records(section: Seq<u8>, nodes: int, landmarks: int) -> Seq<u8> {
    section.take(records_size(nodes, landmarks))
}

/// The exceptions of a packed section.
pub open spec fn section_exceptions(section: Seq<u8>, nodes: int, landmarks: int) -> Seq<u8> {
    section.skip(records_size(nodes, landmarks)).take(
        (section.len() - records_size(nodes, landmarks)) / 8 * 8,
    )
}

proof fn lemma_section_split(tab: Seq<u16>, nodes: int, landmarks: int)
    requires
        packable(tab, nodes, landmarks),
    ensures
        ({
            let section = packed_section(tab, nodes, landmarks);
            &&& section_records(section, nodes, landmarks) == records(tab, nodes, landmarks)
            &&& section_exceptions(section, nodes, landmarks) == exception_bytes(
                tab,
                lanes(landmarks),
                all_exceptions(tab, nodes, landmarks),
            )
        }),
{
    let section = packed_section(tab, nodes, landmarks);
    let r = records(tab, nodes, landmarks);
    let e = exception_bytes(tab, lanes(landmarks), all_exceptions(tab, nodes, landmarks));
    assert(records_size(nodes, landmarks) >= 0) by (nonlinear_arith)
        requires
            records_size(nodes, landmarks) == cluster_count(nodes) * record_size(landmarks),
            cluster_count(nodes) >= 0,
            record_size(landmarks) >= 0,
    ;
    assert(section_records(section, nodes, landmarks) =~= r);
    assert(section_exceptions(section, nodes, landmarks) =~= e);
}

/// A section made by `pack_alt` meets what the decoders ask of it, for every node.
pub proof fn law_packed_is_decodable(tab: Seq<u16>, nodes: int, landmarks: int, u: int)
    requires
        packable(tab, nodes, landmarks),
        0 <= u < nodes,
    ensures
        ({
            let section = packed_section(tab, nodes, landmarks);
            let data = section_records(section, nodes, landmarks);
            let exc = section_exceptions(section, nodes, landmarks);
            &&& records_size(nodes, landmarks) <= section.len()
            &&& (u / 16 + 1) * record_size(landmarks) <= data.len()
            &&& offsets_fit(data, landmarks, u)
            &&& exceptions_sorted(exc)
            &&& forall|i: int|
                0 <= i < exc.len() / 8 ==> #[trigger] exception_node(exc, i) < nodes
                    && exception_lane(exc, i) < lanes(landmarks)
        }),
{
    let s = lanes(landmarks);
    lemma_section_split(tab, nodes, landmarks);
    let data = records(tab, nodes, landmarks);
    let list = all_exceptions(tab, nodes, landmarks);
    let exc = exception_bytes(tab, s, list);
    lemma_stored(tab, nodes, landmarks, u, 0);
    assert forall|lane: int|
        0 <= lane < s && #[trigger] stored_code(data, landmarks, u, lane)
            <= OFF_MAX implies stored_base(data, landmarks, u, lane) + stored_code(
        data,
        landmarks,
        u,
        lane,
    ) <= 0xFFFF by {
        lemma_stored(tab, nodes, landmarks, u, lane);
        lemma_base_le_if_exact(tab, nodes, s, u, lane);
    }
    lemma_exception_list(tab, nodes, s, nodes * s);
    assert forall|i: int| 0 <= i < list.len() implies 0 <= #[trigger] list[i] / s < nodes && 0
        <= list[i] % s < s by {
        lemma_div_mod_parts(list[i], s);
        let q = list[i] / s;
        assert(q < nodes) by (nonlinear_arith)
            requires
                q * s <= list[i],
                list[i] < nodes * s,
                s > 0,
        ;
    }
    assert forall|i: int| 0 <= i < exc.len() / 8 implies #[trigger] exception_node(exc, i) < nodes
        && exception_lane(exc, i) < s by {
        assert(0 <= list[i] / s < nodes);
        lemma_exception_entry(tab, s, list, i);
    }
    assert forall|i: int, j: int|
        #![trigger exception_node(exc, i), exception_node(exc, j)]
        0 <= i < j < exc.len() / 8 implies exception_node(exc, i) < exception_node(exc, j) || (
    exception_node(exc, i) == exception_node(exc, j) && exception_lane(exc, i) < exception_lane(
        exc,
        j,
    )) by {
        assert(0 <= list[i] / s < nodes);
        assert(0 <= list[j] / s < nodes);
        lemma_exception_entry(tab, s, list, i);
        lemma_exception_entry(tab, s, list, j);
        lemma_div_mod_parts(list[i], s);
        lemma_div_mod_parts(list[j], s);
        lemma_order(list[i] / s, list[i] % s, list[j] / s, list[j] % s, s);
    }
}

proof fn lemma_order(q1: int, r1: int, q2: int, r2: int, s: int)
    by (nonlinear_arith)
    requires
        0 <= r1 < s,
        0 <= r2 < s,
        q1 * s + r1 < q2 * s + r2,
    ensures
        q1 < q2 || (q1 == q2 && r1 < r2),
{
}

proof fn lemma_base_le_if_exact(tab: Seq<u16>, nodes: int, s: int, u: int, lane: int)
    requires
        0 <= u < nodes,
    ensures
        entry(tab, s, u, lane) < ALT_SATURATED ==> lane_base(tab, nodes, s, u / 16, lane) <= entry(
            tab,
            s,
            u,
            lane,
        ),
{
    if entry(tab, s, u, lane) < ALT_SATURATED {
        lemma_base_le(tab, nodes, s, u, lane);
    }
}

/// Packing loses nothing: the exact decoding of a packed table is the table.
pub proof fn law_exact_round_trip(tab: Seq<u16>, nodes: int, landmarks: int, u: int, lane: int)
    requires
        packable(tab, nodes, landmarks),
        0 <= u < nodes,
        0 <= lane < lanes(landmarks),
    ensures
        ({
            let section = packed_section(tab, nodes, landmarks);
            decoded_exact(
                section_records(section, nodes, landmarks),
                section_exceptions(section, nodes, landmarks),
                landmarks,
                u,
                lane,
            ) == entry(tab, lanes(landmarks), u, lane)
        }),
{
    let s = lanes(landmarks);
    let k = u * s + lane;
    lemma_section_split(tab, nodes, landmarks);
    lemma_stored(tab, nodes, landmarks, u, lane);
    lemma_base_le_if_exact(tab, nodes, s, u, lane);
    lemma_pos_bound(u, nodes, s, lane);
    lemma_div_mod(u, lane, s);
    let list = all_exceptions(tab, nodes, landmarks);
    let exc = exception_bytes(tab, s, list);
    lemma_exception_list(tab, nodes, s, nodes * s);
    assert forall|i: int| 0 <= i < list.len() implies #[trigger] exception_node(exc, i) == list[i]
        / s && exception_lane(exc, i) == list[i] % s && exception_value(exc, i) == tab[list[i]]
        && list[i] == exception_node(exc, i) * s + exception_lane(exc, i) by {
        lemma_div_mod_parts(list[i], s);
        let q = list[i] / s;
        assert(q < nodes) by (nonlinear_arith)
            requires
                q * s <= list[i],
                list[i] < nodes * s,
                s > 0,
        ;
        lemma_exception_entry(tab, s, list, i);
    }
    if is_exception(tab, nodes, s, u, lane) {
        assert(list.contains(k));
        let i = choose|i: int| 0 <= i < list.len() && list[i] == k;
        assert(exception_node(exc, i) == u);
        assert(exception_is(exc, i, u, lane));
        let w = choose|w: int| exception_is(exc, w, u, lane);
        assert(exception_node(exc, w) == u);
        assert(list[w] == k);
    } else {
        assert forall|i: int| !exception_is(exc, i, u, lane) by {
            if exception_is(exc, i, u, lane) {
                assert(exception_node(exc, i) == u);
                assert(list[i] == k);
            }
        }
    }
}

/// The substituting decoder changes only the entries that need an exception, so a lane that
/// is reachable stays reachable and one that is not stays unreachable, provided that neither
/// substitute is the unreachable marker.
pub proof fn law_substitution_is_local(
    tab: Seq<u16>,
    nodes: int,
    landmarks: int,
    u: int,
    lane: int,
    unk: Unknown,
)
    requires
        packable(tab, nodes, landmarks),
        0 <= u < nodes,
        0 <= lane < lanes(landmarks),
        unk.even != ALT_UNREACHABLE,
        unk.odd != ALT_UNREACHABLE,
    ensures
        ({
            let section = packed_section(tab, nodes, landmarks);
            let got = decoded(section_records(section, nodes, landmarks), landmarks, u, lane, unk);
            let want = entry(tab, lanes(landmarks), u, lane);
            &&& !is_exception(tab, nodes, lanes(landmarks), u, lane) ==> got == want
            &&& is_exception(tab, nodes, lanes(landmarks), u, lane) ==> got == if lane % 2 == 0 {
                unk.even
            } else {
                unk.odd
            }
            &&& got == ALT_UNREACHABLE <==> want == ALT_UNREACHABLE
        }),
{
    lemma_section_split(tab, nodes, landmarks);
    lemma_stored(tab, nodes, landmarks, u, lane);
    lemma_base_le_if_exact(tab, nodes, lanes(landmarks), u, lane);
}

/// What stands in for an unknown entry of a lane.
pub open spec fn substitute(unk: Unknown, lane: int) -> u16 {
    if lane % 2 == 0 { unk.even } else { unk.odd }
}

/// What one lane adds to a distance bound: how far one entry exceeds another, and nothing where
/// either of them is no exact value.
pub open spec fn bound_term(minuend: u16, subtrahend: u16) -> int {
    if minuend < ALT_SATURATED && subtrahend < ALT_SATURATED && subtrahend < minuend {
        minuend - subtrahend
    } else {
        0
    }
}

/// Substitution only weakens bounds: where the entry that is subtracted is replaced by the
/// saturation marker, and the entry that it is subtracted from by zero or by that marker, a lane
/// adds no more to a bound than it does with the exact entries.
pub proof fn law_bounds_only_weaken(
    tab: Seq<u16>,
    nodes: int,
    landmarks: int,
    u: int,
    v: int,
    lane: int,
    unk_u: Unknown,
    unk_v: Unknown,
)
    requires
        packable(tab, nodes, landmarks),
        0 <= u < nodes,
        0 <= v < nodes,
        0 <= lane < lanes(landmarks),
        substitute(unk_u, lane) == 0 || substitute(unk_u, lane) == ALT_SATURATED,
        substitute(unk_v, lane) == ALT_SATURATED,
    ensures
        ({
            let records = section_records(packed_section(tab, nodes, landmarks), nodes, landmarks);
            bound_term(decoded(records, landmarks, u, lane, unk_u), decoded(records, landmarks, v, lane, unk_v))
                <= bound_term(entry(tab, lanes(landmarks), u, lane), entry(tab, lanes(landmarks), v, lane))
        }),
{
    let same = substitute(unk_u, lane);
    law_substitution_is_local(tab, nodes, landmarks, u, lane, Unknown { even: same, odd: same });
    law_substitution_is_local(tab, nodes, landmarks, v, lane, Unknown { even: ALT_SATURATED, odd: ALT_SATURATED });
}

}
