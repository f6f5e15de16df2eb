//! Which nodes start a chain.

use crate::graph::nodes::{normalise_type, NodeTables};
use crate::graph::tables::NodeRow;
use crate::models::NodeRef;
use crate::text::same;
use vstd::prelude::*;
#[allow(unused_imports)]
use crate::graph::nodes::{next_ref, plain_name};
#[allow(unused_imports)]
use crate::models::NodeRefV;

verus! {

/// The nodes that other nodes hand on to. They start no chain of their own.
#[derive(Debug)]
pub struct ChainHeadIndex {
    non_heads: Vec<NodeRef>,
}

/// The nodes of a list.
pub open spec fn ref_set(s: Seq<NodeRef>) -> Set<NodeRefV>
    decreases s.len(),
{
    if s.len() == 0 { Set::empty() } else { ref_set(s.drop_last()).insert(s.last()@) }
}

impl View for ChainHeadIndex {
    type V = Set<NodeRefV>;

    closed spec fn view(&self) -> Set<NodeRefV> {
        ref_set(self.non_heads@)
    }
}

proof fn lemma_ref_set(s: Seq<NodeRef>, n: NodeRefV)
    ensures
        ref_set(s).contains(n) <==> exists|i: int| 0 <= i < s.len() && (#[trigger] s[i])@ == n,
    decreases s.len(),
{
    if s.len() > 0 {
        let short = s.drop_last();
        lemma_ref_set(short, n);
        if ref_set(s).contains(n) && s.last()@ != n {
            let i = choose|i: int| 0 <= i < short.len() && (#[trigger] short[i])@ == n;
            assert(s[i]@ == n);
        }
        if exists|i: int| 0 <= i < s.len() && (#[trigger] s[i])@ == n {
            let i = choose|i: int| 0 <= i < s.len() && (#[trigger] s[i])@ == n;
            if i < s.len() - 1 {
                assert(short[i]@ == n);
            }
        }
    }
}

impl ChainHeadIndex {
    pub fn new() -> (r: ChainHeadIndex)
        ensures
            r@ == Set::<NodeRefV>::empty(),
    {
        ChainHeadIndex { non_heads: Vec::new() }
    }

    /// Notes that a node is handed on to. White space round the name of its kind and the case of
    /// its letters do not count.
    pub fn add_non_head(&mut self, node_type: &str, id: i32)
        ensures
            final(self)@ == old(self)@.insert(NodeRefV { type_: plain_name(node_type@), id }),
    {
        if self.is_non_head(node_type, id) {
            assert(self@.insert(NodeRefV { type_: plain_name(node_type@), id }) =~= self@);
            return ;
        }
        let ghost before = self.non_heads@;
        self.non_heads.push(NodeRef { type_: normalise_type(node_type), id });
        assert(self.non_heads@.drop_last() =~= before);
    }

    pub fn is_non_head(&self, node_type: &str, id: i32) -> (r: bool)
        ensures
            r == self@.contains(NodeRefV { type_: plain_name(node_type@), id }),
    {
        let key: String = normalise_type(node_type);
        let ghost n = NodeRefV { type_: key@, id };
        proof {
            lemma_ref_set(self.non_heads@, n);
        }
        let mut i: usize = 0;
        while i < self.non_heads.len()
            invariant
                i <= self.non_heads@.len(),
                n == (NodeRefV { type_: key@, id }),
                key@ == plain_name(node_type@),
                forall|j: int| 0 <= j < i ==> (#[trigger] self.non_heads@[j])@ != n,
            decreases self.non_heads@.len() - i,
        {
            if self.non_heads[i].id == id && same(self.non_heads[i].type_.as_str(), key.as_str()) {
                proof {
                    assert(self.non_heads@[i as int]@ == n);
                    lemma_ref_set(self.non_heads@, n);
                }
                return true;
            }
            i += 1;
        }
        false
    }
}

/// Whether a row of the table hands on to a node.
pub open spec fn named_by(rows: Seq<NodeRow>, n: NodeRefV) -> bool {
    exists|i: int| 0 <= i < rows.len() && next_ref(#[trigger] rows[i]) == Some(n)
}

/// Whether a node hands on to a node.
pub open spec fn is_handed_to(t: NodeTables, n: NodeRefV) -> bool {
    named_by(t.doors@, n) || named_by(t.lodestones@, n) || named_by(t.objects@, n) || named_by(t.ifslots@, n) || named_by(
        t.npcs@,
        n,
    ) || named_by(t.items@, n)
}

fn add_rows(idx: &mut ChainHeadIndex, rows: &Vec<NodeRow>)
    ensures
        forall|n: NodeRefV| #[trigger] final(idx)@.contains(n) <==> old(idx)@.contains(n) || named_by(rows@, n),
{
    let ghost before = idx@;
    let mut i: usize = 0;
    while i < rows.len()
        invariant
            i <= rows@.len(),
            forall|n: NodeRefV| #[trigger] idx@.contains(n) <==> before.contains(n) || named_by(rows@.take(i as int), n),
        decreases rows@.len() - i,
    {
        let ghost have = idx@;
        match (&rows[i].next_node_type, rows[i].next_node_id) {
            (Some(t), Some(id)) => idx.add_non_head(t.as_str(), id),
            _ => {},
        }
        proof {
            let (a, b) = (rows@.take(i as int), rows@.take(i + 1));
            assert forall|n: NodeRefV| #[trigger] idx@.contains(n) <==> before.contains(n) || named_by(b, n) by {
                assert(have.contains(n) <==> before.contains(n) || named_by(a, n));
                assert(b[i as int] == rows@[i as int]);
                if named_by(a, n) {
                    let j = choose|j: int| 0 <= j < a.len() && next_ref(#[trigger] a[j]) == Some(n);
                    assert(next_ref(b[j]) == Some(n));
                }
                if named_by(b, n) && next_ref(rows@[i as int]) != Some(n) {
                    let j = choose|j: int| 0 <= j < b.len() && next_ref(#[trigger] b[j]) == Some(n);
                    assert(next_ref(a[j]) == Some(n));
                }
            }
        }
        i += 1;
    }
    assert(rows@.take(i as int) =~= rows@);
}

/// The nodes that some node hands on to.
pub fn build_chain_head_index(t: &NodeTables) -> (r: ChainHeadIndex)
    ensures
        forall|n: NodeRefV| #[trigger] r@.contains(n) <==> is_handed_to(*t, n),
{
    let mut idx: ChainHeadIndex = ChainHeadIndex::new();
    add_rows(&mut idx, t.doors.rows());
    add_rows(&mut idx, t.lodestones.rows());
    add_rows(&mut idx, t.objects.rows());
    add_rows(&mut idx, t.ifslots.rows());
    add_rows(&mut idx, t.npcs.rows());
    add_rows(&mut idx, t.items.rows());
    idx
}

/// The index, built when it is first asked for.
#[derive(Debug)]
pub struct ChainHeadIndexState {
    inner: Option<ChainHeadIndex>,
}

impl ChainHeadIndexState {
    pub closed spec fn built(self) -> Option<ChainHeadIndex> {
        self.inner
    }

    pub fn new() -> (r: ChainHeadIndexState)
        ensures
            r.built() is None,
    {
        ChainHeadIndexState { inner: None }
    }

    /// Builds the index where there is none yet.
    pub fn ensure_built(&mut self, t: &NodeTables)
        ensures
            final(self).built() is Some,
            match old(self).built() {
                Some(idx) => final(self).built() == Some(idx),
                None => forall|n: NodeRefV| #[trigger]
                    final(self).built()->0@.contains(n) <==> is_handed_to(*t, n),
            },
    {
        if self.inner.is_none() {
            self.inner = Some(build_chain_head_index(t));
        }
    }

    /// The index, where it was built.
    pub fn get(&self) -> (r: Option<&ChainHeadIndex>)
        ensures
            match self.built() {
                Some(idx) => r is Some && *r->0 == idx,
                None => r is None,
            },
    {
        match &self.inner {
            Some(idx) => Some(idx),
            None => None,
        }
    }
}

/// A node is handed to exactly where a row of one of the six tables names it as the next one.
pub proof fn law_every_table_counts(t: NodeTables, n: NodeRefV, i: int)
    ensures
        0 <= i < t.doors@.len() && next_ref(t.doors@[i]) == Some(n) ==> is_handed_to(t, n),
        0 <= i < t.lodestones@.len() && next_ref(t.lodestones@[i]) == Some(n) ==> is_handed_to(t, n),
        0 <= i < t.objects@.len() && next_ref(t.objects@[i]) == Some(n) ==> is_handed_to(t, n),
        0 <= i < t.ifslots@.len() && next_ref(t.ifslots@[i]) == Some(n) ==> is_handed_to(t, n),
        0 <= i < t.npcs@.len() && next_ref(t.npcs@[i]) == Some(n) ==> is_handed_to(t, n),
        0 <= i < t.items@.len() && next_ref(t.items@[i]) == Some(n) ==> is_handed_to(t, n),
        is_handed_to(t, n) ==> exists|k: int| #[trigger] is_named_at(t, n, k),
{
    if named_by(t.doors@, n) {
        let k = choose|k: int| 0 <= k < t.doors@.len() && next_ref(#[trigger] t.doors@[k]) == Some(n);
        assert(is_named_at(t, n, k));
    }
    if named_by(t.lodestones@, n) {
        let k = choose|k: int| 0 <= k < t.lodestones@.len() && next_ref(#[trigger] t.lodestones@[k]) == Some(n);
        assert(is_named_at(t, n, k));
    }
    if named_by(t.objects@, n) {
        let k = choose|k: int| 0 <= k < t.objects@.len() && next_ref(#[trigger] t.objects@[k]) == Some(n);
        assert(is_named_at(t, n, k));
    }
    if named_by(t.ifslots@, n) {
        let k = choose|k: int| 0 <= k < t.ifslots@.len() && next_ref(#[trigger] t.ifslots@[k]) == Some(n);
        assert(is_named_at(t, n, k));
    }
    if named_by(t.npcs@, n) {
        let k = choose|k: int| 0 <= k < t.npcs@.len() && next_ref(#[trigger] t.npcs@[k]) == Some(n);
        assert(is_named_at(t, n, k));
    }
    if named_by(t.items@, n) {
        let k = choose|k: int| 0 <= k < t.items@.len() && next_ref(#[trigger] t.items@[k]) == Some(n);
        assert(is_named_at(t, n, k));
    }
}

/// Whether row `k` of one of the tables names the node as the next one.
pub open spec fn is_named_at(t: NodeTables, n: NodeRefV, k: int) -> bool {
    ||| 0 <= k < t.doors@.len() && next_ref(t.doors@[k]) == Some(n)
    ||| 0 <= k < t.lodestones@.len() && next_ref(t.lodestones@[k]) == Some(n)
    ||| 0 <= k < t.objects@.len() && next_ref(t.objects@[k]) == Some(n)
    ||| 0 <= k < t.ifslots@.len() && next_ref(t.ifslots@[k]) == Some(n)
    ||| 0 <= k < t.npcs@.len() && next_ref(t.npcs@[k]) == Some(n)
    ||| 0 <= k < t.items@.len() && next_ref(t.items@[k]) == Some(n)
}

}
