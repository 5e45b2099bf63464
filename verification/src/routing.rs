use vstd::prelude::*;

use crate::key::{xor_bytes, Distance, Key};
use crate::metric::{bucket_index, bucket_index_of, lex_lt};
use crate::node::{nv_wf, Node, NodeV};
use crate::{K_PARAM, N_BUCKETS};

verus! {

/// A peer together with its distance to some target key.
#[derive(Debug)]
pub struct NodeAndDistance(pub Node, pub Distance);

/// Two entries compare equal when they lie at the same distance, as the
/// lookup treats them as interchangeable.
impl PartialEq for NodeAndDistance {
    fn eq(&self, other: &NodeAndDistance) -> (r: bool)
        ensures
            r == (self.1@ == other.1@),
    {
        let mut i: usize = 0;
        if self.1.0.len() != other.1.0.len() {
            return false;
        }
        while i < self.1.0.len()
            invariant
                i <= self.1@.len(),
                self.1@.len() == other.1@.len(),
                forall|j: int| 0 <= j < i ==> self.1@[j] == other.1@[j],
            decreases self.1@.len() - i,
        {
            if self.1.0[i] != other.1.0[i] {
                return false;
            }
            i = i + 1;
        }
        proof {
            assert(self.1@ =~= other.1@);
        }
        true
    }
}

impl vstd::std_specs::cmp::PartialEqSpecImpl for NodeAndDistance {
    open spec fn obeys_eq_spec() -> bool {
        true
    }

    open spec fn eq_spec(&self, other: &NodeAndDistance) -> bool {
        self.1@ == other.1@
    }
}

impl Clone for NodeAndDistance {
    fn clone(&self) -> (r: Self)
        ensures
            r.0@ == self.0@,
            r.1@ == self.1@,
    {
        NodeAndDistance(self.0.clone(), self.1.clone())
    }
}

/// An ordered list of at most K peers: head least recently seen, tail most
/// recently seen.
#[derive(Debug)]
pub struct KBucket {
    pub nodes: Vec<Node>,
    pub size: usize,
}

impl View for KBucket {
    type V = Seq<NodeV>;

    open spec fn view(&self) -> Seq<NodeV> {
        self.nodes@.map_values(|n: Node| n@)
    }
}

impl KBucket {
    /// Every resident is well formed, none is the owner, ids are unique,
    /// the bucket respects its capacity, and every resident's distance to
    /// the owner has the bucket's own index.
    pub open spec fn wf_at(&self, self_id: Seq<u8>, i: int) -> bool {
        &&& self.size == K_PARAM
        &&& self@.len() <= K_PARAM
        &&& forall|j: int| 0 <= j < self@.len() ==> nv_wf(#[trigger] self@[j])
        &&& forall|j: int| 0 <= j < self@.len() ==> (#[trigger] self@[j]).id != self_id
        &&& forall|j: int|
            0 <= j < self@.len() ==> bucket_index_of(
                xor_bytes(self_id, (#[trigger] self@[j]).id),
            ) == i
        &&& forall|j: int, k: int|
            0 <= j < k < self@.len() ==> (#[trigger] self@[j]).id != (#[trigger] self@[k]).id
    }

    pub open spec fn has_id(&self, id: Seq<u8>) -> bool {
        exists|j: int| 0 <= j < self@.len() && (#[trigger] self@[j]).id == id
    }

    pub fn new() -> (r: Self)
        ensures
            r@ == Seq::<NodeV>::empty(),
            r.size == K_PARAM,
    {
        let r = KBucket { nodes: Vec::new(), size: K_PARAM };
        proof {
            assert(r@ =~= Seq::<NodeV>::empty());
        }
        r
    }

    /// Position of the peer with this identifier, if it is resident.
    fn find(&self, id: &Key) -> (r: Option<usize>)
        ensures
            match r {
                Some(p) => p < self@.len() && self@[p as int].id == id@,
                None => forall|j: int| 0 <= j < self@.len() ==> (#[trigger] self@[j]).id != id@,
            },
    {
        let mut j: usize = 0;
        while j < self.nodes.len()
            invariant
                j <= self@.len(),
                self@.len() == self.nodes@.len(),
                forall|q: int| 0 <= q < j ==> (#[trigger] self@[q]).id != id@,
            decreases self.nodes@.len() - j,
        {
            if crate::key::eq_bytes(&self.nodes[j].id.0, &id.0) {
                return Some(j);
            }
            j = j + 1;
        }
        None
    }

    fn push_node(&mut self, node: Node)
        ensures
            final(self)@ == old(self)@.push(node@),
            final(self).size == old(self).size,
    {
        self.nodes.push(node);
        proof {
            assert(self@ =~= old(self)@.push(self.nodes@.last()@));
        }
    }

    fn remove_at(&mut self, p: usize) -> (r: Node)
        requires
            p < old(self)@.len(),
        ensures
            final(self)@ == old(self)@.remove(p as int),
            r@ == old(self)@[p as int],
            final(self).size == old(self).size,
    {
        let r = self.nodes.remove(p);
        proof {
            assert(self@ =~= old(self)@.remove(p as int));
        }
        r
    }
}

/// The whole partial view a node keeps of the network: one k-bucket for
/// each possible distance magnitude.
#[derive(Debug)]
pub struct RoutingTable {
    pub node: Node,
    pub kbuckets: Vec<KBucket>,
}

impl RoutingTable {
    pub open spec fn wf(&self) -> bool {
        &&& nv_wf(self.node@)
        &&& self.kbuckets@.len() == N_BUCKETS
        &&& forall|i: int|
            0 <= i < N_BUCKETS ==> (#[trigger] self.kbuckets@[i]).wf_at(self.node@.id, i)
    }

    /// The bucket a peer with this identifier belongs to.
    pub open spec fn bucket_of(&self, id: Seq<u8>) -> int {
        bucket_index_of(xor_bytes(self.node@.id, id)) as int
    }

    pub open spec fn contains_nv(&self, nv: NodeV) -> bool {
        exists|i: int, j: int|
            0 <= i < N_BUCKETS && 0 <= j < self.kbuckets@[i]@.len() && #[trigger] self.kbuckets@[i]@[j]
                == nv
    }

    /// Insert or refresh a peer. If its bucket already holds it, it moves
    /// to the tail; if the bucket has room, it is appended; if the bucket
    /// is full, nothing changes and the head peer is returned so that the
    /// caller can ping it and then settle the eviction with
    /// `apply_ping_outcome`.
    pub fn update(&mut self, node: Node) -> (r: Option<Node>)
        requires
            old(self).wf(),
            node.wf(),
        ensures
            final(self).wf(),
            final(self).node@ == old(self).node@,
            ({
                let i = old(self).bucket_of(node@.id);
                let ob = old(self).kbuckets@[i]@;
                let nb = final(self).kbuckets@[i]@;
                &&& (forall|q: int|
                    0 <= q < N_BUCKETS && q != i ==> (#[trigger] final(self).kbuckets@[q])@ == old(
                        self,
                    ).kbuckets@[q]@)
                &&& (node@.id != old(self).node@.id ==> nb == bucket_after_update(ob, node@))
                &&& if node@.id == old(self).node@.id {
                    nb == ob && r is None
                } else if ob.len() < K_PARAM || old(self).kbuckets@[i].has_id(node@.id) {
                    &&& r is None
                    &&& nb.len() <= ob.len() + 1
                    &&& nb.last() == node@
                    &&& (old(self).kbuckets@[i].has_id(node@.id) ==> nb.len() == ob.len())
                    &&& (!old(self).kbuckets@[i].has_id(node@.id) ==> nb == ob.push(node@))
                    &&& (forall|p: int|
                        0 <= p < ob.len() && ob[p].id == node@.id ==> nb == ob.remove(p).push(
                            node@,
                        ))
                } else {
                    &&& nb == ob
                    &&& (r matches Some(h) && h@ == ob[0])
                }
            }),
    {
        let d = Distance::new(&self.node.id, &node.id);
        let i = bucket_index(&d);
        if crate::key::eq_bytes(&self.node.id.0, &node.id.0) {
            return None;
        }
        let ghost ob = self.kbuckets@[i as int]@;
        let pos = self.kbuckets[i].find(&node.id);
        match pos {
            Some(p) => {
                let _ = self.kbuckets[i].remove_at(p);
                self.kbuckets[i].push_node(node);
                proof {
                    let nb = self.kbuckets@[i as int]@;
                    assert forall|p2: int|
                        0 <= p2 < ob.len() && ob[p2].id == node@.id implies nb == ob.remove(
                        p2,
                    ).push(node@) by {
                        assert(p2 == p);
                    }
                    assert(self.kbuckets@[i as int].wf_at(self.node@.id, i as int)) by {
                        assert forall|j: int, k: int|
                            0 <= j < k < nb.len() implies (#[trigger] nb[j]).id != (
                        #[trigger] nb[k]).id by {
                            lemma_remove_push_pairwise(ob, nb, p as int, node@, j, k);
                        }
                    }
                    let cp = choose|q: int| 0 <= q < ob.len() && (#[trigger] ob[q]).id == node@.id;
                    assert(cp == p);
                    assert(nb == bucket_after_update(ob, node@));
                }
                None
            },
            None => {
                if self.kbuckets[i].nodes.len() < K_PARAM {
                    self.kbuckets[i].push_node(node);
                    proof {
                        let nb = self.kbuckets@[i as int]@;
                        assert(nb == ob.push(node@));
                        assert(self.kbuckets@[i as int].wf_at(self.node@.id, i as int));
                        assert(nb == bucket_after_update(ob, node@));
                    }
                    None
                } else {
                    let head = self.kbuckets[i].nodes[0].clone();
                    proof {
                        assert(self.kbuckets@[i as int]@ == bucket_after_update(ob, node@));
                    }
                    Some(head)
                }
            },
        }
    }
}

impl RoutingTable {
    /// Settle a full-bucket insertion after the head peer was pinged. If
    /// the head answered, it moves to the tail and the candidate is
    /// dropped; if it did not, it is evicted and the candidate joins at
    /// the tail. Any intervening change (room appeared, or the candidate
    /// slipped in) falls back to the plain insert-or-refresh rules.
    pub fn apply_ping_outcome(&mut self, node: Node, head_alive: bool) -> (r: Option<Node>)
        requires
            old(self).wf(),
            node.wf(),
        ensures
            final(self).wf(),
            final(self).node@ == old(self).node@,
            ({
                let i = old(self).bucket_of(node@.id);
                let ob = old(self).kbuckets@[i]@;
                let nb = final(self).kbuckets@[i]@;
                &&& (forall|q: int|
                    0 <= q < N_BUCKETS && q != i ==> (#[trigger] final(self).kbuckets@[q])@ == old(
                        self,
                    ).kbuckets@[q]@)
                &&& r is None
                &&& if node@.id == old(self).node@.id {
                    nb == ob
                } else if old(self).kbuckets@[i].has_id(node@.id) || ob.len() < K_PARAM {
                    &&& nb.last() == node@
                    &&& (!old(self).kbuckets@[i].has_id(node@.id) ==> nb == ob.push(node@))
                    &&& (forall|p: int|
                        0 <= p < ob.len() && ob[p].id == node@.id ==> nb == ob.remove(p).push(
                            node@,
                        ))
                } else if head_alive {
                    // the long-lived head is kept and refreshed; the
                    // candidate is turned away
                    &&& nb == ob.remove(0).push(ob[0])
                    &&& nb.len() == ob.len()
                    &&& nb.last() == ob[0]
                    &&& !nb.contains(node@)
                } else {
                    // the unresponsive head is evicted; the candidate
                    // joins at the tail
                    &&& nb == ob.remove(0).push(node@)
                    &&& nb.len() == ob.len()
                    &&& nb.last() == node@
                    &&& !nb.contains(ob[0])
                }
            }),
    {
        let d = Distance::new(&self.node.id, &node.id);
        let i = bucket_index(&d);
        if crate::key::eq_bytes(&self.node.id.0, &node.id.0) {
            return None;
        }
        let ghost ob = self.kbuckets@[i as int]@;
        let pos = self.kbuckets[i].find(&node.id);
        match pos {
            Some(p) => {
                let _ = self.kbuckets[i].remove_at(p);
                self.kbuckets[i].push_node(node);
                proof {
                    let nb = self.kbuckets@[i as int]@;
                    assert forall|p2: int|
                        0 <= p2 < ob.len() && ob[p2].id == node@.id implies nb == ob.remove(
                        p2,
                    ).push(node@) by {
                        assert(p2 == p);
                    }
                    assert(self.kbuckets@[i as int].wf_at(self.node@.id, i as int)) by {
                        assert forall|j: int, k: int|
                            0 <= j < k < nb.len() implies (#[trigger] nb[j]).id != (
                        #[trigger] nb[k]).id by {
                            lemma_remove_push_pairwise(ob, nb, p as int, node@, j, k);
                        }
                    }
                }
                None
            },
            None => {
                if self.kbuckets[i].nodes.len() < K_PARAM {
                    self.kbuckets[i].push_node(node);
                    proof {
                        assert(self.kbuckets@[i as int].wf_at(self.node@.id, i as int));
                    }
                    None
                } else if head_alive {
                    let head = self.kbuckets[i].remove_at(0);
                    proof {
                        assert(head@ == ob[0]);
                    }
                    self.kbuckets[i].push_node(head);
                    proof {
                        let nb = self.kbuckets@[i as int]@;
                        assert(self.kbuckets@[i as int].wf_at(self.node@.id, i as int)) by {
                            assert forall|j: int, k: int|
                                0 <= j < k < nb.len() implies (#[trigger] nb[j]).id != (
                            #[trigger] nb[k]).id by {
                                lemma_remove_push_pairwise(ob, nb, 0, ob[0], j, k);
                            }
                        }
                        assert(!nb.contains(node@)) by {
                            assert forall|j: int| 0 <= j < nb.len() implies nb[j] != node@ by {
                                lemma_remove_push_member(ob, nb, 0, ob[0], j);
                                assert(nb[j].id != node@.id);
                            }
                        }
                    }
                    None
                } else {
                    let _ = self.kbuckets[i].remove_at(0);
                    self.kbuckets[i].push_node(node);
                    proof {
                        let nb = self.kbuckets@[i as int]@;
                        assert(self.kbuckets@[i as int].wf_at(self.node@.id, i as int)) by {
                            assert forall|j: int, k: int|
                                0 <= j < k < nb.len() implies (#[trigger] nb[j]).id != (
                            #[trigger] nb[k]).id by {
                                lemma_evict_push_pairwise(ob, nb, node@, j, k);
                            }
                        }
                        assert(!nb.contains(ob[0])) by {
                            assert forall|j: int| 0 <= j < nb.len() implies nb[j] != ob[0] by {
                                lemma_evict_push_member(ob, nb, node@, j);
                            }
                        }
                    }
                    None
                }
            },
        }
    }

    /// Drop a peer from its bucket; absent peers are left alone.
    pub fn remove(&mut self, node: &Node)
        requires
            old(self).wf(),
            node.wf(),
        ensures
            final(self).wf(),
            final(self).node@ == old(self).node@,
            ({
                let i = old(self).bucket_of(node@.id);
                let ob = old(self).kbuckets@[i]@;
                let nb = final(self).kbuckets@[i]@;
                &&& (forall|q: int|
                    0 <= q < N_BUCKETS && q != i ==> (#[trigger] final(self).kbuckets@[q])@ == old(
                        self,
                    ).kbuckets@[q]@)
                &&& !final(self).kbuckets@[i].has_id(node@.id)
                &&& (!old(self).kbuckets@[i].has_id(node@.id) ==> nb == ob)
                &&& (forall|p: int|
                    0 <= p < ob.len() && ob[p].id == node@.id ==> nb == ob.remove(p))
            }),
    {
        let d = Distance::new(&self.node.id, &node.id);
        let i = bucket_index(&d);
        let ghost ob = self.kbuckets@[i as int]@;
        let pos = self.kbuckets[i].find(&node.id);
        match pos {
            Some(p) => {
                let _ = self.kbuckets[i].remove_at(p);
                proof {
                    let nb = self.kbuckets@[i as int]@;
                    assert forall|p2: int|
                        0 <= p2 < ob.len() && ob[p2].id == node@.id implies nb == ob.remove(p2) by {
                        assert(p2 == p);
                    }
                    assert(!self.kbuckets@[i as int].has_id(node@.id)) by {
                        assert forall|j: int| 0 <= j < nb.len() implies nb[j].id != node@.id by {
                            let oj = if j < p { j } else { j + 1 };
                            assert(nb[j] == ob[oj]);
                        }
                    }
                    assert(self.kbuckets@[i as int].wf_at(self.node@.id, i as int)) by {
                        assert forall|j: int, k: int|
                            0 <= j < k < nb.len() implies (#[trigger] nb[j]).id != (
                        #[trigger] nb[k]).id by {
                            let oj = if j < p { j } else { j + 1 };
                            let ok = if k < p { k } else { k + 1 };
                            assert(nb[j] == ob[oj]);
                            assert(nb[k] == ob[ok]);
                        }
                    }
                }
            },
            None => {},
        }
    }

    /// A fresh table: every bucket empty, then the bootstrap peer, when
    /// one is known, inserted by the ordinary rules. The owner itself is
    /// never stored.
    pub fn new(node: Node, bootstrap: Option<Node>) -> (r: Self)
        requires
            node.wf(),
            bootstrap matches Some(b) ==> b.wf(),
        ensures
            r.wf(),
            r.node@ == node@,
            match bootstrap {
                None => forall|q: int|
                    0 <= q < N_BUCKETS ==> (#[trigger] r.kbuckets@[q])@ == Seq::<NodeV>::empty(),
                Some(b) => if b@.id == node@.id {
                    forall|q: int|
                        0 <= q < N_BUCKETS ==> (#[trigger] r.kbuckets@[q])@ == Seq::<
                            NodeV,
                        >::empty()
                } else {
                    &&& r.kbuckets@[r.bucket_of(b@.id)]@ == seq![b@]
                    &&& (forall|q: int|
                        0 <= q < N_BUCKETS && q != r.bucket_of(b@.id) ==> (
                        #[trigger] r.kbuckets@[q])@ == Seq::<NodeV>::empty())
                },
            },
    {
        let mut kbuckets: Vec<KBucket> = Vec::new();
        let mut q: usize = 0;
        while q < N_BUCKETS
            invariant
                q <= N_BUCKETS,
                kbuckets@.len() == q,
                forall|m: int|
                    0 <= m < q ==> (#[trigger] kbuckets@[m])@ == Seq::<NodeV>::empty()
                        && kbuckets@[m].size == K_PARAM,
            decreases N_BUCKETS - q,
        {
            kbuckets.push(KBucket::new());
            q = q + 1;
        }
        let mut ret = RoutingTable { node, kbuckets };
        match bootstrap {
            Some(b) => {
                let ghost i = ret.bucket_of(b@.id);
                proof {
                    crate::metric::lemma_bucket_index_of_range(xor_bytes(ret.node@.id, b@.id));
                }
                let _ = ret.update(b);
                proof {
                    if b@.id != ret.node@.id {
                        assert(ret.kbuckets@[i]@ =~= seq![b@]);
                    }
                }
                ret
            },
            None => ret,
        }
    }
}

/// What one insert-or-refresh leaves of a bucket: a known peer moves to
/// the tail, a new peer joins a bucket with room, and a full bucket is
/// left alone until its head has been pinged.
pub open spec fn bucket_after_update(b: Seq<NodeV>, n: NodeV) -> Seq<NodeV> {
    if exists|p: int| 0 <= p < b.len() && (#[trigger] b[p]).id == n.id {
        let p = choose|p: int| 0 <= p < b.len() && (#[trigger] b[p]).id == n.id;
        b.remove(p).push(n)
    } else if b.len() < K_PARAM {
        b.push(n)
    } else {
        b
    }
}

/// Inserting or refreshing the same peer twice in a row is the same as
/// doing it once: the second pass finds it at the tail and leaves the
/// bucket's contents and order unchanged.
pub proof fn lemma_update_idempotent(b: Seq<NodeV>, n: NodeV)
    requires
        forall|j: int, k: int| 0 <= j < k < b.len() ==> (#[trigger] b[j]).id != (#[trigger] b[k]).id,
        b.len() <= K_PARAM,
    ensures
        bucket_after_update(bucket_after_update(b, n), n) == bucket_after_update(b, n),
{
    let b1 = bucket_after_update(b, n);
    if exists|p: int| 0 <= p < b.len() && (#[trigger] b[p]).id == n.id {
        let p = choose|p: int| 0 <= p < b.len() && (#[trigger] b[p]).id == n.id;
        let rm = b.remove(p);
        assert(b1 == rm.push(n));
        assert(b1[b1.len() - 1].id == n.id);
        assert forall|j: int| 0 <= j < b1.len() - 1 implies (#[trigger] b1[j]).id != n.id by {
            let oj = if j < p { j } else { j + 1 };
            assert(b1[j] == b[oj]);
            if oj < p {
                assert(b[oj].id != b[p].id);
            } else {
                assert(b[p].id != b[oj].id);
            }
        }
        let p1 = choose|q: int| 0 <= q < b1.len() && (#[trigger] b1[q]).id == n.id;
        assert(p1 == b1.len() - 1);
        assert(b1.remove(b1.len() - 1) =~= rm);
        assert(bucket_after_update(b1, n) == b1);
    } else if b.len() < K_PARAM {
        assert(b1 == b.push(n));
        assert(b1[b1.len() - 1].id == n.id);
        assert forall|j: int| 0 <= j < b1.len() - 1 implies (#[trigger] b1[j]).id != n.id by {
            assert(b1[j] == b[j]);
        }
        let p1 = choose|q: int| 0 <= q < b1.len() && (#[trigger] b1[q]).id == n.id;
        assert(p1 == b1.len() - 1);
        assert(b1.remove(b1.len() - 1) =~= b);
        assert(bucket_after_update(b1, n) == b1);
    } else {
        assert(b1 == b);
    }
}

/// How many peers the table holds over a range of buckets.
pub open spec fn entries_count(bs: Seq<KBucket>) -> nat
    decreases bs.len(),
{
    if bs.len() == 0 {
        0
    } else {
        entries_count(bs.drop_last()) + bs.last()@.len()
    }
}

pub open spec fn nd_view(e: NodeAndDistance) -> (NodeV, Seq<u8>) {
    (e.0@, e.1@)
}

pub open spec fn nd_views(s: Seq<NodeAndDistance>) -> Seq<(NodeV, Seq<u8>)> {
    s.map_values(|e: NodeAndDistance| nd_view(e))
}

/// Sorts entries ascending by distance, keeping exactly the same entries.
fn sort_by_distance(v: Vec<NodeAndDistance>) -> (r: Vec<NodeAndDistance>)
    requires
        forall|m: int| 0 <= m < v@.len() ==> (#[trigger] v@[m]).1@.len() == crate::KEY_LEN,
    ensures
        r@.len() == v@.len(),
        nd_views(r@).to_multiset() == nd_views(v@).to_multiset(),
        forall|m: int, n: int| 0 <= m < n < r@.len() ==> !lex_lt(r@[n].1@, r@[m].1@),
        forall|m: int| 0 <= m < r@.len() ==> (#[trigger] r@[m]).1@.len() == crate::KEY_LEN,
    decreases v@.len(),
{
    broadcast use vstd::seq_lib::group_to_multiset_ensures;
    broadcast use vstd::multiset::group_multiset_axioms;

    let mut rem = v;
    let ghost orig = rem@;
    let mut out: Vec<NodeAndDistance> = Vec::new();
    proof {
        assert(nd_views(out@) =~= Seq::<(NodeV, Seq<u8>)>::empty());
        assert(nd_views(out@).to_multiset().add(nd_views(rem@).to_multiset()) =~= nd_views(
            orig,
        ).to_multiset());
    }
    while rem.len() > 0
        invariant
            out@.len() + rem@.len() == orig.len(),
            nd_views(out@).to_multiset().add(nd_views(rem@).to_multiset()) == nd_views(
                orig,
            ).to_multiset(),
            forall|m: int| 0 <= m < rem@.len() ==> (#[trigger] rem@[m]).1@.len() == crate::KEY_LEN,
            forall|m: int| 0 <= m < out@.len() ==> (#[trigger] out@[m]).1@.len() == crate::KEY_LEN,
            forall|m: int, n: int| 0 <= m < n < out@.len() ==> !lex_lt(out@[n].1@, out@[m].1@),
            forall|m: int, n: int|
                0 <= m < out@.len() && 0 <= n < rem@.len() ==> !lex_lt(
                    rem@[n].1@,
                    out@[m].1@,
                ),
        decreases rem@.len(),
    {
        // select the entry at the least distance
        proof {
            crate::metric::lemma_lex_irrefl(rem@[0].1@);
        }
        let mut p: usize = 0;
        let mut q: usize = 1;
        while q < rem.len()
            invariant
                p < q,
                q <= rem@.len(),
                rem@.len() > 0,
                forall|m: int|
                    0 <= m < rem@.len() ==> (#[trigger] rem@[m]).1@.len() == crate::KEY_LEN,
                forall|m: int| 0 <= m < q ==> !lex_lt((#[trigger] rem@[m]).1@, rem@[p as int].1@),
            decreases rem@.len() - q,
        {
            if rem[q].1.less(&rem[p].1) {
                proof {
                    assert forall|m: int| 0 <= m < q + 1 implies !lex_lt(
                        (#[trigger] rem@[m]).1@,
                        rem@[q as int].1@,
                    ) by {
                        if m < q {
                            if lex_lt(rem@[m].1@, rem@[q as int].1@) {
                                crate::metric::lemma_lex_lt_trans(
                                    rem@[m].1@,
                                    rem@[q as int].1@,
                                    rem@[p as int].1@,
                                );
                            }
                        } else {
                            crate::metric::lemma_lex_irrefl(rem@[q as int].1@);
                        }
                    }
                }
                p = q;
            } else {
                proof {
                    assert forall|m: int| 0 <= m < q + 1 implies !lex_lt(
                        (#[trigger] rem@[m]).1@,
                        rem@[p as int].1@,
                    ) by {
                        if m == q {
                            if lex_lt(rem@[q as int].1@, rem@[p as int].1@) {
                            }
                        }
                    }
                }
            }
            q = q + 1;
        }
        let ghost old_out = out@;
        let ghost old_rem = rem@;
        let x = rem.remove(p);
        out.push(x);
        proof {
            let xv = nd_view(x);
            assert(nd_views(out@) =~= nd_views(old_out).push(xv));
            assert(nd_views(rem@) =~= nd_views(old_rem).remove(p as int));
            assert(nd_views(old_rem)[p as int] == xv);
            assert(nd_views(old_rem).contains(xv));
            nd_views(old_out).to_multiset_ensures();
            nd_views(old_rem).to_multiset_ensures();
            assert(nd_views(old_out).push(xv).to_multiset() =~= nd_views(
                old_out,
            ).to_multiset().insert(xv));
            assert(nd_views(old_rem).remove(p as int).to_multiset() =~= nd_views(
                old_rem,
            ).to_multiset().remove(xv));
            assert(nd_views(out@).to_multiset() =~= nd_views(old_out).to_multiset().insert(xv));
            assert(nd_views(rem@).to_multiset() =~= nd_views(old_rem).to_multiset().remove(xv));
            assert(nd_views(out@).to_multiset().add(nd_views(rem@).to_multiset()) =~= nd_views(
                orig,
            ).to_multiset());
            // the selected entry stays below everything left over
            assert forall|m: int, n: int|
                0 <= m < out@.len() && 0 <= n < rem@.len() implies !lex_lt(
                rem@[n].1@,
                out@[m].1@,
            ) by {
                let on = if n < p { n } else { n + 1 };
                assert(rem@[n] == old_rem[on]);
                if m < out@.len() - 1 {
                    assert(out@[m] == old_out[m]);
                } else {
                    assert(out@[m] == x);
                    assert(!lex_lt(old_rem[on].1@, old_rem[p as int].1@));
                }
            }
            assert forall|m: int, n: int|
                0 <= m < n < out@.len() implies !lex_lt(out@[n].1@, out@[m].1@) by {
                if n == out@.len() - 1 {
                    assert(out@[n] == x);
                    assert(!lex_lt(old_rem[p as int].1@, old_out[m].1@));
                }
            }
        }
    }
    proof {
        assert(nd_views(rem@) =~= Seq::<(NodeV, Seq<u8>)>::empty());
        assert(nd_views(out@).to_multiset() =~= nd_views(orig).to_multiset());
    }
    out
}

/// Some collected entry is this peer.
pub open spec fn collected(all: Seq<NodeAndDistance>, nv: NodeV) -> bool {
    exists|m: int| 0 <= m < all.len() && (#[trigger] all[m]).0@ == nv
}

impl RoutingTable {
    /// The peer is stored somewhere before bucket `bi`, or in bucket `bi`
    /// before slot `j`: the part of the table a scan has already covered.
    pub open spec fn in_scanned_part(&self, nv: NodeV, bi: int, j: int) -> bool {
        exists|i2: int, j2: int|
            0 <= i2 < N_BUCKETS && 0 <= j2 < self.kbuckets@[i2]@.len() && (i2 < bi || (i2 == bi
                && j2 < j)) && #[trigger] self.kbuckets@[i2]@[j2] == nv
    }

    /// Conversely, everything the scan has passed is already collected.
    pub open spec fn scan_covered(&self, all: Seq<NodeAndDistance>, bi: int, j: int) -> bool {
        forall|i2: int, j2: int|
            0 <= i2 < N_BUCKETS && 0 <= j2 < self.kbuckets@[i2]@.len() && (i2 < bi || (i2 == bi
                && j2 < j)) ==> collected(all, #[trigger] self.kbuckets@[i2]@[j2])
    }
}

proof fn lemma_scanned_widen(rt: &RoutingTable, nv: NodeV, bi: int, j: int, bi2: int, j2: int)
    requires
        rt.in_scanned_part(nv, bi, j),
        bi < bi2 || (bi == bi2 && j <= j2),
    ensures
        rt.in_scanned_part(nv, bi2, j2),
{
    let (a, b) = choose|a: int, b: int|
        0 <= a < N_BUCKETS && 0 <= b < rt.kbuckets@[a]@.len() && (a < bi || (a == bi && b < j))
            && #[trigger] rt.kbuckets@[a]@[b] == nv;
    assert(0 <= a < N_BUCKETS && 0 <= b < rt.kbuckets@[a]@.len() && (a < bi2 || (a == bi2 && b
        < j2)) && rt.kbuckets@[a]@[b] == nv);
}

proof fn lemma_scanned_contains(rt: &RoutingTable, nv: NodeV, bi: int, j: int)
    requires
        rt.in_scanned_part(nv, bi, j),
    ensures
        rt.contains_nv(nv),
{
    let (a, b) = choose|a: int, b: int|
        0 <= a < N_BUCKETS && 0 <= b < rt.kbuckets@[a]@.len() && (a < bi || (a == bi && b < j))
            && #[trigger] rt.kbuckets@[a]@[b] == nv;
    assert(0 <= a < N_BUCKETS && 0 <= b < rt.kbuckets@[a]@.len() && rt.kbuckets@[a]@[b] == nv);
}

impl RoutingTable {
    /// The up-to-`count` peers nearest to a key, ascending by distance.
    /// Distances to a common key never tie, so the order is strict.
    pub fn get_closest_nodes(&self, key: &Key, count: usize) -> (r: Vec<NodeAndDistance>)
        requires
            self.wf(),
            key.wf(),
        ensures
            r@.len() == if count as nat <= entries_count(self.kbuckets@) {
                count as nat
            } else {
                entries_count(self.kbuckets@)
            },
            forall|m: int|
                0 <= m < r@.len() ==> self.contains_nv((#[trigger] r@[m]).0@) && r@[m].1@
                    == xor_bytes(r@[m].0@.id, key@),
            forall|m: int, n: int| 0 <= m < n < r@.len() ==> lex_lt(r@[m].1@, r@[n].1@),
            forall|m: int, n: int| 0 <= m < n < r@.len() ==> r@[m].0@.id != r@[n].0@.id,
            // nothing nearer was left out: a resident outside the result
            // lies strictly farther from the key than everything in it
            forall|nv: NodeV, m: int|
                #![trigger self.contains_nv(nv), r@[m]]
                self.contains_nv(nv) && !collected(r@, nv) && 0 <= m < r@.len() ==> lex_lt(
                    r@[m].1@,
                    xor_bytes(nv.id, key@),
                ),
    {
        let mut all: Vec<NodeAndDistance> = Vec::new();
        let mut bi: usize = 0;
        while bi < N_BUCKETS
            invariant
                self.wf(),
                key.wf(),
                bi <= N_BUCKETS,
                all@.len() == entries_count(self.kbuckets@.take(bi as int)),
                forall|m: int|
                    0 <= m < all@.len() ==> (#[trigger] all@[m]).1@ == xor_bytes(
                        all@[m].0@.id,
                        key@,
                    ),
                forall|m: int| 0 <= m < all@.len() ==> (#[trigger] all@[m]).1@.len() == crate::KEY_LEN,
                forall|m: int|
                    0 <= m < all@.len() ==> #[trigger] self.in_scanned_part(
                        all@[m].0@,
                        bi as int,
                        0,
                    ),
                forall|m: int, n: int| 0 <= m < n < all@.len() ==> (#[trigger] all@[m]).0@.id != (
                #[trigger] all@[n]).0@.id,
                self.scan_covered(all@, bi as int, 0),
            decreases N_BUCKETS - bi,
        {
            proof {
                assert forall|m: int| 0 <= m < all@.len() implies #[trigger] self.in_scanned_part(
                    all@[m].0@,
                    bi as int,
                    0,
                ) by {}
                assert forall|i2: int, j2: int|
                    0 <= i2 < N_BUCKETS && 0 <= j2 < self.kbuckets@[i2]@.len() && (i2 < bi as int
                        || (i2 == bi as int && j2 < 0)) implies collected(
                    all@,
                    #[trigger] self.kbuckets@[i2]@[j2],
                ) by {
                    assert(collected(all@, self.kbuckets@[i2]@[j2]));
                }
            }
            let mut j: usize = 0;
            while j < self.kbuckets[bi].nodes.len()
                invariant
                    self.wf(),
                    key.wf(),
                    bi < N_BUCKETS,
                    j <= self.kbuckets@[bi as int]@.len(),
                    all@.len() == entries_count(self.kbuckets@.take(bi as int)) + j,
                    forall|m: int|
                        0 <= m < all@.len() ==> (#[trigger] all@[m]).1@ == xor_bytes(
                            all@[m].0@.id,
                            key@,
                        ),
                    forall|m: int| 0 <= m < all@.len() ==> (#[trigger] all@[m]).1@.len() == crate::KEY_LEN,
                    forall|m: int|
                        0 <= m < all@.len() ==> #[trigger] self.in_scanned_part(
                            all@[m].0@,
                            bi as int,
                            j as int,
                        ),
                    forall|m: int, n: int|
                        0 <= m < n < all@.len() ==> (#[trigger] all@[m]).0@.id != (
                        #[trigger] all@[n]).0@.id,
                    self.scan_covered(all@, bi as int, j as int),
                decreases self.kbuckets@[bi as int]@.len() - j,
            {
                proof {
                    assert(self.kbuckets@[bi as int].wf_at(self.node@.id, bi as int));
                    assert(nv_wf(self.kbuckets@[bi as int]@[j as int]));
                }
                let n = &self.kbuckets[bi].nodes[j];
                let d = Distance::new(&n.id, key);
                let ghost olda = all@;
                all.push(NodeAndDistance(n.clone(), d));
                proof {
                    let e = all@[olda.len() as int];
                    assert(e.0@ == self.kbuckets@[bi as int]@[j as int]);
                    assert forall|m: int| 0 <= m < olda.len() implies (#[trigger] olda[m]).0@.id
                        != e.0@.id by {
                        assert(self.in_scanned_part(olda[m].0@, bi as int, j as int));
                        let (i2, j2) = choose|i2: int, j2: int|
                            0 <= i2 < N_BUCKETS && 0 <= j2 < self.kbuckets@[i2]@.len() && (i2
                                < bi || (i2 == bi && j2 < j))
                                && #[trigger] self.kbuckets@[i2]@[j2] == olda[m].0@;
                        if olda[m].0@.id == e.0@.id {
                            assert(bucket_index_of(xor_bytes(self.node@.id, olda[m].0@.id))
                                == i2);
                            assert(bucket_index_of(xor_bytes(self.node@.id, e.0@.id))
                                == bi as int);
                            assert(i2 == bi as int);
                            assert(self.kbuckets@[i2]@[j2].id != self.kbuckets@[i2]@[j as int].id);
                        }
                    }
                    assert forall|m: int| 0 <= m < all@.len() implies
                        #[trigger] self.in_scanned_part(all@[m].0@, bi as int, j + 1) by {
                        if m < olda.len() {
                            assert(all@[m] == olda[m]);
                            lemma_scanned_widen(
                                self,
                                all@[m].0@,
                                bi as int,
                                j as int,
                                bi as int,
                                j + 1,
                            );
                        } else {
                            assert(all@[m] == e);
                            assert(0 <= bi < N_BUCKETS && 0 <= j
                                < self.kbuckets@[bi as int]@.len() && (bi < bi as int || (bi
                                == bi as int && j < j + 1)) && self.kbuckets@[bi as int]@[j as int]
                                == e.0@);
                        }
                    }
                    assert forall|i2: int, j2: int|
                        0 <= i2 < N_BUCKETS && 0 <= j2 < self.kbuckets@[i2]@.len() && (i2
                            < bi as int || (i2 == bi as int && j2 < j + 1)) implies collected(
                        all@,
                        #[trigger] self.kbuckets@[i2]@[j2],
                    ) by {
                        if i2 == bi as int && j2 == j as int {
                            assert(all@[olda.len() as int].0@ == self.kbuckets@[i2]@[j2]);
                        } else {
                            assert(collected(olda, self.kbuckets@[i2]@[j2]));
                            let m = choose|m: int|
                                0 <= m < olda.len() && (#[trigger] olda[m]).0@
                                    == self.kbuckets@[i2]@[j2];
                            assert(all@[m].0@ == self.kbuckets@[i2]@[j2]);
                        }
                    }
                }
                j = j + 1;
            }
            proof {
                let t1 = self.kbuckets@.take(bi as int + 1);
                assert(t1.drop_last() =~= self.kbuckets@.take(bi as int));
                assert(t1.last() == self.kbuckets@[bi as int]);
                let blen = self.kbuckets@[bi as int]@.len() as int;
                assert forall|m: int| 0 <= m < all@.len() implies #[trigger] self.in_scanned_part(
                    all@[m].0@,
                    bi + 1,
                    0,
                ) by {
                    assert(self.in_scanned_part(all@[m].0@, bi as int, blen));
                    lemma_scanned_widen(self, all@[m].0@, bi as int, blen, bi + 1, 0);
                }
                assert forall|i2: int, j2: int|
                    0 <= i2 < N_BUCKETS && 0 <= j2 < self.kbuckets@[i2]@.len() && (i2 < bi + 1 || (
                    i2 == bi + 1 && j2 < 0)) implies collected(
                    all@,
                    #[trigger] self.kbuckets@[i2]@[j2],
                ) by {
                    assert(collected(all@, self.kbuckets@[i2]@[j2]));
                }
            }
            bi = bi + 1;
        }
        proof {
            assert(self.kbuckets@.take(N_BUCKETS as int) =~= self.kbuckets@);
        }
        let ghost allv = all@;
        let mut r = sort_by_distance(all);
        proof {
            broadcast use vstd::multiset::group_multiset_axioms;

            nd_views(allv).to_multiset_ensures();
            nd_views(r@).to_multiset_ensures();
            assert(nd_views(allv).no_duplicates()) by {
                assert forall|m: int, n: int|
                    0 <= m < nd_views(allv).len() && 0 <= n < nd_views(allv).len() && m
                        != n implies nd_views(allv)[m] != nd_views(allv)[n] by {
                    if m < n {
                        assert(allv[m].0@.id != allv[n].0@.id);
                    } else {
                        assert(allv[n].0@.id != allv[m].0@.id);
                    }
                }
            }
            nd_views(allv).lemma_multiset_has_no_duplicates();
            nd_views(r@).lemma_multiset_has_no_duplicates_conv();
            // every sorted entry is one of the collected entries
            assert forall|m: int| 0 <= m < r@.len() implies self.contains_nv(
                (#[trigger] r@[m]).0@,
            ) && r@[m].1@ == xor_bytes(r@[m].0@.id, key@) by {
                let pair = nd_views(r@)[m];
                assert(nd_views(r@).contains(pair));
                assert(nd_views(r@).to_multiset().count(pair) > 0);
                assert(nd_views(allv).contains(pair));
                let q = choose|q: int| 0 <= q < nd_views(allv).len() && nd_views(allv)[q] == pair;
                assert(allv[q].0@ == pair.0 && allv[q].1@ == pair.1);
                assert(self.in_scanned_part(allv[q].0@, N_BUCKETS as int, 0));
                lemma_scanned_contains(self, allv[q].0@, N_BUCKETS as int, 0);
                assert(self.contains_nv(pair.0));
            }
            // two sorted entries never share an identifier
            assert forall|m: int, n: int| 0 <= m < n < r@.len() implies (#[trigger] r@[m]).0@.id
                != (#[trigger] r@[n]).0@.id by {
                let pm = nd_views(r@)[m];
                let pn = nd_views(r@)[n];
                assert(nd_views(r@).contains(pm));
                assert(nd_views(r@).contains(pn));
                assert(nd_views(r@).no_duplicates());
                assert(pm != pn);
                if pm.0.id == pn.0.id {
                    assert(nd_views(allv).contains(pm));
                    assert(nd_views(allv).contains(pn));
                    let qm = choose|q: int|
                        0 <= q < nd_views(allv).len() && nd_views(allv)[q] == pm;
                    let qn = choose|q: int|
                        0 <= q < nd_views(allv).len() && nd_views(allv)[q] == pn;
                    assert(qm != qn ==> allv[qm].0@.id != allv[qn].0@.id);
                    assert(qm == qn);
                }
            }
            // and therefore the order is strict
            assert forall|m: int, n: int| 0 <= m < n < r@.len() implies lex_lt(
                (#[trigger] r@[m]).1@,
                (#[trigger] r@[n]).1@,
            ) by {
                assert(!lex_lt(r@[n].1@, r@[m].1@));
                if !lex_lt(r@[m].1@, r@[n].1@) {
                    crate::metric::lemma_lex_total(r@[m].1@, r@[n].1@);
                    assert(r@[m].1@ == r@[n].1@);
                    crate::metric::lemma_distance_injective(r@[m].0@.id, r@[n].0@.id, key@);
                }
            }
        }
        let ghost sortedv = r@;
        r.truncate(count);
        proof {
            if count <= sortedv.len() {
                assert(r@ == sortedv.subrange(0, count as int));
            } else {
                assert(r@ == sortedv);
            }
            assert forall|m: int| 0 <= m < r@.len() implies r@[m] == sortedv[m] by {}
            broadcast use vstd::multiset::group_multiset_axioms;

            nd_views(allv).to_multiset_ensures();
            nd_views(sortedv).to_multiset_ensures();
            assert forall|nv: NodeV, m: int|
                #![trigger self.contains_nv(nv), r@[m]]
                self.contains_nv(nv) && !collected(r@, nv) && 0 <= m < r@.len() implies lex_lt(
                r@[m].1@,
                xor_bytes(nv.id, key@),
            ) by {
                let (i2, j2) = choose|i2: int, j2: int|
                    0 <= i2 < N_BUCKETS && 0 <= j2 < self.kbuckets@[i2]@.len()
                        && #[trigger] self.kbuckets@[i2]@[j2] == nv;
                assert(self.scan_covered(allv, N_BUCKETS as int, 0));
                assert(collected(allv, self.kbuckets@[i2]@[j2]));
                let q = choose|q: int|
                    0 <= q < allv.len() && (#[trigger] allv[q]).0@ == nv;
                let pair = (allv[q].0@, allv[q].1@);
                assert(nd_views(allv)[q] == pair);
                assert(nd_views(allv).contains(pair));
                assert(nd_views(allv).to_multiset().count(pair) > 0);
                assert(nd_views(sortedv).contains(pair));
                let ps = choose|ps: int|
                    0 <= ps < nd_views(sortedv).len() && nd_views(sortedv)[ps] == pair;
                assert(sortedv[ps].0@ == nv && sortedv[ps].1@ == allv[q].1@);
                assert(sortedv[ps].1@ == xor_bytes(nv.id, key@));
                if ps < r@.len() {
                    assert(r@[ps].0@ == nv);
                    assert(collected(r@, nv));
                }
                assert(ps >= r@.len());
                assert(m < ps);
                assert(!lex_lt(sortedv[ps].1@, sortedv[m].1@));
                assert(sortedv[m].0@.id != sortedv[ps].0@.id);
                if !lex_lt(sortedv[m].1@, sortedv[ps].1@) {
                    crate::metric::lemma_lex_total(sortedv[m].1@, sortedv[ps].1@);
                    crate::metric::lemma_distance_injective(
                        sortedv[m].0@.id,
                        sortedv[ps].0@.id,
                        key@,
                    );
                }
                assert(lex_lt(r@[m].1@, xor_bytes(nv.id, key@)));
            }
        }
        r
    }
}

/// Some shortlist entry carries this identifier.
pub open spec fn has_entry_id(s: Seq<NodeAndDistance>, id: Seq<u8>) -> bool {
    exists|q: int| 0 <= q < s.len() && (#[trigger] s[q]).0@.id == id
}

/// The identifier occurs among the inputs of a merge.
pub open spec fn id_known(existing: Seq<NodeAndDistance>, fresh: Seq<Node>, id: Seq<u8>) -> bool {
    has_entry_id(existing, id) || (exists|m: int|
        0 <= m < fresh.len() && (#[trigger] fresh[m])@.id == id)
}

/// How many distinct identifiers a merge's inputs carry, given that the
/// shortlist itself repeats none.
pub open spec fn merged_count(existing: Seq<NodeAndDistance>, fresh: Seq<Node>) -> nat
    decreases fresh.len(),
{
    if fresh.len() == 0 {
        existing.len()
    } else {
        let rest = fresh.drop_last();
        merged_count(existing, rest) + if id_known(existing, rest, fresh.last()@.id) {
            0nat
        } else {
            1nat
        }
    }
}

/// One merge step of the iterative lookup: fold newly learned peers into
/// the shortlist, drop repeated identifiers, order everything by its
/// distance to the target, and keep at most `k`. Distances of fresh
/// peers are recomputed, never taken from the wire. The result holds
/// every distinct input identifier up to `k`, and anything cut off lies
/// strictly farther from the key than everything kept.
pub fn merge_candidates(existing: Vec<NodeAndDistance>, fresh: Vec<Node>, key: &Key, k: usize) -> (r: Vec<NodeAndDistance>)
    requires
        key.wf(),
        forall|m: int|
            0 <= m < existing@.len() ==> (#[trigger] existing@[m]).0@.id.len() == crate::KEY_LEN
                && existing@[m].1@ == xor_bytes(existing@[m].0@.id, key@),
        forall|m: int, n: int|
            0 <= m < n < existing@.len() ==> (#[trigger] existing@[m]).0@.id != (
            #[trigger] existing@[n]).0@.id,
        forall|m: int| 0 <= m < fresh@.len() ==> (#[trigger] fresh@[m])@.id.len() == crate::KEY_LEN,
    ensures
        r@.len() == if k as nat <= merged_count(existing@, fresh@) {
            k as nat
        } else {
            merged_count(existing@, fresh@)
        },
        forall|m: int|
            0 <= m < r@.len() ==> (#[trigger] r@[m]).1@ == xor_bytes(r@[m].0@.id, key@) && (
            collected(existing@, r@[m].0@) || (exists|q: int|
                0 <= q < fresh@.len() && (#[trigger] fresh@[q])@ == r@[m].0@)),
        forall|m: int, n: int| 0 <= m < n < r@.len() ==> lex_lt(r@[m].1@, r@[n].1@),
        forall|m: int, n: int| 0 <= m < n < r@.len() ==> r@[m].0@.id != r@[n].0@.id,
        // nothing nearer was cut: an input identifier outside the result
        // lies strictly farther from the key than everything kept
        forall|id: Seq<u8>, m: int|
            #![trigger id_known(existing@, fresh@, id), r@[m]]
            id_known(existing@, fresh@, id) && !has_entry_id(r@, id) && 0 <= m < r@.len()
                ==> lex_lt(r@[m].1@, xor_bytes(id, key@)),
{
    let ghost exv = existing@;
    let mut all = existing;
    proof {
        assert(fresh@.take(0) =~= Seq::<Node>::empty());
        assert(merged_count(exv, Seq::<Node>::empty()) == exv.len());
        assert forall|m2: int| 0 <= m2 < exv.len() implies has_entry_id(
            all@,
            (#[trigger] exv[m2]).0@.id,
        ) by {
            assert(all@[m2].0@.id == exv[m2].0@.id);
        }
    }
    let mut fi: usize = 0;
    while fi < fresh.len()
        invariant
            key.wf(),
            fi <= fresh@.len(),
            all@.len() == merged_count(exv, fresh@.take(fi as int)),
            forall|m: int|
                0 <= m < exv.len() ==> has_entry_id(all@, (#[trigger] exv[m]).0@.id),
            forall|m: int| 0 <= m < fi ==> has_entry_id(all@, (#[trigger] fresh@[m])@.id),
            forall|m: int|
                0 <= m < all@.len() ==> (#[trigger] all@[m]).0@.id.len() == crate::KEY_LEN
                    && all@[m].1@ == xor_bytes(all@[m].0@.id, key@),
            forall|m: int, n: int|
                0 <= m < n < all@.len() ==> (#[trigger] all@[m]).0@.id != (
                #[trigger] all@[n]).0@.id,
            forall|m: int| 0 <= m < fresh@.len() ==> (#[trigger] fresh@[m])@.id.len()
                == crate::KEY_LEN,
            forall|m: int|
                0 <= m < all@.len() ==> collected(exv, (#[trigger] all@[m]).0@) || (exists|q: int|
                    0 <= q < fi && (#[trigger] fresh@[q])@ == all@[m].0@),
        decreases fresh@.len() - fi,
    {
        let f = &fresh[fi];
        let mut present = false;
        let mut m: usize = 0;
        while m < all.len() && !present
            invariant
                m <= all@.len(),
                present ==> exists|q: int|
                    0 <= q < all@.len() && (#[trigger] all@[q]).0@.id == f@.id,
                !present ==> forall|q: int| 0 <= q < m ==> (#[trigger] all@[q]).0@.id != f@.id,
            decreases all@.len() - m, (if present { 0int } else { 1int }),
        {
            if crate::key::eq_bytes(&all[m].0.id.0, &f.id.0) {
                present = true;
            } else {
                m = m + 1;
            }
        }
        let ghost pre = fresh@.take(fi as int);
        let ghost cur = fresh@.take(fi + 1);
        proof {
            assert(cur.drop_last() =~= pre);
            assert(cur.last() == fresh@[fi as int]);
            // the scan's outcome is exactly whether the identifier is
            // already known among the inputs seen so far
            assert(present == id_known(exv, pre, f@.id)) by {
                if present {
                    let q = choose|q: int|
                        0 <= q < all@.len() && (#[trigger] all@[q]).0@.id == f@.id;
                    if collected(exv, all@[q].0@) {
                        let m2 = choose|m2: int|
                            0 <= m2 < exv.len() && (#[trigger] exv[m2]).0@ == all@[q].0@;
                        assert(exv[m2].0@.id == f@.id);
                        assert(has_entry_id(exv, f@.id));
                    } else {
                        let m2 = choose|m2: int|
                            0 <= m2 < fi && (#[trigger] fresh@[m2])@ == all@[q].0@;
                        assert(pre[m2]@.id == f@.id);
                    }
                } else {
                    if id_known(exv, pre, f@.id) {
                        if has_entry_id(exv, f@.id) {
                            let m2 = choose|m2: int|
                                0 <= m2 < exv.len() && (#[trigger] exv[m2]).0@.id == f@.id;
                            assert(has_entry_id(all@, exv[m2].0@.id));
                            let q = choose|q: int|
                                0 <= q < all@.len() && (#[trigger] all@[q]).0@.id
                                    == exv[m2].0@.id;
                            assert(all@[q].0@.id == f@.id);
                        } else {
                            let m2 = choose|m2: int|
                                0 <= m2 < pre.len() && (#[trigger] pre[m2])@.id == f@.id;
                            assert(pre[m2] == fresh@[m2]);
                            assert(has_entry_id(all@, fresh@[m2]@.id));
                            let q = choose|q: int|
                                0 <= q < all@.len() && (#[trigger] all@[q]).0@.id
                                    == fresh@[m2]@.id;
                            assert(all@[q].0@.id == f@.id);
                        }
                    }
                }
            }
        }
        if !present {
            let ghost olda = all@;
            let d = Distance::new(&f.id, key);
            all.push(NodeAndDistance(f.clone(), d));
            proof {
                assert(all@[olda.len() as int].0@ == fresh@[fi as int]@);
                assert forall|m2: int, n2: int|
                    0 <= m2 < n2 < all@.len() implies (#[trigger] all@[m2]).0@.id != (
                #[trigger] all@[n2]).0@.id by {
                    if n2 == all@.len() - 1 {
                        assert(all@[m2] == olda[m2]);
                        assert(olda[m2].0@.id != f@.id);
                    }
                }
                assert(merged_count(exv, cur) == merged_count(exv, pre) + 1);
                assert(all@.len() == merged_count(exv, cur));
                assert forall|m2: int| 0 <= m2 < exv.len() implies has_entry_id(
                    all@,
                    (#[trigger] exv[m2]).0@.id,
                ) by {
                    assert(has_entry_id(olda, exv[m2].0@.id));
                    let q = choose|q: int|
                        0 <= q < olda.len() && (#[trigger] olda[q]).0@.id == exv[m2].0@.id;
                    assert(all@[q].0@.id == exv[m2].0@.id);
                }
                assert forall|m2: int| 0 <= m2 < fi + 1 implies has_entry_id(
                    all@,
                    (#[trigger] fresh@[m2])@.id,
                ) by {
                    if m2 < fi {
                        assert(has_entry_id(olda, fresh@[m2]@.id));
                        let q = choose|q: int|
                            0 <= q < olda.len() && (#[trigger] olda[q]).0@.id == fresh@[m2]@.id;
                        assert(all@[q].0@.id == fresh@[m2]@.id);
                    } else {
                        assert(all@[olda.len() as int].0@.id == f@.id);
                    }
                }
            }
        } else {
            proof {
                assert(merged_count(exv, cur) == merged_count(exv, pre));
                assert(all@.len() == merged_count(exv, cur));
                assert forall|m2: int| 0 <= m2 < fi + 1 implies has_entry_id(
                    all@,
                    (#[trigger] fresh@[m2])@.id,
                ) by {
                    if m2 == fi {
                        assert(has_entry_id(all@, f@.id));
                    }
                }
            }
        }
        fi = fi + 1;
    }
    proof {
        assert(fresh@.take(fresh@.len() as int) =~= fresh@);
    }
    let ghost allv = all@;
    let mut r = sort_by_distance(all);
    proof {
        broadcast use vstd::multiset::group_multiset_axioms;

        nd_views(allv).to_multiset_ensures();
        nd_views(r@).to_multiset_ensures();
        assert(nd_views(allv).no_duplicates()) by {
            assert forall|m: int, n: int|
                0 <= m < nd_views(allv).len() && 0 <= n < nd_views(allv).len() && m
                    != n implies nd_views(allv)[m] != nd_views(allv)[n] by {
                if m < n {
                    assert(allv[m].0@.id != allv[n].0@.id);
                } else {
                    assert(allv[n].0@.id != allv[m].0@.id);
                }
            }
        }
        nd_views(allv).lemma_multiset_has_no_duplicates();
        nd_views(r@).lemma_multiset_has_no_duplicates_conv();
        assert forall|m: int| 0 <= m < r@.len() implies (#[trigger] r@[m]).1@ == xor_bytes(
            r@[m].0@.id,
            key@,
        ) && (collected(exv, r@[m].0@) || (exists|q: int|
            0 <= q < fresh@.len() && (#[trigger] fresh@[q])@ == r@[m].0@)) by {
            let pair = nd_views(r@)[m];
            assert(nd_views(r@).contains(pair));
            assert(nd_views(r@).to_multiset().count(pair) > 0);
            assert(nd_views(allv).contains(pair));
            let q = choose|q: int| 0 <= q < nd_views(allv).len() && nd_views(allv)[q] == pair;
            assert(allv[q].0@ == pair.0 && allv[q].1@ == pair.1);
        }
        assert forall|m: int, n: int| 0 <= m < n < r@.len() implies (#[trigger] r@[m]).0@.id != (
        #[trigger] r@[n]).0@.id by {
            let pm = nd_views(r@)[m];
            let pn = nd_views(r@)[n];
            assert(nd_views(r@).contains(pm));
            assert(nd_views(r@).contains(pn));
            assert(nd_views(r@).no_duplicates());
            assert(pm != pn);
            if pm.0.id == pn.0.id {
                assert(nd_views(r@).to_multiset().count(pm) > 0);
                assert(nd_views(r@).to_multiset().count(pn) > 0);
                assert(nd_views(allv).contains(pm));
                assert(nd_views(allv).contains(pn));
                let qm = choose|q: int| 0 <= q < nd_views(allv).len() && nd_views(allv)[q] == pm;
                let qn = choose|q: int| 0 <= q < nd_views(allv).len() && nd_views(allv)[q] == pn;
                assert(qm != qn ==> allv[qm].0@.id != allv[qn].0@.id);
                assert(qm == qn);
            }
        }
        assert forall|m: int, n: int| 0 <= m < n < r@.len() implies lex_lt(
            (#[trigger] r@[m]).1@,
            (#[trigger] r@[n]).1@,
        ) by {
            assert(!lex_lt(r@[n].1@, r@[m].1@));
            if !lex_lt(r@[m].1@, r@[n].1@) {
                crate::metric::lemma_lex_total(r@[m].1@, r@[n].1@);
                assert(r@[m].1@ == r@[n].1@);
                crate::metric::lemma_distance_injective(r@[m].0@.id, r@[n].0@.id, key@);
            }
        }
    }
    let ghost sortedv = r@;
    r.truncate(k);
    proof {
        if k <= sortedv.len() {
            assert(r@ == sortedv.subrange(0, k as int));
        }
        assert forall|m: int| 0 <= m < r@.len() implies r@[m] == sortedv[m] by {}
        assert(sortedv.len() == merged_count(exv, fresh@));
        broadcast use vstd::multiset::group_multiset_axioms;

        nd_views(allv).to_multiset_ensures();
        nd_views(sortedv).to_multiset_ensures();
        assert forall|id: Seq<u8>, m: int|
            #![trigger id_known(exv, fresh@, id), r@[m]]
            id_known(exv, fresh@, id) && !has_entry_id(r@, id) && 0 <= m < r@.len() implies lex_lt(
            r@[m].1@,
            xor_bytes(id, key@),
        ) by {
            // the identifier went into the combined list
            assert(has_entry_id(allv, id)) by {
                if has_entry_id(exv, id) {
                    let m2 = choose|m2: int|
                        0 <= m2 < exv.len() && (#[trigger] exv[m2]).0@.id == id;
                    assert(has_entry_id(allv, exv[m2].0@.id));
                } else {
                    let m2 = choose|m2: int|
                        0 <= m2 < fresh@.len() && (#[trigger] fresh@[m2])@.id == id;
                    assert(has_entry_id(allv, fresh@[m2]@.id));
                }
            }
            let q = choose|q: int| 0 <= q < allv.len() && (#[trigger] allv[q]).0@.id == id;
            let pair = nd_views(allv)[q];
            assert(pair == (allv[q].0@, allv[q].1@));
            assert(allv[q].1@ == xor_bytes(id, key@));
            assert(nd_views(allv).contains(pair));
            assert(nd_views(allv).to_multiset().count(pair) > 0);
            assert(nd_views(sortedv).contains(pair));
            let ps = choose|ps: int|
                0 <= ps < nd_views(sortedv).len() && nd_views(sortedv)[ps] == pair;
            assert(sortedv[ps].0@ == allv[q].0@ && sortedv[ps].1@ == allv[q].1@);
            if ps < r@.len() {
                assert(r@[ps].0@.id == id);
                assert(has_entry_id(r@, id));
            }
            assert(ps >= r@.len());
            assert(!lex_lt(sortedv[ps].1@, sortedv[m].1@));
            assert(sortedv[m].0@.id != sortedv[ps].0@.id);
            assert(sortedv[m].1@ == xor_bytes(sortedv[m].0@.id, key@));
            if !lex_lt(sortedv[m].1@, sortedv[ps].1@) {
                crate::metric::lemma_lex_total(sortedv[m].1@, sortedv[ps].1@);
                crate::metric::lemma_distance_injective(sortedv[m].0@.id, sortedv[ps].0@.id, key@);
            }
            assert(lex_lt(r@[m].1@, xor_bytes(id, key@)));
        }
    }
    r
}

proof fn lemma_remove_push_member(ob: Seq<NodeV>, nb: Seq<NodeV>, p: int, nv: NodeV, j: int)
    requires
        0 <= p < ob.len(),
        nb == ob.remove(p).push(nv),
        0 <= j < nb.len(),
    ensures
        nb[j] == nv || (exists|o: int| 0 <= o < ob.len() && nb[j] == ob[o]),
{
    if j < nb.len() - 1 {
        let oj = if j < p { j } else { j + 1 };
        assert(nb[j] == ob[oj]);
    }
}

proof fn lemma_evict_push_pairwise(ob: Seq<NodeV>, nb: Seq<NodeV>, nv: NodeV, j: int, k: int)
    requires
        ob.len() > 0,
        forall|a: int, b: int| 0 <= a < b < ob.len() ==> (#[trigger] ob[a]).id != (#[trigger] ob[b]).id,
        forall|a: int| 0 <= a < ob.len() ==> (#[trigger] ob[a]).id != nv.id,
        nb == ob.remove(0).push(nv),
        0 <= j < k < nb.len(),
    ensures
        nb[j].id != nb[k].id,
{
    assert(nb[j] == ob[j + 1]);
    if k < nb.len() - 1 {
        assert(nb[k] == ob[k + 1]);
    }
}

proof fn lemma_evict_push_member(ob: Seq<NodeV>, nb: Seq<NodeV>, nv: NodeV, j: int)
    requires
        ob.len() > 0,
        forall|a: int, b: int| 0 <= a < b < ob.len() ==> (#[trigger] ob[a]).id != (#[trigger] ob[b]).id,
        forall|a: int| 0 <= a < ob.len() ==> (#[trigger] ob[a]).id != nv.id,
        nb == ob.remove(0).push(nv),
        0 <= j < nb.len(),
    ensures
        nb[j] != ob[0],
{
    if j < nb.len() - 1 {
        assert(nb[j] == ob[j + 1]);
        assert(ob[0].id != ob[j + 1].id);
    } else {
        assert(nb[j] == nv);
        assert(ob[0].id != nv.id);
    }
}

proof fn lemma_remove_push_pairwise(ob: Seq<NodeV>, nb: Seq<NodeV>, p: int, nv: NodeV, j: int, k: int)
    requires
        0 <= p < ob.len(),
        ob[p].id == nv.id,
        forall|a: int, b: int| 0 <= a < b < ob.len() ==> (#[trigger] ob[a]).id != (#[trigger] ob[b]).id,
        nb == ob.remove(p).push(nv),
        0 <= j < k < nb.len(),
    ensures
        nb[j].id != nb[k].id,
{
    let rm = ob.remove(p);
    if k < nb.len() - 1 {
        // both fall inside the removed sequence
        let oj = if j < p { j } else { j + 1 };
        let ok = if k < p { k } else { k + 1 };
        assert(nb[j] == ob[oj]);
        assert(nb[k] == ob[ok]);
    } else {
        // the tail is the refreshed node; every remaining resident had a
        // different identifier
        let oj = if j < p { j } else { j + 1 };
        assert(nb[j] == ob[oj]);
        assert(oj != p);
        if oj < p {
            assert(ob[oj].id != ob[p].id);
        } else {
            assert(ob[p].id != ob[oj].id);
        }
    }
}

} // verus!
