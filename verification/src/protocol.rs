use vstd::prelude::*;

use crate::key::{sha256_of, xor_bytes, Key};
use crate::metric::lex_lt;
use crate::network::{
    FindValueResult, Message, MessageV, ReqWrapper, Request, RequestV, Response, RpcMessage,
};
use crate::node::{addr_of, dec_chars, nv_wf, parse_addr, parse_addr_spec, Node, NodeV};
use crate::routing::{entries_count, NodeAndDistance, RoutingTable};
use crate::store::{spec_get, KvStore};
use crate::{ALPHA, K_PARAM, N_BUCKETS};

verus! {

/// The protocol engine: the node's whole state and every decision it
/// takes. Sockets, clocks and threads stay outside; they hand requests
/// and responses in and carry messages out.
pub struct Protocol {
    pub routes: RoutingTable,
    pub store: KvStore,
    pub node: Node,
    pub counter: u64,
    pub pending_pings: Vec<(Node, Node)>,
}

/// A request payload the engine can act on: fixed-size fields have their
/// size.
pub open spec fn req_wf(r: RequestV) -> bool {
    match r {
        RequestV::FindNode(id) => id.len() == crate::KEY_LEN,
        _ => true,
    }
}

/// The node a well-formed sender address denotes: its text parsed back,
/// its identifier recomputed from that text.
pub open spec fn sender_view(src: Seq<char>) -> NodeV {
    match parse_addr_spec(src) {
        Some(p) => NodeV { ip: p.0, port: p.1, id: sha256_of(addr_of(p.0, p.1)) },
        None => NodeV { ip: Seq::empty(), port: 0, id: Seq::empty() },
    }
}

/// How an insert-or-refresh of `n` changes the engine: exactly what the
/// routing table's own rules say, with a full bucket turning into a
/// queued ping of its head.
pub open spec fn refresh_effect(pre: Protocol, post: Protocol, n: NodeV) -> bool {
    let i = pre.routes.bucket_of(n.id);
    let ob = pre.routes.kbuckets@[i]@;
    let nb = post.routes.kbuckets@[i]@;
    &&& post.routes.node@ == pre.routes.node@
    &&& (forall|q: int|
        0 <= q < N_BUCKETS && q != i ==> (#[trigger] post.routes.kbuckets@[q])@
            == pre.routes.kbuckets@[q]@)
    &&& if n.id == pre.routes.node@.id {
        nb == ob && post.pending_pings@ == pre.pending_pings@
    } else if ob.len() < K_PARAM || pre.routes.kbuckets@[i].has_id(n.id) {
        &&& nb.len() <= ob.len() + 1
        &&& nb.last() == n
        &&& (pre.routes.kbuckets@[i].has_id(n.id) ==> nb.len() == ob.len())
        &&& (!pre.routes.kbuckets@[i].has_id(n.id) ==> nb == ob.push(n))
        &&& (forall|p: int| 0 <= p < ob.len() && ob[p].id == n.id ==> nb == ob.remove(p).push(n))
        &&& post.pending_pings@ == pre.pending_pings@
    } else {
        // full bucket: nothing changes yet; the head must be pinged
        // before the candidate may take its place
        &&& nb == ob
        &&& post.pending_pings@.len() == pre.pending_pings@.len() + 1
        &&& post.pending_pings@.last().0@ == n
        &&& post.pending_pings@.last().1@ == ob[0]
        &&& post.pending_pings@.take(pre.pending_pings@.len() as int) == pre.pending_pings@
    }
}

/// How dropping `n` changes the engine: its bucket loses it, nothing
/// else moves.
pub open spec fn remove_effect(pre: Protocol, post: Protocol, n: NodeV) -> bool {
    let i = pre.routes.bucket_of(n.id);
    let ob = pre.routes.kbuckets@[i]@;
    let nb = post.routes.kbuckets@[i]@;
    &&& post.routes.node@ == pre.routes.node@
    &&& (forall|q: int|
        0 <= q < N_BUCKETS && q != i ==> (#[trigger] post.routes.kbuckets@[q])@
            == pre.routes.kbuckets@[q]@)
    &&& !post.routes.kbuckets@[i].has_id(n.id)
    &&& (!pre.routes.kbuckets@[i].has_id(n.id) ==> nb == ob)
    &&& (forall|p: int| 0 <= p < ob.len() && ob[p].id == n.id ==> nb == ob.remove(p))
    &&& post.pending_pings@ == pre.pending_pings@
}

impl Protocol {
    pub open spec fn wf(&self) -> bool {
        &&& self.routes.wf()
        &&& self.routes.node@ == self.node@
        &&& forall|i: int|
            0 <= i < self.pending_pings@.len() ==> nv_wf((#[trigger] self.pending_pings@[i]).0@)
                && nv_wf(self.pending_pings@[i].1@)
    }

    /// A fresh engine around a fresh routing table and an empty store.
    /// The node's identifier is derived from its own address text.
    pub fn new(ip: String, port: u16, bootstrap: Option<Node>) -> (r: Self)
        requires
            bootstrap matches Some(b) ==> b.wf(),
        ensures
            r.wf(),
            r.node@.ip == ip@,
            r.node@.port == port,
            r.routes.node@ == r.node@,
            r.counter == 0,
            r.store.entries@ == Seq::<(String, String)>::empty(),
            r.pending_pings@ == Seq::<(Node, Node)>::empty(),
            match bootstrap {
                None => forall|q: int|
                    0 <= q < N_BUCKETS ==> (#[trigger] r.routes.kbuckets@[q])@ == Seq::<
                        NodeV,
                    >::empty(),
                Some(b) => if b@.id == r.node@.id {
                    forall|q: int|
                        0 <= q < N_BUCKETS ==> (#[trigger] r.routes.kbuckets@[q])@ == Seq::<
                            NodeV,
                        >::empty()
                } else {
                    &&& r.routes.kbuckets@[r.routes.bucket_of(b@.id)]@ == seq![b@]
                    &&& (forall|q: int|
                        0 <= q < N_BUCKETS && q != r.routes.bucket_of(b@.id) ==> (
                        #[trigger] r.routes.kbuckets@[q])@ == Seq::<NodeV>::empty())
                },
            },
    {
        let node = Node::new(ip, port);
        let routes = RoutingTable::new(node.clone(), bootstrap);
        let r = Protocol {
            routes,
            store: KvStore::new(),
            node,
            counter: 0,
            pending_pings: Vec::new(),
        };
        proof {
            assert(r.pending_pings@ =~= Seq::<(Node, Node)>::empty());
        }
        r
    }

    /// Insert or refresh a peer; a full bucket queues its head for a
    /// ping instead of deciding at once.
    fn refresh(&mut self, n: Node)
        requires
            old(self).wf(),
            n.wf(),
        ensures
            final(self).wf(),
            refresh_effect(*old(self), *final(self), n@),
            final(self).node@ == old(self).node@,
            final(self).store == old(self).store,
            final(self).counter == old(self).counter,
    {
        let ghost i = old(self).routes.bucket_of(n@.id);
        proof {
            crate::metric::lemma_bucket_index_of_range(
                xor_bytes(old(self).routes.node@.id, n@.id),
            );
            assert(old(self).routes.kbuckets@[i].wf_at(old(self).routes.node@.id, i));
        }
        let cand = n.clone();
        let head = self.routes.update(n);
        match head {
            Some(h) => {
                proof {
                    assert(h@ == old(self).routes.kbuckets@[i]@[0]);
                    assert(nv_wf(h@));
                }
                self.pending_pings.push((cand, h));
                proof {
                    assert(self.pending_pings@.take(old(self).pending_pings@.len() as int)
                        =~= old(self).pending_pings@);
                }
            },
            None => {},
        }
    }

    /// Hand the app the next queued eviction check: the waiting
    /// candidate and the bucket head to ping. The outcome comes back
    /// through `apply_ping_outcome` on the routing table.
    pub fn take_ping_request(&mut self) -> (r: Option<(Node, Node)>)
        requires
            old(self).wf(),
        ensures
            final(self).wf(),
            match r {
                Some(h) => old(self).pending_pings@.len() > 0 && h.0.wf() && h.1.wf() && h == old(
                    self,
                ).pending_pings@.last() && final(self).pending_pings@ == old(
                    self,
                ).pending_pings@.drop_last(),
                None => old(self).pending_pings@.len() == 0 && final(self).pending_pings@ == old(
                    self,
                ).pending_pings@,
            },
            final(self).routes == old(self).routes,
            final(self).store == old(self).store,
    {
        self.pending_pings.pop()
    }

    /// Answer one inbound request: learn the sender, then compute the
    /// reply the protocol prescribes. A sender address that does not
    /// read as "ip:port" makes the request malformed, and it is dropped.
    pub fn craft_res(&mut self, req: ReqWrapper) -> (r: Option<(Response, ReqWrapper)>)
        requires
            old(self).wf(),
            req_wf(req.payload@),
        ensures
            final(self).wf(),
            r is Some <==> parse_addr_spec(req.src@) is Some,
            r matches Some(p) ==> {
                &&& p.1.token@ == req.token@
                &&& p.1.src@ == req.src@
                &&& p.1.payload@ == req.payload@
                &&& refresh_effect(*old(self), *final(self), sender_view(req.src@))
                &&& match req.payload@ {
                    RequestV::Ping => p.0@ is Ping && final(self).store == old(self).store,
                    RequestV::Store(k, v) => {
                        &&& p.0@ is Ping
                        &&& spec_get(final(self).store.entries@, k) == Some(v)
                        &&& (forall|k2: Seq<char>|
                            k2 != k ==> spec_get(final(self).store.entries@, k2) == spec_get(
                                old(self).store.entries@,
                                k2,
                            ))
                    },
                    RequestV::FindNode(id) => {
                        &&& final(self).store == old(self).store
                        &&& closest_reply(p.0@, final(self).routes, id, ALPHA as nat)
                    },
                    RequestV::FindValue(k) => {
                        &&& final(self).store == old(self).store
                        &&& match spec_get(old(self).store.entries@, k) {
                            Some(v) => p.0@ matches crate::network::ResponseV::FindValue(
                                crate::network::FindValueResultV::Value(v2),
                            ) && v2 == v,
                            None => found_nodes_reply(
                                p.0@,
                                final(self).routes,
                                sha256_of(k),
                                ALPHA as nat,
                            ),
                        }
                    },
                }
            },
    {
        match parse_addr(&req.src) {
            None => None,
            Some((ip, port)) => {
                let src_node = Node::new(ip, port);
                let ghost snv = src_node@;
                proof {
                    assert(snv == sender_view(req.src@));
                }
                self.refresh(src_node);
                let res = match &req.payload {
                    Request::Ping => Response::Ping,
                    Request::Store(k, v) => {
                        self.store.insert(k.clone(), v.clone());
                        Response::Ping
                    },
                    Request::FindNode(id) => {
                        let es = self.routes.get_closest_nodes(id, ALPHA);
                        proof {
                            lemma_entries_transfer(&self.routes, es@, id@, ALPHA as nat);
                        }
                        Response::FindNode(es)
                    },
                    Request::FindValue(k) => match self.store.get(k) {
                        Some(v) => Response::FindValue(FindValueResult::Value(v)),
                        None => {
                            let target = Key::new(k.clone());
                            let es = self.routes.get_closest_nodes(&target, ALPHA);
                            proof {
                                lemma_entries_transfer(
                                    &self.routes,
                                    es@,
                                    sha256_of(k@),
                                    ALPHA as nat,
                                );
                            }
                            Response::FindValue(FindValueResult::Nodes(es))
                        },
                    },
                };
                proof {
                    assert(refresh_effect(*old(self), *self, snv));
                }
                Some((res, req))
            },
        }
    }

    /// Wrap a computed response for the wire: same token, addresses
    /// swapped.
    pub fn reply(&self, res: Response, req: ReqWrapper) -> (r: RpcMessage)
        ensures
            r.token@ == req.token@,
            r.src@ == addr_of(self.node@.ip, self.node@.port),
            r.dst@ == req.src@,
            r.msg@ == MessageV::Response(res@),
    {
        RpcMessage {
            token: req.token,
            src: self.node.get_addr(),
            dst: req.src,
            msg: Message::Response(res),
        }
    }

    /// Build an outbound request under a fresh correlation token: the
    /// hash of the own address and a counter that never repeats.
    pub fn make_request(&mut self, req: Request, dst: &Node) -> (r: RpcMessage)
        requires
            old(self).counter < 0xffff_ffff_ffff_ffff,
        ensures
            final(self).counter == old(self).counter + 1,
            final(self).routes == old(self).routes,
            final(self).store == old(self).store,
            final(self).node == old(self).node,
            final(self).pending_pings == old(self).pending_pings,
            r.token@ == sha256_of(
                addr_of(old(self).node@.ip, old(self).node@.port) + seq!['#'] + dec_chars(
                    old(self).counter as nat,
                ),
            ),
            r.token@.len() == crate::KEY_LEN,
            r.src@ == addr_of(old(self).node@.ip, old(self).node@.port),
            r.dst@ == addr_of(dst@.ip, dst@.port),
            r.msg@ == MessageV::Request(req@),
    {
        let mut seed = self.node.get_addr();
        append_hash_mark(&mut seed);
        let digits = crate::node::dec_string64(self.counter);
        seed.append(digits.as_str());
        let token = Key::new(seed);
        self.counter = self.counter + 1;
        RpcMessage {
            token,
            src: self.node.get_addr(),
            dst: dst.get_addr(),
            msg: Message::Request(req),
        }
    }

    /// Record the outcome of an outbound PING: a pong refreshes the
    /// peer, anything else evicts it.
    pub fn ping(&mut self, dst: Node, res: Option<Response>) -> (r: bool)
        requires
            old(self).wf(),
            dst.wf(),
        ensures
            final(self).wf(),
            r == (res matches Some(Response::Ping)),
            r ==> refresh_effect(*old(self), *final(self), dst@),
            !r ==> remove_effect(*old(self), *final(self), dst@),
            final(self).store == old(self).store,
    {
        match res {
            Some(Response::Ping) => {
                self.refresh(dst);
                true
            },
            _ => {
                self.routes.remove(&dst);
                false
            },
        }
    }

    /// Record the outcome of an outbound STORE, acknowledged by a pong.
    pub fn store(&mut self, dst: Node, res: Option<Response>) -> (r: bool)
        requires
            old(self).wf(),
            dst.wf(),
        ensures
            final(self).wf(),
            r == (res matches Some(Response::Ping)),
            r ==> refresh_effect(*old(self), *final(self), dst@),
            !r ==> remove_effect(*old(self), *final(self), dst@),
            final(self).store == old(self).store,
    {
        match res {
            Some(Response::Ping) => {
                self.refresh(dst);
                true
            },
            _ => {
                self.routes.remove(&dst);
                false
            },
        }
    }

    /// Record the outcome of an outbound FIND_NODE: the peers it
    /// returned, or eviction on failure.
    pub fn find_node(&mut self, dst: Node, res: Option<Response>) -> (r: Option<
        Vec<NodeAndDistance>,
    >)
        requires
            old(self).wf(),
            dst.wf(),
        ensures
            final(self).wf(),
            final(self).store == old(self).store,
            match res {
                Some(Response::FindNode(es)) => (r matches Some(out) && out == es)
                    && refresh_effect(*old(self), *final(self), dst@),
                _ => r is None && remove_effect(*old(self), *final(self), dst@),
            },
    {
        match res {
            Some(Response::FindNode(entries)) => {
                self.refresh(dst);
                Some(entries)
            },
            _ => {
                self.routes.remove(&dst);
                None
            },
        }
    }

    /// Record the outcome of an outbound FIND_VALUE.
    pub fn find_value(&mut self, dst: Node, res: Option<Response>) -> (r: Option<FindValueResult>)
        requires
            old(self).wf(),
            dst.wf(),
        ensures
            final(self).wf(),
            final(self).store == old(self).store,
            match res {
                Some(Response::FindValue(fv)) => (r matches Some(out) && out == fv)
                    && refresh_effect(*old(self), *final(self), dst@),
                _ => r is None && remove_effect(*old(self), *final(self), dst@),
            },
    {
        match res {
            Some(Response::FindValue(fv)) => {
                self.refresh(dst);
                Some(fv)
            },
            _ => {
                self.routes.remove(&dst);
                None
            },
        }
    }
}

/// The reply to FIND_NODE: the table's nearest peers, in strictly
/// ascending distance to the target.
pub open spec fn closest_reply(res: crate::network::ResponseV, rt: RoutingTable, target: Seq<u8>, count: nat) -> bool {
    match res {
        crate::network::ResponseV::FindNode(es) => closest_entries(es, rt, target, count),
        _ => false,
    }
}

/// The reply to FIND_VALUE when the value is absent.
pub open spec fn found_nodes_reply(res: crate::network::ResponseV, rt: RoutingTable, target: Seq<u8>, count: nat) -> bool {
    match res {
        crate::network::ResponseV::FindValue(crate::network::FindValueResultV::Nodes(es)) =>
            closest_entries(es, rt, target, count),
        _ => false,
    }
}

/// Some wire entry carries this peer.
pub open spec fn entry_has(es: Seq<(NodeV, Seq<u8>)>, nv: NodeV) -> bool {
    exists|q: int| 0 <= q < es.len() && (#[trigger] es[q]).0 == nv
}

pub open spec fn closest_entries(es: Seq<(NodeV, Seq<u8>)>, rt: RoutingTable, target: Seq<u8>, count: nat) -> bool {
    &&& es.len() == if count <= entries_count(rt.kbuckets@) {
        count
    } else {
        entries_count(rt.kbuckets@)
    }
    &&& forall|m: int|
        0 <= m < es.len() ==> rt.contains_nv((#[trigger] es[m]).0) && es[m].1 == xor_bytes(
            es[m].0.id,
            target,
        )
    &&& forall|m: int, n: int| 0 <= m < n < es.len() ==> lex_lt(es[m].1, es[n].1)
    &&& forall|m: int, n: int| 0 <= m < n < es.len() ==> es[m].0.id != es[n].0.id
    // and they are the nearest ones: any resident left out is strictly
    // farther from the target than everything listed
    &&& forall|nv: NodeV, m: int|
        #![trigger rt.contains_nv(nv), es[m]]
        rt.contains_nv(nv) && !entry_has(es, nv) && 0 <= m < es.len() ==> lex_lt(
            es[m].1,
            xor_bytes(nv.id, target),
        )
}

/// Carries `get_closest_nodes`'s guarantees over to the wire entries a
/// reply holds.
proof fn lemma_entries_transfer(rt: &RoutingTable, es: Seq<NodeAndDistance>, target: Seq<u8>, count: nat)
    requires
        es.len() == if count <= entries_count(rt.kbuckets@) {
            count
        } else {
            entries_count(rt.kbuckets@)
        },
        forall|m: int|
            0 <= m < es.len() ==> rt.contains_nv((#[trigger] es[m]).0@) && es[m].1@ == xor_bytes(
                es[m].0@.id,
                target,
            ),
        forall|m: int, n: int| 0 <= m < n < es.len() ==> lex_lt(es[m].1@, es[n].1@),
        forall|m: int, n: int| 0 <= m < n < es.len() ==> es[m].0@.id != es[n].0@.id,
        forall|nv: NodeV, m: int|
            #![trigger rt.contains_nv(nv), es[m]]
            rt.contains_nv(nv) && !crate::routing::collected(es, nv) && 0 <= m < es.len()
                ==> lex_lt(es[m].1@, xor_bytes(nv.id, target)),
    ensures
        closest_entries(crate::network::entries_view(es), *rt, target, count),
{
    let ev = crate::network::entries_view(es);
    assert(ev.len() == es.len());
    assert forall|m: int| 0 <= m < ev.len() implies (#[trigger] ev[m]).0 == es[m].0@ && ev[m].1
        == es[m].1@ by {}
    assert forall|nv: NodeV, m: int|
        #![trigger rt.contains_nv(nv), ev[m]]
        rt.contains_nv(nv) && !entry_has(ev, nv) && 0 <= m < ev.len() implies lex_lt(
        ev[m].1,
        xor_bytes(nv.id, target),
    ) by {
        assert(!crate::routing::collected(es, nv)) by {
            if crate::routing::collected(es, nv) {
                let q = choose|q: int| 0 <= q < es.len() && (#[trigger] es[q]).0@ == nv;
                assert(ev[q].0 == nv);
            }
        }
        assert(es[m] == es[m]);
        assert(lex_lt(es[m].1@, xor_bytes(nv.id, target)));
    }
}

fn append_hash_mark(s: &mut String)
    ensures
        final(s)@ == old(s)@ + seq!['#'],
{
    proof {
        reveal_strlit("#");
        assert("#"@ =~= seq!['#']);
    }
    s.append("#");
}

} // verus!
