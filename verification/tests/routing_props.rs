use kademlia_dht::key::{eq_bytes, Distance, Key};
use kademlia_dht::metric::bucket_index;
use kademlia_dht::node::Node;
use kademlia_dht::routing::{merge_candidates, RoutingTable};
use kademlia_dht::K_PARAM;

fn node_at(port: u16) -> Node {
    Node::new(String::from("127.0.0.1"), port)
}

fn lex_less(a: &[u8], b: &[u8]) -> bool {
    a < b
}

#[test]
fn distance_is_symmetric_and_zero_on_self() {
    let a = Key::new(String::from("one"));
    let b = Key::new(String::from("two"));
    let ab = Distance::new(&a, &b);
    let ba = Distance::new(&b, &a);
    assert_eq!(ab.0, ba.0);
    let aa = Distance::new(&a, &a);
    assert!(aa.0.iter().all(|&x| x == 0));
}

#[test]
fn bucket_invariant_holds_after_updates() {
    let me = node_at(1337);
    let mut rt = RoutingTable::new(me.clone(), None);
    for p in 1400..1500u16 {
        rt.update(node_at(p));
    }
    for (i, bucket) in rt.kbuckets.iter().enumerate() {
        assert!(bucket.nodes.len() <= K_PARAM);
        for n in &bucket.nodes {
            // no bucket holds the owner
            assert!(!eq_bytes(&n.id.0, &me.id.0));
            // each resident sits in the bucket its distance prescribes
            let d = Distance::new(&me.id, &n.id);
            assert_eq!(bucket_index(&d), i);
        }
        // ids are unique within a bucket
        for x in 0..bucket.nodes.len() {
            for y in (x + 1)..bucket.nodes.len() {
                assert!(!eq_bytes(&bucket.nodes[x].id.0, &bucket.nodes[y].id.0));
            }
        }
    }
}

#[test]
fn update_refreshes_known_peer_to_tail() {
    let me = node_at(1337);
    let mut rt = RoutingTable::new(me.clone(), None);
    let peers: Vec<Node> = (1400..1420u16).map(node_at).collect();
    for p in &peers {
        rt.update(p.clone());
    }
    // pick a bucket with at least two residents and refresh its head
    let bi = rt
        .kbuckets
        .iter()
        .position(|b| b.nodes.len() >= 2)
        .expect("some bucket holds two peers");
    let head = rt.kbuckets[bi].nodes[0].clone();
    let len_before = rt.kbuckets[bi].nodes.len();
    rt.update(head.clone());
    let bucket = &rt.kbuckets[bi].nodes;
    assert_eq!(bucket.len(), len_before);
    assert!(eq_bytes(&bucket[bucket.len() - 1].id.0, &head.id.0));
    // a second identical update changes nothing further
    let snapshot: Vec<Vec<u8>> = bucket.iter().map(|n| n.id.0.clone()).collect();
    rt.update(head.clone());
    let again: Vec<Vec<u8>> = rt.kbuckets[bi].nodes.iter().map(|n| n.id.0.clone()).collect();
    assert_eq!(snapshot, again);
}

/// Enough peers on one ip that some bucket of `me` fills completely.
fn peers_in_one_bucket(me: &Node, want: usize) -> (usize, Vec<Node>) {
    let mut by_bucket: Vec<Vec<Node>> = (0..256).map(|_| Vec::new()).collect();
    for p in 2000..5000u16 {
        let n = node_at(p);
        if eq_bytes(&n.id.0, &me.id.0) {
            continue;
        }
        let d = Distance::new(&me.id, &n.id);
        let i = bucket_index(&d);
        by_bucket[i].push(n);
        if by_bucket[i].len() >= want {
            return (i, by_bucket.swap_remove(i));
        }
    }
    panic!("not enough peers fell into one bucket");
}

#[test]
fn full_bucket_keeps_live_head_and_drops_candidate() {
    let me = node_at(1337);
    let (bi, peers) = peers_in_one_bucket(&me, K_PARAM + 1);
    let mut rt = RoutingTable::new(me.clone(), None);
    for p in peers.iter().take(K_PARAM) {
        assert!(rt.update(p.clone()).is_none());
    }
    assert_eq!(rt.kbuckets[bi].nodes.len(), K_PARAM);
    let head = rt.kbuckets[bi].nodes[0].clone();
    let candidate = peers[K_PARAM].clone();
    // the bucket is full: the table asks for a ping of the head
    let to_ping = rt.update(candidate.clone()).expect("full bucket wants a ping");
    assert!(eq_bytes(&to_ping.id.0, &head.id.0));
    assert_eq!(rt.kbuckets[bi].nodes.len(), K_PARAM);
    // the head answered: it moves to the tail, the candidate is dropped
    rt.apply_ping_outcome(candidate.clone(), true);
    let bucket = &rt.kbuckets[bi].nodes;
    assert_eq!(bucket.len(), K_PARAM);
    assert!(eq_bytes(&bucket[K_PARAM - 1].id.0, &head.id.0));
    assert!(bucket.iter().all(|n| !eq_bytes(&n.id.0, &candidate.id.0)));
}

#[test]
fn full_bucket_evicts_dead_head_for_candidate() {
    let me = node_at(1337);
    let (bi, peers) = peers_in_one_bucket(&me, K_PARAM + 1);
    let mut rt = RoutingTable::new(me.clone(), None);
    for p in peers.iter().take(K_PARAM) {
        rt.update(p.clone());
    }
    let head = rt.kbuckets[bi].nodes[0].clone();
    let candidate = peers[K_PARAM].clone();
    rt.update(candidate.clone());
    // the head never answered: it is evicted, the candidate joins at the tail
    rt.apply_ping_outcome(candidate.clone(), false);
    let bucket = &rt.kbuckets[bi].nodes;
    assert_eq!(bucket.len(), K_PARAM);
    assert!(eq_bytes(&bucket[K_PARAM - 1].id.0, &candidate.id.0));
    assert!(bucket.iter().all(|n| !eq_bytes(&n.id.0, &head.id.0)));
}

#[test]
fn remove_drops_peer_and_tolerates_absent() {
    let me = node_at(1337);
    let mut rt = RoutingTable::new(me.clone(), None);
    let peer = node_at(1400);
    rt.update(peer.clone());
    assert!(rt.kbuckets.iter().any(|b| b.nodes.iter().any(|n| eq_bytes(&n.id.0, &peer.id.0))));
    rt.remove(&peer);
    assert!(rt.kbuckets.iter().all(|b| b.nodes.iter().all(|n| !eq_bytes(&n.id.0, &peer.id.0))));
    // removing it again is a no-op
    rt.remove(&peer);
}

#[test]
fn closest_is_sorted_bounded_and_unique() {
    let me = node_at(1337);
    let mut rt = RoutingTable::new(me.clone(), None);
    for p in 1400..1450u16 {
        rt.update(node_at(p));
    }
    let target = Key::new(String::from("key-1"));
    let out = rt.get_closest_nodes(&target, 10);
    assert_eq!(out.len(), 10);
    for w in out.windows(2) {
        // strictly ascending by distance to the target
        assert!(lex_less(&w[0].1 .0, &w[1].1 .0));
    }
    for e in &out {
        let d = Distance::new(&e.0.id, &target);
        assert_eq!(d.0, e.1 .0);
    }
    for x in 0..out.len() {
        for y in (x + 1)..out.len() {
            assert!(!eq_bytes(&out[x].0.id.0, &out[y].0.id.0));
        }
    }
    // asking for more than the table holds returns everything
    let all = rt.get_closest_nodes(&target, 1000);
    let total: usize = rt.kbuckets.iter().map(|b| b.nodes.len()).sum();
    assert_eq!(all.len(), total);
}

#[test]
fn bucket_index_matches_leading_bit() {
    let a = Key::new(String::from("one"));
    let b = Key::new(String::from("two"));
    let d = Distance::new(&a, &b);
    let i = bucket_index(&d);
    // reference: position of the most significant set bit, counted from
    // the low end of the 256-bit number
    let mut expected = 255usize;
    'outer: for (bi, byte) in d.0.iter().enumerate() {
        if *byte != 0 {
            for bit in (0..8usize).rev() {
                if byte & (1u8 << bit) != 0 {
                    expected = (31 - bi) * 8 + bit;
                    break 'outer;
                }
            }
        }
    }
    assert_eq!(i, expected);
    // an all-zero distance goes to the last bucket by convention
    let dz = Distance::new(&a, &a);
    assert_eq!(bucket_index(&dz), 255);
}

#[test]
fn addresses_render_in_decimal() {
    let n = Node::new(String::from("10.0.0.7"), 65535);
    assert_eq!(n.get_addr(), "10.0.0.7:65535");
    let m = Node::new(String::from("10.0.0.7"), 8);
    assert_eq!(m.get_addr(), "10.0.0.7:8");
}

#[test]
fn merge_folds_fresh_peers_into_shortlist() {
    let target = Key::new(String::from("key-1"));
    let me = node_at(1337);
    let mut rt = RoutingTable::new(me, None);
    for p in 1400..1410u16 {
        rt.update(node_at(p));
    }
    let existing = rt.get_closest_nodes(&target, 5);
    let fresh = vec![node_at(1402), node_at(1500), node_at(1501)];
    let merged = merge_candidates(existing.clone(), fresh, &target, 20);
    for w in merged.windows(2) {
        assert!(lex_less(&w[0].1 .0, &w[1].1 .0));
    }
    for x in 0..merged.len() {
        for y in (x + 1)..merged.len() {
            assert!(!eq_bytes(&merged[x].0.id.0, &merged[y].0.id.0));
        }
    }
    // every identifier once: the repeat folds in, the two new peers join
    let mut ids: Vec<Vec<u8>> = existing.iter().map(|e| e.0.id.0.clone()).collect();
    for n in [node_at(1402), node_at(1500), node_at(1501)] {
        if !ids.contains(&n.id.0) {
            ids.push(n.id.0.clone());
        }
    }
    assert_eq!(merged.len(), ids.len());
    // a tight cap truncates to the nearest two
    let capped = merge_candidates(merged.clone(), Vec::new(), &target, 2);
    assert_eq!(capped.len(), 2);
    assert_eq!(capped[0].1 .0, merged[0].1 .0);
    assert_eq!(capped[1].1 .0, merged[1].1 .0);
}
