use kademlia_dht::key::{eq_bytes, Distance, Key};
use kademlia_dht::lookup::{finish_lookup, select_round};
use kademlia_dht::node::Node;
use kademlia_dht::routing::RoutingTable;
use kademlia_dht::transport::PendingTable;
use kademlia_dht::{ALPHA, K_PARAM};

fn node_at(port: u16) -> Node {
    Node::new(String::from("127.0.0.1"), port)
}

#[test]
fn rounds_pick_unqueried_peers_until_none_remain() {
    let me = node_at(1337);
    let mut rt = RoutingTable::new(me, None);
    for p in 1400..1410u16 {
        rt.update(node_at(p));
    }
    let target = Key::new(String::from("key-1"));
    let candidates = rt.get_closest_nodes(&target, K_PARAM);
    let mut queried: Vec<Vec<u8>> = Vec::new();
    let mut asked_total = 0;
    loop {
        let round = select_round(&candidates, &queried);
        if round.is_empty() {
            break;
        }
        assert!(round.len() <= ALPHA);
        for peer in &round {
            // nobody is asked twice
            assert!(queried.iter().all(|q| !eq_bytes(q, &peer.id.0)));
            // everyone asked sits in the shortlist
            assert!(candidates.iter().any(|e| eq_bytes(&e.0.id.0, &peer.id.0)));
            queried.push(peer.id.0.clone());
            asked_total += 1;
        }
    }
    // an empty round means every shortlist peer has been asked
    assert_eq!(asked_total, candidates.len());
    for e in &candidates {
        assert!(queried.iter().any(|q| eq_bytes(q, &e.0.id.0)));
    }
}

#[test]
fn lookup_result_is_closest_responders_in_order() {
    let target = Key::new(String::from("key-1"));
    // responders arrive in query order, with one repeat
    let responsive: Vec<Node> = vec![
        node_at(1405),
        node_at(1401),
        node_at(1409),
        node_at(1401),
        node_at(1403),
    ];
    let out = finish_lookup(responsive.clone(), &target, K_PARAM);
    assert_eq!(out.len(), 4);
    // ascending by distance to the target, not by arrival
    for w in out.windows(2) {
        let da = Distance::new(&w[0].id, &target);
        let db = Distance::new(&w[1].id, &target);
        assert!(da.0 < db.0);
    }
    for n in &out {
        assert!(responsive.iter().any(|p| eq_bytes(&p.id.0, &n.id.0)));
    }
    // a tight cap keeps the nearest ones
    let capped = finish_lookup(responsive, &target, 2);
    assert_eq!(capped.len(), 2);
    assert!(eq_bytes(&capped[0].id.0, &out[0].id.0));
    assert!(eq_bytes(&capped[1].id.0, &out[1].id.0));
}

#[test]
fn pending_tokens_resolve_exactly_once() {
    let mut table = PendingTable::new();
    let t1 = Key::new(String::from("token-1"));
    let t2 = Key::new(String::from("token-2"));
    assert!(table.register(Key(t1.0.clone()), 7));
    assert!(table.register(Key(t2.0.clone()), 8));
    // a reused token is refused, the first request stays hooked
    assert!(!table.register(Key(t1.0.clone()), 9));
    // an unknown token resolves to nothing
    let t3 = Key::new(String::from("token-3"));
    assert_eq!(table.resolve(&t3), None);
    // a known token resolves to its slot, once
    assert_eq!(table.resolve(&t1), Some(7));
    assert_eq!(table.resolve(&t1), None);
    assert_eq!(table.resolve(&t2), Some(8));
    assert_eq!(table.resolve(&t2), None);
}
