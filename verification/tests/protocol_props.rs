use kademlia_dht::key::{eq_bytes, Key};
use kademlia_dht::network::{
    FindValueResult, Message, ReqWrapper, Request, Response, RpcMessage,
};
use kademlia_dht::node::{parse_addr, Node};
use kademlia_dht::protocol::Protocol;

fn node_at(port: u16) -> Node {
    Node::new(String::from("127.0.0.1"), port)
}

fn table_holds(p: &Protocol, n: &Node) -> bool {
    p.routes.kbuckets.iter().any(|b| b.nodes.iter().any(|m| eq_bytes(&m.id.0, &n.id.0)))
}

fn bucket_tail_is(p: &Protocol, n: &Node) -> bool {
    p.routes.kbuckets.iter().any(|b| match b.nodes.last() {
        Some(t) => eq_bytes(&t.id.0, &n.id.0),
        None => false,
    })
}

#[test]
fn parse_addr_reads_back_addresses() {
    let (ip, port) = parse_addr(&String::from("127.0.0.1:1337")).expect("parses");
    assert_eq!(ip, "127.0.0.1");
    assert_eq!(port, 1337);
    assert!(parse_addr(&String::from("127.0.0.1")).is_none());
    assert!(parse_addr(&String::from("127.0.0.1:")).is_none());
    assert!(parse_addr(&String::from("127.0.0.1:12x4")).is_none());
    assert!(parse_addr(&String::from("127.0.0.1:70000")).is_none());
    let (ip2, port2) = parse_addr(&String::from(":80")).expect("empty host still splits");
    assert_eq!(ip2, "");
    assert_eq!(port2, 80);
}

#[test]
fn bootstrap_peer_is_learned() {
    let seed = node_at(1337);
    let joiner = Protocol::new(String::from("127.0.0.1"), 1338, Some(seed.clone()));
    assert!(table_holds(&joiner, &seed));
}

#[test]
fn inbound_ping_learns_sender_at_tail() {
    // B answers a PING from A; B's table then holds A at a bucket tail
    let a = node_at(1337);
    let mut b = Protocol::new(String::from("127.0.0.1"), 1338, None);
    let req = ReqWrapper {
        token: Key::new(String::from("t-1")),
        src: a.get_addr(),
        payload: Request::Ping,
    };
    let (res, wrapper) = b.craft_res(req).expect("well-formed sender");
    assert!(matches!(res, Response::Ping));
    assert!(table_holds(&b, &a));
    assert!(bucket_tail_is(&b, &a));
    let reply: RpcMessage = b.reply(res, wrapper);
    assert_eq!(reply.src, b.node.get_addr());
    assert_eq!(reply.dst, a.get_addr());
    assert!(matches!(reply.msg, Message::Response(Response::Ping)));
}

#[test]
fn outbound_pong_refreshes_peer() {
    // A hears a pong from B: B enters A's table at the tail
    let b = node_at(1338);
    let mut a = Protocol::new(String::from("127.0.0.1"), 1337, None);
    let ok = a.ping(b.clone(), Some(Response::Ping));
    assert!(ok);
    assert!(table_holds(&a, &b));
    assert!(bucket_tail_is(&a, &b));
}

#[test]
fn silent_peer_is_evicted() {
    let a = node_at(1337);
    let mut b = Protocol::new(String::from("127.0.0.1"), 1338, Some(a.clone()));
    assert!(table_holds(&b, &a));
    let ok = b.ping(a.clone(), None);
    assert!(!ok);
    assert!(!table_holds(&b, &a));
}

#[test]
fn store_then_find_value_returns_it() {
    let c = node_at(1339);
    let mut engine = Protocol::new(String::from("127.0.0.1"), 1337, None);
    let store_req = ReqWrapper {
        token: Key::new(String::from("t-2")),
        src: c.get_addr(),
        payload: Request::Store(String::from("key-1"), String::from("value-1")),
    };
    let (res, _) = engine.craft_res(store_req).expect("stores");
    assert!(matches!(res, Response::Ping));
    let get_req = ReqWrapper {
        token: Key::new(String::from("t-3")),
        src: c.get_addr(),
        payload: Request::FindValue(String::from("key-1")),
    };
    let (res2, _) = engine.craft_res(get_req).expect("answers");
    match res2 {
        Response::FindValue(FindValueResult::Value(v)) => assert_eq!(v, "value-1"),
        _ => panic!("the stored value did not come back"),
    }
    // a later write to the same key wins
    let overwrite = ReqWrapper {
        token: Key::new(String::from("t-4")),
        src: c.get_addr(),
        payload: Request::Store(String::from("key-1"), String::from("value-2")),
    };
    engine.craft_res(overwrite).expect("stores");
    let get_req2 = ReqWrapper {
        token: Key::new(String::from("t-5")),
        src: c.get_addr(),
        payload: Request::FindValue(String::from("key-1")),
    };
    let (res3, _) = engine.craft_res(get_req2).expect("answers");
    match res3 {
        Response::FindValue(FindValueResult::Value(v)) => assert_eq!(v, "value-2"),
        _ => panic!("the overwritten value did not come back"),
    }
}

#[test]
fn find_value_for_absent_key_returns_peers() {
    let c = node_at(1339);
    let mut engine = Protocol::new(String::from("127.0.0.1"), 1337, Some(node_at(1338)));
    let req = ReqWrapper {
        token: Key::new(String::from("t-6")),
        src: c.get_addr(),
        payload: Request::FindValue(String::from("missing")),
    };
    let (res, _) = engine.craft_res(req).expect("answers");
    match res {
        Response::FindValue(FindValueResult::Nodes(es)) => assert!(!es.is_empty()),
        _ => panic!("expected a peer list"),
    }
}

#[test]
fn find_node_returns_closest_peers() {
    let c = node_at(1339);
    let mut engine = Protocol::new(String::from("127.0.0.1"), 1337, Some(node_at(1338)));
    let req = ReqWrapper {
        token: Key::new(String::from("t-7")),
        src: c.get_addr(),
        payload: Request::FindNode(Key::new(String::from("key-1"))),
    };
    let (res, _) = engine.craft_res(req).expect("answers");
    match res {
        Response::FindNode(es) => assert!(!es.is_empty()),
        _ => panic!("expected a peer list"),
    }
}

#[test]
fn malformed_sender_is_dropped() {
    let mut engine = Protocol::new(String::from("127.0.0.1"), 1337, None);
    let req = ReqWrapper {
        token: Key::new(String::from("t-8")),
        src: String::from("no-port-here"),
        payload: Request::Ping,
    };
    assert!(engine.craft_res(req).is_none());
}

#[test]
fn tokens_differ_between_requests() {
    let b = node_at(1338);
    let mut a = Protocol::new(String::from("127.0.0.1"), 1337, None);
    let m1 = a.make_request(Request::Ping, &b);
    let m2 = a.make_request(Request::Ping, &b);
    assert_ne!(m1.token.0, m2.token.0);
    assert_eq!(m1.src, a.node.get_addr());
    assert_eq!(m1.dst, b.get_addr());
}
