use kademlia_dht::key::{Distance, Key};
use kademlia_dht::network::{
    FindValueResult, Message, Request, Response, RpcMessage,
};
use kademlia_dht::node::Node;
use kademlia_dht::routing::NodeAndDistance;

fn node_at(port: u16) -> Node {
    Node::new(String::from("127.0.0.1"), port)
}

fn sample_entries() -> Vec<NodeAndDistance> {
    let target = Key::new(String::from("key-1"));
    let n1 = node_at(1337);
    let n2 = node_at(1338);
    let d1 = Distance::new(&n1.id, &target);
    let d2 = Distance::new(&n2.id, &target);
    vec![NodeAndDistance(n1, d1), NodeAndDistance(n2, d2)]
}

fn token() -> Key {
    Key::new(String::from("token-seed"))
}

fn assert_round_trip(msg: RpcMessage) {
    let bytes = msg.serialize();
    let back = RpcMessage::deserialize(bytes.clone()).expect("decodes");
    let bytes2 = back.serialize();
    assert_eq!(bytes, bytes2);
}

#[test]
fn find_node_response_survives_reserialization() {
    let msg = RpcMessage {
        token: token(),
        src: String::from("127.0.0.1:1337"),
        dst: String::from("127.0.0.1:1339"),
        msg: Message::Response(Response::FindNode(sample_entries())),
    };
    let bytes = msg.serialize();
    let back = RpcMessage::deserialize(bytes.clone()).expect("decodes");
    // the decoded entries carry the same nodes at the same distances
    match &back.msg {
        Message::Response(Response::FindNode(es)) => {
            assert_eq!(es.len(), 2);
            assert_eq!(es[0].0.ip, "127.0.0.1");
            assert_eq!(es[0].0.port, 1337);
            assert_eq!(es[1].0.port, 1338);
            let orig = sample_entries();
            assert_eq!(es[0].1 .0, orig[0].1 .0);
            assert_eq!(es[0].0.id.0, orig[0].0.id.0);
        },
        _ => panic!("wrong payload came back"),
    }
    let bytes2 = back.serialize();
    assert_eq!(bytes, bytes2);
}

#[test]
fn every_message_kind_round_trips() {
    let kinds: Vec<Message> = vec![
        Message::Request(Request::Ping),
        Message::Request(Request::Store(String::from("key-1"), String::from("value-1"))),
        Message::Request(Request::FindNode(Key::new(String::from("key-1")))),
        Message::Request(Request::FindValue(String::from("key-1"))),
        Message::Response(Response::Ping),
        Message::Response(Response::FindNode(sample_entries())),
        Message::Response(Response::FindValue(FindValueResult::Value(String::from(
            "value-1",
        )))),
        Message::Response(Response::FindValue(FindValueResult::Nodes(sample_entries()))),
    ];
    for m in kinds {
        assert_round_trip(RpcMessage {
            token: token(),
            src: String::from("127.0.0.1:1337"),
            dst: String::from("127.0.0.1:1338"),
            msg: m,
        });
    }
}

#[test]
fn malformed_datagrams_are_rejected() {
    assert!(RpcMessage::deserialize(vec![]).is_none());
    assert!(RpcMessage::deserialize(vec![0u8; 10]).is_none());
    // a valid message with a trailing byte no longer parses
    let msg = RpcMessage {
        token: token(),
        src: String::from("127.0.0.1:1337"),
        dst: String::from("127.0.0.1:1338"),
        msg: Message::Request(Request::Ping),
    };
    let mut bytes = msg.serialize();
    assert!(RpcMessage::deserialize(bytes.clone()).is_some());
    bytes.push(0);
    assert!(RpcMessage::deserialize(bytes).is_none());
}

#[test]
fn decoded_nodes_recompute_their_ids() {
    let msg = RpcMessage {
        token: token(),
        src: String::from("127.0.0.1:1337"),
        dst: String::from("127.0.0.1:1339"),
        msg: Message::Response(Response::FindNode(sample_entries())),
    };
    let back = RpcMessage::deserialize(msg.serialize()).expect("decodes");
    match &back.msg {
        Message::Response(Response::FindNode(es)) => {
            for e in es {
                let rebuilt = Node::new(e.0.ip.clone(), e.0.port);
                assert_eq!(rebuilt.id.0, e.0.id.0);
            }
        },
        _ => panic!("wrong payload came back"),
    }
}
