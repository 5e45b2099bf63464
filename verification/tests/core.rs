use kademlia_dht::key::{Distance, Key};
use kademlia_dht::node::Node;
use kademlia_dht::routing::{NodeAndDistance, RoutingTable};

fn local_ip() -> String {
    String::from("192.168.1.10")
}

#[test]
fn create_key() {
    let input_str = String::from("test_string");
    let k = Key::new(input_str);
    println!("test_string: {:?}", k);
}

#[test]
fn create_node() {
    let node = Node::new(local_ip(), 1337);
    let node_info = node.get_info();

    println!("node: {}", node_info);

    assert_eq!(
        node_info,
        "192.168.1.10:1337:B1F14199A00EA18325688FEE9DCD3E48E9269276892C2F3E66135EA15C5C90EB"
    )
}

#[test]
fn distance_between_nodes() {
    let node0 = Node::new(local_ip(), 1337);
    let node1 = Node::new(local_ip(), 1338);

    let dist = Distance::new(&node0.id, &node1.id);
    println!(
        "node0.id: {:?}, node1.id: {:?}, dist: {:?}",
        node0.id, node1.id, dist
    );
}

#[test]
fn compare_distance() {
    let node0 = Node::new(local_ip(), 1337);
    let node1 = Node::new(local_ip(), 1338);

    let dist = Distance::new(&node0.id, &node1.id);
    let nd0 = NodeAndDistance(node0.clone(), dist.clone());
    let nd1 = NodeAndDistance(node1.clone(), dist.clone());

    let mut are_eq = false;
    if nd0 == nd1 {
        are_eq = true;
    }

    assert_eq!(are_eq, true);
}

#[test]
fn routing_table_init() {
    let node0 = Node::new(local_ip(), 1337);
    let node1 = Node::new(local_ip(), 1338);

    // first ever node to join the net
    let rt0 = RoutingTable::new(node0.clone(), None);
    let rt1 = RoutingTable::new(node1, Some(node0));

    println!("[DEBUG] rt0: {:?}", rt0);
    println!("[DEBUG] rt1: {:?}", rt1);
}
