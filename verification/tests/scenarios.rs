use hetu::simulator::{Packet, Simulator, SubNet};
use hetu::symbolic::device::Device;
use hetu::symbolic::npnet::{InvariantType, NPNet, TraversalType};
use hetu::util::network::Topology;
use hetu::util::rule::Rule;

const WIDTH: usize = 48;

fn link(src_node: &str, src_port: &str, dst_node: &str, dst_port: &str) -> Topology {
    Topology {
        src_node: src_node.to_string(),
        src_port: src_port.to_string(),
        dst_node: dst_node.to_string(),
        dst_port: dst_port.to_string(),
    }
}

fn rule(ip: &str, len: usize, ports: &[&str]) -> Rule {
    Rule::new(
        len,
        ip.to_string(),
        "forward".to_string(),
        ports.iter().map(|p| p.to_string()).collect(),
    )
}

fn packet(host: &str, prefix: &str, len: usize) -> Packet {
    Packet { prefix: prefix.to_string(), prefix_len: len, host_name: host.to_string() }
}

fn names(list: &[&str]) -> Vec<String> {
    list.iter().map(|s| s.to_string()).collect()
}

fn build(
    devices: &[(&str, Vec<Rule>)],
    links: Vec<Topology>,
    packets: Vec<Packet>,
    edge: &[&str],
) -> Simulator {
    let mut sim = Simulator::new(WIDTH).expect("an engine of this width exists");
    sim.set_devices_name(devices.iter().map(|d| d.0.to_string()).collect());
    sim.set_edge_devices_name(names(edge));
    sim.set_dst_devices_name(names(edge));
    sim.init_network(&links);
    let mut list = Vec::new();
    for (name, rules) in devices {
        let mut device = Device::new(name.to_string(), &sim.get_engine().engine);
        device.load_rules(rules.clone());
        list.push(device);
    }
    sim.read_devices_and_encode(list, packets).expect("the devices load");
    sim
}

#[test]
fn two_devices_one_prefix_are_reachable() {
    let sim = build(
        &[("A", vec![rule("10.0.0.0", 24, &["p1"])]), ("B", vec![])],
        vec![link("A", "p1", "B", "p1")],
        vec![packet("B", "10.0.0.0", 24)],
        &["A", "B"],
    );
    assert_eq!(sim.verify_reachability_with_npnet(), Ok((1, 0)));
}

#[test]
fn missing_rule_is_unreachable() {
    let sim = build(
        &[("A", vec![rule("10.0.1.0", 24, &["p1"])]), ("B", vec![])],
        vec![link("A", "p1", "B", "p1")],
        vec![packet("B", "10.0.0.0", 24)],
        &["A", "B"],
    );
    assert_eq!(sim.verify_reachability_with_npnet(), Ok((0, 1)));
}

#[test]
fn longer_prefix_takes_its_half() {
    let sim = build(
        &[
            ("A", vec![rule("10.0.0.0", 24, &["p1"]), rule("10.0.0.0", 25, &["p2"])]),
            ("B", vec![]),
            ("C", vec![]),
        ],
        vec![link("A", "p1", "B", "p1"), link("A", "p2", "C", "p2")],
        vec![packet("B", "10.0.0.0", 24)],
        &["A", "B", "C"],
    );
    let toponet = sim.get_toponet();
    let engine = &sim.get_engine().engine;
    let a = &toponet.get_devices()[0];
    let upper = engine.encode_dst_ip_prefix_clause("10.0.0.128", 25).unwrap();
    let lower = engine.encode_dst_ip_prefix_clause("10.0.0.0", 25).unwrap();
    assert_eq!(a.get_space_bdd("p1"), &upper);
    assert_eq!(a.get_space_bdd("p2"), &lower);

    let mut neighborhoods = sim.find_neighborhood_from_subnet_space().unwrap();
    assert_eq!(neighborhoods.len(), 1);
    let mut net = NPNet::new_with_src_toponet(toponet, neighborhoods.pop().unwrap(), engine).unwrap();
    net.iterative_traversal(toponet, engine, TraversalType::Backward, InvariantType::Reachability);
    let at_a = net.node_index("A").unwrap();
    assert_eq!(net.nodes[at_a].verified_space, upper);
    assert_eq!(sim.verify_reachability_with_npnet(), Ok((0, 2)));
}

#[test]
fn device_without_links_is_unreachable() {
    let sim = build(
        &[("A", vec![rule("10.0.0.0", 24, &["p1"])]), ("B", vec![]), ("D", vec![])],
        vec![link("A", "p1", "B", "p1")],
        vec![packet("B", "10.0.0.0", 24)],
        &["A", "B", "D"],
    );
    assert_eq!(sim.verify_reachability_with_npnet(), Ok((1, 1)));
}

#[test]
fn forwarding_loop_still_terminates() {
    let both = vec![rule("10.0.0.0", 24, &["p1", "p2"])];
    let sim = build(
        &[("A", both.clone()), ("B", both)],
        vec![link("A", "p1", "B", "p1"), link("A", "p2", "B", "p2")],
        vec![packet("B", "10.0.0.0", 24)],
        &["A", "B"],
    );
    assert_eq!(sim.verify_reachability_with_npnet(), Ok((1, 0)));
}

#[test]
fn packet_space_object_form_gives_the_same_result() {
    let object_form =
        vec![("D1".to_string(), vec![SubNet::new("10.0.0.0".to_string(), 24)])];
    let packets = Simulator::convert_subnet_devices_to_packets(&object_form);
    assert_eq!(packets.len(), 1);
    assert_eq!(packets[0].prefix, "10.0.0.0");
    assert_eq!(packets[0].prefix_len, 24);
    assert_eq!(packets[0].host_name, "D1");

    let devices = |rules: Vec<Rule>| vec![("D0", rules), ("D1", vec![])];
    let from_object = build(
        &devices(vec![rule("10.0.0.0", 24, &["p1"])]),
        vec![link("D0", "p1", "D1", "p1")],
        packets,
        &["D0", "D1"],
    );
    let from_array = build(
        &devices(vec![rule("10.0.0.0", 24, &["p1"])]),
        vec![link("D0", "p1", "D1", "p1")],
        vec![packet("D1", "10.0.0.0", 24)],
        &["D0", "D1"],
    );
    assert_eq!(
        from_object.verify_reachability_with_npnet(),
        from_array.verify_reachability_with_npnet()
    );
    assert_eq!(from_array.verify_reachability_with_npnet(), Ok((1, 0)));
}

#[test]
fn forward_and_backward_agree_on_a_small_net() {
    let sim = build(
        &[
            ("A", vec![rule("10.0.1.0", 24, &["p1"])]),
            ("B", vec![rule("10.0.0.0", 24, &["p1"]), rule("10.0.2.0", 24, &["p2"])]),
            ("C", vec![]),
        ],
        vec![link("A", "p1", "B", "p1"), link("B", "p2", "C", "p1")],
        vec![packet("A", "10.0.0.0", 24), packet("B", "10.0.1.0", 24), packet("C", "10.0.2.0", 24)],
        &["A", "B", "C"],
    );
    let toponet = sim.get_toponet();
    let engine = &sim.get_engine().engine;
    let edge = names(&["A", "B", "C"]);
    let mut counts = Vec::new();
    for direction in [TraversalType::Backward, TraversalType::Forward] {
        let mut neighborhoods = sim.find_neighborhood_from_subnet_space().unwrap();
        assert_eq!(neighborhoods.len(), 1);
        let mut net =
            NPNet::new_with_src_toponet(toponet, neighborhoods.pop().unwrap(), engine).unwrap();
        let stats = net.iterative_traversal(toponet, engine, direction, InvariantType::Reachability);
        assert_eq!(stats.iterations, 1);
        counts.push(net.check_reachability(toponet, engine, &edge, direction));
    }
    // A reaches B, B reaches A and C; nobody else reaches anybody.
    assert_eq!(counts[0], Ok((3, 3)));
    assert_eq!(counts[1], Ok((3, 3)));
    assert_eq!(sim.verify_reachability_with_npnet(), Ok((3, 3)));
}
