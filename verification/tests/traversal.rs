use hetu::simulator::{Packet, Simulator, SubNet};
use hetu::symbolic::device::Device;
use hetu::symbolic::neighborhood::{Neighborhood, PacketSpaceAwareDevice};
use hetu::symbolic::npnet::{aggregate, prune, InvariantType, NPNet, NPNetNode, TraversalType};
use hetu::util::network::Topology;
use hetu::util::npbdd::{Engine, EngineError};
use hetu::util::rule::Rule;

const WIDTH: usize = 48;

fn link(src_node: &str, src_port: &str, dst_node: &str, dst_port: &str) -> Topology {
    Topology {
        src_node: src_node.to_string(),
        src_port: src_port.to_string(),
        dst_node: dst_node.to_string(),
        dst_port: dst_port.to_string(),
    }
}

fn rule(ip: &str, len: usize, ports: &[&str]) -> Rule {
    Rule::new(
        len,
        ip.to_string(),
        "forward".to_string(),
        ports.iter().map(|p| p.to_string()).collect(),
    )
}

fn packet(host: &str, prefix: &str, len: usize) -> Packet {
    Packet { prefix: prefix.to_string(), prefix_len: len, host_name: host.to_string() }
}

fn names(list: &[&str]) -> Vec<String> {
    list.iter().map(|s| s.to_string()).collect()
}

fn build(
    devices: &[(&str, Vec<Rule>)],
    links: Vec<Topology>,
    packets: Vec<Packet>,
    edge: &[&str],
) -> Simulator {
    build_for(devices, links, packets, edge, edge)
}

fn build_for(
    devices: &[(&str, Vec<Rule>)],
    links: Vec<Topology>,
    packets: Vec<Packet>,
    edge: &[&str],
    dst: &[&str],
) -> Simulator {
    let mut sim = Simulator::new(WIDTH).expect("an engine of this width exists");
    sim.set_devices_name(devices.iter().map(|d| d.0.to_string()).collect());
    sim.set_edge_devices_name(names(edge));
    sim.set_dst_devices_name(names(dst));
    sim.init_network(&links);
    let mut list = Vec::new();
    for (name, rules) in devices {
        let mut device = Device::new(name.to_string(), &sim.get_engine().engine);
        device.load_rules(rules.clone());
        list.push(device);
    }
    sim.read_devices_and_encode(list, packets).expect("the devices load");
    sim
}

/// The chain `A - B - C - D - E` with the subnet `10.0.0.0/24` at `E`;
/// every device but `E` and those named in `silent` forwards the subnet to
/// its right.
fn chain(silent: &[&str], edge: &[&str]) -> Simulator {
    let rules = |name: &str| {
        if silent.contains(&name) {
            vec![]
        } else {
            vec![rule("10.0.0.0", 24, &["r"])]
        }
    };
    build(
        &[("A", rules("A")), ("B", rules("B")), ("C", rules("C")), ("D", rules("D")), ("E", vec![])],
        vec![
            link("A", "r", "B", "l"),
            link("B", "r", "C", "l"),
            link("C", "r", "D", "l"),
            link("D", "r", "E", "l"),
        ],
        vec![packet("E", "10.0.0.0", 24)],
        edge,
    )
}

fn sorted(mut list: Vec<String>) -> Vec<String> {
    list.sort();
    list
}

fn members(neighborhood: &Neighborhood) -> (Vec<String>, Vec<String>) {
    let marked = neighborhood.get_marked_nodes().iter().map(|m| m.device_name.clone()).collect();
    (sorted(marked), sorted(neighborhood.get_normal_nodes().clone()))
}

#[test]
fn union_of_no_spaces_is_empty() {
    let engine = Engine::init(WIDTH).unwrap();
    assert!(aggregate(&vec![], &engine).is_false());
    let lower = engine.encode_dst_ip_prefix_clause("10.0.0.0", 25).unwrap();
    let upper = engine.encode_dst_ip_prefix_clause("10.0.0.128", 25).unwrap();
    let whole = engine.encode_dst_ip_prefix_clause("10.0.0.0", 24).unwrap();
    assert_eq!(aggregate(&vec![lower.clone()], &engine), lower);
    assert_eq!(aggregate(&vec![lower, upper.clone(), upper], &engine), whole);
}

#[test]
fn pruning_returns_what_is_new() {
    let engine = Engine::init(WIDTH).unwrap();
    let lower = engine.encode_dst_ip_prefix_clause("10.0.0.0", 25).unwrap();
    let upper = engine.encode_dst_ip_prefix_clause("10.0.0.128", 25).unwrap();
    let whole = engine.encode_dst_ip_prefix_clause("10.0.0.0", 24).unwrap();
    let mut verified = lower.clone();
    assert_eq!(prune(&mut verified, &whole), upper);
    assert_eq!(verified, whole);
    // Nothing is new the second time.
    assert!(prune(&mut verified, &lower).is_false());
    assert_eq!(verified, whole);
}

#[test]
fn verified_space_never_loses_a_header() {
    let engine = Engine::init(WIDTH).unwrap();
    let lower = engine.encode_dst_ip_prefix_clause("10.0.0.0", 25).unwrap();
    let upper = engine.encode_dst_ip_prefix_clause("10.0.0.128", 25).unwrap();
    let other = engine.encode_dst_ip_prefix_clause("10.0.7.0", 24).unwrap();
    let mut node = NPNetNode::new("A".to_string(), 0, true, &engine);
    assert!(node.verified_space.is_false());
    assert!(node.arrive_spaces.is_empty());

    let mut before = node.verified_space.clone();
    for arrivals in [vec![lower.clone()], vec![], vec![other.clone(), upper.clone()], vec![lower.clone()]] {
        let expected = arrivals.iter().fold(engine.make_none_space_bdd(), |acc, b| acc.or(b));
        node.arrive_spaces = arrivals;
        let gathered = node.arrive_space_aggregate_and_verify(&engine);
        assert_eq!(gathered, expected);
        assert!(node.arrive_spaces.is_empty());
        assert!(before.and_not(&node.verified_space).is_false());
        assert_eq!(node.verified_space, before.or(&expected));
        before = node.verified_space.clone();
    }
    assert_eq!(node.verified_space, lower.or(&upper).or(&other));
    let rest = node.verified_space.not();
    assert_eq!(node.verified_space_prune(&engine.make_all_space_bdd()), rest);
    assert!(node.verified_space.is_true());
}

#[test]
fn loop_is_suspected_after_too_many_arrivals() {
    let engine = Engine::init(WIDTH).unwrap();
    let mut node = NPNetNode::new("A".to_string(), 0, true, &engine);
    assert!(!node.loop_detection_at_port("p1".to_string(), 0));
    assert!(!node.loop_detection_at_port("p1".to_string(), 2));
    assert!(node.loop_detection_at_port("p1".to_string(), 2));
    // Each port is counted by itself.
    assert!(!node.loop_detection_at_port("p2".to_string(), 2));
    assert_eq!(node.port_arrive_cnt.get("p1"), Some(3));
    assert_eq!(node.port_arrive_cnt.get("p2"), Some(1));
}

#[test]
fn neighborhood_holds_marked_and_normal_nodes() {
    let engine = Engine::init(WIDTH).unwrap();
    let one = engine.encode_dst_ip_prefix_clause("10.0.0.0", 24).unwrap();
    let two = engine.encode_dst_ip_prefix_clause("10.0.1.0", 24).unwrap();
    let mut n = Neighborhood::new();
    assert!(!n.is_neighborhood_node("A"));
    n.add_marked_node(PacketSpaceAwareDevice::new("A".to_string(), one.clone(), 0));
    n.add_normal_node("B".to_string());
    n.add_normal_node("B".to_string());
    n.add_marked_node(PacketSpaceAwareDevice::new("C".to_string(), two.clone(), 2));
    assert!(n.is_marked_node("A") && !n.is_normal_node("A") && n.is_neighborhood_node("A"));
    assert!(!n.is_marked_node("B") && n.is_normal_node("B") && n.is_neighborhood_node("B"));
    assert!(!n.is_neighborhood_node("D"));
    assert_eq!(members(&n), (names(&["A", "C"]), names(&["B"])));
    // A marked node that comes again takes the place of the first.
    n.add_marked_node(PacketSpaceAwareDevice::new("A".to_string(), two.clone(), 9));
    let marked = n.get_marked_nodes();
    assert_eq!(marked.len(), 2);
    assert_eq!(marked[0].device_name, "A");
    assert_eq!(marked[0].dst_prefix_bdd, two);
    assert_eq!(marked[0].device_id, 9);
    assert_eq!(marked[1].clone().device_name, "C");
}

#[test]
fn neighborhood_reaches_one_step_beyond_its_marked_node() {
    let sim = chain(&[], &["A", "E"]);
    let found = sim.find_neighborhood_from_subnet_space().unwrap();
    assert_eq!(found.len(), 1);
    assert_eq!(members(&found[0]), (names(&["E"]), names(&["D"])));
}

#[test]
fn marked_neighbor_renews_the_reach() {
    let sim = build(
        &[("M1", vec![]), ("x", vec![]), ("M2", vec![]), ("a", vec![]), ("b", vec![])],
        vec![
            link("M1", "r", "x", "l"),
            link("x", "r", "M2", "l"),
            link("M2", "r", "a", "l"),
            link("a", "r", "b", "l"),
        ],
        vec![packet("M1", "10.0.0.0", 24), packet("M2", "10.0.1.0", 24)],
        &["M1", "M2"],
    );
    let found = sim.find_neighborhood_from_subnet_space().unwrap();
    assert_eq!(found.len(), 1);
    assert_eq!(members(&found[0]), (names(&["M1", "M2"]), names(&["a", "x"])));
}

#[test]
fn device_joins_one_neighborhood_only() {
    let sim = build(
        &[("M1", vec![]), ("x", vec![]), ("y", vec![]), ("M2", vec![])],
        vec![link("M1", "r", "x", "l"), link("x", "r", "y", "l"), link("y", "r", "M2", "l")],
        vec![packet("M1", "10.0.0.0", 24), packet("M2", "10.0.1.0", 24)],
        &["M1", "M2"],
    );
    let found = sim.find_neighborhood_from_subnet_space().unwrap();
    assert_eq!(found.len(), 2);
    assert_eq!(members(&found[0]), (names(&["M1"]), names(&["x"])));
    assert_eq!(members(&found[1]), (names(&["M2"]), names(&["y"])));
    // The pairs of both neighborhoods are counted: neither reaches the other.
    assert_eq!(sim.verify_reachability_with_npnet(), Ok((0, 2)));
}

#[test]
fn marked_device_without_links_is_a_neighborhood_of_its_own() {
    let sim = build(
        &[("A", vec![]), ("B", vec![]), ("M", vec![])],
        vec![link("A", "p1", "B", "p1")],
        vec![packet("M", "10.0.0.0", 24)],
        &["A", "M"],
    );
    let found = sim.find_neighborhood_from_subnet_space().unwrap();
    assert_eq!(found.len(), 1);
    assert_eq!(members(&found[0]), (names(&["M"]), names(&[])));
    assert_eq!(sim.verify_reachability_with_npnet(), Ok((0, 1)));
}

#[test]
fn subnet_travels_through_the_tunnel_to_the_far_end() {
    let sim = chain(&[], &["A", "E"]);
    let toponet = sim.get_toponet();
    let engine = &sim.get_engine().engine;
    let subnet = engine.encode_dst_ip_prefix_clause("10.0.0.0", 24).unwrap();
    let mut found = sim.find_neighborhood_from_subnet_space().unwrap();
    let mut net = NPNet::new_with_src_toponet(toponet, found.pop().unwrap(), engine).unwrap();
    assert_eq!(net.nodes.len(), 5);
    let inner: Vec<bool> = net.nodes.iter().map(|n| n.inner).collect();
    assert_eq!(inner, vec![false, false, false, true, true]);
    // The link between C and D crosses between the areas, at both ends.
    assert_eq!(net.tunnels.len(), 2);
    assert!(net.nodes.iter().all(|n| n.verified_space.is_false() && n.arrive_spaces.is_empty()));

    let stats = net.iterative_traversal(toponet, engine, TraversalType::Backward, InvariantType::Reachability);
    assert_eq!(stats.iterations, 1);
    assert!(stats.hops >= 4);
    for name in ["A", "B", "C", "D", "E"] {
        let at = net.node_index(name).unwrap();
        assert_eq!(net.nodes[at].verified_space, subnet);
        assert!(net.nodes[at].arrive_spaces.is_empty());
    }
    assert!(net.tunnels.iter().all(|t| t.arrive_spaces.is_empty()));
    assert_eq!(net.node_index("F"), None);
    assert_eq!(net.backward_check_reachability(&names(&["A", "E"])), Ok((1, 0)));
    assert_eq!(net.backward_check_reachability(&names(&["A", "B", "C", "D"])), Ok((4, 0)));
    assert_eq!(net.backward_check_reachability(&names(&[])), Ok((0, 0)));
    assert_eq!(sim.verify_reachability_with_npnet(), Ok((1, 0)));
}

#[test]
fn gap_in_the_outer_area_stops_the_subnet() {
    let sim = chain(&["B"], &["A", "B", "C", "D", "E"]);
    let toponet = sim.get_toponet();
    let engine = &sim.get_engine().engine;
    let subnet = engine.encode_dst_ip_prefix_clause("10.0.0.0", 24).unwrap();
    let mut found = sim.find_neighborhood_from_subnet_space().unwrap();
    let mut net = NPNet::new_with_src_toponet(toponet, found.pop().unwrap(), engine).unwrap();
    net.iterative_traversal(toponet, engine, TraversalType::Backward, InvariantType::Reachability);
    for (name, reached) in [("A", false), ("B", false), ("C", true), ("D", true), ("E", true)] {
        let at = net.node_index(name).unwrap();
        if reached {
            assert_eq!(net.nodes[at].verified_space, subnet);
        } else {
            assert!(net.nodes[at].verified_space.is_false());
        }
    }
    assert_eq!(sim.verify_reachability_with_npnet(), Ok((2, 2)));
}

#[test]
fn traversing_again_changes_nothing() {
    let sim = chain(&[], &["A", "E"]);
    let toponet = sim.get_toponet();
    let engine = &sim.get_engine().engine;
    let mut found = sim.find_neighborhood_from_subnet_space().unwrap();
    let mut net = NPNet::new_with_src_toponet(toponet, found.pop().unwrap(), engine).unwrap();
    net.iterative_traversal(toponet, engine, TraversalType::Backward, InvariantType::Reachability);
    let before: Vec<_> = net.nodes.iter().map(|n| n.verified_space.clone()).collect();
    let stats = net.iterative_traversal(toponet, engine, TraversalType::Backward, InvariantType::Reachability);
    assert_eq!(stats.iterations, 1);
    let after: Vec<_> = net.nodes.iter().map(|n| n.verified_space.clone()).collect();
    assert_eq!(before, after);
}

#[test]
fn forward_traversal_carries_the_source_with_the_subnet() {
    let sim = build(
        &[("A", vec![rule("10.0.1.0", 24, &["p1"])]), ("B", vec![])],
        vec![link("A", "p1", "B", "p1")],
        vec![packet("A", "10.0.0.0", 24), packet("B", "10.0.1.0", 24)],
        &["A", "B"],
    );
    let toponet = sim.get_toponet();
    let engine = &sim.get_engine().engine;
    let mut found = sim.find_neighborhood_from_subnet_space().unwrap();
    let mut net = NPNet::new_with_src_toponet(toponet, found.pop().unwrap(), engine).unwrap();
    net.iterative_traversal(toponet, engine, TraversalType::Forward, InvariantType::Reachability);
    let from_a = engine.encode_src_device_constraint(0);
    let from_b = engine.encode_src_device_constraint(1);
    let subnet_a = engine.encode_dst_ip_prefix_clause("10.0.0.0", 24).unwrap();
    let subnet_b = engine.encode_dst_ip_prefix_clause("10.0.1.0", 24).unwrap();
    let all = subnet_a.or(&subnet_b);
    assert_eq!(net.nodes[0].verified_space, from_a.and(&all));
    assert_eq!(net.nodes[1].verified_space, from_b.and(&all).or(&from_a.and(&subnet_b)));
    assert_eq!(net.forward_check_reachability(toponet, engine, &names(&["A", "B"])), Ok((1, 1)));
    assert_eq!(
        net.check_reachability(toponet, engine, &names(&["B"]), TraversalType::Forward),
        Ok((1, 0))
    );
}

#[test]
fn net_is_not_laid_out_without_what_it_needs() {
    let sim = chain(&[], &["A", "E"]);
    let toponet = sim.get_toponet();
    let engine = &sim.get_engine().engine;
    let subnet = engine.encode_dst_ip_prefix_clause("10.0.0.0", 24).unwrap();

    let mut stranger = Neighborhood::new();
    stranger.add_marked_node(PacketSpaceAwareDevice::new("Z".to_string(), subnet.clone(), 0));
    assert_eq!(
        NPNet::new_with_src_toponet(toponet, stranger, engine).err(),
        Some(EngineError::UnknownDevice)
    );

    let wider = Engine::init(WIDTH + 8).unwrap();
    let mut foreign = Neighborhood::new();
    foreign.add_marked_node(PacketSpaceAwareDevice::new(
        "E".to_string(),
        wider.encode_dst_ip_prefix_clause("10.0.0.0", 24).unwrap(),
        4,
    ));
    assert_eq!(
        NPNet::new_with_src_toponet(toponet, foreign, engine).err(),
        Some(EngineError::ForeignDiagram)
    );

    let mut empty = Simulator::new(WIDTH).unwrap();
    empty.init_network(&vec![]);
    assert_eq!(
        NPNet::new_with_src_toponet(empty.get_toponet(), Neighborhood::new(), &empty.get_engine().engine)
            .err(),
        Some(EngineError::NoPacketSpace)
    );
}

#[test]
fn nothing_declared_means_nothing_to_count() {
    let mut sim = Simulator::new(WIDTH).unwrap();
    sim.set_edge_devices_name(names(&["A"]));
    sim.init_network(&vec![link("A", "p1", "B", "p1")]);
    assert_eq!(sim.find_neighborhood_from_subnet_space().map(|v| v.len()), Ok(0));
    assert_eq!(sim.verify_reachability_with_npnet(), Ok((0, 0)));
}

#[test]
fn edge_device_that_is_no_device_is_refused() {
    let sim = build_for(
        &[("A", vec![rule("10.0.0.0", 24, &["p1"])]), ("B", vec![])],
        vec![link("A", "p1", "B", "p1")],
        vec![packet("B", "10.0.0.0", 24)],
        &["A", "Q"],
        &["A", "B"],
    );
    assert_eq!(sim.verify_reachability_with_npnet(), Err(EngineError::UnknownDevice));
    let toponet = sim.get_toponet();
    let engine = &sim.get_engine().engine;
    let mut found = sim.find_neighborhood_from_subnet_space().unwrap();
    let net = NPNet::new_with_src_toponet(toponet, found.pop().unwrap(), engine).unwrap();
    assert_eq!(net.backward_check_reachability(&names(&["Q"])), Err(EngineError::UnknownDevice));
    assert_eq!(
        net.forward_check_reachability(toponet, engine, &names(&["A", "Q"])),
        Err(EngineError::UnknownDevice)
    );
}

#[test]
fn loading_needs_its_destinations_and_a_subnet() {
    let attempt = |devices: &[&str], packets: Vec<Packet>, dst: &[&str]| {
        let mut sim = Simulator::new(WIDTH).unwrap();
        sim.set_dst_devices_name(names(dst));
        sim.init_network(&vec![link("A", "p1", "B", "p1")]);
        let list = devices
            .iter()
            .map(|name| Device::new(name.to_string(), &sim.get_engine().engine))
            .collect();
        sim.read_devices_and_encode(list, packets)
    };
    assert_eq!(attempt(&["A", "B"], vec![packet("B", "10.0.0.0", 24)], &["A", "B"]), Ok(()));
    // A destination that is not among the devices.
    assert_eq!(
        attempt(&["A", "B"], vec![packet("B", "10.0.0.0", 24)], &["A", "C"]),
        Err(EngineError::UnknownDevice)
    );
    // Two devices of one name.
    assert_eq!(
        attempt(&["A", "B", "A"], vec![packet("B", "10.0.0.0", 24)], &["A", "B"]),
        Err(EngineError::UnknownDevice)
    );
    // No destination with a subnet.
    assert_eq!(attempt(&["A", "B"], vec![], &["A", "B"]), Err(EngineError::NoPacketSpace));
    assert_eq!(
        attempt(&["A", "B"], vec![packet("B", "10.0.0.0", 24)], &["A"]),
        Err(EngineError::NoPacketSpace)
    );
}

#[test]
fn common_prefix_is_the_longest_shared_beginning() {
    assert_eq!(Simulator::find_common_prefix(&names(&[])), "");
    assert_eq!(Simulator::find_common_prefix(&names(&["10.0.0.0"])), "10.0.0.0");
    assert_eq!(Simulator::find_common_prefix(&names(&["10.0.0.0", "10.0.1.0"])), "10.0.");
    assert_eq!(Simulator::find_common_prefix(&names(&["10.0.0.0", "10.0.1.0", "10.1.0.0"])), "10.");
    assert_eq!(Simulator::find_common_prefix(&names(&["10.0.0.0", "192.168.0.0"])), "1");
    assert_eq!(Simulator::find_common_prefix(&names(&["10.0.0.0", "20.0.0.0"])), "");
    assert_eq!(Simulator::find_common_prefix(&names(&["10.0", "10.0.0.0"])), "10.0");
}

#[test]
fn subnets_are_listed_host_after_host() {
    let listed = vec![
        (
            "D1".to_string(),
            vec![SubNet::new("10.0.0.0".to_string(), 24), SubNet::new("10.0.1.0".to_string(), 25)],
        ),
        ("D2".to_string(), vec![]),
        ("D3".to_string(), vec![SubNet::new("10.1.0.0".to_string(), 16)]),
    ];
    let packets = Simulator::convert_subnet_devices_to_packets(&listed);
    let flat: Vec<(&str, usize, &str)> =
        packets.iter().map(|p| (p.prefix.as_str(), p.prefix_len, p.host_name.as_str())).collect();
    assert_eq!(flat, vec![("10.0.0.0", 24, "D1"), ("10.0.1.0", 25, "D1"), ("10.1.0.0", 16, "D3")]);
}

#[test]
fn last_subnet_declared_for_a_device_stays() {
    let mut sim = Simulator::new(WIDTH).unwrap();
    let engine = Engine::init(WIDTH).unwrap();
    let mut devices =
        vec![Device::new("A".to_string(), &engine), Device::new("B".to_string(), &engine)];
    sim.set_packet_space(
        &mut devices,
        vec![packet("B", "10.0.0.0", 24), packet("Z", "10.0.9.0", 24), packet("B", "10.0.1.0", 25)],
    );
    assert!(devices[0].get_packet_space().is_none());
    assert_eq!(devices[1].get_packet_space().as_ref().unwrap().get_name(), "10.0.1.0/25");
    assert_eq!(sim.get_common_prefix(), "10.0.");
}

#[test]
fn devices_are_numbered_in_their_order() {
    let sim = Simulator::new(WIDTH).unwrap();
    let engine = &sim.get_engine().engine;
    let mut devices: Vec<Device> =
        ["A", "B", "C"].iter().map(|n| Device::new(n.to_string(), engine)).collect();
    sim.assign_device_id_and_encode(&mut devices);
    for (i, device) in devices.iter().enumerate() {
        assert_eq!(device.get_device_id(), i);
        assert_eq!(device.get_device_id_bdd(), &engine.encode_src_device_constraint(i));
    }
}

#[test]
fn run_wants_room_for_the_device_id() {
    assert!(Simulator::new(15).is_none());
    assert!(Simulator::new(16).is_some());
    let sim = Simulator::new(WIDTH).unwrap();
    assert_eq!(sim.get_toponet().get_ip_bits_len(), WIDTH);
    assert!(sim.get_toponet().get_devices().is_empty());
    assert!(sim.get_toponet().get_all_space().is_none());
    assert!(sim.get_edge_devices().is_empty());
}

#[test]
fn loading_without_a_declaring_destination_leaves_no_space_of_all_subnets() {
    let mut sim = Simulator::new(WIDTH).unwrap();
    sim.set_dst_devices_name(names(&["A"]));
    sim.init_network(&vec![link("A", "p1", "B", "p1")]);
    let engine = Engine::init(WIDTH).unwrap();
    let devices = vec![Device::new("A".to_string(), &engine), Device::new("B".to_string(), &engine)];
    // B declares a subnet, but B is no destination.
    let loaded = sim.read_devices_and_encode(devices, vec![packet("B", "10.0.0.0", 24)]);
    assert_eq!(loaded, Err(EngineError::NoPacketSpace));
    assert!(sim.get_toponet().get_all_space().is_none());
    assert!(sim.get_toponet().get_devices().is_empty());
}

#[test]
fn stored_topology_holds_the_links_that_were_given() {
    let mut sim = Simulator::new(WIDTH).unwrap();
    sim.init_network(&vec![link("A", "p1", "B", "p2"), link("B", "p3", "C", "p1")]);
    let net = sim.get_toponet().get_network();
    assert_eq!(net.device_count(), 3);
    let ports = |d: &str| -> Vec<(String, Option<(String, String)>)> {
        net.get_device_ports(d)
            .unwrap()
            .iter()
            .map(|p| (p.get_port_name(), p.get_peer_port().cloned()))
            .collect()
    };
    let peer = |d: &str, p: &str| Some((d.to_string(), p.to_string()));
    assert_eq!(ports("A"), vec![("p1".to_string(), peer("B", "p2"))]);
    assert_eq!(
        ports("B"),
        vec![("p2".to_string(), peer("A", "p1")), ("p3".to_string(), peer("C", "p1"))]
    );
    assert_eq!(ports("C"), vec![("p1".to_string(), peer("B", "p3"))]);
    assert_eq!(net.get_toplogy().len(), 4);
    assert!(net.get_device_ports("D").is_none());
}
