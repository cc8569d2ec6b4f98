use biodivine_lib_bdd::Bdd;
use hetu::simulator::{Packet, Simulator};
use hetu::symbolic::device::{Device, MAX_SPACE_PORTS};
use hetu::symbolic::lec::Lec;
use hetu::util::forward_action::ForwardAction;
use hetu::util::network::Topology;
use hetu::util::npbdd::{Engine, EngineError};
use hetu::util::rule::{sort_rules, Rule};
use hetu::util::space_port::SpacePort;
use hetu::util::text::{clone_texts, contains_text, same_text, same_texts};

const WIDTH: usize = 48;

fn link(src_node: &str, src_port: &str, dst_node: &str, dst_port: &str) -> Topology {
    Topology {
        src_node: src_node.to_string(),
        src_port: src_port.to_string(),
        dst_node: dst_node.to_string(),
        dst_port: dst_port.to_string(),
    }
}

fn rule(ip: &str, len: usize, ports: &[&str]) -> Rule {
    Rule::new(
        len,
        ip.to_string(),
        "forward".to_string(),
        ports.iter().map(|p| p.to_string()).collect(),
    )
}

fn packet(host: &str, prefix: &str, len: usize) -> Packet {
    Packet { prefix: prefix.to_string(), prefix_len: len, host_name: host.to_string() }
}

fn names(list: &[&str]) -> Vec<String> {
    list.iter().map(|s| s.to_string()).collect()
}

fn load(
    devices: &[(&str, Vec<Rule>)],
    links: Vec<Topology>,
    packets: Vec<Packet>,
    edge: &[&str],
) -> (Simulator, Result<(), EngineError>) {
    let mut sim = Simulator::new(WIDTH).expect("an engine of this width exists");
    sim.set_devices_name(devices.iter().map(|d| d.0.to_string()).collect());
    sim.set_edge_devices_name(names(edge));
    sim.set_dst_devices_name(names(edge));
    sim.init_network(&links);
    let mut list = Vec::new();
    for (name, rules) in devices {
        let mut device = Device::new(name.to_string(), &sim.get_engine().engine);
        device.load_rules(rules.clone());
        list.push(device);
    }
    let loaded = sim.read_devices_and_encode(list, packets);
    (sim, loaded)
}

/// A device `A` with the given rules and a link at each of the ports `p1`
/// to `p4`, the subnet `10.0.0.0/16` being declared at the device behind
/// `p1`.
fn compiled(rules: Vec<Rule>) -> Simulator {
    let (sim, loaded) = load(
        &[("A", rules), ("B1", vec![]), ("B2", vec![]), ("B3", vec![]), ("B4", vec![])],
        vec![
            link("A", "p1", "B1", "p1"),
            link("A", "p2", "B2", "p1"),
            link("A", "p3", "B3", "p1"),
            link("A", "p4", "B4", "p1"),
        ],
        vec![packet("B1", "10.0.0.0", 16)],
        &["A", "B1"],
    );
    assert_eq!(loaded, Ok(()));
    sim
}

fn prefix(sim: &Simulator, ip: &str, len: usize) -> Bdd {
    sim.get_engine().engine.encode_dst_ip_prefix_clause(ip, len).unwrap()
}

fn device_a(sim: &Simulator) -> &Device {
    &sim.get_toponet().get_devices()[0]
}

#[test]
fn rule_name_is_prefix_slash_length() {
    assert_eq!(rule("10.0.0.0", 24, &["p1"]).get_name(), "10.0.0.0/24");
    assert_eq!(rule("0.0.0.0", 0, &[]).get_name(), "0.0.0.0/0");
    assert_eq!(rule("::", 128, &[]).get_name(), "::/128");
    assert_eq!(rule("x", 1234567890, &[]).get_name(), "x/1234567890");
    assert_eq!(rule("x", usize::MAX, &[]).get_name(), format!("x/{}", usize::MAX));
}

#[test]
fn rule_holds_what_it_was_made_of() {
    let r = rule("10.0.0.0", 24, &["p1", "p2"]);
    assert_eq!(r.get_prefix_len(), 24);
    assert_eq!(r.get_ip(), "10.0.0.0");
    let action = r.get_forward_action();
    assert_eq!(action.get_forward_type(), "forward");
    assert_eq!(action.get_ports(), &names(&["p1", "p2"]));
    assert!(r.same_rule(&r.clone()));
    assert!(!r.same_rule(&rule("10.0.0.0", 25, &["p1", "p2"])));
    assert!(!r.same_rule(&rule("10.0.0.1", 24, &["p1", "p2"])));
    assert!(!r.same_rule(&rule("10.0.0.0", 24, &["p2", "p1"])));

    let subnet = Rule::new_for_packet_space(16, "10.0.0.0".to_string());
    assert_eq!(subnet.get_prefix_len(), 16);
    assert_eq!(subnet.get_ip(), "10.0.0.0");
    assert_eq!(subnet.get_forward_action().get_forward_type(), "packet_space");
    assert!(subnet.get_forward_action().get_ports().is_empty());
}

#[test]
fn actions_are_compared_by_kind_and_ports() {
    let a = ForwardAction::new("forward".to_string(), names(&["p1"]));
    assert!(a.same_action(&a.clone()));
    assert!(!a.same_action(&ForwardAction::new("drop".to_string(), names(&["p1"]))));
    assert!(!a.same_action(&ForwardAction::new("forward".to_string(), names(&["p1", "p2"]))));
    assert!(!a.same_action(&ForwardAction::new("forward".to_string(), names(&[]))));
}

#[test]
fn texts_are_compared_letter_by_letter() {
    assert!(same_text(&"abc".to_string(), &"abc".to_string()));
    assert!(!same_text(&"abc".to_string(), &"abd".to_string()));
    assert!(!same_text(&"abc".to_string(), &"ab".to_string()));
    assert!(same_text(&String::new(), &String::new()));
    let list = names(&["a", "bb", ""]);
    assert_eq!(clone_texts(&list), list);
    assert!(same_texts(&list, &names(&["a", "bb", ""])));
    assert!(!same_texts(&list, &names(&["a", "bb"])));
    assert!(!same_texts(&list, &names(&["bb", "a", ""])));
    assert!(contains_text(&list, &"bb".to_string()));
    assert!(contains_text(&list, &String::new()));
    assert!(!contains_text(&list, &"b".to_string()));
    assert!(!contains_text(&vec![], &"a".to_string()));
}

#[test]
fn rules_are_ordered_longest_first_and_ties_keep_their_order() {
    let sorted = sort_rules(vec![
        rule("a", 8, &[]),
        rule("b", 24, &[]),
        rule("c", 16, &[]),
        rule("d", 24, &[]),
        rule("e", 0, &[]),
        rule("f", 16, &[]),
    ]);
    let order: Vec<&str> = sorted.iter().map(|r| r.get_ip()).collect();
    assert_eq!(order, vec!["b", "d", "c", "f", "a", "e"]);
    assert!(sort_rules(vec![]).is_empty());
}

#[test]
fn loading_orders_the_rules_with_those_already_there() {
    let engine = Engine::init(WIDTH).unwrap();
    let mut device = Device::new("A".to_string(), &engine);
    assert_eq!(device.get_name(), "A");
    assert_eq!(device.get_device_id(), 0);
    assert!(device.get_rules().is_empty());
    assert!(device.get_packet_space().is_none());
    assert!(device.get_forwardable_space().is_false());
    assert!(device.get_subnet_space().is_false());
    assert!(!device.has_space_bdd("p1"));
    device.load_rules(vec![rule("a", 8, &[]), rule("b", 24, &[])]);
    device.load_rules(vec![rule("c", 16, &[]), rule("d", 24, &[])]);
    let order: Vec<&str> = device.get_rules().iter().map(|r| r.get_ip()).collect();
    assert_eq!(order, vec!["b", "d", "c", "a"]);
    let taken = device.take_rules();
    assert_eq!(taken.len(), 4);
    assert!(device.get_rules().is_empty());
}

#[test]
fn device_takes_its_number_and_its_subnet() {
    let engine = Engine::init(WIDTH).unwrap();
    let mut device = Device::new("A".to_string(), &engine);
    device.set_device_id(7, engine.encode_src_device_constraint(7));
    assert_eq!(device.get_device_id(), 7);
    assert_eq!(device.get_device_id_bdd(), &engine.encode_src_device_constraint(7));
    let subnet = engine.encode_dst_ip_prefix_clause("10.0.0.0", 24).unwrap();
    device.set_subnet_space(subnet.clone());
    assert_eq!(device.get_subnet_space(), &subnet);
    device.set_packet_space_file(Rule::new_for_packet_space(24, "10.0.0.0".to_string()));
    assert_eq!(device.get_packet_space().as_ref().unwrap().get_name(), "10.0.0.0/24");
}

#[test]
fn space_port_remembers_the_arrivals_it_was_told() {
    let engine = Engine::init(WIDTH).unwrap();
    let a = engine.encode_dst_ip_prefix_clause("10.0.0.0", 24).unwrap();
    let b = engine.encode_dst_ip_prefix_clause("10.0.1.0", 24).unwrap();
    let mut port = SpacePort::new(3, a.clone());
    assert_eq!(port.get_space_id(), 3);
    assert_eq!(port.get_space(), &a);
    assert!(!port.check_cache_space(&a));
    port.insert_cache_space(&a);
    assert!(port.check_cache_space(&a));
    assert!(port.check_cache_space(&engine.encode_dst_ip_prefix_clause("10.0.0.9", 24).unwrap()));
    assert!(!port.check_cache_space(&b));
    let copy = port.clone();
    assert!(copy.check_cache_space(&a));
    assert!(!copy.check_cache_space(&b));
    assert!(copy.same_space_port(&port));
    assert!(!port.same_space_port(&SpacePort::new(4, a.clone())));
    assert!(!port.same_space_port(&SpacePort::new(3, b)));
}

#[test]
fn class_keeps_its_mark() {
    let engine = Engine::init(WIDTH).unwrap();
    let a = engine.encode_dst_ip_prefix_clause("10.0.0.0", 24).unwrap();
    let action = ForwardAction::new("forward".to_string(), names(&["p1"]));
    let mut lec = Lec::new(action.clone(), a.clone());
    assert!(!lec.is_exhausted());
    lec.set_exhausted();
    assert!(lec.is_exhausted());
    let copy = lec.clone();
    assert!(copy.is_exhausted());
    assert!(copy.same_lec(&lec));
    assert!(!lec.same_lec(&Lec::new(action, a.not())));
    assert!(!lec.same_lec(&Lec::new(ForwardAction::new("forward".to_string(), names(&["p2"])), a)));
}

fn class(engine: &Engine, port: &str, ip: &str, len: usize) -> Lec {
    Lec::new(
        ForwardAction::new("forward".to_string(), names(&[port])),
        engine.encode_dst_ip_prefix_clause(ip, len).unwrap(),
    )
}

#[test]
fn ports_with_the_same_headers_share_a_group() {
    let engine = Engine::init(WIDTH).unwrap();
    let mut device = Device::new("A".to_string(), &engine);
    let merged = device.merge_lec_to_space_port(vec![
        class(&engine, "p1", "10.0.0.0", 24),
        class(&engine, "p2", "10.0.1.0", 24),
        class(&engine, "p3", "10.0.0.0", 24),
    ]);
    assert_eq!(merged, Ok(()));
    assert!(device.has_space_bdd("p1") && device.has_space_bdd("p2") && device.has_space_bdd("p3"));
    assert!(!device.has_space_bdd("p4"));
    assert_eq!(device.get_space_id("p1"), device.get_space_id("p3"));
    assert_ne!(device.get_space_id("p1"), device.get_space_id("p2"));
    assert_eq!(device.get_space_bdd("p1"), &engine.encode_dst_ip_prefix_clause("10.0.0.0", 24).unwrap());
    assert_eq!(device.get_space_bdd("p2"), &engine.encode_dst_ip_prefix_clause("10.0.1.0", 24).unwrap());
    assert_eq!(device.get_space_bdd("p3"), device.get_space_bdd("p1"));
    let groups = device.get_space_id_to_space_port();
    assert_eq!(groups.len(), 2);
    assert_eq!(groups[device.get_space_id("p2") as usize].get_space(), device.get_space_bdd("p2"));

    // A later merge replaces the groups.
    assert_eq!(device.merge_lec_to_space_port(vec![class(&engine, "p4", "10.0.2.0", 24)]), Ok(()));
    assert!(device.has_space_bdd("p4"));
    assert!(!device.has_space_bdd("p1"));
    assert_eq!(device.get_space_id_to_space_port().len(), 1);
}

#[test]
fn class_without_a_port_ends_the_merge() {
    let engine = Engine::init(WIDTH).unwrap();
    let mut device = Device::new("A".to_string(), &engine);
    let portless = Lec::new(
        ForwardAction::new("forward".to_string(), vec![]),
        engine.encode_dst_ip_prefix_clause("10.0.9.0", 24).unwrap(),
    );
    let merged = device.merge_lec_to_space_port(vec![
        class(&engine, "p1", "10.0.0.0", 24),
        portless,
        class(&engine, "p2", "10.0.1.0", 24),
    ]);
    assert_eq!(merged, Ok(()));
    assert!(device.has_space_bdd("p1"));
    assert!(!device.has_space_bdd("p2"));
}

#[test]
fn more_groups_than_can_be_numbered_are_refused() {
    let engine = Engine::init(WIDTH).unwrap();
    let classes = |count: usize| -> Vec<Lec> {
        (0..count)
            .map(|k| class(&engine, &format!("p{}", k), &format!("10.0.{}.0", k), 24))
            .collect()
    };
    let mut device = Device::new("A".to_string(), &engine);
    assert_eq!(device.merge_lec_to_space_port(classes(MAX_SPACE_PORTS)), Ok(()));
    assert_eq!(device.get_space_id_to_space_port().len(), MAX_SPACE_PORTS);
    assert_eq!(
        device.merge_lec_to_space_port(classes(MAX_SPACE_PORTS + 1)),
        Err(EngineError::SpaceIdsExhausted)
    );
}

#[test]
fn forwardable_space_gathers_the_classes() {
    let engine = Engine::init(WIDTH).unwrap();
    let mut device = Device::new("A".to_string(), &engine);
    device.cal_forwardable_space(&vec![]);
    assert!(device.get_forwardable_space().is_false());
    device.cal_forwardable_space(&vec![
        class(&engine, "p1", "10.0.0.0", 25),
        class(&engine, "p2", "10.0.0.128", 25),
    ]);
    assert_eq!(
        device.get_forwardable_space(),
        &engine.encode_dst_ip_prefix_clause("10.0.0.0", 24).unwrap()
    );
    device.cal_forwardable_space(&vec![class(&engine, "p3", "10.0.1.0", 24)]);
    assert_eq!(
        device.get_forwardable_space(),
        &engine.encode_dst_ip_prefix_clause("10.0.0.0", 23).unwrap()
    );
}

#[test]
fn address_that_cannot_be_read_fails_the_loading() {
    let (sim, loaded) = load(
        &[("A", vec![]), ("B", vec![])],
        vec![link("A", "p1", "B", "p1")],
        vec![packet("B", "10.0", 16)],
        &["A", "B"],
    );
    assert_eq!(loaded, Err(EngineError::BadPrefix));
    assert!(sim.get_toponet().get_devices().is_empty());
    // A rule that passes the filter must be encodable.
    let (_, loaded) = load(
        &[("A", vec![rule("10.0.0.0.1", 24, &["p1"])]), ("B", vec![])],
        vec![link("A", "p1", "B", "p1")],
        vec![packet("B", "10.0.0.0", 24)],
        &["A", "B"],
    );
    assert_eq!(loaded, Err(EngineError::BadPrefix));
    let (_, loaded) = load(
        &[("A", vec![rule("10.0.0.0", 33, &["p1"])]), ("B", vec![])],
        vec![link("A", "p1", "B", "p1")],
        vec![packet("B", "10.0.0.0", 24)],
        &["A", "B"],
    );
    assert_eq!(loaded, Err(EngineError::BadPrefix));
}

#[test]
fn each_port_gets_the_hits_of_its_rules() {
    let sim = compiled(vec![
        rule("10.0.0.0", 16, &["p1"]),
        rule("10.0.0.0", 24, &["p2"]),
        rule("10.0.0.0", 25, &["p3"]),
        rule("10.0.0.0", 26, &["p2"]),
    ]);
    let a = device_a(&sim);
    let p16 = prefix(&sim, "10.0.0.0", 16);
    let p24 = prefix(&sim, "10.0.0.0", 24);
    let p25 = prefix(&sim, "10.0.0.0", 25);
    let p26 = prefix(&sim, "10.0.0.0", 26);
    assert_eq!(a.get_space_bdd("p1"), &p16.and_not(&p24));
    assert_eq!(a.get_space_bdd("p2"), &p24.and_not(&p25).or(&p26));
    assert_eq!(a.get_space_bdd("p3"), &p25.and_not(&p26));
    assert!(!a.has_space_bdd("p4"));
    assert!(a.check_intersection_at_port(&p26, "p2"));
    assert!(!a.check_intersection_at_port(&p25, "p2"));
    assert!(!a.check_intersection_at_port(&p26, "p4"));
    assert!(a.check_intersection_at_port(&sim.get_engine().make_none_space_bdd(), "p1"));
}

#[test]
fn port_spaces_of_a_device_are_disjoint() {
    let sim = compiled(vec![
        rule("10.0.0.0", 16, &["p1"]),
        rule("10.0.0.0", 24, &["p2"]),
        rule("10.0.0.0", 25, &["p3"]),
        rule("10.0.0.0", 26, &["p2"]),
        rule("10.0.0.0", 18, &["p4"]),
    ]);
    let a = device_a(&sim);
    let ports = ["p1", "p2", "p3", "p4"];
    for (i, p) in ports.iter().enumerate() {
        assert!(a.has_space_bdd(p));
        for q in &ports[i + 1..] {
            assert!(a.get_space_bdd(p).and(a.get_space_bdd(q)).is_false());
        }
    }
}

#[test]
fn forwardable_space_is_the_union_of_the_port_spaces() {
    let sim = compiled(vec![
        rule("10.0.0.0", 24, &["p2"]),
        rule("10.0.0.0", 25, &["p3"]),
        rule("10.0.0.0", 18, &["p4"]),
    ]);
    let a = device_a(&sim);
    let union = a.get_space_bdd("p2").or(a.get_space_bdd("p3")).or(a.get_space_bdd("p4"));
    assert_eq!(a.get_forwardable_space(), &union);
    assert_eq!(a.get_forwardable_space(), &prefix(&sim, "10.0.0.0", 18));
}

#[test]
fn order_of_the_rules_does_not_matter() {
    let rules = vec![
        rule("10.0.0.0", 16, &["p1"]),
        rule("10.0.0.0", 24, &["p2"]),
        rule("10.0.0.0", 25, &["p3"]),
        rule("10.0.0.0", 26, &["p2"]),
        rule("10.0.0.0", 18, &["p4"]),
    ];
    let mut backward = rules.clone();
    backward.reverse();
    let mut mixed = rules.clone();
    mixed.swap(0, 3);
    mixed.swap(1, 4);
    let first = compiled(rules);
    for other in [compiled(backward), compiled(mixed)] {
        for p in ["p1", "p2", "p3", "p4"] {
            assert_eq!(device_a(&first).get_space_bdd(p), device_a(&other).get_space_bdd(p));
        }
        assert_eq!(
            device_a(&first).get_forwardable_space(),
            device_a(&other).get_forwardable_space()
        );
    }
}

#[test]
fn first_of_two_rules_for_one_prefix_wins() {
    let one = compiled(vec![rule("10.0.0.0", 24, &["p1"]), rule("10.0.0.0", 24, &["p2"])]);
    assert_eq!(device_a(&one).get_space_bdd("p1"), &prefix(&one, "10.0.0.0", 24));
    assert!(!device_a(&one).has_space_bdd("p2"));
    let other = compiled(vec![rule("10.0.0.0", 24, &["p2"]), rule("10.0.0.0", 24, &["p1"])]);
    assert_eq!(device_a(&other).get_space_bdd("p2"), &prefix(&other, "10.0.0.0", 24));
    assert!(!device_a(&other).has_space_bdd("p1"));
}

#[test]
fn rule_with_two_ports_gives_its_hit_to_both() {
    let sim = compiled(vec![rule("10.0.0.0", 24, &["p1", "p2"])]);
    let a = device_a(&sim);
    assert_eq!(a.get_space_bdd("p1"), &prefix(&sim, "10.0.0.0", 24));
    assert_eq!(a.get_space_bdd("p2"), &prefix(&sim, "10.0.0.0", 24));
    assert_eq!(a.get_space_id("p1"), a.get_space_id("p2"));
}

#[test]
fn rules_outside_the_declared_subnets_take_no_part() {
    let sim = compiled(vec![
        // Another address text than the one all subnets begin with.
        rule("10.1.0.0", 16, &["p1"]),
        // A port that the topology does not know.
        rule("10.0.0.0", 24, &["p9"]),
        rule("10.0.0.0", 25, &["p2"]),
        // The default route is always looked at.
        rule("0.0.0.0", 0, &["p3"]),
    ]);
    let a = device_a(&sim);
    assert!(!a.has_space_bdd("p1"));
    assert!(!a.has_space_bdd("p9"));
    assert_eq!(a.get_space_bdd("p2"), &prefix(&sim, "10.0.0.0", 25));
    assert_eq!(a.get_space_bdd("p3"), &prefix(&sim, "10.0.0.0", 24).not());
    assert_eq!(sim.get_common_prefix(), "10.0.0.0");
}

/// The device `A` of `compiled`, compiled once more from the given rules,
/// stepwise or not.
fn recompiled(rules: Vec<Rule>, stepwise: bool) -> Device {
    let sim = compiled(vec![]);
    let toponet = sim.get_toponet();
    let mut bdd = hetu::util::npbdd::NPBDD::init(WIDTH).unwrap();
    let mut device = Device::new("A".to_string(), &bdd.engine);
    device.load_rules(rules);
    let mut devices = vec![device];
    let done = if stepwise {
        toponet.encode_rule_stepwise(&mut bdd, &mut devices, "10.0.0.", toponet.get_network())
    } else {
        toponet.encode_rule_npbdd(&mut bdd, &mut devices, "10.0.0.", toponet.get_network())
    };
    assert_eq!(done, Ok(()));
    devices.pop().unwrap()
}

#[test]
fn stepwise_the_longest_rules_keep_their_whole_match() {
    let engine = Engine::init(WIDTH).unwrap();
    let p24 = engine.encode_dst_ip_prefix_clause("10.0.0.0", 24).unwrap();
    let p25 = engine.encode_dst_ip_prefix_clause("10.0.0.0", 25).unwrap();
    let rules = vec![
        rule("10.0.0.0", 25, &["p1"]),
        rule("10.0.0.0", 25, &["p2"]),
        rule("10.0.0.0", 24, &["p3"]),
        rule("10.0.0.0", 24, &["p4"]),
    ];
    let plain = recompiled(rules.clone(), false);
    assert_eq!(plain.get_space_bdd("p1"), &p25);
    assert!(!plain.has_space_bdd("p2"));
    assert_eq!(plain.get_space_bdd("p3"), &p24.and_not(&p25));
    assert!(!plain.has_space_bdd("p4"));

    let stepwise = recompiled(rules, true);
    assert_eq!(stepwise.get_space_bdd("p1"), &p25);
    assert_eq!(stepwise.get_space_bdd("p2"), &p25);
    assert_eq!(stepwise.get_space_bdd("p3"), &p24.and_not(&p25));
    assert!(!stepwise.has_space_bdd("p4"));
    assert_eq!(stepwise.get_forwardable_space(), &p24);
}

#[test]
fn stepwise_and_plain_agree_where_no_two_longest_rules_meet() {
    let rules = vec![
        rule("10.0.0.0", 16, &["p1"]),
        rule("10.0.0.0", 24, &["p2"]),
        rule("10.0.0.0", 26, &["p3"]),
        rule("10.0.0.64", 26, &["p2"]),
        rule("10.0.0.0", 18, &["p4"]),
    ];
    let plain = recompiled(rules.clone(), false);
    let stepwise = recompiled(rules, true);
    for p in ["p1", "p2", "p3", "p4"] {
        assert_eq!(plain.get_space_bdd(p), stepwise.get_space_bdd(p));
    }
}

#[test]
fn compiling_needs_the_space_of_all_subnets() {
    let sim = Simulator::new(WIDTH).unwrap();
    let toponet = sim.get_toponet();
    let mut bdd = hetu::util::npbdd::NPBDD::init(WIDTH).unwrap();
    let mut devices = vec![Device::new("A".to_string(), &bdd.engine)];
    assert_eq!(
        toponet.encode_rule_npbdd(&mut bdd, &mut devices, "", toponet.get_network()),
        Err(EngineError::NoPacketSpace)
    );
    assert_eq!(
        toponet.encode_rule_stepwise(&mut bdd, &mut devices, "", toponet.get_network()),
        Err(EngineError::NoPacketSpace)
    );
}

#[test]
fn many_classes_with_few_header_sets_need_few_groups() {
    let engine = Engine::init(WIDTH).unwrap();
    let classes: Vec<Lec> = (0..300)
        .map(|k| class(&engine, &format!("p{}", k), if k % 2 == 0 { "10.0.0.0" } else { "10.0.1.0" }, 24))
        .collect();
    let mut device = Device::new("A".to_string(), &engine);
    assert_eq!(device.merge_lec_to_space_port(classes), Ok(()));
    let groups = device.get_space_id_to_space_port();
    assert_eq!(groups.len(), 2);
    // The groups are numbered in the order in which their header sets first appear.
    assert_eq!(groups[0].get_space(), &engine.encode_dst_ip_prefix_clause("10.0.0.0", 24).unwrap());
    assert_eq!(groups[1].get_space(), &engine.encode_dst_ip_prefix_clause("10.0.1.0", 24).unwrap());
    assert_eq!(device.get_space_id("p0"), 0);
    assert_eq!(device.get_space_id("p299"), 1);
}

#[test]
fn subnet_is_matched_by_the_first_rule_that_covers_it() {
    let engine = Engine::init(WIDTH).unwrap();
    let mut device = Device::new("A".to_string(), &engine);
    device.load_rules(vec![
        rule("10.0.0.0", 8, &["p8"]),
        rule("10.0.1.0", 24, &["p24"]),
        rule("10.0.0.0", 16, &["p16"]),
        rule("no address", 4, &["bad"]),
        rule("::", 0, &["v6"]),
    ]);
    let port = |ip: &str, len: u8| {
        device.routes_table_prefix_match(ip, len).map(|r| r.get_forward_action().get_ports().clone())
    };
    // The rules stand longest first, so the longest cover comes first.
    assert_eq!(port("10.0.1.0", 24), Some(names(&["p24"])));
    assert_eq!(port("10.0.1.128", 25), Some(names(&["p24"])));
    assert_eq!(port("10.0.2.0", 24), Some(names(&["p16"])));
    assert_eq!(port("10.1.0.0", 16), Some(names(&["p8"])));
    // A subnet wider than the rule is not within it.
    assert_eq!(port("10.0.0.0", 12), Some(names(&["p8"])));
    assert_eq!(port("10.0.0.0", 7), None);
    assert_eq!(port("11.0.0.0", 8), None);
    // Addresses of the other kind and addresses that cannot be read match nothing of this kind.
    assert_eq!(port("2001:db8::", 32), Some(names(&["v6"])));
    assert_eq!(port("10.0.1", 24), None);
    let kept = device.routes_table_prefix_match("10.0.1.0", 24).unwrap();
    assert_eq!(kept.get_name(), "10.0.1.0/24");
}
