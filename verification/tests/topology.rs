use hetu::util::device_port::DevicePort;
use hetu::util::name_map::NameMap;
use hetu::util::network::{has_port, Network, Topology};
use hetu::util::pod::{add_name, Pod};

fn link(src_node: &str, src_port: &str, dst_node: &str, dst_port: &str) -> Topology {
    Topology {
        src_node: src_node.to_string(),
        src_port: src_port.to_string(),
        dst_node: dst_node.to_string(),
        dst_port: dst_port.to_string(),
    }
}

fn port_names(ports: &[DevicePort]) -> Vec<(String, String)> {
    ports.iter().map(|p| (p.get_device_name(), p.get_port_name())).collect()
}

fn pair(a: &str, b: &str) -> (String, String) {
    (a.to_string(), b.to_string())
}

#[test]
fn port_knows_its_device_and_its_peer() {
    let mut port = DevicePort::new("A".to_string(), "p1".to_string());
    assert_eq!(port.get_device_name(), "A");
    assert_eq!(port.get_port_name(), "p1");
    assert_eq!(port.get_peer_port(), None);
    port.set_peer_key("B".to_string(), "p7".to_string());
    assert_eq!(port.get_peer_port(), Some(&pair("B", "p7")));
    // Two ports are the same port when device and port name agree.
    let bare = DevicePort::new("A".to_string(), "p1".to_string());
    assert!(port.same_port(&bare));
    assert!(!port.same_port(&DevicePort::new("A".to_string(), "p2".to_string())));
    assert!(!port.same_port(&DevicePort::new("B".to_string(), "p1".to_string())));
    let copy = port.clone();
    assert_eq!(copy.get_peer_port(), Some(&pair("B", "p7")));
    assert!(has_port(&vec![copy], &bare));
    assert!(!has_port(&vec![], &bare));
}

#[test]
fn name_map_keeps_first_come_order() {
    let mut map: NameMap<u32> = NameMap::new();
    assert_eq!(map.len(), 0);
    assert_eq!(map.get("x"), None);
    map.set("x".to_string(), 1);
    map.set("y".to_string(), 2);
    map.set("x".to_string(), 3);
    assert_eq!(map.len(), 2);
    assert_eq!(map.get("x"), Some(3));
    assert_eq!(map.get("y"), Some(2));
    assert_eq!(map.find("y"), Some(1));
    assert_eq!(map.find("z"), None);
    assert!(map.contains_key("x"));
    assert!(!map.contains_key("X"));
    assert_eq!(map.name_at(0), "x");
    assert_eq!(map.value_at(1), 2);
}

#[test]
fn link_gives_each_end_a_port_with_the_other_as_peer() {
    let mut net = Network::new();
    assert_eq!(net.device_count(), 0);
    net.add_topology("A", "p1", "B", "p2");
    assert_eq!(net.device_count(), 2);
    assert_eq!(net.device_name_at(0), "A");
    assert_eq!(net.device_name_at(1), "B");
    assert_eq!(net.device_index("B"), Some(1));
    assert_eq!(net.device_index("C"), None);

    let a = net.get_device_ports("A").unwrap();
    assert_eq!(port_names(a), vec![pair("A", "p1")]);
    assert_eq!(a[0].get_peer_port(), Some(&pair("B", "p2")));
    let b = net.get_device_ports("B").unwrap();
    assert_eq!(port_names(b), vec![pair("B", "p2")]);
    assert_eq!(b[0].get_peer_port(), Some(&pair("A", "p1")));
    assert!(net.get_device_ports("C").is_none());

    // The link is listed once in each direction.
    let links = net.get_toplogy();
    assert_eq!(links.len(), 2);
    assert_eq!(port_names(&[links[0].0.clone(), links[0].1.clone()]), vec![pair("A", "p1"), pair("B", "p2")]);
    assert_eq!(port_names(&[links[1].0.clone(), links[1].1.clone()]), vec![pair("B", "p2"), pair("A", "p1")]);
}

#[test]
fn port_named_twice_is_kept_once() {
    let mut net = Network::new();
    net.add_topology("A", "p1", "B", "p1");
    net.add_topology("A", "p1", "C", "p1");
    net.add_topology("A", "p2", "C", "p2");
    let a = net.get_device_ports("A").unwrap();
    assert_eq!(port_names(a), vec![pair("A", "p1"), pair("A", "p2")]);
    // The first link of the port stays its link.
    assert_eq!(a[0].get_peer_port(), Some(&pair("B", "p1")));
    // Each port is listed once among the links, with the peer it was given last.
    let links = net.get_toplogy();
    assert_eq!(links.len(), 5);
    assert_eq!(
        port_names(&[links[0].0.clone(), links[0].1.clone()]),
        vec![pair("A", "p1"), pair("C", "p1")]
    );
    assert_eq!(port_names(net.device_ports_at(2)), vec![pair("C", "p1"), pair("C", "p2")]);
}

#[test]
fn pod_lists_each_device_once() {
    let mut pod = Pod::new(4);
    assert_eq!(pod.get_pod_id(), 4);
    pod.add_s1_device("S1-a".to_string());
    pod.add_s1_device("S1-a".to_string());
    pod.add_s0_device("S0-a".to_string());
    pod.add_s0_device("S0-b".to_string());
    pod.add_s0_device("S0-a".to_string());
    assert_eq!(pod.get_s1_device_names(), &vec!["S1-a".to_string()]);
    assert_eq!(pod.get_s0_device_names(), &vec!["S0-a".to_string(), "S0-b".to_string()]);
    assert_eq!(pod.get_devices(), vec!["S1-a".to_string(), "S0-a".to_string(), "S0-b".to_string()]);
    let mut list = vec!["x".to_string()];
    add_name(&mut list, "x".to_string());
    add_name(&mut list, "y".to_string());
    assert_eq!(list, vec!["x".to_string(), "y".to_string()]);
}

fn two_pods() -> Vec<Topology> {
    vec![
        link("pod1-S0-a", "u1", "pod1-S1-a", "d1"),
        link("pod1-S0-b", "u1", "pod1-S1-a", "d2"),
        link("pod1-S0-a", "u2", "pod1-S1-b", "d1"),
        link("pod2-S0-a", "u1", "pod2-S1-a", "d1"),
        link("pod1-S1-a", "up", "core-1", "p1"),
        link("pod2-S1-a", "up", "core-1", "p2"),
        link("host-1", "eth0", "pod1-S0-a", "h"),
    ]
}

#[test]
fn pods_are_the_groups_joined_by_layer_links() {
    let mut net = Network::new();
    let pods = net.find_pods(&two_pods());
    assert_eq!(pods.len(), 2);
    assert_eq!(pods[0].get_pod_id(), 1);
    assert_eq!(pods[1].get_pod_id(), 2);
    let mut upper: Vec<String> = pods[0].get_s1_device_names().clone();
    upper.sort();
    assert_eq!(upper, vec!["pod1-S1-a".to_string(), "pod1-S1-b".to_string()]);
    let mut lower: Vec<String> = pods[0].get_s0_device_names().clone();
    lower.sort();
    assert_eq!(lower, vec!["pod1-S0-a".to_string(), "pod1-S0-b".to_string()]);
    assert_eq!(pods[1].get_s1_device_names(), &vec!["pod2-S1-a".to_string()]);
    assert_eq!(pods[1].get_s0_device_names(), &vec!["pod2-S0-a".to_string()]);
    assert!(pods.iter().all(|p| p.interfaces.is_empty()));

    let mut listed: Vec<String> = net.get_pod_device_names().clone();
    listed.sort();
    assert_eq!(
        listed,
        vec![
            "pod1-S0-a".to_string(),
            "pod1-S0-b".to_string(),
            "pod1-S1-a".to_string(),
            "pod1-S1-b".to_string(),
            "pod2-S0-a".to_string(),
            "pod2-S1-a".to_string(),
        ]
    );
    // Finding the pods records nothing else.
    assert_eq!(net.device_count(), 0);
    assert!(net.get_pods().is_empty());
}

#[test]
fn links_between_other_devices_make_no_pod() {
    let mut net = Network::new();
    let pods = net.find_pods(&vec![
        link("A", "p1", "B", "p1"),
        link("S1-x", "p", "S1-y", "p"),
        link("S0-x", "q", "S0-y", "q"),
        link("S0-x", "r", "core", "r"),
    ]);
    assert!(pods.is_empty());
    assert!(net.get_pod_device_names().is_empty());
}

#[test]
fn pod_link_counts_whichever_end_it_names_first() {
    let mut upward = Network::new();
    let up = upward.find_pods(&vec![link("S0_1", "p1", "S1_1", "p1")]);
    let mut downward = Network::new();
    let down = downward.find_pods(&vec![link("S1_1", "p1", "S0_1", "p1")]);
    for pods in [up, down] {
        assert_eq!(pods.len(), 1);
        assert_eq!(pods[0].get_pod_id(), 1);
        assert_eq!(pods[0].get_s1_device_names(), &vec!["S1_1".to_string()]);
        assert_eq!(pods[0].get_s0_device_names(), &vec!["S0_1".to_string()]);
    }
}

#[test]
fn groups_without_a_pod_link_between_them_are_pods_of_their_own() {
    let mut net = Network::new();
    let pods = net.find_pods(&vec![
        link("S0_1", "p1", "S1_1", "p1"),
        link("S0_2", "p1", "S1_1", "p2"),
        link("S0_3", "p1", "S1_2", "p1"),
        link("C1", "p1", "C2", "p1"),
    ]);
    assert_eq!(pods.len(), 2);
    let mut lower: Vec<String> = pods[0].get_s0_device_names().clone();
    lower.sort();
    assert_eq!(lower, vec!["S0_1".to_string(), "S0_2".to_string()]);
    assert_eq!(pods[0].get_s1_device_names(), &vec!["S1_1".to_string()]);
    assert_eq!(pods[1].get_s0_device_names(), &vec!["S0_3".to_string()]);
    assert_eq!(pods[1].get_s1_device_names(), &vec!["S1_2".to_string()]);
    assert_eq!(net.get_pod_device_names().len(), 5);
}

#[test]
fn link_given_again_changes_nothing() {
    let mut net = Network::new();
    net.add_topology("A", "p1", "B", "p2");
    net.add_topology("C", "p1", "B", "p3");
    let links = |net: &Network| -> Vec<Vec<(String, String)>> {
        net.get_toplogy().iter().map(|l| port_names(&[l.0.clone(), l.1.clone()])).collect()
    };
    let ports = |net: &Network, d: &str| port_names(net.get_device_ports(d).unwrap());
    let before = (links(&net), ports(&net, "A"), ports(&net, "B"), net.device_count());
    net.add_topology("A", "p1", "B", "p2");
    assert_eq!((links(&net), ports(&net, "A"), ports(&net, "B"), net.device_count()), before);
    net.add_topology("B", "p2", "A", "p1");
    assert_eq!((links(&net), ports(&net, "A"), ports(&net, "B"), net.device_count()), before);
    assert_eq!(net.get_toplogy().len(), 4);
}

#[test]
fn pod_interfaces_are_the_upper_ports_that_leave_it() {
    let mut net = Network::new();
    net.read_topology(&two_pods());
    assert_eq!(net.device_count(), 8);
    assert_eq!(net.get_toplogy().len(), 14);
    let pods = net.get_pods();
    assert_eq!(pods.len(), 2);
    // Ports of either layer count, as long as the peer is outside the pod.
    let mut first = port_names(&pods[0].interfaces);
    first.sort();
    assert_eq!(first, vec![pair("pod1-S0-a", "h"), pair("pod1-S1-a", "up")]);
    assert_eq!(port_names(&pods[1].interfaces), vec![pair("pod2-S1-a", "up")]);
}

#[test]
fn interfaces_are_set_from_the_network_at_hand() {
    let mut net = Network::new();
    net.add_topology("S1-a", "d1", "S0-a", "u1");
    net.add_topology("S1-a", "d2", "S0-z", "u1");
    net.add_topology("S1-a", "up", "core", "p1");
    let mut pod = Pod::new(1);
    pod.add_s1_device("S1-a".to_string());
    pod.add_s0_device("S0-a".to_string());
    pod.set_interfaces(&net);
    assert_eq!(port_names(&pod.interfaces), vec![pair("S1-a", "d2"), pair("S1-a", "up")]);
    pod.set_interfaces(&net);
    assert_eq!(pod.interfaces.len(), 2);
}

#[test]
fn link_within_a_layer_of_the_pod_is_no_interface() {
    let mut net = Network::new();
    net.add_topology("S1-a", "d1", "S0-a", "u1");
    net.add_topology("S1-a", "x", "S1-b", "x");
    net.add_topology("S0-a", "out", "host", "eth0");
    let mut pod = Pod::new(1);
    pod.add_s1_device("S1-a".to_string());
    pod.add_s1_device("S1-b".to_string());
    pod.add_s0_device("S0-a".to_string());
    pod.set_interfaces(&net);
    assert_eq!(port_names(&pod.interfaces), vec![pair("S0-a", "out")]);
}
