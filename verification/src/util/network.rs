//! The link topology: for every device its ports, each with the port at the
//! other end of its link.
use crate::util::device_port::DevicePort;
use crate::util::name_map::NameMap;
use crate::util::pod::Pod;
use crate::util::text::{has_substring, has_text, text_contains, texts};
use vstd::prelude::*;
use vstd::string::StringExecFns;

verus! {

/// One undirected link between two ports.
pub struct Topology {
    pub dst_node: String,
    pub dst_port: String,
    pub src_node: String,
    pub src_port: String,
}

/// The keys of a list of ports.
pub open spec fn port_keys(ports: Seq<DevicePort>) -> Seq<(Seq<char>, Seq<char>)> {
    ports.map_values(|p: DevicePort| p.key())
}

/// Whether a device's port list is in order: every port belongs to the
/// device, none is listed twice, and each knows its peer.
pub open spec fn ports_ok(device: Seq<char>, ports: Seq<DevicePort>) -> bool {
    &&& port_keys(ports).no_duplicates()
    &&& forall|i: int|
        0 <= i < ports.len() ==> (#[trigger] ports[i]).device() == device && ports[i].peer().is_some()
}

/// Whether `after` is `before` with a port of the given key and peer added
/// at the end, or `before` itself if that already has a port of the key.
pub open spec fn with_port(
    before: Seq<DevicePort>,
    after: Seq<DevicePort>,
    key: (Seq<char>, Seq<char>),
    peer: (Seq<char>, Seq<char>),
) -> bool {
    if port_keys(before).contains(key) {
        after == before
    } else {
        after.len() == before.len() + 1 && after.drop_last() == before && after.last().key() == key
            && after.last().peer() == Some(peer)
    }
}

/// The links as pairs of a port's key and its peer's key.
pub open spec fn link_pairs(links: Seq<(DevicePort, DevicePort)>) -> Seq<
    ((Seq<char>, Seq<char>), (Seq<char>, Seq<char>)),
> {
    links.map_values(|l: (DevicePort, DevicePort)| (l.0.key(), l.1.key()))
}

/// The ports that the links are listed under.
pub open spec fn link_firsts(pairs: Seq<((Seq<char>, Seq<char>), (Seq<char>, Seq<char>))>) -> Seq<
    (Seq<char>, Seq<char>),
> {
    pairs.map_values(|p: ((Seq<char>, Seq<char>), (Seq<char>, Seq<char>))| p.0)
}

/// The links after port `k` is listed with peer `v`: in place of what the
/// port was listed with, or at the end if the port was not listed.
pub open spec fn link_put(
    pairs: Seq<((Seq<char>, Seq<char>), (Seq<char>, Seq<char>))>,
    k: (Seq<char>, Seq<char>),
    v: (Seq<char>, Seq<char>),
) -> Seq<((Seq<char>, Seq<char>), (Seq<char>, Seq<char>))> {
    if link_firsts(pairs).contains(k) {
        pairs.update(link_firsts(pairs).index_of(k), (k, v))
    } else {
        pairs.push((k, v))
    }
}

/// The links after the link between `a` and `b` is listed, once under
/// each of its ports.
pub open spec fn link_added(
    pairs: Seq<((Seq<char>, Seq<char>), (Seq<char>, Seq<char>))>,
    a: (Seq<char>, Seq<char>),
    b: (Seq<char>, Seq<char>),
) -> Seq<((Seq<char>, Seq<char>), (Seq<char>, Seq<char>))> {
    link_put(link_put(pairs, a, b), b, a)
}

/// The links after the first `k` links of a topology are listed.
pub open spec fn links_read(
    pairs: Seq<((Seq<char>, Seq<char>), (Seq<char>, Seq<char>))>,
    topologies: Seq<Topology>,
    k: int,
) -> Seq<((Seq<char>, Seq<char>), (Seq<char>, Seq<char>))>
    decreases k,
{
    if k <= 0 {
        pairs
    } else {
        link_added(
            links_read(pairs, topologies, k - 1),
            (topologies[k - 1].src_node@, topologies[k - 1].src_port@),
            (topologies[k - 1].dst_node@, topologies[k - 1].dst_port@),
        )
    }
}

/// A port list as keys and peers.
pub open spec fn port_views(ports: Seq<DevicePort>) -> Seq<
    ((Seq<char>, Seq<char>), Option<(Seq<char>, Seq<char>)>),
> {
    ports.map_values(|p: DevicePort| (p.key(), p.peer()))
}

/// The ports after the port `key` with the given peer is added: at the
/// end, unless there is a port of that key already.
pub open spec fn port_put(
    views: Seq<((Seq<char>, Seq<char>), Option<(Seq<char>, Seq<char>)>)>,
    key: (Seq<char>, Seq<char>),
    peer: (Seq<char>, Seq<char>),
) -> Seq<((Seq<char>, Seq<char>), Option<(Seq<char>, Seq<char>)>)> {
    if views.map_values(
        |v: ((Seq<char>, Seq<char>), Option<(Seq<char>, Seq<char>)>)| v.0,
    ).contains(key) {
        views
    } else {
        views.push((key, Some(peer)))
    }
}

/// The ports of device `d` after the link between ports `a` and `b` is
/// taken up: each end that is a port of `d` is added with the other end
/// as its peer, `a` first.
pub open spec fn ports_added(
    views: Seq<((Seq<char>, Seq<char>), Option<(Seq<char>, Seq<char>)>)>,
    d: Seq<char>,
    a: (Seq<char>, Seq<char>),
    b: (Seq<char>, Seq<char>),
) -> Seq<((Seq<char>, Seq<char>), Option<(Seq<char>, Seq<char>)>)> {
    let first = if a.0 == d {
        port_put(views, a, b)
    } else {
        views
    };
    if b.0 == d {
        port_put(first, b, a)
    } else {
        first
    }
}

/// The ports of device `d` after the first `k` links of a topology are
/// taken up.
pub open spec fn ports_read(
    views: Seq<((Seq<char>, Seq<char>), Option<(Seq<char>, Seq<char>)>)>,
    d: Seq<char>,
    topologies: Seq<Topology>,
    k: int,
) -> Seq<((Seq<char>, Seq<char>), Option<(Seq<char>, Seq<char>)>)>
    decreases k,
{
    if k <= 0 {
        views
    } else {
        ports_added(
            ports_read(views, d, topologies, k - 1),
            d,
            (topologies[k - 1].src_node@, topologies[k - 1].src_port@),
            (topologies[k - 1].dst_node@, topologies[k - 1].dst_port@),
        )
    }
}

/// A port list that was given a port is, as keys and peers, the list it
/// was with the port put to it.
pub proof fn lemma_with_port_view(
    before: Seq<DevicePort>,
    after: Seq<DevicePort>,
    key: (Seq<char>, Seq<char>),
    peer: (Seq<char>, Seq<char>),
)
    requires
        with_port(before, after, key, peer),
    ensures
        port_views(after) == port_put(port_views(before), key, peer),
{
    let keys = port_views(before).map_values(
        |v: ((Seq<char>, Seq<char>), Option<(Seq<char>, Seq<char>)>)| v.0,
    );
    assert(keys =~= port_keys(before));
    if !port_keys(before).contains(key) {
        assert(before =~= after.drop_last());
        assert(port_views(after) =~= port_views(before).push((key, Some(peer))));
    }
}

/// Listing a port that is listed with the same peer changes nothing.
pub proof fn lemma_link_put_again(
    pairs: Seq<((Seq<char>, Seq<char>), (Seq<char>, Seq<char>))>,
    k: (Seq<char>, Seq<char>),
    v: (Seq<char>, Seq<char>),
)
    requires
        link_firsts(pairs).no_duplicates(),
    ensures
        link_firsts(link_put(pairs, k, v)).no_duplicates(),
        link_firsts(link_put(pairs, k, v)).contains(k),
        link_put(link_put(pairs, k, v), k, v) == link_put(pairs, k, v),
{
    let firsts = link_firsts(pairs);
    let once = link_put(pairs, k, v);
    if firsts.contains(k) {
        let i = firsts.index_of(k);
        assert(link_firsts(once) =~= firsts);
        assert(once.update(i, (k, v)) =~= once);
    } else {
        assert(link_firsts(once) =~= firsts.push(k));
        assert forall|a: int, b: int|
            0 <= a < link_firsts(once).len() && 0 <= b < link_firsts(once).len() && a
                != b implies link_firsts(once)[a] != link_firsts(once)[b] by {
            if a < firsts.len() {
                assert(firsts.contains(firsts[a]));
            }
            if b < firsts.len() {
                assert(firsts.contains(firsts[b]));
            }
        }
        assert(link_firsts(once)[firsts.len() as int] == k);
        let j = link_firsts(once).index_of(k);
        assert(j == firsts.len());
        assert(once.update(j, (k, v)) =~= once);
    }
}

/// Lists the link from `from` to `to` under `from`: in place of what
/// `from` was listed with, or at the end.
fn put_link(links: &mut Vec<(DevicePort, DevicePort)>, from: DevicePort, to: DevicePort)
    requires
        link_firsts(link_pairs(old(links)@)).no_duplicates(),
    ensures
        link_pairs(final(links)@) == link_put(link_pairs(old(links)@), from.key(), to.key()),
        link_firsts(link_pairs(final(links)@)).no_duplicates(),
{
    let ghost pairs = link_pairs(links@);
    let ghost firsts = link_firsts(pairs);
    proof {
        lemma_link_put_again(pairs, from.key(), to.key());
    }
    let mut i: usize = 0;
    while i < links.len()
        invariant
            i <= links.len(),
            links@ == old(links)@,
            pairs == link_pairs(links@),
            firsts == link_firsts(pairs),
            firsts.len() == links.len(),
            firsts.no_duplicates(),
            link_firsts(link_put(pairs, from.key(), to.key())).no_duplicates(),
            forall|j: int| 0 <= j < i ==> #[trigger] firsts[j] != from.key(),
        decreases links.len() - i,
    {
        assert(firsts[i as int] == links[i as int].0.key());
        if links[i].0.same_port(&from) {
            proof {
                assert(firsts[i as int] == from.key());
                assert(firsts.contains(from.key()));
                let j = firsts.index_of(from.key());
                assert(0 <= j < firsts.len() && firsts[j] == from.key());
                assert(j == i);
            }
            links.set(i, (from, to));
            assert(link_pairs(links@) =~= pairs.update(i as int, (from.key(), to.key())));
            return ;
        }
        i += 1;
    }
    proof {
        if firsts.contains(from.key()) {
            let j = firsts.index_of(from.key());
            assert(firsts[j] == from.key());
        }
    }
    links.push((from, to));
    assert(link_pairs(links@) =~= pairs.push((from.key(), to.key())));
}

/// Whether the list holds a port with the key of `port`.
pub fn has_port(ports: &Vec<DevicePort>, port: &DevicePort) -> (r: bool)
    ensures
        r == port_keys(ports@).contains(port.key()),
{
    let mut k: usize = 0;
    while k < ports.len()
        invariant
            k <= ports.len(),
            forall|j: int| 0 <= j < k ==> (#[trigger] ports[j]).key() != port.key(),
        decreases ports.len() - k,
    {
        if ports[k].same_port(port) {
            assert(port_keys(ports@)[k as int] == port.key());
            return true;
        }
        k += 1;
    }
    proof {
        if port_keys(ports@).contains(port.key()) {
            let j = port_keys(ports@).index_of(port.key());
            assert(port_keys(ports@)[j] == port.key());
            assert(ports[j].key() == port.key());
        }
    }
    false
}

/// Whether the link joins the two lower layers of a pod: one of its ends
/// is a lower-layer device, with `S0` in its name, and the other an
/// upper-layer device, with `S1` in its name, whichever of them the link
/// names first.
pub open spec fn joins_pod(t: Topology) -> bool {
    (has_substring(t.dst_node@, "S1"@) && has_substring(t.src_node@, "S0"@)) || (has_substring(
        t.src_node@,
        "S1"@,
    ) && has_substring(t.dst_node@, "S0"@))
}

/// Whether the device is an end of link `k`, a link that joins a pod.
pub open spec fn pod_end(topologies: Seq<Topology>, x: Seq<char>, k: int) -> bool {
    0 <= k < topologies.len() && joins_pod(topologies[k]) && (topologies[k].src_node@ == x
        || topologies[k].dst_node@ == x)
}

/// Whether the device is an end of a link that joins a pod.
pub open spec fn pod_node(topologies: Seq<Topology>, x: Seq<char>) -> bool {
    exists|k: int| #[trigger] pod_end(topologies, x, k)
}

/// Whether `w` is listed as a neighbor of `u`.
pub open spec fn listed(adj: Seq<Vec<usize>>, u: int, w: int) -> bool {
    0 <= u < adj.len() && exists|p: int| 0 <= p < adj[u].len() && #[trigger] adj[u][p] == w
}

/// Whether link `j` joins a pod and has the devices `x` and `y` as its ends.
pub open spec fn link_joins(topologies: Seq<Topology>, j: int, x: Seq<char>, y: Seq<char>) -> bool {
    0 <= j < topologies.len() && joins_pod(topologies[j]) && ((topologies[j].src_node@ == x
        && topologies[j].dst_node@ == y) || (topologies[j].src_node@ == y
        && topologies[j].dst_node@ == x))
}

/// Whether some link that joins a pod has the devices `x` and `y` as its
/// ends.
pub open spec fn pod_linked(topologies: Seq<Topology>, x: Seq<char>, y: Seq<char>) -> bool {
    exists|j: int| #[trigger] link_joins(topologies, j, x, y)
}

/// Whether pod links do not lead out of the set of devices, nor into it.
pub open spec fn pod_closed(topologies: Seq<Topology>, s: Set<Seq<char>>) -> bool {
    forall|x: Seq<char>, y: Seq<char>| #[trigger]
        pod_linked(topologies, x, y) ==> (s.contains(x) <==> s.contains(y))
}

/// Whether neighbors in the graph are the ends of a link that joins a pod.
pub open spec fn graph_sound(topologies: Seq<Topology>, names: Seq<Seq<char>>, adj: Seq<Vec<usize>>) -> bool {
    forall|u: int, w: int| #[trigger]
        listed(adj, u, w) ==> 0 <= w < names.len() && pod_linked(topologies, names[u], names[w])
}

/// Whether the set of nodes holds either both of two neighbors or none.
pub open spec fn adj_closed(adj: Seq<Vec<usize>>, s: Set<int>) -> bool {
    forall|u: int, w: int| #[trigger] listed(adj, u, w) ==> (s.contains(u) <==> s.contains(w))
}

/// Whether node `i` hangs together with node `start`: every set of nodes
/// that holds `start` and is closed under neighborhood holds `i`.
pub open spec fn tied(adj: Seq<Vec<usize>>, start: int, i: int) -> bool {
    forall|s: Set<int>| #[trigger] adj_closed(adj, s) && s.contains(start) ==> s.contains(i)
}

/// A neighbor of a node that hangs together with the start does so too.
pub proof fn lemma_tied_on(adj: Seq<Vec<usize>>, start: int, u: int, w: int)
    requires
        tied(adj, start, u),
        listed(adj, u, w),
    ensures
        tied(adj, start, w),
{
    assert forall|s: Set<int>| #[trigger] adj_closed(adj, s) && s.contains(start) implies s.contains(
        w,
    ) by {
        assert(s.contains(u));
    }
}

/// The graph of the links that join pods: every end of such a link is a
/// node, the ends of each such link are neighbors of one another, and
/// nothing else is.
pub open spec fn pod_graph(
    topologies: Seq<Topology>,
    k: int,
    names: NameMap<usize>,
    adj: Seq<Vec<usize>>,
) -> bool {
    &&& names.wf()
    &&& names.names().len() == adj.len()
    &&& forall|u: int, p: int|
        0 <= u < adj.len() && 0 <= p < adj[u].len() ==> #[trigger] adj[u][p] < adj.len()
    &&& forall|u: int, w: int| #[trigger] listed(adj, u, w) ==> listed(adj, w, u)
    &&& forall|x: Seq<char>|
        names.names().contains(x) <==> exists|j: int| #[trigger] pod_end(topologies, x, j) && j < k
    &&& forall|j: int|
        0 <= j < k && joins_pod(#[trigger] topologies[j]) ==> names.names().contains(
            topologies[j].src_node@,
        ) && names.names().contains(topologies[j].dst_node@) && listed(
            adj,
            names.names().index_of(topologies[j].dst_node@),
            names.names().index_of(topologies[j].src_node@),
        )
}

pub struct Network {
    devices: NameMap<usize>,
    device_ports: Vec<Vec<DevicePort>>,
    topology: Vec<(DevicePort, DevicePort)>,
    pods: Vec<Pod>,
    pod_device_names: Vec<String>,
}

impl Network {
    /// The devices that have a port, in the order in which they first appeared.
    pub closed spec fn device_names(&self) -> Seq<Seq<char>> {
        self.devices.names()
    }

    /// The ports of the device at position `i`.
    pub closed spec fn ports_at(&self, i: int) -> Seq<DevicePort> {
        self.device_ports[i]@
    }

    /// The ports of the named device; none if the device has no link.
    pub open spec fn ports_of(&self, device: Seq<char>) -> Seq<DevicePort> {
        if self.device_names().contains(device) {
            self.ports_at(self.device_names().index_of(device))
        } else {
            Seq::<DevicePort>::empty()
        }
    }

    /// The links as pairs of a port and its peer, both directions of each.
    pub closed spec fn links(&self) -> Seq<(DevicePort, DevicePort)> {
        self.topology@
    }

    /// No device is listed twice, every device's port list is in order and
    /// no port has two entries among the links.
    pub closed spec fn wf(&self) -> bool {
        &&& self.devices.wf()
        &&& self.devices.names().len() == self.device_ports.len()
        &&& forall|i: int|
            0 <= i < self.device_ports.len() ==> #[trigger] self.devices.values()[i] == i
        &&& forall|i: int|
            0 <= i < self.device_ports.len() ==> ports_ok(
                self.devices.names()[i],
                #[trigger] self.device_ports[i]@,
            )
        &&& link_firsts(link_pairs(self.topology@)).no_duplicates()
    }

    /// Whether every link leads to a device that is listed.
    pub open spec fn closed(&self) -> bool {
        forall|d: Seq<char>, k: int|
            0 <= k < self.ports_of(d).len() ==> self.device_names().contains(
                (#[trigger] self.ports_of(d)[k]).peer().unwrap().0,
            )
    }

    /// What well-formedness says of the port lists.
    pub proof fn lemma_ports(&self)
        requires
            self.wf(),
        ensures
            self.device_names().no_duplicates(),
            forall|i: int|
                0 <= i < self.device_names().len() ==> ports_ok(
                    self.device_names()[i],
                    #[trigger] self.ports_at(i),
                ),
            forall|d: Seq<char>|
                self.device_names().contains(d) ==> ports_ok(d, #[trigger] self.ports_of(d)),
    {
        assert forall|d: Seq<char>| self.device_names().contains(d) implies ports_ok(
            d,
            #[trigger] self.ports_of(d),
        ) by {
            let i = self.device_names().index_of(d);
            assert(self.device_names()[i] == d);
            assert(ports_ok(self.devices.names()[i], self.device_ports[i]@));
        }
    }

    pub fn new() -> (r: Network)
        ensures
            r.wf(),
            r.closed(),
            r.pods_listed(),
            r.device_names() == Seq::<Seq<char>>::empty(),
            r.links() == Seq::<(DevicePort, DevicePort)>::empty(),
            r.pods() == Seq::<Pod>::empty(),
            r.pod_device_names() == Seq::<Seq<char>>::empty(),
    {
        let r = Network {
            devices: NameMap::new(),
            device_ports: Vec::new(),
            topology: Vec::new(),
            pods: Vec::new(),
            pod_device_names: Vec::new(),
        };
        proof {
            assert(texts(r.pod_device_names@) =~= Seq::<Seq<char>>::empty());
            assert forall|d: Seq<char>, x: int|
                0 <= x < r.ports_of(d).len() implies r.device_names().contains(
                (#[trigger] r.ports_of(d)[x]).peer().unwrap().0,
            ) by {
                assert(r.ports_of(d).len() == 0);
            }
        }
        r
    }

    /// The number of devices that have a port.
    pub fn device_count(&self) -> (r: usize)
        requires
            self.wf(),
        ensures
            r == self.device_names().len(),
    {
        self.device_ports.len()
    }

    /// The name of the device at position `i`.
    pub fn device_name_at(&self, i: usize) -> (r: &String)
        requires
            self.wf(),
            i < self.device_names().len(),
        ensures
            r@ == self.device_names()[i as int],
    {
        self.devices.name_at(i)
    }

    /// The ports of the device at position `i`.
    pub fn device_ports_at(&self, i: usize) -> (r: &Vec<DevicePort>)
        requires
            self.wf(),
            i < self.device_names().len(),
        ensures
            r@ == self.ports_at(i as int),
    {
        &self.device_ports[i]
    }

    /// The position of the named device, if it has a port.
    pub fn device_index(&self, device_name: &str) -> (r: Option<usize>)
        requires
            self.wf(),
        ensures
            match r {
                Some(i) => i < self.device_names().len() && self.device_names()[i as int]
                    == device_name@ && self.device_names().index_of(device_name@) == i
                    && self.device_names().contains(device_name@),
                None => !self.device_names().contains(device_name@),
            },
    {
        self.devices.find(device_name)
    }

    /// The ports of the named device, if it has any.
    pub fn get_device_ports(&self, device_name: &str) -> (r: Option<&Vec<DevicePort>>)
        requires
            self.wf(),
        ensures
            match r {
                Some(ports) => self.device_names().contains(device_name@) && ports@
                    == self.ports_of(device_name@),
                None => !self.device_names().contains(device_name@),
            },
    {
        match self.devices.find(device_name) {
            Some(i) => Some(&self.device_ports[i]),
            None => None,
        }
    }

    pub fn get_toplogy(&self) -> (r: &Vec<(DevicePort, DevicePort)>)
        ensures
            r@ == self.links(),
    {
        &self.topology
    }

    /// Adds `port` to the ports of its device unless the device has a port
    /// of that name already.
    fn add_port(&mut self, port: DevicePort)
        requires
            old(self).wf(),
            port.peer().is_some(),
        ensures
            final(self).wf(),
            final(self).links() == old(self).links(),
            final(self).pods() == old(self).pods(),
            final(self).pod_device_names() == old(self).pod_device_names(),
            final(self).pods_listed() == old(self).pods_listed(),
            final(self).device_names() == if old(self).device_names().contains(port.device()) {
                old(self).device_names()
            } else {
                old(self).device_names().push(port.device())
            },
            forall|d: Seq<char>|
                d != port.device() ==> final(self).ports_of(d) == old(self).ports_of(d),
            final(self).ports_of(port.device()) == if port_keys(
                old(self).ports_of(port.device()),
            ).contains(port.key()) {
                old(self).ports_of(port.device())
            } else {
                old(self).ports_of(port.device()).push(port)
            },
    {
        let device_name = port.get_device_name();
        let ghost names0 = self.devices.names();
        let ghost lists0 = self.device_ports@;
        let ghost old_self = *self;
        let i = match self.devices.find(device_name.as_str()) {
            Some(i) => i,
            None => {
                let i = self.device_ports.len();
                self.devices.set(device_name, i);
                self.device_ports.push(Vec::new());
                proof {
                    assert(port_keys(self.device_ports[i as int]@) =~= Seq::<
                        (Seq<char>, Seq<char>),
                    >::empty());
                }
                i
            },
        };
        proof {
            assert(self.devices.names()[i as int] == port.device());
            self.devices.lemma_lookup_at(i as int);
        }
        let ghost list = self.device_ports[i as int]@;
        proof {
            assert(list == if (i as int) < old_self.device_ports.len() {
                old_self.device_ports[i as int]@
            } else {
                Seq::<DevicePort>::empty()
            });
            if (i as int) < old_self.device_ports.len() {
                assert(ports_ok(old_self.devices.names()[i as int], old_self.device_ports[i as int]@));
            }
            assert(ports_ok(port.device(), list));
        }
        if !has_port(&self.device_ports[i], &port) {
            let ghost lists1 = self.device_ports@;
            let mut ports: Vec<DevicePort> = Vec::new();
            core::mem::swap(&mut ports, &mut self.device_ports[i]);
            ports.push(port);
            self.device_ports.set(i, ports);
            proof {
                let list2 = self.device_ports[i as int]@;
                assert(list2 == list.push(port));
                assert(port_keys(list2) =~= port_keys(list).push(port.key()));
                assert forall|a: int, b: int|
                    0 <= a < port_keys(list2).len() && 0 <= b < port_keys(list2).len() && a
                        != b implies port_keys(list2)[a] != port_keys(list2)[b] by {
                    if a < list.len() {
                        assert(port_keys(list).contains(port_keys(list)[a]));
                    }
                    if b < list.len() {
                        assert(port_keys(list).contains(port_keys(list)[b]));
                    }
                }
                assert(forall|j: int|
                    0 <= j < old_self.device_ports.len() && j != i ==> #[trigger] self.device_ports[j]
                        == old_self.device_ports[j]);
            }
        }
        proof {
            self.lemma_after_add(old_self, port, i as int);
        }
    }

    proof fn lemma_after_add(&self, before: Network, port: DevicePort, i: int)
        requires
            before.wf(),
            self.devices.wf(),
            self.devices.names().len() == self.device_ports.len(),
            0 <= i < self.device_ports.len(),
            self.devices.names()[i] == port.device(),
            port.peer().is_some(),
            self.topology == before.topology,
            self.devices.names() == if before.devices.names().contains(port.device()) {
                before.devices.names()
            } else {
                before.devices.names().push(port.device())
            },
            forall|j: int|
                0 <= j < self.device_ports.len() ==> #[trigger] self.devices.values()[j] == j,
            forall|j: int|
                0 <= j < before.device_ports.len() && j != i ==> #[trigger] self.device_ports[j]
                    == before.device_ports[j],
            self.device_ports[i]@ == {
                let list = if i < before.device_ports.len() {
                    before.device_ports[i]@
                } else {
                    Seq::<DevicePort>::empty()
                };
                if port_keys(list).contains(port.key()) {
                    list
                } else {
                    list.push(port)
                }
            },
            ports_ok(port.device(), self.device_ports[i]@),
        ensures
            self.wf(),
            forall|d: Seq<char>| d != port.device() ==> self.ports_of(d) == before.ports_of(d),
            self.ports_of(port.device()) == if port_keys(before.ports_of(port.device())).contains(
                port.key(),
            ) {
                before.ports_of(port.device())
            } else {
                before.ports_of(port.device()).push(port)
            },
    {
        let names0 = before.devices.names();
        let names1 = self.devices.names();
        self.devices.lemma_lookup_at(i);
        assert forall|j: int| 0 <= j < self.device_ports.len() implies ports_ok(
            self.devices.names()[j],
            #[trigger] self.device_ports[j]@,
        ) by {
            if j != i {
                assert(j < before.device_ports.len()) by {
                    if !names0.contains(port.device()) {
                        assert(i == names0.len());
                    }
                }
                assert(ports_ok(before.devices.names()[j], before.device_ports[j]@));
            }
        }
        assert forall|d: Seq<char>| d != port.device() implies self.ports_of(d) == before.ports_of(
            d,
        ) by {
            if names0.contains(d) {
                let j = names0.index_of(d);
                assert(names0[j] == d);
                assert(names1[j] == d);
                self.devices.lemma_lookup_at(j);
            } else {
                if names1.contains(d) {
                    let j = names1.index_of(d);
                    assert(names1[j] == d);
                    assert(names0[j] == d);
                }
            }
        }
        if names0.contains(port.device()) {
            let j = names0.index_of(port.device());
            assert(names0[j] == port.device());
            before.devices.lemma_lookup_at(j);
            assert(i == j);
        } else {
            assert(port_keys(Seq::<DevicePort>::empty()) =~= Seq::<(Seq<char>, Seq<char>)>::empty());
        }
    }

    /// Records the link between port `p1` of device `d1` and port `p2` of
    /// device `d2`: each port is added to its device with the other as its
    /// peer, unless the device has a port of that name already, and the
    /// link is listed under each of its two ports, in place of what the
    /// port was listed with before. The same link given again changes
    /// nothing.
    pub fn add_topology(&mut self, d1: &str, p1: &str, d2: &str, p2: &str)
        requires
            old(self).wf(),
        ensures
            final(self).wf(),
            final(self).pods() == old(self).pods(),
            final(self).pod_device_names() == old(self).pod_device_names(),
            final(self).pods_listed() == old(self).pods_listed(),
            link_pairs(final(self).links()) == link_added(
                link_pairs(old(self).links()),
                (d1@, p1@),
                (d2@, p2@),
            ),
            forall|d: Seq<char>| #[trigger]
                port_views(final(self).ports_of(d)) == ports_added(
                    port_views(old(self).ports_of(d)),
                    d,
                    (d1@, p1@),
                    (d2@, p2@),
                ),
            forall|d: Seq<char>|
                d != d1@ && d != d2@ ==> final(self).ports_of(d) == old(self).ports_of(d),
            forall|d: Seq<char>|
                final(self).device_names().contains(d) <==> (old(self).device_names().contains(d)
                    || d == d1@ || d == d2@),
            d1@ != d2@ ==> with_port(
                old(self).ports_of(d1@),
                final(self).ports_of(d1@),
                (d1@, p1@),
                (d2@, p2@),
            ) && with_port(
                old(self).ports_of(d2@),
                final(self).ports_of(d2@),
                (d2@, p2@),
                (d1@, p1@),
            ),
            d1@ == d2@ ==> exists|mid: Seq<DevicePort>|
                #![trigger with_port(old(self).ports_of(d1@), mid, (d1@, p1@), (d2@, p2@))]
                with_port(old(self).ports_of(d1@), mid, (d1@, p1@), (d2@, p2@)) && with_port(
                    mid,
                    final(self).ports_of(d1@),
                    (d2@, p2@),
                    (d1@, p1@),
                ),
            old(self).closed() ==> final(self).closed(),
    {
        let mut dp1 = DevicePort::new(String::from_str(d1), String::from_str(p1));
        let mut dp2 = DevicePort::new(String::from_str(d2), String::from_str(p2));
        dp1.set_peer_key(String::from_str(d2), String::from_str(p2));
        dp2.set_peer_key(String::from_str(d1), String::from_str(p1));
        put_link(&mut self.topology, dp1.clone(), dp2.clone());
        put_link(&mut self.topology, dp2.clone(), dp1.clone());
        let ghost mid_names = self.device_names();
        let ghost g1 = dp1;
        let ghost g2 = dp2;
        self.add_port(dp1);
        let ghost after1 = *self;
        self.add_port(dp2);
        proof {
            let l0 = old(self).ports_of(d1@);
            let l1 = after1.ports_of(d1@);
            assert(with_port(l0, l1, (d1@, p1@), (d2@, p2@))) by {
                if !port_keys(l0).contains((d1@, p1@)) {
                    assert(l1.drop_last() =~= l0);
                }
            }
            let m0 = after1.ports_of(d2@);
            let m1 = self.ports_of(d2@);
            assert(with_port(m0, m1, (d2@, p2@), (d1@, p1@))) by {
                if !port_keys(m0).contains((d2@, p2@)) {
                    assert(m1.drop_last() =~= m0);
                }
            }
            assert forall|d: Seq<char>| #[trigger]
                port_views(self.ports_of(d)) == ports_added(
                    port_views(old(self).ports_of(d)),
                    d,
                    (d1@, p1@),
                    (d2@, p2@),
                ) by {
                lemma_with_port_view(l0, l1, (d1@, p1@), (d2@, p2@));
                lemma_with_port_view(m0, m1, (d2@, p2@), (d1@, p1@));
                if d != d1@ {
                    assert(after1.ports_of(d) == old(self).ports_of(d));
                }
                if d != d2@ {
                    assert(self.ports_of(d) == after1.ports_of(d));
                }
            }
            assert forall|d: Seq<char>| self.device_names().contains(d) <==> (old(
                self,
            ).device_names().contains(d) || d == d1@ || d == d2@) by {
                let n0 = old(self).device_names();
                let n1 = after1.device_names();
                let n2 = self.device_names();
                if n0.contains(d1@) {
                } else {
                    assert(n1[n0.len() as int] == d1@);
                    if n0.contains(d) {
                        let j = n0.index_of(d);
                        assert(n0[j] == d);
                        assert(n1[j] == d);
                    }
                    if n1.contains(d) {
                        let j = n1.index_of(d);
                        assert(n1[j] == d);
                        if j < n0.len() {
                            assert(n0[j] == d);
                        }
                    }
                }
                if n1.contains(d2@) {
                } else {
                    assert(n2[n1.len() as int] == d2@);
                    if n1.contains(d) {
                        let j = n1.index_of(d);
                        assert(n1[j] == d);
                        assert(n2[j] == d);
                    }
                    if n2.contains(d) {
                        let j = n2.index_of(d);
                        assert(n2[j] == d);
                        if j < n1.len() {
                            assert(n1[j] == d);
                        }
                    }
                }
            }
            if old(self).closed() {
                assert(self.device_names().contains(d1@) && self.device_names().contains(d2@));
                assert forall|d: Seq<char>, k: int| 0 <= k < self.ports_of(d).len() implies self.device_names().contains(
                    (#[trigger] self.ports_of(d)[k]).peer().unwrap().0,
                ) by {
                    let q = self.ports_of(d)[k];
                    let a0 = old(self).ports_of(d);
                    let a1 = after1.ports_of(d);
                    let a2 = self.ports_of(d);
                    if d == d2@ {
                        if k < a1.len() {
                            assert(a2[k] == a1[k]);
                            if d == d1@ {
                                if k < a0.len() {
                                    assert(a1[k] == a0[k]);
                                    assert(old(self).device_names().contains(a0[k].peer().unwrap().0));
                                } else {
                                    assert(a1[k] == g1);
                                }
                            } else {
                                assert(a1 == a0);
                                assert(old(self).device_names().contains(a0[k].peer().unwrap().0));
                            }
                        } else {
                            assert(a2[k] == g2);
                        }
                    } else {
                        assert(a2 == a1);
                        if d == d1@ {
                            if k < a0.len() {
                                assert(a1[k] == a0[k]);
                                assert(old(self).device_names().contains(a0[k].peer().unwrap().0));
                            } else {
                                assert(a1[k] == g1);
                            }
                        } else {
                            assert(a1 == a0);
                            assert(old(self).device_names().contains(a0[k].peer().unwrap().0));
                        }
                    }
                }
            }
        }
    }
}

/// The position of the name in the graph; a name that is new becomes a node
/// without neighbors.
fn node_of(names: &mut NameMap<usize>, adj: &mut Vec<Vec<usize>>, name: &String) -> (r: usize)
    requires
        old(names).wf(),
        old(names).names().len() == old(adj).len(),
    ensures
        final(names).wf(),
        final(names).names().len() == final(adj).len(),
        r < final(adj).len(),
        final(names).names()[r as int] == name@,
        final(names).names().index_of(name@) == r,
        final(names).names().contains(name@),
        old(names).names().contains(name@) ==> final(names).names() == old(names).names()
            && final(adj)@ == old(adj)@,
        !old(names).names().contains(name@) ==> final(names).names() == old(names).names().push(
            name@,
        ) && final(adj)@.len() == old(adj)@.len() + 1 && final(adj)@.drop_last() == old(adj)@
            && final(adj)@.last()@.len() == 0,
{
    match names.find(name.as_str()) {
        Some(i) => i,
        None => {
            let i = adj.len();
            let ghost names0 = names.names();
            let ghost adj0 = adj@;
            names.set(name.clone(), i);
            adj.push(Vec::new());
            proof {
                assert(names.names()[i as int] == name@);
                names.lemma_lookup_at(i as int);
                assert(adj@.drop_last() =~= adj0);
            }
            i
        },
    }
}

/// Adding a neighbor to a node lists it and leaves every other listing.
proof fn lemma_listed_push(before: Seq<Vec<usize>>, after: Seq<Vec<usize>>, a: int, b: int)
    requires
        0 <= a < before.len(),
        after.len() == before.len(),
        forall|u: int| 0 <= u < before.len() && u != a ==> #[trigger] after[u] == before[u],
        after[a]@ == before[a]@.push(b as usize),
        0 <= b <= usize::MAX,
    ensures
        forall|u: int, w: int| #[trigger]
            listed(after, u, w) <==> listed(before, u, w) || (u == a && w == b),
{
    assert forall|u: int, w: int| #[trigger]
        listed(after, u, w) <==> listed(before, u, w) || (u == a && w == b) by {
        if listed(before, u, w) {
            let p = choose|p: int| 0 <= p < before[u].len() && #[trigger] before[u][p] == w;
            assert(after[u][p] == w);
        }
        if u == a && w == b {
            assert(after[a][before[a].len() as int] == w);
        }
        if listed(after, u, w) {
            let p = choose|p: int| 0 <= p < after[u].len() && #[trigger] after[u][p] == w;
            if u != a {
                assert(before[u][p] == w);
            } else if p < before[a].len() {
                assert(before[a][p] == w);
            }
        }
    }
}

/// A link that joins a pod, taken into the graph, leaves the graph's
/// neighbors the ends of such links.
proof fn lemma_graph_link(
    topologies: Seq<Topology>,
    k: int,
    names0: Seq<Seq<char>>,
    names2: Seq<Seq<char>>,
    adj0: Seq<Vec<usize>>,
    adj4: Seq<Vec<usize>>,
    a: int,
    b: int,
)
    requires
        graph_sound(topologies, names0, adj0),
        names0.len() == adj0.len(),
        names2.len() >= names0.len(),
        forall|i: int| 0 <= i < names0.len() ==> #[trigger] names2[i] == names0[i],
        0 <= a < names2.len(),
        0 <= b < names2.len(),
        link_joins(topologies, k, names2[a], names2[b]),
        forall|u: int, w: int| #[trigger]
            listed(adj4, u, w) <==> listed(adj0, u, w) || (u == a && w == b) || (u == b && w == a),
    ensures
        graph_sound(topologies, names2, adj4),
{
    assert(link_joins(topologies, k, names2[b], names2[a]));
    assert forall|u: int, w: int| #[trigger] listed(adj4, u, w) implies 0 <= w < names2.len()
        && pod_linked(topologies, names2[u], names2[w]) by {
        if listed(adj0, u, w) {
            assert(0 <= w < names0.len() && pod_linked(topologies, names0[u], names0[w]));
        }
    }
}

/// Builds the graph of the links that join pods.
#[verifier::loop_isolation(false)]
#[verifier::rlimit(40)]
fn build_pod_graph(topologies: &Vec<Topology>) -> (r: (NameMap<usize>, Vec<Vec<usize>>))
    ensures
        pod_graph(topologies@, topologies.len() as int, r.0, r.1@),
        graph_sound(topologies@, r.0.names(), r.1@),
{
    let mut names: NameMap<usize> = NameMap::new();
    let mut adj: Vec<Vec<usize>> = Vec::new();
    let mut k: usize = 0;
    proof {
        assert forall|u: int, w: int| #[trigger] listed(adj@, u, w) implies listed(adj@, w, u) by {
        }
    }
    while k < topologies.len()
        invariant
            k <= topologies.len(),
            pod_graph(topologies@, k as int, names, adj@),
            graph_sound(topologies@, names.names(), adj@),
        decreases topologies.len() - k,
    {
        let topology = &topologies[k];
        let ghost names0 = names;
        let ghost adj0 = adj@;
        let upward = text_contains(topology.dst_node.as_str(), "S1") && text_contains(
            topology.src_node.as_str(),
            "S0",
        );
        let downward = text_contains(topology.src_node.as_str(), "S1") && text_contains(
            topology.dst_node.as_str(),
            "S0",
        );
        if upward || downward {
            let a = node_of(&mut names, &mut adj, &topology.dst_node);
            let ghost names1 = names;
            let ghost adj1 = adj@;
            let b = node_of(&mut names, &mut adj, &topology.src_node);
            let ghost names2 = names;
            let ghost adj2 = adj@;
            proof {
                assert(names2.names()[a as int] == topology.dst_node@);
                names2.lemma_lookup_at(a as int);
            }
            let mut row: Vec<usize> = Vec::new();
            core::mem::swap(&mut row, &mut adj[a]);
            row.push(b);
            adj.set(a, row);
            let ghost adj3 = adj@;
            let mut row: Vec<usize> = Vec::new();
            core::mem::swap(&mut row, &mut adj[b]);
            row.push(a);
            adj.set(b, row);
            let ghost adj4 = adj@;
            proof {
                assert(forall|u: int, w: int| #[trigger] listed(adj2, u, w) <==> listed(adj0, u, w)) by {
                    assert forall|u: int, w: int| #[trigger]
                        listed(adj2, u, w) <==> listed(adj0, u, w) by {
                        if listed(adj0, u, w) {
                            let p = choose|p: int| 0 <= p < adj0[u].len() && #[trigger] adj0[u][p] == w;
                            assert(adj1[u] == adj0[u]);
                            assert(adj2[u] == adj1[u]);
                            assert(adj2[u][p] == w);
                        }
                        if listed(adj2, u, w) {
                            let p = choose|p: int| 0 <= p < adj2[u].len() && #[trigger] adj2[u][p] == w;
                            if u < adj1.len() {
                                assert(adj2[u] == adj1[u]);
                                if u < adj0.len() {
                                    assert(adj1[u] == adj0[u]);
                                    assert(adj0[u][p] == w);
                                }
                            }
                        }
                    }
                }
                lemma_listed_push(adj2, adj3, a as int, b as int);
                lemma_listed_push(adj3, adj4, b as int, a as int);
                assert(forall|i: int|
                    0 <= i < names0.names().len() ==> #[trigger] names2.names()[i]
                        == names0.names()[i]) by {
                    assert forall|i: int| 0 <= i < names0.names().len() implies #[trigger]
                        names2.names()[i] == names0.names()[i] by {
                        assert(names1.names()[i] == names0.names()[i]);
                    }
                }
                lemma_graph_link(
                    topologies@,
                    k as int,
                    names0.names(),
                    names2.names(),
                    adj0,
                    adj4,
                    a as int,
                    b as int,
                );
                assert forall|u: int, w: int| #[trigger] listed(adj4, u, w) implies listed(
                    adj4,
                    w,
                    u,
                ) by {
                    if listed(adj0, u, w) {
                        assert(listed(adj0, w, u));
                    }
                }
                assert forall|u: int, p: int|
                    0 <= u < adj4.len() && 0 <= p < adj4[u].len() implies #[trigger] adj4[u][p]
                    < adj4.len() by {
                    assert(listed(adj4, u, adj4[u][p] as int));
                    if listed(adj0, u, adj4[u][p] as int) {
                        let q = choose|q: int|
                            0 <= q < adj0[u].len() && #[trigger] adj0[u][q] == adj4[u][p];
                        assert(adj0[u][q] < adj0.len());
                    }
                }
                let n0 = names0.names();
                let n2 = names2.names();
                assert forall|x: Seq<char>| n2.contains(x) <==> n0.contains(x) || x
                    == topology.dst_node@ || x == topology.src_node@ by {
                    let n1 = names1.names();
                    if n0.contains(x) {
                        let j = n0.index_of(x);
                        assert(n0[j] == x);
                        assert(n1[j] == x);
                        assert(n2[j] == x);
                    }
                    if n2.contains(x) {
                        let j = n2.index_of(x);
                        assert(n2[j] == x);
                        if j < n1.len() {
                            assert(n1[j] == x);
                            if j < n0.len() {
                                assert(n0[j] == x);
                            }
                        }
                    }
                }
                assert forall|x: Seq<char>|
                    n2.contains(x) <==> exists|j: int| #[trigger]
                        pod_end(topologies@, x, j) && j < k + 1 by {
                    if n2.contains(x) {
                        if n0.contains(x) {
                            let j = choose|j: int| #[trigger] pod_end(topologies@, x, j) && j < k;
                            assert(pod_end(topologies@, x, j) && j < k + 1);
                        } else {
                            assert(pod_end(topologies@, x, k as int) && k < k + 1);
                        }
                    }
                    if exists|j: int| #[trigger] pod_end(topologies@, x, j) && j < k + 1 {
                        let j = choose|j: int| #[trigger] pod_end(topologies@, x, j) && j < k + 1;
                        if j < k {
                            assert(pod_end(topologies@, x, j) && j < k);
                            assert(n0.contains(x));
                        }
                    }
                }
                assert forall|j: int|
                    0 <= j < k + 1 && joins_pod(#[trigger] topologies[j]) implies n2.contains(
                    topologies[j].src_node@,
                ) && n2.contains(topologies[j].dst_node@) && listed(
                    adj4,
                    n2.index_of(topologies[j].dst_node@),
                    n2.index_of(topologies[j].src_node@),
                ) by {
                    if j < k {
                        let d = topologies[j].dst_node@;
                        let sname = topologies[j].src_node@;
                        let di = n0.index_of(d);
                        let si = n0.index_of(sname);
                        assert(n0[di] == d && n0[si] == sname);
                        let n1 = names1.names();
                        assert(n1[di] == d && n1[si] == sname);
                        assert(n2[di] == d && n2[si] == sname);
                        names2.lemma_lookup_at(di);
                        names2.lemma_lookup_at(si);
                        assert(listed(adj0, di, si));
                    } else {
                        assert(n2.index_of(topology.dst_node@) == a);
                        assert(n2.index_of(topology.src_node@) == b);
                    }
                }
            }
        } else {
            proof {
                assert forall|x: Seq<char>|
                    names.names().contains(x) <==> exists|j: int| #[trigger]
                        pod_end(topologies@, x, j) && j < k + 1 by {
                    if names.names().contains(x) {
                        let j = choose|j: int| #[trigger] pod_end(topologies@, x, j) && j < k;
                        assert(pod_end(topologies@, x, j) && j < k + 1);
                    }
                    if exists|j: int| #[trigger] pod_end(topologies@, x, j) && j < k + 1 {
                        let j = choose|j: int| #[trigger] pod_end(topologies@, x, j) && j < k + 1;
                        assert(j != k);
                        assert(pod_end(topologies@, x, j) && j < k);
                    }
                }
            }
        }
        k += 1;
    }
    (names, adj)
}

/// The work that exploring the graph can still do: for every node not
/// visited yet among the first `k`, one step for the visit and one for each
/// of its neighbors.
pub open spec fn open_weight(adj: Seq<Vec<usize>>, visited: Seq<bool>, k: int) -> nat
    decreases k,
{
    if k <= 0 {
        0
    } else {
        open_weight(adj, visited, k - 1) + if visited[k - 1] {
            0nat
        } else {
            (adj[k - 1].len() + 1) as nat
        }
    }
}

/// Visiting a node takes its share off the work that is left.
proof fn lemma_open_weight(adj: Seq<Vec<usize>>, visited: Seq<bool>, cur: int, k: int)
    requires
        0 <= cur < visited.len(),
        !visited[cur],
        0 <= k <= visited.len(),
    ensures
        open_weight(adj, visited.update(cur, true), k) + (if cur < k {
            (adj[cur].len() + 1) as nat
        } else {
            0nat
        }) == open_weight(adj, visited, k),
    decreases k,
{
    if k > 0 {
        lemma_open_weight(adj, visited, cur, k - 1);
    }
}

/// Whether node `w` waits in the queue from position `head` on.
pub open spec fn pending(queue: Seq<usize>, head: int, w: int) -> bool {
    exists|q: int| head <= q < queue.len() && #[trigger] queue[q] == w
}

/// Whether node `i` is visited and belongs to pod `c`.
pub open spec fn placed(visited: Seq<bool>, pod_of: Seq<int>, i: int, c: int) -> bool {
    0 <= i < visited.len() && visited[i] && pod_of[i] == c
}

/// Whether the visited nodes are closed under the links: every neighbor of
/// a visited node is visited and in the same pod.
pub open spec fn closed_pods(adj: Seq<Vec<usize>>, visited: Seq<bool>, pod_of: Seq<int>) -> bool {
    forall|u: int, w: int|
        0 <= u < visited.len() && visited[u] && #[trigger] listed(adj, u, w) ==> visited[w]
            && pod_of[w] == pod_of[u]
}

/// Whether the pod holds exactly the names of the nodes placed in pod `c`.
pub open spec fn pod_holds(
    pod: Pod,
    names: Seq<Seq<char>>,
    visited: Seq<bool>,
    pod_of: Seq<int>,
    c: int,
) -> bool {
    forall|x: Seq<char>|
        pod.has_device(x) <==> exists|i: int| #[trigger] placed(visited, pod_of, i, c) && names[i] == x
}

/// Whether the pod's layers are as the names say: an upper-layer device has
/// `S1` in its name, a lower-layer device has `S0` and not `S1`.
pub open spec fn layered(pod: Pod) -> bool {
    &&& forall|x: Seq<char>| #[trigger] pod.s1().contains(x) ==> has_substring(x, "S1"@)
    &&& forall|x: Seq<char>| #[trigger]
        pod.s0().contains(x) ==> has_substring(x, "S0"@) && !has_substring(x, "S1"@)
}

/// Puts a device into the pod, in the layer that its name tells, and lists
/// it among the pod devices.
fn place_device(pod: &mut Pod, pod_device_names: &mut Vec<String>, name: &String)
    requires
        old(pod).wf(),
        layered(*old(pod)),
        texts(old(pod_device_names)@).no_duplicates(),
        has_substring(name@, "S1"@) || has_substring(name@, "S0"@),
    ensures
        final(pod).wf(),
        layered(*final(pod)),
        final(pod).pod_id == old(pod).pod_id,
        final(pod).interfaces == old(pod).interfaces,
        final(pod).has_dst_device == old(pod).has_dst_device,
        forall|x: Seq<char>| final(pod).has_device(x) <==> old(pod).has_device(x) || x == name@,
        texts(final(pod_device_names)@).no_duplicates(),
        forall|x: Seq<char>| #[trigger]
            has_text(texts(final(pod_device_names)@), x) <==> has_text(
                texts(old(pod_device_names)@),
                x,
            ) || x == name@,
{
    crate::util::pod::add_name(pod_device_names, name.clone());
    if text_contains(name.as_str(), "S1") {
        pod.add_s1_device(name.clone());
    } else {
        pod.add_s0_device(name.clone());
    }
}

/// Whether the row of neighbors holds node `w`.
pub open spec fn in_row(row: Seq<usize>, w: usize) -> bool {
    exists|p: int| 0 <= p < row.len() && #[trigger] row[p] == w
}

/// Whether what a search from `start` has visited, and what waits in its
/// queue, hangs together with `start`.
pub open spec fn hanging(
    adj: Seq<Vec<usize>>,
    visited0: Seq<bool>,
    visited: Seq<bool>,
    queue: Seq<usize>,
    head: int,
    start: int,
) -> bool {
    &&& forall|i: int|
        0 <= i < adj.len() && #[trigger] visited[i] && !visited0[i] ==> tied(adj, start, i)
    &&& forall|q: int| head <= q < queue.len() ==> tied(adj, start, #[trigger] queue[q] as int)
}

/// Visiting a node from the queue and queueing neighbors of it keeps all
/// hanging together.
proof fn lemma_hang_visit(
    adj: Seq<Vec<usize>>,
    visited0: Seq<bool>,
    visited1: Seq<bool>,
    visited2: Seq<bool>,
    queue0: Seq<usize>,
    queue2: Seq<usize>,
    head0: int,
    start: int,
)
    requires
        hanging(adj, visited0, visited1, queue0, head0, start),
        0 <= head0 < queue0.len(),
        queue0[head0] < adj.len(),
        visited2 == visited1.update(queue0[head0] as int, true),
        visited1.len() == adj.len(),
        queue2.len() >= queue0.len(),
        forall|q: int| 0 <= q < queue0.len() ==> #[trigger] queue2[q] == queue0[q],
        forall|q: int|
            queue0.len() <= q < queue2.len() ==> in_row(adj[queue0[head0] as int]@, #[trigger] queue2[q]),
    ensures
        hanging(adj, visited0, visited2, queue2, head0 + 1, start),
{
    let cur = queue0[head0] as int;
    assert(tied(adj, start, queue0[head0] as int));
    assert forall|q: int| head0 + 1 <= q < queue2.len() implies tied(
        adj,
        start,
        #[trigger] queue2[q] as int,
    ) by {
        if q < queue0.len() {
            assert(queue2[q] == queue0[q]);
        } else {
            let p = choose|p: int| 0 <= p < adj[cur].len() && #[trigger] adj[cur]@[p] == queue2[q];
            assert(adj[cur][p] == queue2[q]);
            assert(listed(adj, cur, queue2[q] as int));
            lemma_tied_on(adj, start, cur, queue2[q] as int);
        }
    }
}

/// No set that pod links do not lead out of holds one of two nodes that
/// hang together with the same node and not the other.
proof fn lemma_tight(
    topologies: Seq<Topology>,
    names: Seq<Seq<char>>,
    adj: Seq<Vec<usize>>,
    start: int,
    x: int,
    y: int,
    s: Set<Seq<char>>,
)
    requires
        graph_sound(topologies, names, adj),
        names.len() == adj.len(),
        0 <= start < adj.len(),
        0 <= x < adj.len(),
        0 <= y < adj.len(),
        tied(adj, start, x),
        tied(adj, start, y),
        pod_closed(topologies, s),
        s.contains(names[x]),
    ensures
        s.contains(names[y]),
{
    let inside = Set::new(|i: int| 0 <= i < names.len() && s.contains(names[i]));
    let outside = Set::new(|i: int| 0 <= i < names.len() && !s.contains(names[i]));
    assert(adj_closed(adj, inside)) by {
        assert forall|u: int, w: int| #[trigger] listed(adj, u, w) implies (inside.contains(u)
            <==> inside.contains(w)) by {
            assert(pod_linked(topologies, names[u], names[w]));
        }
    }
    assert(adj_closed(adj, outside)) by {
        assert forall|u: int, w: int| #[trigger] listed(adj, u, w) implies (outside.contains(u)
            <==> outside.contains(w)) by {
            assert(pod_linked(topologies, names[u], names[w]));
        }
    }
    if outside.contains(start) {
        assert(outside.contains(x));
    } else {
        assert(inside.contains(start));
        assert(inside.contains(y));
    }
}

/// Whether every pod hangs together by pod links: a set of devices that
/// pod links lead neither out of nor into holds all of a pod or none of
/// it. So two devices share a pod only where pod links connect them.
pub open spec fn pods_tight(topologies: Seq<Topology>, pods: Seq<Pod>) -> bool {
    forall|c: int, s: Set<Seq<char>>, x: Seq<char>, y: Seq<char>|
        0 <= c < pods.len() && #[trigger] pod_closed(topologies, s) && #[trigger] pods[c].has_device(
            x,
        ) && #[trigger] pods[c].has_device(y) && s.contains(x) ==> s.contains(y)
}

/// Queues the neighbors that are not visited yet.
fn push_neighbors(row: &Vec<usize>, visited: &Vec<bool>, queue: &mut Vec<usize>, Ghost(head): Ghost<int>)
    requires
        forall|x: int| 0 <= x < row.len() ==> #[trigger] row[x] < visited.len(),
        0 <= head <= old(queue).len(),
    ensures
        final(queue).len() <= old(queue).len() + row.len(),
        final(queue).len() >= old(queue).len(),
        forall|q: int| 0 <= q < old(queue).len() ==> #[trigger] final(queue)[q] == old(queue)[q],
        forall|q: int|
            old(queue).len() <= q < final(queue).len() ==> #[trigger] final(queue)[q] < visited.len(),
        forall|x: int|
            0 <= x < row.len() ==> visited[(#[trigger] row[x]) as int] || pending(
                final(queue)@,
                head,
                row[x] as int,
            ),
        forall|q: int|
            old(queue).len() <= q < final(queue).len() ==> in_row(row@, #[trigger] final(queue)[q]),
{
    let mut p: usize = 0;
    while p < row.len()
        invariant
            p <= row.len(),
            0 <= head <= old(queue).len(),
            forall|x: int| 0 <= x < row.len() ==> #[trigger] row[x] < visited.len(),
            queue.len() <= old(queue).len() + p,
            queue.len() >= old(queue).len(),
            forall|q: int| 0 <= q < old(queue).len() ==> #[trigger] queue[q] == old(queue)[q],
            forall|q: int| old(queue).len() <= q < queue.len() ==> #[trigger] queue[q] < visited.len(),
            forall|q: int| old(queue).len() <= q < queue.len() ==> in_row(row@, #[trigger] queue[q]),
            forall|x: int|
                0 <= x < p ==> visited[(#[trigger] row[x]) as int] || pending(
                    queue@,
                    head,
                    row[x] as int,
                ),
        decreases row.len() - p,
    {
        let neighbor = row[p];
        let ghost queue2 = queue@;
        if !visited[neighbor] {
            queue.push(neighbor);
            assert(queue[queue2.len() as int] == neighbor);
            assert(row@[p as int] == neighbor);
            assert forall|q: int| old(queue).len() <= q < queue.len() implies in_row(
                row@,
                #[trigger] queue[q],
            ) by {
                if q < queue2.len() {
                    assert(queue[q] == queue2[q]);
                }
            }
        }
        proof {
            assert forall|x: int| 0 <= x < p + 1 implies visited[(#[trigger] row[x]) as int]
                || pending(queue@, head, row[x] as int) by {
                if x < p && !visited[row[x] as int] {
                    let q = choose|q: int| head <= q < queue2.len() && #[trigger] queue2[q] == row[x];
                    assert(queue[q] == row[x]);
                }
            }
        }
        p += 1;
    }
}

/// What holds while a pod is explored: the nodes visited before keep
/// their pods, the nodes visited since are in pod `c` and are the pod's
/// devices, every neighbor of such a node is visited or waits in the queue,
/// and so does the start.
pub open spec fn exploring(
    adj: Seq<Vec<usize>>,
    names: Seq<Seq<char>>,
    visited0: Seq<bool>,
    visited: Seq<bool>,
    pod_of: Seq<int>,
    pod_now: Seq<int>,
    c: int,
    queue: Seq<usize>,
    head: int,
    start: int,
    pod: Pod,
    listed0: Seq<Seq<char>>,
    listed_now: Seq<Seq<char>>,
) -> bool {
    &&& visited.len() == adj.len()
    &&& visited0.len() == adj.len()
    &&& pod_now.len() == adj.len()
    &&& pod_of.len() == adj.len()
    &&& names.len() == adj.len()
    &&& names.no_duplicates()
    &&& 0 <= head <= queue.len()
    &&& 0 <= start < adj.len()
    &&& forall|u: int, p: int|
        0 <= u < adj.len() && 0 <= p < adj[u].len() ==> #[trigger] adj[u][p] < adj.len()
    &&& forall|q: int| 0 <= q < queue.len() ==> #[trigger] queue[q] < adj.len()
    &&& forall|i: int|
        0 <= i < adj.len() && visited0[i] ==> #[trigger] visited[i] && pod_now[i] == pod_of[i]
    &&& forall|i: int|
        0 <= i < adj.len() && #[trigger] visited[i] && !visited0[i] ==> pod_now[i] == c
    &&& (visited[start] || pending(queue, head, start))
    &&& forall|u: int, w: int|
        0 <= u < adj.len() && visited[u] && !visited0[u] && #[trigger] listed(adj, u, w)
            ==> visited[w] || pending(queue, head, w)
    &&& pod_holds(pod, names, visited, pod_now, c)
    &&& forall|x: Seq<char>| #[trigger]
        has_text(listed_now, x) <==> has_text(listed0, x) || pod.has_device(x)
}

/// Visiting the node at the head of the queue keeps the exploration in
/// order.
proof fn lemma_visit_step(
    adj: Seq<Vec<usize>>,
    names: Seq<Seq<char>>,
    visited0: Seq<bool>,
    visited1: Seq<bool>,
    visited2: Seq<bool>,
    pod_of: Seq<int>,
    pod_now1: Seq<int>,
    pod_now2: Seq<int>,
    c: int,
    queue0: Seq<usize>,
    queue2: Seq<usize>,
    head0: int,
    start: int,
    pod1: Pod,
    pod2: Pod,
    listed0: Seq<Seq<char>>,
    listed1: Seq<Seq<char>>,
    listed2: Seq<Seq<char>>,
)
    requires
        exploring(
            adj,
            names,
            visited0,
            visited1,
            pod_of,
            pod_now1,
            c,
            queue0,
            head0,
            start,
            pod1,
            listed0,
            listed1,
        ),
        head0 < queue0.len(),
        !visited1[queue0[head0] as int],
        visited2 == visited1.update(queue0[head0] as int, true),
        pod_now2 == pod_now1.update(queue0[head0] as int, c),
        queue2.len() >= queue0.len(),
        forall|q: int| 0 <= q < queue0.len() ==> #[trigger] queue2[q] == queue0[q],
        forall|q: int| queue0.len() <= q < queue2.len() ==> #[trigger] queue2[q] < adj.len(),
        forall|x: int|
            0 <= x < adj[queue0[head0] as int].len() ==> visited2[(
            #[trigger] adj[queue0[head0] as int][x]) as int] || pending(
                queue2,
                head0 + 1,
                adj[queue0[head0] as int][x] as int,
            ),
        forall|x: Seq<char>|
            pod2.has_device(x) <==> pod1.has_device(x) || x == names[queue0[head0] as int],
        forall|x: Seq<char>| #[trigger]
            has_text(listed2, x) <==> has_text(listed1, x) || x == names[queue0[head0] as int],
    ensures
        exploring(
            adj,
            names,
            visited0,
            visited2,
            pod_of,
            pod_now2,
            c,
            queue2,
            head0 + 1,
            start,
            pod2,
            listed0,
            listed2,
        ),
{
    let cur = queue0[head0] as int;
    assert(!visited0[cur]);
    assert forall|u: int, w: int|
        0 <= u < adj.len() && visited2[u] && !visited0[u] && #[trigger] listed(
            adj,
            u,
            w,
        ) implies visited2[w] || pending(queue2, head0 + 1, w) by {
        let x = choose|x: int| 0 <= x < adj[u].len() && #[trigger] adj[u][x] == w;
        assert(adj[u][x] < adj.len());
        if u == cur {
            assert(adj[cur][x] == w);
        } else {
            if !visited1[w] {
                let q = choose|q: int| head0 <= q < queue0.len() && #[trigger] queue0[q] == w;
                if q != head0 {
                    assert(queue2[q] == w);
                }
            }
        }
    }
    if !visited2[start] {
        let q = choose|q: int| head0 <= q < queue0.len() && #[trigger] queue0[q] == start;
        assert(q != head0);
        assert(queue2[q] == start);
    }
    assert(placed(visited2, pod_now2, cur, c));
    assert forall|x: Seq<char>|
        pod2.has_device(x) <==> exists|i: int| #[trigger]
            placed(visited2, pod_now2, i, c) && names[i] == x by {
        if pod2.has_device(x) {
            if x == names[cur] {
                assert(placed(visited2, pod_now2, cur, c) && names[cur] == x);
            } else {
                assert(pod1.has_device(x));
                let i = choose|i: int| #[trigger] placed(visited1, pod_now1, i, c) && names[i] == x;
                assert(placed(visited2, pod_now2, i, c) && names[i] == x);
            }
        }
        if exists|i: int| #[trigger] placed(visited2, pod_now2, i, c) && names[i] == x {
            let i = choose|i: int| #[trigger] placed(visited2, pod_now2, i, c) && names[i] == x;
            if i != cur {
                assert(placed(visited1, pod_now1, i, c) && names[i] == x);
                assert(pod1.has_device(x));
            }
        }
    }
    assert forall|x: Seq<char>| #[trigger]
        has_text(listed2, x) <==> has_text(listed0, x) || pod2.has_device(x) by {
        assert(has_text(listed1, x) <==> has_text(listed0, x) || pod1.has_device(x));
    }
}

/// Passing over a node that is visited already keeps the exploration in
/// order.
proof fn lemma_skip_step(
    adj: Seq<Vec<usize>>,
    names: Seq<Seq<char>>,
    visited0: Seq<bool>,
    visited: Seq<bool>,
    pod_of: Seq<int>,
    pod_now: Seq<int>,
    c: int,
    queue: Seq<usize>,
    head0: int,
    start: int,
    pod: Pod,
    listed0: Seq<Seq<char>>,
    listed_now: Seq<Seq<char>>,
)
    requires
        exploring(
            adj,
            names,
            visited0,
            visited,
            pod_of,
            pod_now,
            c,
            queue,
            head0,
            start,
            pod,
            listed0,
            listed_now,
        ),
        head0 < queue.len(),
        visited[queue[head0] as int],
    ensures
        exploring(
            adj,
            names,
            visited0,
            visited,
            pod_of,
            pod_now,
            c,
            queue,
            head0 + 1,
            start,
            pod,
            listed0,
            listed_now,
        ),
{
    assert forall|u: int, w: int|
        0 <= u < adj.len() && visited[u] && !visited0[u] && #[trigger] listed(
            adj,
            u,
            w,
        ) implies visited[w] || pending(queue, head0 + 1, w) by {
        let x = choose|x: int| 0 <= x < adj[u].len() && #[trigger] adj[u][x] == w;
        assert(adj[u][x] < adj.len());
        if !visited[w] {
            let q = choose|q: int| head0 <= q < queue.len() && #[trigger] queue[q] == w;
            assert(q != head0);
        }
    }
    if !visited[start] {
        let q = choose|q: int| head0 <= q < queue.len() && #[trigger] queue[q] == start;
        assert(q != head0);
    }
}

/// Once the queue is worked off, the visited nodes are closed under the
/// links.
proof fn lemma_explored(
    adj: Seq<Vec<usize>>,
    names: Seq<Seq<char>>,
    visited0: Seq<bool>,
    visited: Seq<bool>,
    pod_of: Seq<int>,
    pod_now: Seq<int>,
    c: int,
    queue: Seq<usize>,
    start: int,
    pod: Pod,
    listed0: Seq<Seq<char>>,
    listed_now: Seq<Seq<char>>,
)
    requires
        exploring(
            adj,
            names,
            visited0,
            visited,
            pod_of,
            pod_now,
            c,
            queue,
            queue.len() as int,
            start,
            pod,
            listed0,
            listed_now,
        ),
        closed_pods(adj, visited0, pod_of),
        forall|u: int, w: int| #[trigger] listed(adj, u, w) ==> listed(adj, w, u),
        forall|i: int| 0 <= i < adj.len() && visited0[i] ==> #[trigger] pod_of[i] != c,
    ensures
        closed_pods(adj, visited, pod_now),
        visited[start],
{
    assert forall|u: int, w: int|
        0 <= u < visited.len() && visited[u] && #[trigger] listed(adj, u, w) implies visited[w]
        && pod_now[w] == pod_now[u] by {
        let x = choose|x: int| 0 <= x < adj[u].len() && #[trigger] adj[u][x] == w;
        assert(adj[u][x] < adj.len());
        if visited0[u] {
            assert(visited0[w] && pod_of[w] == pod_of[u]);
        } else {
            assert(visited[w] || pending(queue, queue.len() as int, w));
            assert(visited[w]);
            if visited0[w] {
                assert(listed(adj, w, u));
                assert(visited0[u]);
            }
        }
    }
}

/// Explores the pod of `start`: every node that can be reached from it
/// joins the pod, in its layer, and is listed among the pod devices.
fn explore_pod(
    names: &NameMap<usize>,
    adj: &Vec<Vec<usize>>,
    start: usize,
    visited: &mut Vec<bool>,
    pod: &mut Pod,
    pod_device_names: &mut Vec<String>,
    Ghost(pod_of): Ghost<Seq<int>>,
    Ghost(c): Ghost<int>,
    Ghost(topologies): Ghost<Seq<Topology>>,
) -> (r: Ghost<Seq<int>>)
    requires
        pod_graph(topologies, topologies.len() as int, *names, adj@),
        old(visited).len() == adj.len(),
        pod_of.len() == adj.len(),
        start < adj.len(),
        !old(visited)[start as int],
        old(pod).wf(),
        old(pod).s1().len() == 0,
        old(pod).s0().len() == 0,
        texts(old(pod_device_names)@).no_duplicates(),
        closed_pods(adj@, old(visited)@, pod_of),
        forall|i: int| 0 <= i < adj.len() && old(visited)[i] ==> #[trigger] pod_of[i] != c,
    ensures
        final(visited).len() == old(visited).len(),
        r@.len() == pod_of.len(),
        forall|i: int|
            0 <= i < adj.len() && old(visited)[i] ==> #[trigger] final(visited)[i] && r@[i]
                == pod_of[i],
        forall|i: int|
            0 <= i < adj.len() && #[trigger] final(visited)[i] && !old(visited)[i] ==> r@[i] == c,
        final(visited)[start as int],
        closed_pods(adj@, final(visited)@, r@),
        final(pod).wf(),
        final(pod).pod_id == old(pod).pod_id,
        final(pod).interfaces == old(pod).interfaces,
        final(pod).has_dst_device == old(pod).has_dst_device,
        pod_holds(*final(pod), names.names(), final(visited)@, r@, c),
        layered(*final(pod)),
        texts(final(pod_device_names)@).no_duplicates(),
        forall|x: Seq<char>| #[trigger]
            has_text(texts(final(pod_device_names)@), x) <==> has_text(
                texts(old(pod_device_names)@),
                x,
            ) || final(pod).has_device(x),
        forall|i: int|
            0 <= i < adj.len() && #[trigger] final(visited)[i] && !old(visited)[i] ==> tied(
                adj@,
                start as int,
                i,
            ),
{
    let ghost n = adj.len() as int;
    let ghost node_names = names.names();
    let ghost visited0 = visited@;
    let ghost listed0 = texts(pod_device_names@);
    let ghost mut pod_now = pod_of;
    let mut queue: Vec<usize> = Vec::new();
    queue.push(start);
    let mut head: usize = 0;
    proof {
        assert(queue[0] == start);
        assert(pod_holds(*pod, node_names, visited@, pod_now, c)) by {
            assert forall|x: Seq<char>|
                pod.has_device(x) <==> exists|i: int| #[trigger]
                    placed(visited@, pod_now, i, c) && node_names[i] == x by {
            }
        }
    }
    while head < queue.len()
        invariant
            n == adj.len(),
            visited0 == old(visited)@,
            listed0 == texts(old(pod_device_names)@),
            node_names == names.names(),
            pod_graph(topologies, topologies.len() as int, *names, adj@),
            exploring(
                adj@,
                node_names,
                visited0,
                visited@,
                pod_of,
                pod_now,
                c,
                queue@,
                head as int,
                start as int,
                *pod,
                listed0,
                texts(pod_device_names@),
            ),
            pod.wf(),
            pod.pod_id == old(pod).pod_id,
            pod.interfaces == old(pod).interfaces,
            pod.has_dst_device == old(pod).has_dst_device,
            layered(*pod),
            texts(pod_device_names@).no_duplicates(),
            hanging(adj@, visited0, visited@, queue@, head as int, start as int),
        decreases open_weight(adj@, visited@, n) + queue.len() - head,
    {
        let cur = queue[head];
        let ghost head0 = head as int;
        let ghost queue0 = queue@;
        let ghost visited1 = visited@;
        let ghost pod1 = *pod;
        let ghost pod_now1 = pod_now;
        let ghost listed1 = texts(pod_device_names@);
        head += 1;
        if !visited[cur] {
            visited.set(cur, true);
            proof {
                pod_now = pod_now.update(cur as int, c);
                lemma_open_weight(adj@, visited1, cur as int, n);
                assert(visited@ =~= visited1.update(cur as int, true));
                names.lemma_lookup_at(cur as int);
            }
            let name = names.name_at(cur);
            proof {
                assert(node_names.contains(name@));
                let j = choose|j: int| #[trigger]
                    pod_end(topologies, name@, j) && j < topologies.len();
                assert(pod_end(topologies, name@, j));
            }
            place_device(pod, pod_device_names, name);
            push_neighbors(&adj[cur], visited, &mut queue, Ghost(head as int));
            proof {
                lemma_hang_visit(
                    adj@,
                    visited0,
                    visited1,
                    visited@,
                    queue0,
                    queue@,
                    head0,
                    start as int,
                );
                lemma_visit_step(
                    adj@,
                    node_names,
                    visited0,
                    visited1,
                    visited@,
                    pod_of,
                    pod_now1,
                    pod_now,
                    c,
                    queue0,
                    queue@,
                    head0,
                    start as int,
                    pod1,
                    *pod,
                    listed0,
                    listed1,
                    texts(pod_device_names@),
                );
            }
        } else {
            proof {
                lemma_skip_step(
                    adj@,
                    node_names,
                    visited0,
                    visited@,
                    pod_of,
                    pod_now,
                    c,
                    queue@,
                    head0,
                    start as int,
                    *pod,
                    listed0,
                    texts(pod_device_names@),
                );
            }
        }
    }
    proof {
        lemma_explored(
            adj@,
            node_names,
            visited0,
            visited@,
            pod_of,
            pod_now,
            c,
            queue@,
            start as int,
            *pod,
            listed0,
            texts(pod_device_names@),
        );
    }
    Ghost(pod_now)
}

/// Whether node `i` is visited and has the given name.
pub open spec fn seen_at(names: Seq<Seq<char>>, visited: Seq<bool>, x: Seq<char>, i: int) -> bool {
    0 <= i < visited.len() && visited[i] && names[i] == x
}

/// Whether a visited node has the given name.
pub open spec fn seen_name(names: Seq<Seq<char>>, visited: Seq<bool>, x: Seq<char>) -> bool {
    exists|i: int| #[trigger] seen_at(names, visited, x, i)
}

/// The number of the pod at position `c`: pods are numbered from one; a
/// pod beyond the largest number keeps the largest number.
pub open spec fn pod_number(c: int) -> i32 {
    if c + 1 <= i32::MAX {
        (c + 1) as i32
    } else {
        i32::MAX
    }
}

/// What holds of the pods found so far: the nodes before `k` are visited,
/// the visited nodes are closed under the links, every visited node is in
/// one of the pods, and every pod holds exactly its nodes, in their layers.
pub open spec fn pods_found(
    adj: Seq<Vec<usize>>,
    names: Seq<Seq<char>>,
    visited: Seq<bool>,
    pod_of: Seq<int>,
    pods: Seq<Pod>,
    k: int,
) -> bool {
    &&& visited.len() == adj.len()
    &&& pod_of.len() == adj.len()
    &&& names.len() == adj.len()
    &&& names.no_duplicates()
    &&& 0 <= k <= adj.len()
    &&& forall|i: int| 0 <= i < k ==> #[trigger] visited[i]
    &&& closed_pods(adj, visited, pod_of)
    &&& forall|i: int| 0 <= i < adj.len() && visited[i] ==> 0 <= #[trigger] pod_of[i] < pods.len()
    &&& forall|c: int|
        0 <= c < pods.len() ==> pod_holds(#[trigger] pods[c], names, visited, pod_of, c) && layered(
            pods[c],
        ) && pods[c].wf() && pods[c].pod_id == pod_number(c) && pods[c].interfaces@.len() == 0
            && pods[c].has_device(names[first_of(pod_of, visited, c)]) && placed(
            visited,
            pod_of,
            first_of(pod_of, visited, c),
            c,
        )
}

/// A node of pod `c`.
pub open spec fn first_of(pod_of: Seq<int>, visited: Seq<bool>, c: int) -> int {
    choose|i: int| placed(visited, pod_of, i, c)
}

/// Exploring one more pod keeps the pods found so far in order.
proof fn lemma_pod_added(
    adj: Seq<Vec<usize>>,
    names: Seq<Seq<char>>,
    visited0: Seq<bool>,
    visited1: Seq<bool>,
    pod_of0: Seq<int>,
    pod_of1: Seq<int>,
    pods0: Seq<Pod>,
    pod: Pod,
    k: int,
)
    requires
        pods_found(adj, names, visited0, pod_of0, pods0, k),
        k < adj.len(),
        !visited0[k],
        visited1.len() == visited0.len(),
        pod_of1.len() == pod_of0.len(),
        forall|i: int|
            0 <= i < adj.len() && visited0[i] ==> #[trigger] visited1[i] && pod_of1[i] == pod_of0[i],
        forall|i: int|
            0 <= i < adj.len() && #[trigger] visited1[i] && !visited0[i] ==> pod_of1[i]
                == pods0.len(),
        visited1[k],
        closed_pods(adj, visited1, pod_of1),
        pod.wf(),
        pod.pod_id == pod_number(pods0.len() as int),
        pod.interfaces@.len() == 0,
        pod_holds(pod, names, visited1, pod_of1, pods0.len() as int),
        layered(pod),
    ensures
        pods_found(adj, names, visited1, pod_of1, pods0.push(pod), k + 1),
{
    let pods1 = pods0.push(pod);
    let c_new = pods0.len() as int;
    assert forall|c: int| 0 <= c < pods1.len() implies pod_holds(
        #[trigger] pods1[c],
        names,
        visited1,
        pod_of1,
        c,
    ) && layered(pods1[c]) && pods1[c].wf() && pods1[c].pod_id == pod_number(c)
        && pods1[c].interfaces@.len() == 0 && pods1[c].has_device(
        names[first_of(pod_of1, visited1, c)],
    ) && placed(visited1, pod_of1, first_of(pod_of1, visited1, c), c) by {
        if c < c_new {
            assert(pods1[c] == pods0[c]);
            assert(pod_holds(pods0[c], names, visited0, pod_of0, c));
            assert forall|x: Seq<char>|
                pods0[c].has_device(x) <==> exists|i: int| #[trigger]
                    placed(visited1, pod_of1, i, c) && names[i] == x by {
                if pods0[c].has_device(x) {
                    let i = choose|i: int| #[trigger] placed(visited0, pod_of0, i, c) && names[i] == x;
                    assert(placed(visited1, pod_of1, i, c) && names[i] == x);
                }
                if exists|i: int| #[trigger] placed(visited1, pod_of1, i, c) && names[i] == x {
                    let i = choose|i: int| #[trigger] placed(visited1, pod_of1, i, c) && names[i] == x;
                    assert(visited0[i]);
                    assert(placed(visited0, pod_of0, i, c) && names[i] == x);
                }
            }
            let f0 = first_of(pod_of0, visited0, c);
            assert(placed(visited1, pod_of1, f0, c));
            let f1 = first_of(pod_of1, visited1, c);
            assert(placed(visited1, pod_of1, f1, c));
            assert(pods0[c].has_device(names[f1]));
        } else {
            assert(pods1[c] == pod);
            assert(placed(visited1, pod_of1, k, c));
            let f1 = first_of(pod_of1, visited1, c);
            assert(placed(visited1, pod_of1, f1, c));
            assert(pod.has_device(names[f1]));
        }
    }
    assert forall|i: int| 0 <= i < k + 1 implies #[trigger] visited1[i] by {
        if i < k {
            assert(visited0[i]);
        }
    }
}

/// What the pods are of the links: every end of a link that joins a pod is
/// in exactly one pod, the two ends of such a link are in one pod, and a
/// pod holds nothing else. That the devices of a pod hang together by such
/// links is said by `pods_tight`.
pub open spec fn pods_of(topologies: Seq<Topology>, pods: Seq<Pod>) -> bool {
    &&& forall|c: int|
        0 <= c < pods.len() ==> (#[trigger] pods[c]).wf() && layered(pods[c]) && pods[c].pod_id
            == pod_number(c) && exists|x: Seq<char>| #[trigger] pods[c].has_device(x)
    &&& forall|x: Seq<char>|
        pod_node(topologies, x) <==> exists|c: int|
            0 <= c < pods.len() && #[trigger] pods[c].has_device(x)
    &&& forall|a: int, b: int, x: Seq<char>|
        0 <= a < b < pods.len() ==> !(#[trigger] pods[a].has_device(x) && #[trigger] pods[b].has_device(
            x,
        ))
    &&& forall|k: int|
        0 <= k < topologies.len() && joins_pod(#[trigger] topologies[k]) ==> exists|c: int|
            0 <= c < pods.len() && #[trigger] pods[c].has_device(topologies[k].src_node@)
                && pods[c].has_device(topologies[k].dst_node@)
}

/// When every node is visited, the pods found are the pods of the links.
proof fn lemma_pods_done(
    topologies: Seq<Topology>,
    names: NameMap<usize>,
    adj: Seq<Vec<usize>>,
    visited: Seq<bool>,
    pod_of: Seq<int>,
    pods: Seq<Pod>,
)
    requires
        pod_graph(topologies, topologies.len() as int, names, adj),
        pods_found(adj, names.names(), visited, pod_of, pods, adj.len() as int),
    ensures
        pods_of(topologies, pods),
{
    let nn = names.names();
    assert forall|c: int| 0 <= c < pods.len() implies (#[trigger] pods[c]).wf() && layered(pods[c])
        && pods[c].pod_id == pod_number(c) && exists|x: Seq<char>| #[trigger]
        pods[c].has_device(x) by {
        assert(pods[c].has_device(nn[first_of(pod_of, visited, c)]));
    }
    assert forall|x: Seq<char>|
        pod_node(topologies, x) <==> exists|c: int|
            0 <= c < pods.len() && #[trigger] pods[c].has_device(x) by {
        if pod_node(topologies, x) {
            let j = choose|j: int| #[trigger] pod_end(topologies, x, j);
            assert(pod_end(topologies, x, j) && j < topologies.len());
            assert(nn.contains(x));
            let i = nn.index_of(x);
            assert(nn[i] == x);
            assert(visited[i]);
            let c = pod_of[i];
            assert(placed(visited, pod_of, i, c) && nn[i] == x);
            assert(pod_holds(pods[c], nn, visited, pod_of, c));
            assert(pods[c].has_device(x));
        }
        if exists|c: int| 0 <= c < pods.len() && #[trigger] pods[c].has_device(x) {
            let c = choose|c: int| 0 <= c < pods.len() && #[trigger] pods[c].has_device(x);
            assert(pod_holds(pods[c], nn, visited, pod_of, c));
            let i = choose|i: int| #[trigger] placed(visited, pod_of, i, c) && nn[i] == x;
            assert(nn.contains(x));
            let j = choose|j: int| #[trigger] pod_end(topologies, x, j) && j < topologies.len();
            assert(pod_end(topologies, x, j));
        }
    }
    assert forall|a: int, b: int, x: Seq<char>| 0 <= a < b < pods.len() implies !(
    #[trigger] pods[a].has_device(x) && #[trigger] pods[b].has_device(x)) by {
        if pods[a].has_device(x) && pods[b].has_device(x) {
            assert(pod_holds(pods[a], nn, visited, pod_of, a));
            assert(pod_holds(pods[b], nn, visited, pod_of, b));
            let i = choose|i: int| #[trigger] placed(visited, pod_of, i, a) && nn[i] == x;
            let j = choose|j: int| #[trigger] placed(visited, pod_of, j, b) && nn[j] == x;
            assert(i == j);
        }
    }
    assert forall|k: int|
        0 <= k < topologies.len() && joins_pod(#[trigger] topologies[k]) implies exists|c: int|
        0 <= c < pods.len() && #[trigger] pods[c].has_device(topologies[k].src_node@)
            && pods[c].has_device(topologies[k].dst_node@) by {
        let d = topologies[k].dst_node@;
        let sname = topologies[k].src_node@;
        let di = nn.index_of(d);
        let si = nn.index_of(sname);
        assert(nn[di] == d && nn[si] == sname);
        assert(listed(adj, di, si));
        assert(visited[di]);
        let c = pod_of[di];
        assert(pod_of[si] == c);
        assert(placed(visited, pod_of, di, c) && nn[di] == d);
        assert(placed(visited, pod_of, si, c) && nn[si] == sname);
        assert(pod_holds(pods[c], nn, visited, pod_of, c));
        assert(pods[c].has_device(sname) && pods[c].has_device(d));
    }
}

impl Network {
    /// The pods, in the order in which they were found.
    pub closed spec fn pods(&self) -> Seq<Pod> {
        self.pods@
    }

    /// The names of the devices that belong to a pod.
    pub closed spec fn pod_device_names(&self) -> Seq<Seq<char>> {
        texts(self.pod_device_names@)
    }

    /// Whether no pod device is listed twice.
    pub closed spec fn pods_listed(&self) -> bool {
        texts(self.pod_device_names@).no_duplicates()
    }

    pub fn get_pods(&self) -> (r: &Vec<Pod>)
        ensures
            r@ == self.pods(),
    {
        &self.pods
    }

    pub fn get_pod_device_names(&self) -> (r: &Vec<String>)
        ensures
            texts(r@) == self.pod_device_names(),
    {
        &self.pod_device_names
    }

    /// Finds the pods of a fat tree: the groups of devices that hang
    /// together by links between a lower-layer device, with `S0` in its
    /// name, and an upper-layer device, with `S1` in its name. The pods are
    /// numbered from one in the order in which their first devices appear
    /// among the links, and their devices are listed among the pod devices.
    pub fn find_pods(&mut self, topologies: &Vec<Topology>) -> (pod_map: Vec<Pod>)
        requires
            old(self).pods_listed(),
        ensures
            pods_of(topologies@, pod_map@),
            pods_tight(topologies@, pod_map@),
            forall|c: int| 0 <= c < pod_map.len() ==> (#[trigger] pod_map[c]).interfaces@.len() == 0,
            final(self).pods_listed(),
            forall|x: Seq<char>| #[trigger]
                has_text(final(self).pod_device_names(), x) <==> has_text(
                    old(self).pod_device_names(),
                    x,
                ) || pod_node(topologies@, x),
            final(self).wf() == old(self).wf(),
            final(self).device_names() == old(self).device_names(),
            forall|i: int| final(self).ports_at(i) == old(self).ports_at(i),
            final(self).links() == old(self).links(),
            final(self).pods() == old(self).pods(),
    {
        let (names, adj) = build_pod_graph(topologies);
        let ghost nn = names.names();
        let ghost listed0 = texts(self.pod_device_names@);
        let mut visited: Vec<bool> = Vec::new();
        let mut k: usize = 0;
        while k < adj.len()
            invariant
                k <= adj.len(),
                visited.len() == k,
                forall|j: int| 0 <= j < k ==> !#[trigger] visited[j],
            decreases adj.len() - k,
        {
            visited.push(false);
            k += 1;
        }
        let ghost mut pod_of: Seq<int> = Seq::new(adj.len() as nat, |i: int| -1int);
        let ghost mut starts: Seq<int> = Seq::empty();
        let mut pod_map: Vec<Pod> = Vec::new();
        let mut pod_id: i32 = 0;
        let mut node: usize = 0;
        proof {
            assert(closed_pods(adj@, visited@, pod_of));
        }
        while node < adj.len()
            invariant
                node <= adj.len(),
                nn == names.names(),
                pod_graph(topologies@, topologies.len() as int, names, adj@),
                pods_found(adj@, nn, visited@, pod_of, pod_map@, node as int),
                graph_sound(topologies@, nn, adj@),
                nn.len() == adj.len(),
                visited.len() == adj.len(),
                pod_of.len() == adj.len(),
                starts.len() == pod_map.len(),
                forall|c: int| 0 <= c < starts.len() ==> 0 <= #[trigger] starts[c] < adj.len(),
                forall|i: int|
                    0 <= i < adj.len() && #[trigger] visited[i] ==> 0 <= pod_of[i] < starts.len()
                        && tied(adj@, starts[pod_of[i]], i),
                pod_id == if pod_map.len() <= i32::MAX {
                    pod_map.len() as i32
                } else {
                    i32::MAX
                },
                texts(self.pod_device_names@).no_duplicates(),
                forall|x: Seq<char>| #[trigger]
                    has_text(texts(self.pod_device_names@), x) <==> has_text(listed0, x) || seen_name(
                        nn,
                        visited@,
                        x,
                    ),
                self.devices == old(self).devices,
                self.device_ports == old(self).device_ports,
                self.topology == old(self).topology,
                self.pods == old(self).pods,
            decreases adj.len() - node,
        {
            if !visited[node] {
                if pod_id < i32::MAX {
                    pod_id = pod_id + 1;
                }
                let mut pod = Pod::new(pod_id);
                let ghost visited0 = visited@;
                let ghost pod_of0 = pod_of;
                let ghost listed1 = texts(self.pod_device_names@);
                let ghost c = pod_map.len() as int;
                let placed_now = explore_pod(
                    &names,
                    &adj,
                    node,
                    &mut visited,
                    &mut pod,
                    &mut self.pod_device_names,
                    Ghost(pod_of),
                    Ghost(c),
                    Ghost(topologies@),
                );
                let ghost listed2 = texts(self.pod_device_names@);
                proof {
                    pod_of = placed_now@;
                    let before = starts;
                    starts = starts.push(node as int);
                    assert forall|i: int| 0 <= i < adj.len() && #[trigger] visited[i] implies 0
                        <= pod_of[i] < starts.len() && tied(adj@, starts[pod_of[i]], i) by {
                        if visited0[i] {
                            assert(pod_of[i] == pod_of0[i]);
                            assert(starts[pod_of[i]] == before[pod_of0[i]]);
                        } else {
                            assert(pod_of[i] == c);
                        }
                    }
                    lemma_pod_added(
                        adj@,
                        nn,
                        visited0,
                        visited@,
                        pod_of0,
                        pod_of,
                        pod_map@,
                        pod,
                        node as int,
                    );
                    assert forall|x: Seq<char>| #[trigger]
                        has_text(listed2, x) <==> has_text(listed0, x) || seen_name(
                            nn,
                            visited@,
                            x,
                        ) by {
                        assert(has_text(listed2, x) <==> has_text(listed1, x) || pod.has_device(x));
                        assert(has_text(listed1, x) <==> has_text(listed0, x) || seen_name(
                            nn,
                            visited0,
                            x,
                        ));
                        if pod.has_device(x) {
                            let i = choose|i: int| #[trigger] placed(visited@, pod_of, i, c) && nn[i] == x;
                            assert(seen_at(nn, visited@, x, i));
                        }
                        if seen_name(nn, visited0, x) {
                            let i = choose|i: int| #[trigger] seen_at(nn, visited0, x, i);
                            assert(seen_at(nn, visited@, x, i));
                        }
                        if seen_name(nn, visited@, x) {
                            let i = choose|i: int| #[trigger] seen_at(nn, visited@, x, i);
                            if visited0[i] {
                                assert(seen_at(nn, visited0, x, i));
                            } else {
                                assert(placed(visited@, pod_of, i, c) && nn[i] == x);
                                assert(pod.has_device(x));
                            }
                        }
                    }
                }
                pod_map.push(pod);
            } else {
                proof {
                    assert forall|i: int| 0 <= i < node + 1 implies #[trigger] visited[i] by {
                    }
                }
            }
            node += 1;
        }
        proof {
            lemma_pods_done(topologies@, names, adj@, visited@, pod_of, pod_map@);
            assert forall|x: Seq<char>| #[trigger]
                has_text(texts(self.pod_device_names@), x) <==> has_text(listed0, x) || pod_node(
                    topologies@,
                    x,
                ) by {
                assert(has_text(texts(self.pod_device_names@), x) <==> has_text(listed0, x)
                    || seen_name(nn, visited@, x));
                if seen_name(nn, visited@, x) {
                    let i = choose|i: int| #[trigger] seen_at(nn, visited@, x, i);
                    assert(nn.contains(x));
                    let j = choose|j: int| #[trigger]
                        pod_end(topologies@, x, j) && j < topologies.len();
                    assert(pod_end(topologies@, x, j));
                }
                if pod_node(topologies@, x) {
                    let j = choose|j: int| #[trigger] pod_end(topologies@, x, j);
                    assert(pod_end(topologies@, x, j) && j < topologies.len());
                    assert(nn.contains(x));
                    let i = nn.index_of(x);
                    assert(nn[i] == x);
                    assert(seen_at(nn, visited@, x, i));
                }
            }
            assert forall|c: int| 0 <= c < pod_map.len() implies (
            #[trigger] pod_map[c]).interfaces@.len() == 0 by {
                assert(pod_holds(pod_map@[c], nn, visited@, pod_of, c));
            }
            assert forall|c: int, s: Set<Seq<char>>, x: Seq<char>, y: Seq<char>|
                0 <= c < pod_map.len() && #[trigger] pod_closed(topologies@, s) && #[trigger] pod_map@[c].has_device(
                    x,
                ) && #[trigger] pod_map@[c].has_device(y) && s.contains(x) implies s.contains(
                y,
            ) by {
                assert(pod_holds(pod_map@[c], nn, visited@, pod_of, c));
                let i = choose|i: int| #[trigger] placed(visited@, pod_of, i, c) && nn[i] == x;
                let j = choose|j: int| #[trigger] placed(visited@, pod_of, j, c) && nn[j] == y;
                assert(visited[i] && visited[j]);
                lemma_tight(topologies@, nn, adj@, starts[c], i, j, s);
            }
        }
        pod_map
    }
}

/// Whether the pod's interfaces are the ports of its devices whose links
/// leave the pod.
pub open spec fn interfaces_set(network: Network, pod: Pod) -> bool {
    forall|key: (Seq<char>, Seq<char>)| #[trigger]
        port_keys(pod.interfaces@).contains(key) <==> crate::util::pod::is_interface(
            network,
            pod.devices(),
            pod.devices(),
            key,
        )
}

/// Whether `after` are the pods `before` with their interfaces set.
pub open spec fn with_interfaces(network: Network, before: Seq<Pod>, after: Seq<Pod>) -> bool {
    &&& after.len() == before.len()
    &&& forall|c: int|
        0 <= c < before.len() ==> (#[trigger] after[c]).s1() == before[c].s1() && after[c].s0()
            == before[c].s0() && after[c].pod_id == before[c].pod_id && after[c].wf()
            && interfaces_set(network, after[c])
}

impl Network {
    /// Takes up the links of a topology: every link is recorded, the pods
    /// of the links are found, and every pod gets its interfaces.
    pub fn read_topology(&mut self, topologies: &Vec<Topology>)
        requires
            old(self).wf(),
            old(self).closed(),
            old(self).pods_listed(),
        ensures
            final(self).wf(),
            final(self).closed(),
            final(self).pods_listed(),
            link_pairs(final(self).links()) == links_read(
                link_pairs(old(self).links()),
                topologies@,
                topologies.len() as int,
            ),
            forall|d: Seq<char>| #[trigger]
                port_views(final(self).ports_of(d)) == ports_read(
                    port_views(old(self).ports_of(d)),
                    d,
                    topologies@,
                    topologies.len() as int,
                ),
            forall|d: Seq<char>|
                final(self).device_names().contains(d) <==> old(self).device_names().contains(d)
                    || exists|k: int| #[trigger] link_end(topologies@, d, k),
            forall|x: Seq<char>| #[trigger]
                has_text(final(self).pod_device_names(), x) <==> has_text(
                    old(self).pod_device_names(),
                    x,
                ) || pod_node(topologies@, x),
            exists|found: Seq<Pod>|
                #![trigger pods_of(topologies@, found)]
                pods_of(topologies@, found) && pods_tight(topologies@, found) && with_interfaces(
                    *final(self),
                    found,
                    final(self).pods(),
                ),
    {
        let mut k: usize = 0;
        while k < topologies.len()
            invariant
                k <= topologies.len(),
                self.wf(),
                self.closed(),
                self.pods() == old(self).pods(),
                self.pod_device_names() == old(self).pod_device_names(),
                self.pods_listed(),
                link_pairs(self.links()) == links_read(
                    link_pairs(old(self).links()),
                    topologies@,
                    k as int,
                ),
                forall|d: Seq<char>| #[trigger]
                    port_views(self.ports_of(d)) == ports_read(
                        port_views(old(self).ports_of(d)),
                        d,
                        topologies@,
                        k as int,
                    ),
                forall|d: Seq<char>|
                    self.device_names().contains(d) <==> old(self).device_names().contains(d)
                        || exists|x: int| #[trigger] link_end(topologies@, d, x) && x < k,
            decreases topologies.len() - k,
        {
            let topology = &topologies[k];
            let ghost before = *self;
            self.add_topology(
                topology.src_node.as_str(),
                topology.src_port.as_str(),
                topology.dst_node.as_str(),
                topology.dst_port.as_str(),
            );
            proof {
                assert forall|d: Seq<char>|
                    self.device_names().contains(d) <==> old(self).device_names().contains(d)
                        || exists|x: int| #[trigger] link_end(topologies@, d, x) && x < k + 1 by {
                    assert(before.device_names().contains(d) <==> old(self).device_names().contains(
                        d,
                    ) || exists|x: int| #[trigger] link_end(topologies@, d, x) && x < k);
                    if self.device_names().contains(d) && !before.device_names().contains(d) {
                        assert(link_end(topologies@, d, k as int) && k < k + 1);
                    }
                    if exists|x: int| #[trigger] link_end(topologies@, d, x) && x < k {
                        let x = choose|x: int| #[trigger] link_end(topologies@, d, x) && x < k;
                        assert(link_end(topologies@, d, x) && x < k + 1);
                    }
                    if exists|x: int| #[trigger] link_end(topologies@, d, x) && x < k + 1 {
                        let x = choose|x: int| #[trigger] link_end(topologies@, d, x) && x < k + 1;
                        if x < k {
                            assert(link_end(topologies@, d, x) && x < k);
                        }
                    }
                }
            }
            k += 1;
        }
        let ghost linked = *self;
        let mut pods = self.find_pods(topologies);
        let ghost found = pods@;
        proof {
            assert(self.closed()) by {
                assert forall|d: Seq<char>, x: int| 0 <= x < self.ports_of(d).len() implies self.device_names().contains(
                    (#[trigger] self.ports_of(d)[x]).peer().unwrap().0,
                ) by {
                    assert(self.ports_of(d) == linked.ports_of(d));
                    assert(linked.device_names().contains(
                        linked.ports_of(d)[x].peer().unwrap().0,
                    ));
                }
            }
            assert forall|d: Seq<char>|
                self.device_names().contains(d) <==> old(self).device_names().contains(d)
                    || exists|x: int| #[trigger] link_end(topologies@, d, x) by {
                assert(linked.device_names().contains(d) <==> old(self).device_names().contains(d)
                    || exists|x: int| #[trigger] link_end(topologies@, d, x) && x < k);
                if exists|x: int| #[trigger] link_end(topologies@, d, x) {
                    let x = choose|x: int| #[trigger] link_end(topologies@, d, x);
                    assert(link_end(topologies@, d, x) && x < k);
                }
                if exists|x: int| #[trigger] link_end(topologies@, d, x) && x < k {
                    let x = choose|x: int| #[trigger] link_end(topologies@, d, x) && x < k;
                    assert(link_end(topologies@, d, x));
                }
            }
        }
        let ghost found_net = *self;
        let mut c: usize = 0;
        while c < pods.len()
            invariant
                c <= pods.len(),
                pods.len() == found.len(),
                *self == found_net,
                found_net.closed(),
                found_net.pods_listed(),
                found_net.links() == linked.links(),
                forall|d: Seq<char>| #[trigger] found_net.ports_of(d) == linked.ports_of(d),
                forall|d: Seq<char>| found_net.device_names().contains(d) <==> linked.device_names().contains(d),
                forall|x: Seq<char>| #[trigger]
                    has_text(found_net.pod_device_names(), x) <==> has_text(
                        old(self).pod_device_names(),
                        x,
                    ) || pod_node(topologies@, x),
                self.wf(),
                forall|j: int| 0 <= j < found.len() ==> (#[trigger] found[j]).wf() && found[j].interfaces@.len() == 0,
                forall|j: int| c <= j < pods.len() ==> #[trigger] pods[j] == found[j],
                forall|j: int|
                    0 <= j < c ==> (#[trigger] pods[j]).s1() == found[j].s1() && pods[j].s0()
                        == found[j].s0() && pods[j].pod_id == found[j].pod_id && pods[j].wf()
                        && interfaces_set(*self, pods[j]),
            decreases pods.len() - c,
        {
            let ghost before = pods@;
            pods[c].set_interfaces(self);
            proof {
                assert(forall|j: int| 0 <= j < pods.len() && j != c ==> pods[j] == before[j]);
                assert(port_keys(found[c as int].interfaces@) =~= Seq::<(Seq<char>, Seq<char>)>::empty());
                assert(interfaces_set(*self, pods[c as int])) by {
                    assert forall|key: (Seq<char>, Seq<char>)| #[trigger]
                        port_keys(pods[c as int].interfaces@).contains(key)
                            <==> crate::util::pod::is_interface(
                            *self,
                            pods[c as int].devices(),
                            pods[c as int].devices(),
                            key,
                        ) by {
                        assert(!port_keys(found[c as int].interfaces@).contains(key));
                    }
                }
            }
            c += 1;
        }
        let ghost net = *self;
        self.pods = pods;
        proof {
            assert(self.links() == linked.links());
            assert forall|d: Seq<char>| #[trigger]
                port_views(self.ports_of(d)) == ports_read(
                    port_views(old(self).ports_of(d)),
                    d,
                    topologies@,
                    topologies.len() as int,
                ) by {
                assert(self.ports_of(d) == net.ports_of(d));
                assert(net.ports_of(d) == linked.ports_of(d));
                assert(port_views(linked.ports_of(d)) == ports_read(
                    port_views(old(self).ports_of(d)),
                    d,
                    topologies@,
                    topologies.len() as int,
                ));
            }
            assert(self.closed()) by {
                assert forall|d: Seq<char>, x: int| 0 <= x < self.ports_of(d).len() implies self.device_names().contains(
                    (#[trigger] self.ports_of(d)[x]).peer().unwrap().0,
                ) by {
                    assert(self.ports_of(d) == net.ports_of(d));
                    assert(net.device_names().contains(net.ports_of(d)[x].peer().unwrap().0));
                }
            }
            assert forall|x: Seq<char>| #[trigger]
                has_text(self.pod_device_names(), x) <==> has_text(old(self).pod_device_names(), x)
                    || pod_node(topologies@, x) by {
                assert(has_text(net.pod_device_names(), x) <==> has_text(
                    old(self).pod_device_names(),
                    x,
                ) || pod_node(topologies@, x));
            }
            assert forall|j: int| 0 <= j < found.len() implies interfaces_set(
                *self,
                #[trigger] self.pods@[j],
            ) by {
                assert(interfaces_set(net, self.pods@[j]));
                assert forall|key: (Seq<char>, Seq<char>)|
                    crate::util::pod::is_interface(
                        *self,
                        self.pods@[j].devices(),
                        self.pods@[j].devices(),
                        key,
                    ) <==> crate::util::pod::is_interface(
                        net,
                        self.pods@[j].devices(),
                        self.pods@[j].devices(),
                        key,
                    ) by {
                    lemma_same_interfaces(
                        net,
                        *self,
                        self.pods@[j].devices(),
                        self.pods@[j].devices(),
                        key,
                    );
                }
            }
            assert(with_interfaces(*self, found, self.pods()));
        }
    }
}

/// Two networks with the same ports have the same interfaces.
proof fn lemma_same_interfaces(
    a: Network,
    b: Network,
    s1: Seq<Seq<char>>,
    s0: Seq<Seq<char>>,
    key: (Seq<char>, Seq<char>),
)
    requires
        forall|d: Seq<char>| a.ports_of(d) == b.ports_of(d),
    ensures
        crate::util::pod::is_interface(a, s1, s0, key) <==> crate::util::pod::is_interface(
            b,
            s1,
            s0,
            key,
        ),
{
    if crate::util::pod::is_interface(a, s1, s0, key) {
        let (x, y) = choose|x: int, y: int| #[trigger]
            crate::util::pod::interface_at(a, s1, s0, key, x, y);
        assert(a.ports_of(s1[x]) == b.ports_of(s1[x]));
        assert(crate::util::pod::interface_at(b, s1, s0, key, x, y));
    }
    if crate::util::pod::is_interface(b, s1, s0, key) {
        let (x, y) = choose|x: int, y: int| #[trigger]
            crate::util::pod::interface_at(b, s1, s0, key, x, y);
        assert(a.ports_of(s1[x]) == b.ports_of(s1[x]));
        assert(crate::util::pod::interface_at(a, s1, s0, key, x, y));
    }
}

/// Whether the network is what reading the links into an empty network
/// gives: every port is listed with its peer among the links, every device
/// has the ports that the links give it, with their peers, the devices are
/// the ends of the links, the pod devices are the ends of the links that
/// join pods, and the pods are those of the links, each with its
/// interfaces.
pub open spec fn read_from(net: Network, topologies: Seq<Topology>) -> bool {
    &&& link_pairs(net.links()) == links_read(Seq::empty(), topologies, topologies.len() as int)
    &&& forall|d: Seq<char>| #[trigger]
        port_views(net.ports_of(d)) == ports_read(Seq::empty(), d, topologies, topologies.len() as int)
    &&& forall|d: Seq<char>|
        net.device_names().contains(d) <==> exists|k: int| #[trigger] link_end(topologies, d, k)
    &&& forall|x: Seq<char>| #[trigger] has_text(net.pod_device_names(), x) <==> pod_node(topologies, x)
    &&& exists|found: Seq<Pod>|
        #![trigger pods_of(topologies, found)]
        pods_of(topologies, found) && pods_tight(topologies, found) && with_interfaces(
            net,
            found,
            net.pods(),
        )
}

/// Whether the device is an end of link `k`.
pub open spec fn link_end(topologies: Seq<Topology>, d: Seq<char>, k: int) -> bool {
    0 <= k < topologies.len() && (topologies[k].src_node@ == d || topologies[k].dst_node@ == d)
}

} // verus!
