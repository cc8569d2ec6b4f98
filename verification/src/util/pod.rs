//! A pod of a fat tree: the devices of its two lower layers and the ports
//! that lead out of it.
use crate::util::device_port::DevicePort;
use crate::util::network::{has_port, port_keys, Network};
use crate::util::text::{clone_texts, contains_text, texts};
use vstd::prelude::*;

verus! {

pub struct Pod {
    pub pod_id: i32,
    pub s1_device_names: Vec<String>,
    pub s0_device_names: Vec<String>,
    pub interfaces: Vec<DevicePort>,
    pub has_dst_device: bool,
}

/// Whether the port leaves the pod that holds the given devices: its link
/// leads to a device that is none of them.
pub open spec fn leaves_pod(port: DevicePort, inside: Seq<Seq<char>>) -> bool {
    port.peer().is_some() && !inside.contains(port.peer().unwrap().0)
}

/// Whether port `x` of device `a` of the list has the given key and leaves
/// the pod.
pub open spec fn interface_at(
    network: Network,
    devices: Seq<Seq<char>>,
    inside: Seq<Seq<char>>,
    key: (Seq<char>, Seq<char>),
    a: int,
    x: int,
) -> bool {
    0 <= a < devices.len() && 0 <= x < network.ports_of(devices[a]).len() && network.ports_of(
        devices[a],
    )[x].key() == key && leaves_pod(network.ports_of(devices[a])[x], inside)
}

/// Whether port `x` of device `a` comes before port `k` of device `d`.
pub open spec fn earlier(a: int, x: int, d: int, k: int) -> bool {
    a < d || (a == d && x < k)
}

/// Whether some port of one of the listed devices has the given key and
/// leaves the pod.
pub open spec fn is_interface(
    network: Network,
    devices: Seq<Seq<char>>,
    inside: Seq<Seq<char>>,
    key: (Seq<char>, Seq<char>),
) -> bool {
    exists|a: int, x: int| #[trigger] interface_at(network, devices, inside, key, a, x)
}

/// When all ports of all listed devices are gone through, the ports found
/// are the interfaces.
proof fn lemma_all_interfaces(
    network: Network,
    devices: Seq<Seq<char>>,
    inside: Seq<Seq<char>>,
    now: Seq<(Seq<char>, Seq<char>)>,
    before: Seq<(Seq<char>, Seq<char>)>,
)
    requires
        forall|key: (Seq<char>, Seq<char>)|
            now.contains(key) <==> before.contains(key) || exists|a: int, x: int|
                #[trigger] interface_at(network, devices, inside, key, a, x) && earlier(
                    a,
                    x,
                    devices.len() as int,
                    0,
                ),
    ensures
        forall|key: (Seq<char>, Seq<char>)|
            now.contains(key) <==> before.contains(key) || is_interface(
                network,
                devices,
                inside,
                key,
            ),
{
    assert forall|key: (Seq<char>, Seq<char>)|
        now.contains(key) <==> before.contains(key) || is_interface(
            network,
            devices,
            inside,
            key,
        ) by {
        if now.contains(key) && !before.contains(key) {
            let (a, x) = choose|a: int, x: int|
                #[trigger] interface_at(network, devices, inside, key, a, x) && earlier(
                    a,
                    x,
                    devices.len() as int,
                    0,
                );
            assert(interface_at(network, devices, inside, key, a, x));
        }
        if is_interface(network, devices, inside, key) {
            let (a, x) = choose|a: int, x: int|
                #[trigger] interface_at(network, devices, inside, key, a, x);
            assert(interface_at(network, devices, inside, key, a, x) && earlier(
                a,
                x,
                devices.len() as int,
                0,
            ));
        }
    }
}

impl Pod {
    /// The names of the upper-layer devices.
    pub open spec fn s1(&self) -> Seq<Seq<char>> {
        texts(self.s1_device_names@)
    }

    /// The names of the lower-layer devices.
    pub open spec fn s0(&self) -> Seq<Seq<char>> {
        texts(self.s0_device_names@)
    }

    /// The names of all the pod's devices, the upper layer first.
    pub open spec fn devices(&self) -> Seq<Seq<char>> {
        self.s1() + self.s0()
    }

    /// Whether the device belongs to the pod.
    pub open spec fn has_device(&self, name: Seq<char>) -> bool {
        self.s1().contains(name) || self.s0().contains(name)
    }

    /// No device is listed twice in its layer and no port twice among the
    /// interfaces.
    pub open spec fn wf(&self) -> bool {
        &&& self.s1().no_duplicates()
        &&& self.s0().no_duplicates()
        &&& port_keys(self.interfaces@).no_duplicates()
    }

    pub fn new(pod_id: i32) -> (r: Self)
        ensures
            r.wf(),
            r.pod_id == pod_id,
            r.s1() == Seq::<Seq<char>>::empty(),
            r.s0() == Seq::<Seq<char>>::empty(),
            r.interfaces@ == Seq::<DevicePort>::empty(),
            !r.has_dst_device,
    {
        let r = Pod {
            pod_id,
            s1_device_names: Vec::new(),
            s0_device_names: Vec::new(),
            interfaces: Vec::new(),
            has_dst_device: false,
        };
        assert(r.s1() =~= Seq::<Seq<char>>::empty());
        assert(r.s0() =~= Seq::<Seq<char>>::empty());
        assert(port_keys(r.interfaces@) =~= Seq::<(Seq<char>, Seq<char>)>::empty());
        r
    }

    pub fn get_pod_id(&self) -> (r: i32)
        ensures
            r == self.pod_id,
    {
        self.pod_id
    }

    pub fn get_s1_device_names(&self) -> (r: &Vec<String>)
        ensures
            texts(r@) == self.s1(),
    {
        &self.s1_device_names
    }

    pub fn get_s0_device_names(&self) -> (r: &Vec<String>)
        ensures
            texts(r@) == self.s0(),
    {
        &self.s0_device_names
    }

    /// Adds an upper-layer device unless the pod has it in that layer.
    pub fn add_s1_device(&mut self, device_name: String)
        requires
            old(self).wf(),
        ensures
            final(self).wf(),
            final(self).s1() == if old(self).s1().contains(device_name@) {
                old(self).s1()
            } else {
                old(self).s1().push(device_name@)
            },
            forall|x: Seq<char>| final(self).s1().contains(x) <==> old(self).s1().contains(x) || x == device_name@,
            final(self).s0() == old(self).s0(),
            final(self).pod_id == old(self).pod_id,
            final(self).interfaces == old(self).interfaces,
            final(self).has_dst_device == old(self).has_dst_device,
    {
        add_name(&mut self.s1_device_names, device_name);
    }

    /// Adds a lower-layer device unless the pod has it in that layer.
    pub fn add_s0_device(&mut self, device_name: String)
        requires
            old(self).wf(),
        ensures
            final(self).wf(),
            final(self).s0() == if old(self).s0().contains(device_name@) {
                old(self).s0()
            } else {
                old(self).s0().push(device_name@)
            },
            forall|x: Seq<char>| final(self).s0().contains(x) <==> old(self).s0().contains(x) || x == device_name@,
            final(self).s1() == old(self).s1(),
            final(self).pod_id == old(self).pod_id,
            final(self).interfaces == old(self).interfaces,
            final(self).has_dst_device == old(self).has_dst_device,
    {
        add_name(&mut self.s0_device_names, device_name);
    }

    /// Adds to the interfaces every port of a device of the pod whose link
    /// leads to a device outside the pod.
    #[verifier::loop_isolation(false)]
    pub fn set_interfaces(&mut self, network: &Network)
        requires
            old(self).wf(),
            network.wf(),
        ensures
            final(self).wf(),
            final(self).s1() == old(self).s1(),
            final(self).s0() == old(self).s0(),
            final(self).pod_id == old(self).pod_id,
            final(self).has_dst_device == old(self).has_dst_device,
            forall|key: (Seq<char>, Seq<char>)|
                port_keys(final(self).interfaces@).contains(key) <==> port_keys(
                    old(self).interfaces@,
                ).contains(key) || is_interface(
                    *network,
                    old(self).devices(),
                    old(self).devices(),
                    key,
                ),
    {
        let devices = self.get_devices();
        let ghost s1 = texts(devices@);
        let ghost s0 = texts(devices@);
        let ghost keys0 = port_keys(self.interfaces@);
        let mut d: usize = 0;
        while d < devices.len()
            invariant
                d <= devices.len(),
                s1 == texts(devices@),
                s1 == old(self).devices(),
                s1.len() == devices.len(),
                self.wf(),
                self.s1() == old(self).s1(),
                self.s0() == old(self).s0(),
                self.pod_id == old(self).pod_id,
                self.has_dst_device == old(self).has_dst_device,
                forall|key: (Seq<char>, Seq<char>)|
                    port_keys(self.interfaces@).contains(key) <==> keys0.contains(key) || exists|
                        a: int,
                        x: int,
                    |
                        #[trigger] interface_at(*network, s1, s0, key, a, x) && earlier(
                            a,
                            x,
                            d as int,
                            0,
                        ),
            decreases devices.len() - d,
        {
            assert(s1[d as int] == devices[d as int]@);
            match network.get_device_ports(devices[d].as_str()) {
                Some(ports) => {
                    let mut k: usize = 0;
                    while k < ports.len()
                        invariant
                            k <= ports.len(),
                            d < devices.len(),
                            ports@ == network.ports_of(s1[d as int]),
                            self.wf(),
                            self.s1() == old(self).s1(),
                            self.s0() == old(self).s0(),
                            self.pod_id == old(self).pod_id,
                            self.has_dst_device == old(self).has_dst_device,
                            forall|key: (Seq<char>, Seq<char>)|
                                port_keys(self.interfaces@).contains(key) <==> keys0.contains(key)
                                    || exists|a: int, x: int|
                                    #[trigger] interface_at(*network, s1, s0, key, a, x) && earlier(
                                        a,
                                        x,
                                        d as int,
                                        k as int,
                                    ),
                        decreases ports.len() - k,
                    {
                        let port = &ports[k];
                        let ghost keys1 = port_keys(self.interfaces@);
                        assert(forall|key: (Seq<char>, Seq<char>)|
                            keys1.contains(key) <==> keys0.contains(key) || exists|a: int, x: int|
                                #[trigger] interface_at(*network, s1, s0, key, a, x) && earlier(
                                    a,
                                    x,
                                    d as int,
                                    k as int,
                                ));
                        let mut added = false;
                        match port.get_peer_port() {
                            Some(peer) => {
                                if !contains_text(&devices, &peer.0) {
                                    if !has_port(&self.interfaces, port) {
                                        self.interfaces.push(port.clone());
                                        proof {
                                            let keys2 = port_keys(self.interfaces@);
                                            assert(keys2 =~= keys1.push(port.key()));
                                            assert(keys2[keys1.len() as int] == port.key());
                                            assert forall|a: int, b: int|
                                                0 <= a < keys2.len() && 0 <= b < keys2.len() && a
                                                    != b implies keys2[a] != keys2[b] by {
                                                if a < keys1.len() {
                                                    assert(keys1.contains(keys1[a]));
                                                }
                                                if b < keys1.len() {
                                                    assert(keys1.contains(keys1[b]));
                                                }
                                            }
                                        }
                                    }
                                    added = true;
                                }
                            },
                            None => {},
                        }
                        proof {
                            let keys2 = port_keys(self.interfaces@);
                            assert(added == leaves_pod(*port, s0));
                            assert forall|key: (Seq<char>, Seq<char>)|
                                keys2.contains(key) <==> keys1.contains(key) || (added && key
                                    == port.key()) by {
                                if keys1.contains(key) {
                                    let j = keys1.index_of(key);
                                    assert(keys1[j] == key);
                                    assert(keys2[j] == key);
                                }
                                if keys2.contains(key) && !keys1.contains(key) {
                                    let j = keys2.index_of(key);
                                    assert(keys2[j] == key);
                                    if j < keys1.len() {
                                        assert(keys1[j] == key);
                                    }
                                }
                            }
                            assert forall|key: (Seq<char>, Seq<char>)|
                                keys2.contains(key) <==> keys0.contains(key) || exists|
                                    a: int,
                                    x: int,
                                |
                                    #[trigger] interface_at(*network, s1, s0, key, a, x) && earlier(
                                        a,
                                        x,
                                        d as int,
                                        k as int + 1,
                                    ) by {
                                if keys2.contains(key) && !keys0.contains(key) {
                                    if keys1.contains(key) {
                                        let (a, x) = choose|a: int, x: int|
                                            #[trigger] interface_at(*network, s1, s0, key, a, x)
                                                && earlier(a, x, d as int, k as int);
                                        assert(interface_at(*network, s1, s0, key, a, x) && earlier(
                                            a,
                                            x,
                                            d as int,
                                            k as int + 1,
                                        ));
                                    } else {
                                        assert(interface_at(
                                            *network,
                                            s1,
                                            s0,
                                            key,
                                            d as int,
                                            k as int,
                                        ) && earlier(d as int, k as int, d as int, k as int + 1));
                                    }
                                }
                                if exists|a: int, x: int|
                                    #[trigger] interface_at(*network, s1, s0, key, a, x) && earlier(
                                        a,
                                        x,
                                        d as int,
                                        k as int + 1,
                                    ) {
                                    let (a, x) = choose|a: int, x: int|
                                        #[trigger] interface_at(*network, s1, s0, key, a, x)
                                            && earlier(a, x, d as int, k as int + 1);
                                    if earlier(a, x, d as int, k as int) {
                                        assert(keys1.contains(key));
                                    } else {
                                        assert(a == d && x == k);
                                    }
                                }
                            }
                        }
                        k += 1;
                    }
                    proof {
                        let ghost now = port_keys(self.interfaces@);
                        assert(k == ports.len());
                        assert(forall|key: (Seq<char>, Seq<char>)|
                            now.contains(key) <==> keys0.contains(key) || exists|a: int, x: int|
                                #[trigger] interface_at(*network, s1, s0, key, a, x) && earlier(a, x, d as int, k as int));
                        assert(forall|key: (Seq<char>, Seq<char>)|
                            now.contains(key) <==> keys0.contains(key) || exists|a: int, x: int|
                                #[trigger] interface_at(*network, s1, s0, key, a, x) && earlier(a, x, d as int, ports.len() as int));
                        assert forall|key: (Seq<char>, Seq<char>)|
                            now.contains(key) <==> keys0.contains(key)
                                || exists|a: int, x: int|
                                #[trigger] interface_at(*network, s1, s0, key, a, x) && earlier(
                                    a,
                                    x,
                                    d as int + 1,
                                    0,
                                ) by {
                            if now.contains(key) && !keys0.contains(key) {
                                let (a, x) = choose|a: int, x: int|
                                    #[trigger] interface_at(*network, s1, s0, key, a, x) && earlier(
                                        a,
                                        x,
                                        d as int,
                                        ports.len() as int,
                                    );
                                assert(interface_at(*network, s1, s0, key, a, x) && earlier(
                                    a,
                                    x,
                                    d as int + 1,
                                    0,
                                ));
                            }
                            if exists|a: int, x: int|
                                #[trigger] interface_at(*network, s1, s0, key, a, x) && earlier(
                                    a,
                                    x,
                                    d as int + 1,
                                    0,
                                ) {
                                let (a, x) = choose|a: int, x: int|
                                    #[trigger] interface_at(*network, s1, s0, key, a, x) && earlier(
                                        a,
                                        x,
                                        d as int + 1,
                                        0,
                                    );
                                assert(interface_at(*network, s1, s0, key, a, x) && earlier(
                                    a,
                                    x,
                                    d as int,
                                    ports.len() as int,
                                ));
                            }
                        }
                    }
                },
                None => {
                    proof {
                        assert(network.ports_of(s1[d as int]).len() == 0);
                        let ghost now = port_keys(self.interfaces@);
                        assert(forall|key: (Seq<char>, Seq<char>)|
                            now.contains(key) <==> keys0.contains(key) || exists|a: int, x: int|
                                #[trigger] interface_at(*network, s1, s0, key, a, x) && earlier(a, x, d as int, 0));
                        assert forall|key: (Seq<char>, Seq<char>)|
                            now.contains(key) <==> keys0.contains(key)
                                || exists|a: int, x: int|
                                #[trigger] interface_at(*network, s1, s0, key, a, x) && earlier(
                                    a,
                                    x,
                                    d as int + 1,
                                    0,
                                ) by {
                            if now.contains(key) && !keys0.contains(key) {
                                let (a, x) = choose|a: int, x: int|
                                    #[trigger] interface_at(*network, s1, s0, key, a, x) && earlier(
                                        a,
                                        x,
                                        d as int,
                                        0,
                                    );
                                assert(interface_at(*network, s1, s0, key, a, x) && earlier(
                                    a,
                                    x,
                                    d as int + 1,
                                    0,
                                ));
                            }
                            if exists|a: int, x: int|
                                #[trigger] interface_at(*network, s1, s0, key, a, x) && earlier(
                                    a,
                                    x,
                                    d as int + 1,
                                    0,
                                ) {
                                let (a, x) = choose|a: int, x: int|
                                    #[trigger] interface_at(*network, s1, s0, key, a, x) && earlier(
                                        a,
                                        x,
                                        d as int + 1,
                                        0,
                                    );
                                assert(a != d);
                                assert(interface_at(*network, s1, s0, key, a, x) && earlier(
                                    a,
                                    x,
                                    d as int,
                                    0,
                                ));
                            }
                        }
                    }
                },
            }
            d += 1;
        }
        proof {
            lemma_all_interfaces(*network, s1, s0, port_keys(self.interfaces@), keys0);
        }
    }

    /// The devices of the pod: the upper layer first, then the lower.
    pub fn get_devices(&self) -> (r: Vec<String>)
        ensures
            texts(r@) == self.s1() + self.s0(),
    {
        let mut devices = clone_texts(&self.s1_device_names);
        let mut lower = clone_texts(&self.s0_device_names);
        let ghost upper = texts(devices@);
        devices.append(&mut lower);
        assert(texts(devices@) =~= self.s1() + self.s0());
        devices
    }
}

/// Adds a name to a list of different names unless it is there already.
pub fn add_name(list: &mut Vec<String>, name: String)
    requires
        texts(old(list)@).no_duplicates(),
    ensures
        texts(final(list)@).no_duplicates(),
        texts(final(list)@) == if texts(old(list)@).contains(name@) {
            texts(old(list)@)
        } else {
            texts(old(list)@).push(name@)
        },
        forall|x: Seq<char>| texts(final(list)@).contains(x) <==> texts(old(list)@).contains(x) || x == name@,
{
    if !contains_text(list, &name) {
        let ghost names0 = texts(list@);
        list.push(name);
        proof {
            let names1 = texts(list@);
            assert(names1 =~= names0.push(name@));
            assert(names1[names0.len() as int] == name@);
            assert forall|x: Seq<char>| names1.contains(x) <==> names0.contains(x) || x == name@ by {
                if names0.contains(x) {
                    let j = names0.index_of(x);
                    assert(names0[j] == x);
                    assert(names1[j] == x);
                }
                if names1.contains(x) {
                    let j = names1.index_of(x);
                    assert(names1[j] == x);
                    if j < names0.len() {
                        assert(names0[j] == x);
                    }
                }
            }
            assert forall|i: int, j: int|
                0 <= i < names1.len() && 0 <= j < names1.len() && i != j implies names1[i]
                != names1[j] by {
                if i < names0.len() {
                    assert(names0.contains(names0[i]));
                }
                if j < names0.len() {
                    assert(names0.contains(names0[j]));
                }
            }
        }
    }
}

} // verus!
