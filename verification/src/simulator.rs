//! The run as a whole: from the rules, the topology and the declared subnets
//! to the count of reachable and unreachable pairs.
use crate::kernel::{bdd_sat, is_space};
use crate::symbolic::device::Device;
use crate::symbolic::neighborhood::{marked_names, Neighborhood, PacketSpaceAwareDevice};
use crate::symbolic::flow::{flow_model, reach_space};
use crate::symbolic::proximity::{
    claimed, founders, founds, joins, lemma_turn, lemma_turn_passed, member,
    expanding, explored, leads_to, lemma_expand_done, lemma_expand_pass, lemma_expand_push,
    lemma_search_done, lemma_search_skip, lemma_search_start, lemma_search_visit, searching,
};
use crate::symbolic::npnet::{
    backward_total, capped, grown, has_node_named, is_node_named, InvariantType, NPNet, NPNetNode,
    TraversalType,
};
use crate::symbolic::toponet::{
    devices_wf, find_device, is_first_named, names_distinct, no_device_named, Toponet,
};
use crate::util::network::{Network, Topology};
use crate::util::npbdd::{src_device_space, EngineError, NPBDD};
use crate::util::rule::Rule;
use crate::util::text::texts;
use biodivine_lib_bdd::Bdd;
use vstd::prelude::*;
use vstd::string::{StrSliceExecFns, StringExecFns};

verus! {

/// One declared subnet: the prefix and the device it lives at.
pub struct Packet {
    pub prefix: String,
    pub prefix_len: usize,
    pub host_name: String,
}

/// A subnet as it is declared under a device's name.
pub struct SubNet {
    pub prefix: String,
    pub prefix_len: u8,
}

impl SubNet {
    pub fn new(prefix: String, prefix_len: u8) -> (r: Self)
        ensures
            r.prefix == prefix,
            r.prefix_len == prefix_len,
    {
        SubNet { prefix, prefix_len }
    }
}

/// The subnets of the first `h` hosts, each as a packet under its host's
/// name, host after host and, for one host, in the order of its subnets.
pub open spec fn packets_of(subnet_devices: Seq<(String, Vec<SubNet>)>, h: int) -> Seq<
    (Seq<char>, nat, Seq<char>),
>
    decreases h,
{
    if h <= 0 {
        Seq::empty()
    } else {
        packets_of(subnet_devices, h - 1) + subnet_devices[h - 1].1@.map_values(
            |s: SubNet| (s.prefix@, s.prefix_len as nat, subnet_devices[h - 1].0@),
        )
    }
}

/// A list of packets as prefix, prefix length and host name.
pub open spec fn packet_views(packets: Seq<Packet>) -> Seq<(Seq<char>, nat, Seq<char>)> {
    packets.map_values(|p: Packet| (p.prefix@, p.prefix_len as nat, p.host_name@))
}

/// Whether `c` begins every one of the texts.
pub open spec fn common_to_all(c: Seq<char>, prefixes: Seq<Seq<char>>) -> bool {
    forall|i: int| 0 <= i < prefixes.len() ==> c.is_prefix_of(#[trigger] prefixes[i])
}

/// Whether `r` is the longest text that begins every one of the texts; for
/// no texts at all it is the empty text.
pub open spec fn longest_common_prefix(r: Seq<char>, prefixes: Seq<Seq<char>>) -> bool {
    if prefixes.len() == 0 {
        r.len() == 0
    } else {
        common_to_all(r, prefixes) && forall|c: Seq<char>| #[trigger]
            common_to_all(c, prefixes) ==> c.is_prefix_of(r)
    }
}

/// The position of the last of the first `k` packets that names the
/// device, if any does.
pub open spec fn last_packet_for(packets: Seq<Packet>, k: int, name: Seq<char>) -> Option<int>
    decreases k,
{
    if k <= 0 {
        None
    } else if packets[k - 1].host_name@ == name {
        Some(k - 1)
    } else {
        last_packet_for(packets, k - 1, name)
    }
}

/// What declaring the subnets leaves at device `after`, which was `before`
/// at position `i`: the first device of a name gets the last subnet
/// declared for that name; any other device is as it was.
pub open spec fn subnet_declared(
    devices: Seq<Device>,
    i: int,
    after: Device,
    packets: Seq<Packet>,
    k: int,
) -> bool {
    let before = devices[i];
    match last_packet_for(packets, k, before.name()) {
        Some(x) => if is_first_named(devices, before.name(), i) {
            &&& after.packet_space().is_some()
            &&& after.packet_space().unwrap().ip_text() == packets[x].prefix@
            &&& after.packet_space().unwrap().len() == packets[x].prefix_len
            &&& after.name() == before.name()
            &&& after.id() == before.id()
            &&& after.id_space() == before.id_space()
            &&& after.rules() == before.rules()
            &&& after.forwardable() == before.forwardable()
            &&& after.subnet() == before.subnet()
            &&& after.lec_ports() == before.lec_ports()
            &&& after.groups() == before.groups()
            &&& (before.wf() ==> after.wf())
            &&& after.width() == before.width()
            &&& (forall|p: Seq<char>| after.space_id_of(p) == before.space_id_of(p))
        } else {
            after == before
        },
        None => after == before,
    }
}

pub struct Simulator {
    devices_name: Vec<String>,
    edge_devices: Vec<String>,
    dst_devices: Vec<String>,
    src_toponet: Toponet,
    ip_bits: usize,
    common_prefix: String,
    bdd: NPBDD,
}

impl Simulator {
    /// The names of the devices.
    pub closed spec fn devices_name(&self) -> Seq<Seq<char>> {
        texts(self.devices_name@)
    }

    /// The names of the edge devices, between which reachability is asked.
    pub closed spec fn edge_devices(&self) -> Seq<Seq<char>> {
        texts(self.edge_devices@)
    }

    /// The names of the destination devices.
    pub closed spec fn dst_devices(&self) -> Seq<Seq<char>> {
        texts(self.dst_devices@)
    }

    /// The network model.
    pub closed spec fn toponet(&self) -> Toponet {
        self.src_toponet
    }

    /// The engine.
    pub closed spec fn engine(&self) -> NPBDD {
        self.bdd
    }

    /// The text that all declared subnet addresses begin with.
    pub closed spec fn common_prefix(&self) -> Seq<char> {
        self.common_prefix@
    }

    /// The engine and the network model are well formed and over the same
    /// variables.
    pub closed spec fn wf(&self) -> bool {
        &&& self.bdd.wf()
        &&& self.bdd.width() == self.ip_bits
        &&& self.src_toponet.wf()
        &&& self.src_toponet.width() == self.ip_bits
    }

    /// What well-formedness says.
    pub proof fn lemma_wf(&self)
        requires
            self.wf(),
        ensures
            self.engine().wf(),
            self.toponet().wf(),
            self.toponet().width() == self.engine().width(),
    {
    }

    /// A run over `ip_bits` header variables with nothing loaded, or `None`
    /// when the engine cannot have that many variables.
    pub fn new(ip_bits: usize) -> (r: Option<Self>)
        ensures
            r.is_some() == (crate::util::npbdd::DEVICE_ID_BITS <= ip_bits < 65534),
            r matches Some(s) ==> s.wf() && s.engine().width() == ip_bits && s.devices_name()
                == Seq::<Seq<char>>::empty() && s.edge_devices() == Seq::<Seq<char>>::empty()
                && s.dst_devices() == Seq::<Seq<char>>::empty() && s.common_prefix() == Seq::<
                char,
            >::empty() && s.toponet().devices() == Seq::<Device>::empty(),
    {
        match NPBDD::init(ip_bits) {
            Some(bdd) => {
                let s = Simulator {
                    devices_name: Vec::new(),
                    edge_devices: Vec::new(),
                    dst_devices: Vec::new(),
                    src_toponet: Toponet::new(ip_bits),
                    ip_bits,
                    common_prefix: String::new(),
                    bdd,
                };
                assert(texts(s.devices_name@) =~= Seq::<Seq<char>>::empty());
                assert(texts(s.edge_devices@) =~= Seq::<Seq<char>>::empty());
                assert(texts(s.dst_devices@) =~= Seq::<Seq<char>>::empty());
                Some(s)
            },
            None => None,
        }
    }

    pub fn get_toponet(&self) -> (r: &Toponet)
        ensures
            *r == self.toponet(),
    {
        &self.src_toponet
    }

    pub fn get_engine(&self) -> (r: &NPBDD)
        ensures
            *r == self.engine(),
    {
        &self.bdd
    }

    pub fn get_common_prefix(&self) -> (r: &String)
        ensures
            r@ == self.common_prefix(),
    {
        &self.common_prefix
    }

    pub fn get_edge_devices(&self) -> (r: &Vec<String>)
        ensures
            texts(r@) == self.edge_devices(),
    {
        &self.edge_devices
    }

    /// Takes up the names of the devices.
    pub fn set_devices_name(&mut self, names: Vec<String>)
        ensures
            final(self).devices_name() == texts(names@),
            final(self).edge_devices() == old(self).edge_devices(),
            final(self).dst_devices() == old(self).dst_devices(),
            final(self).toponet() == old(self).toponet(),
            final(self).engine() == old(self).engine(),
            final(self).common_prefix() == old(self).common_prefix(),
            final(self).wf() == old(self).wf(),
    {
        self.devices_name = names;
    }

    /// Takes up the names of the edge devices.
    pub fn set_edge_devices_name(&mut self, names: Vec<String>)
        ensures
            final(self).edge_devices() == texts(names@),
            final(self).devices_name() == old(self).devices_name(),
            final(self).dst_devices() == old(self).dst_devices(),
            final(self).toponet() == old(self).toponet(),
            final(self).engine() == old(self).engine(),
            final(self).common_prefix() == old(self).common_prefix(),
            final(self).wf() == old(self).wf(),
    {
        self.edge_devices = names;
    }

    /// Takes up the names of the destination devices.
    pub fn set_dst_devices_name(&mut self, names: Vec<String>)
        ensures
            final(self).dst_devices() == texts(names@),
            final(self).devices_name() == old(self).devices_name(),
            final(self).edge_devices() == old(self).edge_devices(),
            final(self).toponet() == old(self).toponet(),
            final(self).engine() == old(self).engine(),
            final(self).common_prefix() == old(self).common_prefix(),
            final(self).wf() == old(self).wf(),
    {
        self.dst_devices = names;
    }

    /// Turns subnets listed under their hosts' names into a flat list of
    /// packets.
    pub fn convert_subnet_devices_to_packets(subnet_devices: &Vec<(String, Vec<SubNet>)>) -> (packets:
        Vec<Packet>)
        ensures
            packet_views(packets@) == packets_of(subnet_devices@, subnet_devices.len() as int),
    {
        let mut packets: Vec<Packet> = Vec::new();
        let mut h: usize = 0;
        assert(packet_views(packets@) =~= packets_of(subnet_devices@, 0));
        while h < subnet_devices.len()
            invariant
                h <= subnet_devices.len(),
                packet_views(packets@) == packets_of(subnet_devices@, h as int),
            decreases subnet_devices.len() - h,
        {
            let host_name = &subnet_devices[h].0;
            let subnets = &subnet_devices[h].1;
            let ghost done = packet_views(packets@);
            let ghost views = subnets@.map_values(
                |s: SubNet| (s.prefix@, s.prefix_len as nat, subnet_devices[h as int].0@),
            );
            let mut k: usize = 0;
            assert(done + views.take(0) =~= done);
            while k < subnets.len()
                invariant
                    k <= subnets.len(),
                    host_name@ == subnet_devices[h as int].0@,
                    views == subnets@.map_values(
                        |s: SubNet| (s.prefix@, s.prefix_len as nat, subnet_devices[h as int].0@),
                    ),
                    packet_views(packets@) == done + views.take(k as int),
                decreases subnets.len() - k,
            {
                let subnet = &subnets[k];
                let ghost before = packet_views(packets@);
                packets.push(
                    Packet {
                        prefix: subnet.prefix.clone(),
                        prefix_len: subnet.prefix_len as usize,
                        host_name: host_name.clone(),
                    },
                );
                proof {
                    assert(packet_views(packets@) =~= before.push(views[k as int]));
                    assert(done + views.take(k as int + 1) =~= (done + views.take(k as int)).push(
                        views[k as int],
                    ));
                }
                k += 1;
            }
            assert(views.take(subnets.len() as int) =~= views);
            h += 1;
        }
        packets
    }

    /// The longest text that every one of the given texts begins with.
    pub fn find_common_prefix(prefixes: &Vec<String>) -> (r: String)
        ensures
            longest_common_prefix(r@, texts(prefixes@)),
    {
        if prefixes.len() == 0 {
            return String::new();
        }
        let first = prefixes[0].as_str();
        let mut k: usize = first.unicode_len();
        let mut i: usize = 1;
        assert(texts(prefixes@)[0] == first@);
        assert forall|c: Seq<char>| #[trigger]
            common_to_all(c, texts(prefixes@).take(1)) implies c.len() <= k by {
            assert(texts(prefixes@).take(1)[0] == first@);
            assert(c.is_prefix_of(texts(prefixes@).take(1)[0]));
        }
        assert(first@.subrange(0, k as int) =~= first@);
        while i < prefixes.len()
            invariant
                1 <= i <= prefixes.len(),
                first@ == prefixes[0]@,
                k <= first@.len(),
                forall|x: int|
                    0 <= x < i ==> first@.subrange(0, k as int).is_prefix_of(#[trigger] prefixes[x]@),
                forall|c: Seq<char>| #[trigger]
                    common_to_all(c, texts(prefixes@).take(i as int)) ==> c.len() <= k,
            decreases prefixes.len() - i,
        {
            let other = prefixes[i].as_str();
            let limit = other.unicode_len();
            let mut j: usize = 0;
            while j < k && j < limit && first.get_char(j) == other.get_char(j)
                invariant
                    j <= k <= first@.len(),
                    j <= limit,
                    limit == other@.len(),
                    forall|x: int| 0 <= x < j ==> first@[x] == other@[x],
                decreases k - j,
            {
                j += 1;
            }
            proof {
                let seen = texts(prefixes@).take(i as int);
                let seen1 = texts(prefixes@).take(i as int + 1);
                assert(seen1[i as int] == other@);
                assert(first@.subrange(0, j as int).is_prefix_of(other@)) by {
                    assert(first@.subrange(0, j as int) =~= other@.subrange(0, j as int));
                }
                assert forall|x: int| 0 <= x < i implies first@.subrange(0, j as int).is_prefix_of(
                    #[trigger] prefixes[x]@,
                ) by {
                    let p = first@.subrange(0, k as int);
                    assert(p.is_prefix_of(prefixes[x]@));
                    assert(first@.subrange(0, j as int) =~= prefixes[x]@.subrange(0, j as int)) by {
                        assert(p =~= prefixes[x]@.subrange(0, k as int));
                        assert forall|y: int| 0 <= y < j implies first@[y] == prefixes[x]@[y] by {
                            assert(p[y] == prefixes[x]@.subrange(0, k as int)[y]);
                        }
                    }
                }
                assert forall|c: Seq<char>| #[trigger] common_to_all(c, seen1) implies c.len()
                    <= j by {
                    assert(common_to_all(c, seen)) by {
                        assert forall|x: int| 0 <= x < seen.len() implies c.is_prefix_of(
                            #[trigger] seen[x],
                        ) by {
                            assert(seen1[x] == seen[x]);
                        }
                    }
                    assert(c.is_prefix_of(seen1[0]));
                    assert(c.is_prefix_of(seen1[i as int]));
                    if c.len() > j {
                        assert(c =~= first@.subrange(0, c.len() as int));
                        assert(c =~= other@.subrange(0, c.len() as int));
                        assert(first@[j as int] == c[j as int]);
                        assert(other@[j as int] == c[j as int]);
                    }
                }
            }
            k = j;
            i += 1;
        }
        let r = String::from_str(first.substring_char(0, k));
        proof {
            let all = texts(prefixes@);
            assert(all.take(prefixes.len() as int) =~= all);
            assert forall|x: int| 0 <= x < all.len() implies r@.is_prefix_of(#[trigger] all[x]) by {
                assert(all[x] == prefixes[x]@);
            }
            assert forall|c: Seq<char>| #[trigger] common_to_all(c, all) implies c.is_prefix_of(
                r@,
            ) by {
                assert(c.is_prefix_of(all[0]));
                assert(c =~= first@.subrange(0, c.len() as int));
                assert(c =~= r@.subrange(0, c.len() as int));
            }
        }
        r
    }

    /// Declares the subnets at their devices and remembers the longest text
    /// that all declared addresses begin with. A subnet for a name that no
    /// device has is passed over; of several subnets for one device the last
    /// one stays.
    pub fn set_packet_space(&mut self, tmp_devices: &mut Vec<Device>, packets: Vec<Packet>)
        ensures
            final(tmp_devices).len() == old(tmp_devices).len(),
            forall|i: int|
                0 <= i < old(tmp_devices).len() ==> subnet_declared(
                    old(tmp_devices)@,
                    i,
                    #[trigger] final(tmp_devices)[i],
                    packets@,
                    packets.len() as int,
                ),
            longest_common_prefix(
                final(self).common_prefix(),
                packets@.map_values(|p: Packet| p.prefix@),
            ),
            final(self).devices_name() == old(self).devices_name(),
            final(self).edge_devices() == old(self).edge_devices(),
            final(self).dst_devices() == old(self).dst_devices(),
            final(self).toponet() == old(self).toponet(),
            final(self).engine() == old(self).engine(),
            final(self).wf() == old(self).wf(),
    {
        let ghost devs = tmp_devices@;
        let mut prefixes: Vec<String> = Vec::new();
        let mut k: usize = 0;
        assert(texts(prefixes@) =~= packets@.take(0).map_values(|p: Packet| p.prefix@));
        while k < packets.len()
            invariant
                k <= packets.len(),
                tmp_devices.len() == devs.len(),
                forall|i: int|
                    0 <= i < devs.len() ==> (#[trigger] tmp_devices[i]).name() == devs[i].name(),
                forall|i: int|
                    0 <= i < devs.len() ==> subnet_declared(
                        devs,
                        i,
                        #[trigger] tmp_devices[i],
                        packets@,
                        k as int,
                    ),
                texts(prefixes@) == packets@.take(k as int).map_values(|p: Packet| p.prefix@),
            decreases packets.len() - k,
        {
            let packet = &packets[k];
            let packet_space = Rule::new_for_packet_space(packet.prefix_len, packet.prefix.clone());
            let ghost before = tmp_devices@;
            let ghost prefixes0 = prefixes@;
            prefixes.push(packet.prefix.clone());
            match find_device(tmp_devices, packet.host_name.as_str()) {
                Some(idx) => {
                    tmp_devices[idx].set_packet_space_file(packet_space);
                    proof {
                        assert(forall|j: int|
                            0 <= j < tmp_devices.len() && j != idx ==> tmp_devices[j] == before[j]);
                        assert(is_first_named(devs, packet.host_name@, idx as int)) by {
                            assert forall|j: int| 0 <= j < idx implies (#[trigger] devs[j]).name()
                                != packet.host_name@ by {
                                assert(before[j].name() == devs[j].name());
                            }
                        }
                    }
                },
                None => {
                    proof {
                        assert forall|j: int| 0 <= j < devs.len() implies (#[trigger] devs[j]).name()
                            != packet.host_name@ by {
                            assert(before[j].name() == devs[j].name());
                        }
                    }
                },
            }
            proof {
                assert(texts(prefixes@) =~= packets@.take(k as int + 1).map_values(
                    |p: Packet| p.prefix@,
                )) by {
                    assert(texts(prefixes@) =~= texts(prefixes0).push(packet.prefix@));
                }
                assert forall|i: int| 0 <= i < devs.len() implies subnet_declared(
                    devs,
                    i,
                    #[trigger] tmp_devices[i],
                    packets@,
                    k as int + 1,
                ) by {
                    assert(subnet_declared(devs, i, before[i], packets@, k as int));
                    assert(before[i].name() == devs[i].name());
                    if devs[i].name() == packet.host_name@ {
                        let idx = choose|idx: int| is_first_named(devs, packet.host_name@, idx);
                        if is_first_named(devs, devs[i].name(), i) {
                            assert(idx == i) by {
                                if idx < i {
                                    assert(devs[idx].name() != devs[i].name());
                                } else if i < idx {
                                    assert(devs[i].name() != packet.host_name@);
                                }
                            }
                        } else {
                            assert(tmp_devices[i] == before[i]);
                        }
                    } else {
                        assert(tmp_devices[i] == before[i]);
                    }
                }
            }
            k += 1;
        }
        assert(packets@.take(packets.len() as int) =~= packets@);
        self.common_prefix = Self::find_common_prefix(&prefixes);
    }

    /// Numbers the devices in their order, from zero, and gives each the
    /// header set that encodes its number as the source.
    pub fn assign_device_id_and_encode(&self, tmp_devices: &mut Vec<Device>)
        requires
            self.wf(),
            devices_wf(old(tmp_devices)@, self.engine().width()),
        ensures
            final(tmp_devices).len() == old(tmp_devices).len(),
            devices_wf(final(tmp_devices)@, self.engine().width()),
            forall|i: int|
                0 <= i < old(tmp_devices).len() ==> {
                    let after = #[trigger] final(tmp_devices)[i];
                    let before = old(tmp_devices)[i];
                    &&& after.id() == i
                    &&& bdd_sat(after.id_space()) == src_device_space(
                        self.engine().width(),
                        i as usize,
                    )
                    &&& after.name() == before.name()
                    &&& after.rules() == before.rules()
                    &&& after.packet_space() == before.packet_space()
                    &&& after.forwardable() == before.forwardable()
                    &&& after.subnet() == before.subnet()
                    &&& after.lec_ports() == before.lec_ports()
                    &&& after.groups() == before.groups()
                    &&& (forall|p: Seq<char>| after.space_id_of(p) == before.space_id_of(p))
                },
    {
        let mut device_id: usize = 0;
        while device_id < tmp_devices.len()
            invariant
                device_id <= tmp_devices.len(),
                tmp_devices.len() == old(tmp_devices).len(),
                self.wf(),
                devices_wf(tmp_devices@, self.engine().width()),
                forall|i: int| device_id <= i < tmp_devices.len() ==> #[trigger] tmp_devices[i] == old(tmp_devices)[i],
                forall|i: int|
                    0 <= i < device_id ==> {
                        let after = #[trigger] tmp_devices[i];
                        let before = old(tmp_devices)[i];
                        &&& after.id() == i
                        &&& bdd_sat(after.id_space()) == src_device_space(
                            self.engine().width(),
                            i as usize,
                        )
                        &&& after.name() == before.name()
                        &&& after.rules() == before.rules()
                        &&& after.packet_space() == before.packet_space()
                        &&& after.forwardable() == before.forwardable()
                        &&& after.subnet() == before.subnet()
                        &&& after.lec_ports() == before.lec_ports()
                        &&& after.groups() == before.groups()
                        &&& (forall|p: Seq<char>| after.space_id_of(p) == before.space_id_of(p))
                    },
            decreases tmp_devices.len() - device_id,
        {
            let ghost before = tmp_devices@;
            let id_bdd = self.bdd.make_src_device_bdd(device_id);
            tmp_devices[device_id].set_device_id(device_id, id_bdd);
            proof {
                assert(forall|j: int|
                    0 <= j < tmp_devices.len() && j != device_id ==> tmp_devices[j] == before[j]);
            }
            device_id += 1;
        }
    }

    /// Builds the topology from the links and takes it up: the stored
    /// topology is what reading the links into an empty network gives.
    pub fn init_network(&mut self, topologies: &Vec<Topology>)
        requires
            old(self).wf(),
        ensures
            final(self).wf(),
            final(self).toponet().network().wf(),
            final(self).toponet().network().closed(),
            crate::util::network::read_from(final(self).toponet().network(), topologies@),
            final(self).toponet().devices() == old(self).toponet().devices(),
            final(self).toponet().all_space() == old(self).toponet().all_space(),
            final(self).toponet().packet_space_names() == old(self).toponet().packet_space_names(),
            final(self).toponet().packet_space_bdds() == old(self).toponet().packet_space_bdds(),
            final(self).engine() == old(self).engine(),
            final(self).devices_name() == old(self).devices_name(),
            final(self).edge_devices() == old(self).edge_devices(),
            final(self).dst_devices() == old(self).dst_devices(),
            final(self).common_prefix() == old(self).common_prefix(),
    {
        let mut tmp_network = Network::new();
        let ghost empty = tmp_network;
        tmp_network.read_topology(topologies);
        proof {
            let net = tmp_network;
            assert(crate::util::network::link_pairs(empty.links()) =~= Seq::empty());
            assert forall|d: Seq<char>| #[trigger]
                crate::util::network::port_views(net.ports_of(d))
                    == crate::util::network::ports_read(
                    Seq::empty(),
                    d,
                    topologies@,
                    topologies.len() as int,
                ) by {
                assert(crate::util::network::port_views(empty.ports_of(d)) =~= Seq::empty());
            }
            assert forall|x: Seq<char>| #[trigger]
                crate::util::text::has_text(net.pod_device_names(), x)
                    <==> crate::util::network::pod_node(topologies@, x) by {
                assert(!crate::util::text::has_text(empty.pod_device_names(), x));
            }
            assert(crate::util::network::read_from(net, topologies@));
        }
        self.src_toponet.set_arc_network(tmp_network);
    }
}

/// The work that exploring can still do: for every device not visited yet
/// among the first `k`, one step for the visit and one for each of its
/// ports.
pub open spec fn unvisited_weight(network: Network, visited: Seq<bool>, k: int) -> nat
    decreases k,
{
    if k <= 0 {
        0
    } else {
        unvisited_weight(network, visited, k - 1) + if visited[k - 1] {
            0nat
        } else {
            network.ports_at(k - 1).len() + 1
        }
    }
}

/// Visiting a device takes its share off the work that is left.
pub proof fn lemma_visit(network: Network, visited: Seq<bool>, cur: int, k: int)
    requires
        0 <= cur < visited.len(),
        !visited[cur],
        0 <= k <= visited.len(),
    ensures
        unvisited_weight(network, visited.update(cur, true), k) + (if cur < k {
            network.ports_at(cur).len() + 1
        } else {
            0nat
        }) == unvisited_weight(network, visited, k),
    decreases k,
{
    if k > 0 {
        lemma_visit(network, visited, cur, k - 1);
    }
}

/// Whether the name is that of one of the marked devices.
pub open spec fn is_marked_name(marked: Seq<PacketSpaceAwareDevice>, name: Seq<char>) -> bool {
    marked_names(marked).contains(name)
}

/// Whether device `i` was visited between the two states.
pub open spec fn newly(before: Seq<bool>, after: Seq<bool>, i: int) -> bool {
    0 <= i < before.len() && after[i] && !before[i]
}

/// Whether the neighborhood keeps marked and normal nodes apart as the
/// marked devices say, and holds every marked node as it was given.
pub open spec fn sorted_out(component: Neighborhood, marked: Seq<PacketSpaceAwareDevice>) -> bool {
    &&& forall|k: int|
        0 <= k < component.marked().len() ==> given_as(marked, #[trigger] component.marked()[k])
    &&& forall|x: Seq<char>| #[trigger] component.normal().contains(x) ==> !is_marked_name(marked, x)
}

/// Whether the node is one of the marked devices, with that device's
/// header set and number.
pub open spec fn given_as(marked: Seq<PacketSpaceAwareDevice>, node: PacketSpaceAwareDevice) -> bool {
    exists|m: int|
        0 <= m < marked.len() && (#[trigger] marked[m]).device_name@ == node.device_name@
            && marked[m].dst_prefix_bdd == node.dst_prefix_bdd && marked[m].device_id
            == node.device_id
}

/// The position of the first marked device of the given name.
fn marked_position(marked: &Vec<PacketSpaceAwareDevice>, name: &str) -> (r: Option<usize>)
    ensures
        match r {
            Some(m) => m < marked.len() && marked[m as int].device_name@ == name@,
            None => !is_marked_name(marked@, name@),
        },
{
    let mut m: usize = 0;
    while m < marked.len()
        invariant
            m <= marked.len(),
            forall|j: int| 0 <= j < m ==> (#[trigger] marked[j]).device_name@ != name@,
        decreases marked.len() - m,
    {
        if crate::util::text::text_eq(marked[m].device_name.as_str(), name) {
            return Some(m);
        }
        m += 1;
    }
    proof {
        if is_marked_name(marked@, name@) {
            let j = marked_names(marked@).index_of(name@);
            assert(marked_names(marked@)[j] == name@);
            assert(marked[j].device_name@ == name@);
        }
    }
    None
}

/// Whether the neighborhood holds what it held before and the devices
/// visited since.
pub open spec fn gathered(
    names: Seq<Seq<char>>,
    before: Neighborhood,
    after: Neighborhood,
    blocked: Seq<bool>,
    visited: Seq<bool>,
) -> bool {
    forall|x: Seq<char>|
        after.has_node(x) <==> before.has_node(x) || exists|i: int|
            #[trigger] newly(blocked, visited, i) && names[i] == x
}

/// Takes device `cur`, which is being visited, into the neighborhood: as
/// a marked node if it is one of the marked devices, as a normal node
/// otherwise.
fn enter_device(
    network: &Network,
    marked_nodes: &Vec<PacketSpaceAwareDevice>,
    cur: usize,
    component: &mut Neighborhood,
    Ghost(start_component): Ghost<Neighborhood>,
    Ghost(blocked): Ghost<Seq<bool>>,
    Ghost(visited0): Ghost<Seq<bool>>,
)
    requires
        network.wf(),
        cur < network.device_names().len(),
        visited0.len() == network.device_names().len(),
        blocked.len() == visited0.len(),
        !visited0[cur as int],
        forall|i: int| 0 <= i < blocked.len() && blocked[i] ==> #[trigger] visited0[i],
        old(component).wf(),
        sorted_out(*old(component), marked_nodes@),
        gathered(network.device_names(), start_component, *old(component), blocked, visited0),
    ensures
        final(component).wf(),
        sorted_out(*final(component), marked_nodes@),
        gathered(
            network.device_names(),
            start_component,
            *final(component),
            blocked,
            visited0.update(cur as int, true),
        ),
{
    let ghost names = network.device_names();
    let ghost marked = marked_nodes@;
    let ghost component0 = *component;
    let ghost visited1 = visited0.update(cur as int, true);
    let name = network.device_name_at(cur);
    assert(sorted_out(component0, marked));
    match marked_position(marked_nodes, name.as_str()) {
        Some(m) => {
            component.add_marked_node(marked_nodes[m].clone());
            proof {
                lemma_sorted_after_marked(component0, *component, marked, marked_nodes[m as int]);
            }
        },
        None => {
            component.add_normal_node(name.clone());
            proof {
                assert forall|x: Seq<char>| #[trigger]
                    component.normal().contains(x) implies !is_marked_name(marked, x) by {
                    if !component0.normal().contains(x) {
                        let nn = component.normal();
                        let j = nn.index_of(x);
                        assert(nn[j] == x);
                        assert(x == name@);
                    }
                }
                lemma_sorted_after_normal(component0, *component, marked);
            }
        },
    }
    proof {
        assert(newly(blocked, visited1, cur as int));
        assert forall|x: Seq<char>|
            component.has_node(x) <==> start_component.has_node(x) || exists|i: int|
                #[trigger] newly(blocked, visited1, i) && names[i] == x by {
            if component.has_node(x) {
                if x == names[cur as int] {
                    assert(newly(blocked, visited1, cur as int) && names[cur as int] == x);
                } else {
                    assert(component0.has_node(x));
                    if !start_component.has_node(x) {
                        let i = choose|i: int| #[trigger] newly(blocked, visited0, i) && names[i] == x;
                        assert(newly(blocked, visited1, i) && names[i] == x);
                    }
                }
            }
            if exists|i: int| #[trigger] newly(blocked, visited1, i) && names[i] == x {
                let i = choose|i: int| #[trigger] newly(blocked, visited1, i) && names[i] == x;
                if i != cur {
                    assert(newly(blocked, visited0, i) && names[i] == x);
                }
            }
        }
    }
}

/// Goes through the ports of device `cur`, which was entered with reach
/// `depth`, and puts on the stack every neighbor that is not visited yet:
/// a marked one with full reach, any other with one step less.
fn stack_neighbors(
    network: &Network,
    marked_nodes: &Vec<PacketSpaceAwareDevice>,
    cur: usize,
    depth: u8,
    visited: &Vec<bool>,
    stack: &mut Vec<(usize, u8)>,
    Ghost(blocked): Ghost<Seq<bool>>,
    Ghost(start): Ghost<int>,
)
    requires
        network.wf(),
        expanding(
            *network,
            marked_names(marked_nodes@),
            blocked,
            start,
            visited@,
            old(stack)@,
            cur as int,
            depth,
            0,
        ),
    ensures
        searching(*network, marked_names(marked_nodes@), blocked, start, visited@, final(stack)@),
        final(stack).len() <= old(stack).len() + network.ports_at(cur as int).len(),
{
    let ghost names = network.device_names();
    let ghost mk = marked_names(marked_nodes@);
    let cur_ports = network.device_ports_at(cur);
    let mut p: usize = 0;
    while p < cur_ports.len()
        invariant
            expanding(*network, mk, blocked, start, visited@, stack@, cur as int, depth, p as int),
            p <= cur_ports.len(),
            network.wf(),
            names == network.device_names(),
            mk == marked_names(marked_nodes@),
            cur_ports@ == network.ports_at(cur as int),
            stack.len() <= old(stack).len() + p,
        decreases cur_ports.len() - p,
    {
        let cur_port = &cur_ports[p];
        let ghost stack2 = stack@;
        let mut pushed = false;
        match cur_port.get_peer_port() {
            Some(peer) => {
                match network.device_index(peer.0.as_str()) {
                    Some(j) => {
                        assert(leads_to(*network, cur as int, p as int, j as int));
                        if !visited[j] {
                            let found = marked_position(marked_nodes, peer.0.as_str());
                            let new_depth: u8 = if found.is_some() {
                                2
                            } else {
                                depth - 1
                            };
                            stack.push((j, new_depth));
                            pushed = true;
                            proof {
                                assert(names[j as int] == peer.0@);
                                match found {
                                    Some(m) => {
                                        assert(mk[m as int] == peer.0@);
                                    },
                                    None => {},
                                }
                                assert(stack@ =~= stack2.push(
                                    (
                                        j,
                                        if mk.contains(names[j as int]) {
                                            2u8
                                        } else {
                                            (depth - 1) as u8
                                        },
                                    ),
                                ));
                                lemma_expand_push(
                                    *network,
                                    mk,
                                    blocked,
                                    start,
                                    visited@,
                                    stack2,
                                    cur as int,
                                    depth,
                                    p as int,
                                    j,
                                );
                            }
                        } else {
                            assert forall|w: int| #[trigger]
                                leads_to(*network, cur as int, p as int, w) implies visited[w] by {
                                assert(names[w] == names[j as int]);
                            }
                        }
                    },
                    None => {
                        assert forall|w: int| #[trigger]
                            leads_to(*network, cur as int, p as int, w) implies visited[w] by {
                            assert(names[w] == peer.0@);
                        }
                    },
                }
            },
            None => {},
        }
        proof {
            if !pushed {
                lemma_expand_pass(
                    *network,
                    mk,
                    blocked,
                    start,
                    visited@,
                    stack@,
                    cur as int,
                    depth,
                    p as int,
                );
            }
        }
        p += 1;
    }
    proof {
        lemma_expand_done(*network, mk, blocked, start, visited@, stack@, cur as int, depth);
    }
}

impl Simulator {
    /// Explores from a marked device and adds what it finds to the
    /// neighborhood. From a marked device every neighbor is taken, from any
    /// other device only the marked neighbors; devices visited before are
    /// left alone. A start that the topology does not know joins alone.
    ///
    /// The devices visited are those visited before and those that
    /// exploring reaches from the start, and the neighborhood gains the
    /// devices newly visited.
    pub fn bfs_explore(
        &self,
        marked_nodes: &Vec<PacketSpaceAwareDevice>,
        start_device: &PacketSpaceAwareDevice,
        visited: &mut Vec<bool>,
        component: &mut Neighborhood,
    )
        requires
            self.wf(),
            self.toponet().network().closed(),
            old(visited).len() == self.toponet().network().device_names().len(),
            old(component).wf(),
            sorted_out(*old(component), marked_nodes@),
            given_as(marked_nodes@, *start_device),
        ensures
            final(component).wf(),
            sorted_out(*final(component), marked_nodes@),
            final(visited).len() == old(visited).len(),
            forall|i: int| 0 <= i < old(visited).len() && old(visited)[i] ==> #[trigger] final(visited)[i],
            forall|x: Seq<char>|
                final(component).has_node(x) <==> old(component).has_node(x) || (exists|i: int|
                    #[trigger] newly(old(visited)@, final(visited)@, i)
                        && self.toponet().network().device_names()[i] == x) || (x
                    == start_device.device_name@
                    && !self.toponet().network().device_names().contains(x)),
            forall|i: int|
                0 <= i < old(visited).len() && self.toponet().network().device_names()[i]
                    == start_device.device_name@ ==> #[trigger] final(visited)[i],
            if self.toponet().network().device_names().contains(start_device.device_name@) {
                forall|i: int|
                    0 <= i < old(visited).len() ==> (#[trigger] final(visited)[i] <==> old(
                        visited,
                    )[i] || explored(
                        self.toponet().network(),
                        marked_names(marked_nodes@),
                        old(visited)@,
                        self.toponet().network().device_names().index_of(start_device.device_name@),
                        i,
                    ))
            } else {
                final(visited)@ == old(visited)@
            },
    {
        proof {
            self.src_toponet.lemma_wf();
        }
        let network = self.src_toponet.get_network();
        let ghost names = network.device_names();
        let ghost marked = marked_nodes@;
        let ghost mk = marked_names(marked_nodes@);
        proof {
            network.lemma_ports();
            let m = choose|m: int|
                0 <= m < marked.len() && (#[trigger] marked[m]).device_name@
                    == start_device.device_name@ && marked[m].dst_prefix_bdd
                    == start_device.dst_prefix_bdd && marked[m].device_id
                    == start_device.device_id;
            assert(mk[m] == start_device.device_name@);
        }
        let start = match network.device_index(start_device.device_name.as_str()) {
            Some(i) => i,
            None => {
                component.add_marked_node(start_device.clone());
                proof {
                    assert forall|x: Seq<char>|
                        component.has_node(x) <==> old(component).has_node(x) || (exists|i: int|
                            #[trigger] newly(old(visited)@, visited@, i) && names[i] == x) || (x
                            == start_device.device_name@ && !names.contains(x)) by {
                    }
                    lemma_sorted_after_marked(*old(component), *component, marked, *start_device);
                }
                return ;
            },
        };
        let mut stack: Vec<(usize, u8)> = Vec::new();
        stack.push((start, 2));
        proof {
            lemma_search_start(*network, mk, old(visited)@, start);
            assert(stack@ =~= seq![(start, 2u8)]);
        }
        while stack.len() > 0
            invariant
                searching(*network, mk, old(visited)@, start as int, visited@, stack@),
                network.wf(),
                *network == self.toponet().network(),
                names == network.device_names(),
                marked == marked_nodes@,
                mk == marked_names(marked_nodes@),
                visited.len() == names.len(),
                visited.len() == old(visited).len(),
                component.wf(),
                sorted_out(*component, marked),
                gathered(names, *old(component), *component, old(visited)@, visited@),
                start < names.len(),
                names[start as int] == start_device.device_name@,
            decreases unvisited_weight(*network, visited@, visited.len() as int) + stack.len(),
        {
            let ghost stack0 = stack@;
            let ghost visited0 = visited@;
            let (cur, depth) = stack.pop().unwrap();
            proof {
                assert(stack@ =~= stack0.drop_last());
                assert((cur, depth) == stack0.last());
                assert(crate::symbolic::proximity::entry_ok(
                    *network,
                    mk,
                    old(visited)@,
                    start as int,
                    stack0[stack0.len() - 1],
                ));
                if visited[cur as int] || depth == 0 {
                    lemma_search_skip(*network, mk, old(visited)@, start as int, visited0, stack0);
                } else {
                    lemma_search_visit(*network, mk, old(visited)@, start as int, visited0, stack0);
                }
            }
            if !(visited[cur] || depth == 0) {
                visited.set(cur, true);
                proof {
                    lemma_visit(*network, visited0, cur as int, visited.len() as int);
                    assert(visited@ =~= visited0.update(cur as int, true));
                }
                enter_device(
                    network,
                    marked_nodes,
                    cur,
                    component,
                    Ghost(*old(component)),
                    Ghost(old(visited)@),
                    Ghost(visited0),
                );
                stack_neighbors(
                    network,
                    marked_nodes,
                    cur,
                    depth,
                    visited,
                    &mut stack,
                    Ghost(old(visited)@),
                    Ghost(start as int),
                );
            }
        }
        proof {
            assert(stack@ =~= Seq::<(usize, u8)>::empty());
            lemma_search_done(*network, mk, old(visited)@, start as int, visited@);
            assert(names.index_of(start_device.device_name@) == start);
        }
    }
}

/// Adding a device that is not marked as a normal node keeps the
/// neighborhood sorted out.
proof fn lemma_sorted_after_normal(
    before: Neighborhood,
    after: Neighborhood,
    marked: Seq<PacketSpaceAwareDevice>,
)
    requires
        sorted_out(before, marked),
        after.marked() == before.marked(),
        forall|x: Seq<char>| #[trigger] after.normal().contains(x) ==> !is_marked_name(marked, x),
    ensures
        sorted_out(after, marked),
{
    assert forall|k: int| 0 <= k < after.marked().len() implies given_as(
        marked,
        #[trigger] after.marked()[k],
    ) by {
        assert(given_as(marked, before.marked()[k]));
    }
}

/// Adding one of the marked devices as a marked node keeps the
/// neighborhood sorted out.
proof fn lemma_sorted_after_marked(
    before: Neighborhood,
    after: Neighborhood,
    marked: Seq<PacketSpaceAwareDevice>,
    added: PacketSpaceAwareDevice,
)
    requires
        sorted_out(before, marked),
        after.normal() == before.normal(),
        given_as(marked, added),
        exists|a: PacketSpaceAwareDevice|
            a.device_name@ == added.device_name@ && a.dst_prefix_bdd == added.dst_prefix_bdd
                && a.device_id == added.device_id && #[trigger] after.marked() == (if marked_names(
                before.marked(),
            ).contains(a.device_name@) {
                before.marked().update(marked_names(before.marked()).index_of(a.device_name@), a)
            } else {
                before.marked().push(a)
            }),
    ensures
        sorted_out(after, marked),
{
    let a = choose|a: PacketSpaceAwareDevice|
        a.device_name@ == added.device_name@ && a.dst_prefix_bdd == added.dst_prefix_bdd
            && a.device_id == added.device_id && #[trigger] after.marked() == (if marked_names(
            before.marked(),
        ).contains(a.device_name@) {
            before.marked().update(marked_names(before.marked()).index_of(a.device_name@), a)
        } else {
            before.marked().push(a)
        });
    let m0 = choose|m: int|
        0 <= m < marked.len() && (#[trigger] marked[m]).device_name@ == added.device_name@
            && marked[m].dst_prefix_bdd == added.dst_prefix_bdd && marked[m].device_id
            == added.device_id;
    assert forall|k: int| 0 <= k < after.marked().len() implies given_as(
        marked,
        #[trigger] after.marked()[k],
    ) by {
        if after.marked()[k] == a {
            assert(marked[m0].device_name@ == after.marked()[k].device_name@);
        } else {
            assert(after.marked()[k] == before.marked()[k]);
            assert(given_as(marked, before.marked()[k]));
        }
    }
}

/// Whether the neighborhoods are those that the first `m` marked devices
/// found, in order, each with the devices that belong to it.
pub open spec fn housed(
    network: Network,
    marked: Seq<Seq<char>>,
    components: Seq<Neighborhood>,
    m: int,
) -> bool {
    &&& components.len() == founders(network, marked, m).len()
    &&& forall|c: int, x: Seq<char>|
        0 <= c < components.len() ==> (#[trigger] components[c].has_node(x) <==> member(
            network,
            marked,
            founders(network, marked, m)[c],
            x,
        ))
}

/// The neighborhood that marked device `m` founds joins those found
/// before.
proof fn lemma_housed_more(
    network: Network,
    marked: Seq<Seq<char>>,
    components: Seq<Neighborhood>,
    component: Neighborhood,
    m: int,
)
    requires
        0 <= m,
        housed(network, marked, components, m),
        founds(network, marked, m),
        forall|x: Seq<char>| component.has_node(x) <==> member(network, marked, m, x),
    ensures
        housed(network, marked, components.push(component), m + 1),
{
    let more = components.push(component);
    let f = founders(network, marked, m);
    assert(founders(network, marked, m + 1) == f.push(m));
    assert forall|c: int, x: Seq<char>| 0 <= c < more.len() implies (#[trigger] more[c].has_node(x)
        <==> member(network, marked, founders(network, marked, m + 1)[c], x)) by {
        if c < components.len() {
            assert(more[c] == components[c]);
            assert(f.push(m)[c] == f[c]);
        }
    }
}

/// Whether some neighborhood has the device as a node.
pub open spec fn covered(components: Seq<Neighborhood>, name: Seq<char>) -> bool {
    exists|c: int| 0 <= c < components.len() && (#[trigger] components[c]).has_node(name)
}

/// Whether no device is a node of two of the neighborhoods.
pub open spec fn disjoint(components: Seq<Neighborhood>) -> bool {
    forall|a: int, b: int, x: Seq<char>|
        0 <= a < b < components.len() ==> !(#[trigger] components[a].has_node(x)
            && #[trigger] components[b].has_node(x))
}

impl Simulator {
    /// Groups the marked devices into neighborhoods. The marked devices are
    /// taken in order; one that no neighborhood has yet starts a new
    /// neighborhood, which is explored from it.
    ///
    /// There is one neighborhood for every marked device that is not
    /// claimed when its turn comes, and it holds the devices claimed at
    /// that turn. Every neighborhood holds marked devices as they were
    /// given, every marked device is in a neighborhood, and, the marked
    /// devices having different names, no device is in two neighborhoods.
    #[verifier::loop_isolation(false)]
    pub fn two_hops_merge(&self, marked_nodes: &Vec<PacketSpaceAwareDevice>) -> (components: Vec<
        Neighborhood,
    >)
        requires
            self.wf(),
            self.toponet().network().closed(),
        ensures
            forall|c: int|
                0 <= c < components.len() ==> (#[trigger] components[c]).wf() && sorted_out(
                    components[c],
                    marked_nodes@,
                ),
            forall|m: int|
                0 <= m < marked_nodes.len() ==> covered(
                    components@,
                    (#[trigger] marked_nodes[m]).device_name@,
                ),
            marked_names(marked_nodes@).no_duplicates() ==> disjoint(components@),
            forall|c: int, x: Seq<char>|
                0 <= c < components.len() && #[trigger] components[c].has_node(x) ==> is_marked_name(
                    marked_nodes@,
                    x,
                ) || self.toponet().network().device_names().contains(x),
            components.len() <= marked_nodes.len(),
            housed(
                self.toponet().network(),
                marked_names(marked_nodes@),
                components@,
                marked_nodes.len() as int,
            ),
    {
        proof {
            self.src_toponet.lemma_wf();
        }
        let network = self.src_toponet.get_network();
        let ghost names = network.device_names();
        let ghost marked = marked_nodes@;
        let ghost mk = marked_names(marked_nodes@);
        proof {
            network.lemma_ports();
        }
        let mut visited: Vec<bool> = Vec::new();
        let mut k: usize = 0;
        while k < network.device_count()
            invariant
                k <= names.len(),
                visited.len() == k,
                forall|j: int| 0 <= j < k ==> !#[trigger] visited[j],
            decreases names.len() - k,
        {
            visited.push(false);
            k += 1;
        }
        let mut components: Vec<Neighborhood> = Vec::new();
        let mut m: usize = 0;
        proof {
            assert(visited@ =~= claimed(*network, mk, 0));
        }
        while m < marked_nodes.len()
            invariant
                m <= marked_nodes.len(),
                visited.len() == names.len(),
                visited@ == claimed(*network, mk, m as int),
                housed(*network, mk, components@, m as int),
                forall|c: int|
                    0 <= c < components.len() ==> (#[trigger] components[c]).wf() && sorted_out(
                        components[c],
                        marked,
                    ),
                forall|j: int| 0 <= j < m ==> covered(components@, (#[trigger] marked[j]).device_name@),
                forall|i: int|
                    0 <= i < names.len() ==> (#[trigger] visited[i] <==> covered(
                        components@,
                        names[i],
                    )),
                forall|c: int, x: Seq<char>|
                    0 <= c < components.len() && #[trigger] components[c].has_node(x)
                        && !names.contains(x) ==> exists|j: int|
                        0 <= j < m && (#[trigger] marked[j]).device_name@ == x,
                marked_names(marked).no_duplicates() ==> disjoint(components@),
                components.len() <= m,
            decreases marked_nodes.len() - m,
        {
            let device = &marked_nodes[m];
            let seen = match network.device_index(device.device_name.as_str()) {
                Some(i) => visited[i],
                None => false,
            };
            assert(mk[m as int] == device.device_name@);
            assert(seen == !founds(*network, mk, m as int));
            if !seen {
                let mut component = Neighborhood::new();
                let ghost visited0 = visited@;
                let ghost components0 = components@;
                proof {
                    assert(marked[m as int].device_name@ == device.device_name@);
                    assert(given_as(marked, *device));
                }
                let ghost fresh = component;
                self.bfs_explore(marked_nodes, device, &mut visited, &mut component);
                components.push(component);
                proof {
                    lemma_turn(*network, mk, m as int, visited@);
                    assert forall|x: Seq<char>|
                        component.has_node(x) <==> member(*network, mk, m as int, x) by {
                        assert(!fresh.has_node(x));
                        if names.contains(mk[m as int]) {
                            if exists|i: int| #[trigger] newly(visited0, visited@, i) && names[i] == x {
                                let i = choose|i: int|
                                    #[trigger] newly(visited0, visited@, i) && names[i] == x;
                                assert(joins(*network, mk, m as int, i));
                            }
                            if member(*network, mk, m as int, x) {
                                let i = choose|i: int|
                                    #[trigger] joins(*network, mk, m as int, i) && names[i] == x;
                                assert(newly(visited0, visited@, i) && names[i] == x);
                            }
                        }
                    }
                    lemma_housed_more(*network, mk, components0, component, m as int);
                    let last = components0.len() as int;
                    assert(components@[last] == component);
                    assert forall|c: int| 0 <= c < components0.len() implies components@[c]
                        == components0[c] by {
                    }
                    assert forall|x: Seq<char>| covered(components0, x) implies covered(
                        components@,
                        x,
                    ) by {
                        let c = choose|c: int|
                            0 <= c < components0.len() && (#[trigger] components0[c]).has_node(x);
                        assert(components@[c].has_node(x));
                    }
                    assert(component.has_node(device.device_name@)) by {
                        if names.contains(device.device_name@) {
                            let i = names.index_of(device.device_name@);
                            assert(names[i] == device.device_name@);
                            assert(visited[i]);
                            assert(newly(visited0, visited@, i));
                        }
                    }
                    assert(covered(components@, marked[m as int].device_name@));
                    assert forall|i: int| 0 <= i < names.len() implies (#[trigger] visited[i]
                        <==> covered(components@, names[i])) by {
                        if visited[i] {
                            if visited0[i] {
                                assert(covered(components0, names[i]));
                            } else {
                                assert(newly(visited0, visited@, i));
                                assert(component.has_node(names[i]));
                            }
                        }
                        if covered(components@, names[i]) {
                            let c = choose|c: int|
                                0 <= c < components.len() && (#[trigger] components[c]).has_node(
                                    names[i],
                                );
                            if c < last {
                                assert(covered(components0, names[i]));
                            } else {
                                let j = choose|j: int|
                                    #[trigger] newly(visited0, visited@, j) && names[j] == names[i];
                                assert(j == i);
                            }
                        }
                    }
                    assert forall|c: int, x: Seq<char>|
                        0 <= c < components.len() && #[trigger] components[c].has_node(x)
                            && !names.contains(x) implies exists|j: int|
                        0 <= j < m + 1 && (#[trigger] marked[j]).device_name@ == x by {
                        if c < last {
                            let j = choose|j: int| 0 <= j < m && (#[trigger] marked[j]).device_name@ == x;
                            assert(0 <= j < m + 1 && marked[j].device_name@ == x);
                        } else {
                            assert(x == device.device_name@);
                            assert(marked[m as int].device_name@ == x);
                        }
                    }
                    if marked_names(marked).no_duplicates() {
                        assert forall|a: int, b: int, x: Seq<char>|
                            0 <= a < b < components.len() implies !(#[trigger] components[a].has_node(
                            x,
                        ) && #[trigger] components[b].has_node(x)) by {
                            if b == last && components[a].has_node(x) && components[b].has_node(x) {
                                assert(covered(components0, x));
                                if names.contains(x) {
                                    let i = names.index_of(x);
                                    assert(names[i] == x);
                                    assert(visited0[i]);
                                    let j = choose|j: int|
                                        #[trigger] newly(visited0, visited@, j) && names[j] == x;
                                    assert(j == i);
                                } else {
                                    let j = choose|j: int|
                                        0 <= j < m && (#[trigger] marked[j]).device_name@ == x;
                                    assert(marked_names(marked)[j] == x);
                                    assert(marked_names(marked)[m as int] == x);
                                }
                            }
                        }
                    }
                }
            } else {
                proof {
                    let i = names.index_of(device.device_name@);
                    assert(names[i] == device.device_name@);
                    assert(covered(components@, names[i]));
                    lemma_turn_passed(*network, mk, m as int);
                }
            }
            m += 1;
        }
        proof {
            assert forall|c: int, x: Seq<char>|
                0 <= c < components.len() && #[trigger] components[c].has_node(x) implies is_marked_name(
                marked,
                x,
            ) || names.contains(x) by {
                if !names.contains(x) {
                    let j = choose|j: int|
                        0 <= j < marked.len() && (#[trigger] marked[j]).device_name@ == x;
                    assert(marked_names(marked)[j] == x);
                }
            }
        }
        components
    }
}

/// Whether `marked` lists the devices with a declared subnet, in the order
/// of the network model, each with its subnet's header set and the number
/// of its device.
pub open spec fn marked_from(toponet: Toponet, marked: Seq<PacketSpaceAwareDevice>) -> bool {
    &&& marked.len() == toponet.packet_space_names().len()
    &&& forall|k: int|
        0 <= k < marked.len() ==> (#[trigger] marked[k]).device_name@
            == toponet.packet_space_names()[k] && marked[k].dst_prefix_bdd
            == toponet.packet_space_bdds()[k] && exists|i: int|
            is_first_named(toponet.devices(), marked[k].device_name@, i) && (
            #[trigger] toponet.devices()[i]).id() == marked[k].device_id
}

/// Whether the neighborhoods group the devices with a declared subnet:
/// they are the neighborhoods that these devices found, taken in the order
/// of their subnets, each with the devices that belong to it. Every
/// neighborhood holds marked devices as they are declared, every such
/// device is in exactly one neighborhood, and every node is a marked
/// device or a device of the network.
pub open spec fn grouped(toponet: Toponet, components: Seq<Neighborhood>) -> bool {
    exists|marked: Seq<PacketSpaceAwareDevice>|
        #![trigger marked_from(toponet, marked)]
        {
            &&& marked_from(toponet, marked)
            &&& components.len() <= marked.len()
            &&& forall|c: int|
                0 <= c < components.len() ==> (#[trigger] components[c]).wf() && sorted_out(
                    components[c],
                    marked,
                )
            &&& forall|m: int|
                0 <= m < marked.len() ==> covered(components, (#[trigger] marked[m]).device_name@)
            &&& disjoint(components)
            &&& forall|c: int, x: Seq<char>|
                0 <= c < components.len() && #[trigger] components[c].has_node(x) ==> is_marked_name(
                    marked,
                    x,
                ) || toponet.network().device_names().contains(x)
            &&& housed(
                toponet.network(),
                toponet.packet_space_names(),
                components,
                toponet.packet_space_names().len() as int,
            )
        }
}

/// Whether `net` is what the backward traversal of the neighborhood ends
/// with: the net laid out for the neighborhood, every node having
/// verified exactly the headers that can be derived at it.
pub open spec fn traversed(toponet: Toponet, neighborhood: Neighborhood, net: NPNet) -> bool {
    exists|start: NPNet|
        #![trigger start.built_on(toponet)]
        {
            &&& start.wf()
            &&& start.fresh()
            &&& start.built_on(toponet)
            &&& start.neighborhood == neighborhood
            &&& toponet.all_space() == Some(start.all_subnet_space)
            &&& grown(start, net)
            &&& forall|i: int|
                0 <= i < start.nodes.len() ==> bdd_sat((#[trigger] net.nodes[i]).verified_space)
                    == reach_space(flow_model(start, toponet.devices(), TraversalType::Backward), i)
        }
}

/// Over all the nets, the pairs of one of the given devices and a marked
/// node other than the device that are reachable (`reach`) or are not
/// (`!reach`), going backward.
pub open spec fn pairs_total(nets: Seq<NPNet>, pair_devices: Seq<Seq<char>>, reach: bool) -> nat
    decreases nets.len(),
{
    if nets.len() == 0 {
        0
    } else {
        backward_total(nets[0], pair_devices, pair_devices.len() as int, reach) + pairs_total(
            nets.skip(1),
            pair_devices,
            reach,
        )
    }
}

/// Whether the verification has what it needs: every device with a
/// declared subnet is among the devices and, if there is such a device at
/// all, the union of the subnets is there and every edge device is among
/// the devices.
pub open spec fn verifiable(toponet: Toponet, edge_devices: Seq<Seq<char>>) -> bool {
    &&& forall|k: int|
        0 <= k < toponet.packet_space_names().len() ==> !no_device_named(
            toponet.devices(),
            #[trigger] toponet.packet_space_names()[k],
        )
    &&& toponet.packet_space_names().len() > 0 ==> toponet.all_space().is_some() && forall|s: int|
        0 <= s < edge_devices.len() ==> !no_device_named(toponet.devices(), #[trigger] edge_devices[s])
}

/// The sum of two counts, or the largest number if the sum is larger.
fn sum_capped(a: usize, b: usize, Ghost(x): Ghost<nat>, Ghost(y): Ghost<nat>) -> (r: usize)
    requires
        a == capped(x),
        b == capped(y),
    ensures
        r == capped(x + y),
{
    if a > usize::MAX - b {
        usize::MAX
    } else {
        a + b
    }
}

/// What loading leaves of the devices that were given: each has the subnet
/// declared for it as its subnet space, its rules compiled, and its
/// position as its number.
pub open spec fn devices_loaded(
    given: Seq<Device>,
    loaded: Seq<Device>,
    packets: Seq<Packet>,
    network: Network,
    n: nat,
    common_prefix: Seq<char>,
    all_space: Set<Seq<bool>>,
) -> bool {
    exists|declared: Seq<Device>, encoded: Seq<Device>, compiled: Seq<Device>|
        #![trigger stages(given, declared, encoded, compiled, loaded)]
        {
            &&& stages(given, declared, encoded, compiled, loaded)
            &&& forall|i: int|
                0 <= i < given.len() ==> subnet_declared(
                    given,
                    i,
                    #[trigger] declared[i],
                    packets,
                    packets.len() as int,
                )
            &&& forall|i: int|
                0 <= i < given.len() ==> crate::symbolic::toponet::subnet_encoded(
                    declared[i],
                    #[trigger] encoded[i],
                    n,
                )
            &&& forall|i: int|
                0 <= i < given.len() ==> crate::symbolic::toponet::device_encoded(
                    encoded[i],
                    #[trigger] compiled[i],
                    network,
                    n,
                    common_prefix,
                    all_space,
                    false,
                )
            &&& forall|i: int|
                0 <= i < given.len() ==> (#[trigger] loaded[i]).id() == i && bdd_sat(
                    loaded[i].id_space(),
                ) == src_device_space(n, i as usize) && loaded[i].name() == compiled[i].name()
                    && loaded[i].rules() == compiled[i].rules() && loaded[i].packet_space()
                    == compiled[i].packet_space() && loaded[i].forwardable()
                    == compiled[i].forwardable() && loaded[i].subnet() == compiled[i].subnet()
                    && loaded[i].lec_ports() == compiled[i].lec_ports() && loaded[i].groups()
                    == compiled[i].groups() && (forall|p: Seq<char>|
                    loaded[i].space_id_of(p) == compiled[i].space_id_of(p))
        }
}

/// Whether `declared` is what declaring the subnets leaves of the devices.
pub open spec fn declared_from(given: Seq<Device>, declared: Seq<Device>, packets: Seq<Packet>) -> bool {
    declared.len() == given.len() && forall|i: int|
        0 <= i < given.len() ==> subnet_declared(
            given,
            i,
            #[trigger] declared[i],
            packets,
            packets.len() as int,
        )
}

/// Whether `encoded` is what encoding the subnets leaves of the devices.
pub open spec fn encoded_from(declared: Seq<Device>, encoded: Seq<Device>, n: nat) -> bool {
    encoded.len() == declared.len() && forall|i: int|
        0 <= i < declared.len() ==> crate::symbolic::toponet::subnet_encoded(
            declared[i],
            #[trigger] encoded[i],
            n,
        )
}

/// What a failure of loading says. Two devices of one name, or a
/// destination that is no device: `UnknownDevice`. A declared subnet that
/// cannot be encoded: `BadPrefix`. Up to there the space of all subnets is
/// as it was. Otherwise the compiling of the rules has failed, against the
/// space of all subnets as it is then: the union of the destinations'
/// subnets or, where no destination declares one, what it was. So the
/// failure is `NoPacketSpace` only where there was no such space and no
/// destination declares a subnet.
pub open spec fn load_failure(
    e: EngineError,
    given: Seq<Device>,
    packets: Seq<Packet>,
    dst_devices: Seq<Seq<char>>,
    network: Network,
    n: nat,
    common_prefix: Seq<char>,
    all_before: Option<Bdd>,
    all_space: Option<Bdd>,
    table_len: nat,
) -> bool {
    if !names_distinct(given) {
        e == EngineError::UnknownDevice && all_space == all_before
    } else {
        exists|declared: Seq<Device>, encoded: Seq<Device>|
            #![trigger declared_from(given, declared, packets), encoded_from(declared, encoded, n)]
            declared_from(given, declared, packets) && if !crate::symbolic::toponet::subnets_ok(
                declared,
                n,
            ) {
                e == EngineError::BadPrefix && all_space == all_before
            } else if !crate::symbolic::toponet::devices_known(given, dst_devices) {
                e == EngineError::UnknownDevice && all_space == all_before
            } else {
                &&& encoded_from(declared, encoded, n)
                &&& if no_subnet_declared(declared, dst_devices) {
                    all_space == all_before
                } else {
                    all_space.is_some()
                }
                &&& crate::symbolic::toponet::pass_failure(
                    e,
                    encoded,
                    network,
                    n,
                    common_prefix,
                    all_space,
                    false,
                    table_len,
                )
            }
    }
}

/// Whether none of the destinations declares a subnet: no device that is
/// the first of a destination's name has one.
pub open spec fn no_subnet_declared(declared: Seq<Device>, dst_devices: Seq<Seq<char>>) -> bool {
    forall|name: Seq<char>, i: int|
        dst_devices.contains(name) && #[trigger] is_first_named(declared, name, i)
            ==> declared[i].packet_space().is_none()
}

/// Devices with the same rules weigh the same.
proof fn lemma_same_weight(a: Seq<Device>, b: Seq<Device>, k: int)
    requires
        0 <= k <= a.len(),
        a.len() == b.len(),
        forall|i: int| 0 <= i < a.len() ==> (#[trigger] b[i]).rules() == a[i].rules(),
    ensures
        crate::symbolic::toponet::pass_weight(a, k) == crate::symbolic::toponet::pass_weight(b, k),
    decreases k,
{
    if k > 0 {
        lemma_same_weight(a, b, k - 1);
        assert(b[k - 1].rules() == a[k - 1].rules());
    }
}

/// Declaring subnets changes no name, so the same names are those of
/// devices before and after.
proof fn lemma_same_names_known(
    given: Seq<Device>,
    declared: Seq<Device>,
    packets: Seq<Packet>,
    names: Seq<Seq<char>>,
)
    requires
        declared_from(given, declared, packets),
    ensures
        crate::symbolic::toponet::devices_known(given, names)
            == crate::symbolic::toponet::devices_known(declared, names),
{
    assert forall|i: int| 0 <= i < given.len() implies (#[trigger] declared[i]).name()
        == given[i].name() by {
        assert(subnet_declared(given, i, declared[i], packets, packets.len() as int));
    }
    assert forall|x: Seq<char>| no_device_named(given, x) == no_device_named(declared, x) by {
        if !no_device_named(given, x) {
            let i = choose|i: int| 0 <= i < given.len() && (#[trigger] given[i]).name() == x;
            assert(declared[i].name() == x);
        }
        if !no_device_named(declared, x) {
            let i = choose|i: int| 0 <= i < declared.len() && (#[trigger] declared[i]).name() == x;
            assert(given[i].name() == x);
        }
    }
}

/// The device lists of the stages of loading all have one length.
pub open spec fn stages(
    given: Seq<Device>,
    declared: Seq<Device>,
    encoded: Seq<Device>,
    compiled: Seq<Device>,
    loaded: Seq<Device>,
) -> bool {
    declared.len() == given.len() && encoded.len() == given.len() && compiled.len() == given.len()
        && loaded.len() == given.len()
}

impl Simulator {
    /// Loads the devices: declares the subnets, encodes them, compiles the
    /// rules of every device against the topology, numbers the devices and
    /// takes them up.
    ///
    /// Fails when a subnet or a rule cannot be encoded, when a destination
    /// is not among the devices, when two devices have one name, when no
    /// destination declares a subnet, or when the engine runs out of ids.
    /// After a failure the devices are not taken up. The canonical table
    /// grows by no more than one diagram and the weight of the devices, so
    /// that a table with that much room left does not fill up.
    pub fn read_devices_and_encode(&mut self, tmp_devices: Vec<Device>, packets: Vec<Packet>) -> (r:
        Result<(), EngineError>)
        requires
            old(self).wf(),
            devices_wf(tmp_devices@, old(self).engine().width()),
        ensures
            final(self).wf(),
            final(self).engine().extends(&old(self).engine()),
            final(self).engine().table@.len() <= old(self).engine().table@.len() + 1
                + crate::symbolic::toponet::pass_weight(tmp_devices@, tmp_devices.len() as int),
            final(self).toponet().network() == old(self).toponet().network(),
            final(self).devices_name() == old(self).devices_name(),
            final(self).edge_devices() == old(self).edge_devices(),
            final(self).dst_devices() == old(self).dst_devices(),
            match r {
                Ok(_) => {
                    &&& names_distinct(tmp_devices@)
                    &&& final(self).toponet().all_space().is_some()
                    &&& longest_common_prefix(
                        final(self).common_prefix(),
                        packets@.map_values(|p: Packet| p.prefix@),
                    )
                    &&& devices_loaded(
                        tmp_devices@,
                        final(self).toponet().devices(),
                        packets@,
                        final(self).toponet().network(),
                        final(self).engine().width(),
                        final(self).common_prefix(),
                        bdd_sat(final(self).toponet().all_space().unwrap()),
                    )
                },
                Err(e) => final(self).toponet().devices() == old(self).toponet().devices()
                    && load_failure(
                    e,
                    tmp_devices@,
                    packets@,
                    old(self).dst_devices(),
                    final(self).toponet().network(),
                    final(self).engine().width(),
                    final(self).common_prefix(),
                    old(self).toponet().all_space(),
                    final(self).toponet().all_space(),
                    final(self).engine().table@.len() as nat,
                ),
            },
    {
        let ghost given = tmp_devices@;
        let ghost n = self.bdd.width();
        let mut tmp_devices = tmp_devices;
        if !crate::symbolic::toponet::has_distinct_names(&tmp_devices) {
            return Err(EngineError::UnknownDevice);
        }
        self.set_packet_space(&mut tmp_devices, packets);
        let ghost declared = tmp_devices@;
        proof {
            assert forall|i: int| 0 <= i < declared.len() implies (#[trigger] declared[i]).wf()
                && declared[i].width() == n by {
                assert(subnet_declared(given, i, declared[i], packets@, packets.len() as int));
            }
        }
        match self.src_toponet.encode_packet_space_group(
            &self.bdd.engine,
            &mut tmp_devices,
            &self.dst_devices,
        ) {
            Ok(_) => {},
            Err(e) => {
                proof {
                    lemma_same_names_known(given, declared, packets@, old(self).dst_devices());
                    let unencoded = encoded_from(declared, declared, n);
                    assert(declared_from(given, declared, packets@));
                }
                return Err(e);
            },
        }
        let ghost encoded = tmp_devices@;
        proof {
            assert forall|i: int| 0 <= i < given.len() implies (#[trigger] encoded[i]).rules()
                == given[i].rules() by {
                assert(subnet_declared(given, i, declared[i], packets@, packets.len() as int));
                assert(crate::symbolic::toponet::subnet_encoded(declared[i], encoded[i], n));
            }
            lemma_same_weight(given, encoded, given.len() as int);
            self.src_toponet.lemma_wf();
            lemma_same_names_known(given, declared, packets@, old(self).dst_devices());
        }
        match self.src_toponet.encode_rule_npbdd(
            &mut self.bdd,
            &mut tmp_devices,
            self.common_prefix.as_str(),
            self.src_toponet.get_network(),
        ) {
            Ok(_) => {},
            Err(e) => {
                proof {
                    assert(declared_from(given, declared, packets@));
                    assert(encoded_from(declared, encoded, n));
                    let names = self.toponet().packet_space_names();
                    if no_subnet_declared(declared, old(self).dst_devices()) {
                        if names.len() > 0 {
                            assert(names.contains(names[0]));
                            let i = choose|i: int|
                                is_first_named(declared, names[0], i) && (
                                #[trigger] declared[i]).packet_space().is_some();
                            assert(is_first_named(declared, names[0], i));
                        }
                    } else {
                        let (name, i) = choose|name: Seq<char>, i: int|
                            old(self).dst_devices().contains(name) && #[trigger] is_first_named(
                                declared,
                                name,
                                i,
                            ) && declared[i].packet_space().is_some();
                        assert(names.contains(name));
                        let x = names.index_of(name);
                        assert(names.len() > 0);
                    }
                }
                return Err(e);
            },
        }
        let ghost compiled = tmp_devices@;
        self.assign_device_id_and_encode(&mut tmp_devices);
        let ghost loaded = tmp_devices@;
        proof {
            assert forall|i: int, j: int| 0 <= i < j < loaded.len() implies (#[trigger] loaded[i]).name()
                != (#[trigger] loaded[j]).name() by {
                assert(subnet_declared(given, i, declared[i], packets@, packets.len() as int));
                assert(subnet_declared(given, j, declared[j], packets@, packets.len() as int));
                assert(crate::symbolic::toponet::subnet_encoded(declared[i], encoded[i], n));
                assert(crate::symbolic::toponet::subnet_encoded(declared[j], encoded[j], n));
                assert(given[i].name() != given[j].name());
            }
        }
        let taken = self.src_toponet.set_arc_devices(tmp_devices);
        proof {
            assert(taken);
            assert(stages(given, declared, encoded, compiled, loaded));
        }
        Ok(())
    }

    /// The neighborhoods of the devices with a declared subnet. Fails when
    /// such a device is not among the devices.
    pub fn find_neighborhood_from_subnet_space(&self) -> (r: Result<Vec<Neighborhood>, EngineError>)
        requires
            self.wf(),
            self.toponet().network().closed(),
        ensures
            match r {
                Ok(components) => grouped(self.toponet(), components@) && forall|k: int|
                    0 <= k < self.toponet().packet_space_names().len() ==> !no_device_named(
                        self.toponet().devices(),
                        #[trigger] self.toponet().packet_space_names()[k],
                    ),
                Err(e) => e == EngineError::UnknownDevice && exists|k: int|
                    0 <= k < self.toponet().packet_space_names().len() && #[trigger] no_device_named(
                        self.toponet().devices(),
                        self.toponet().packet_space_names()[k],
                    ),
            },
    {
        proof {
            self.src_toponet.lemma_wf();
        }
        let toponet = &self.src_toponet;
        let devices = toponet.get_devices();
        let mut marked_nodes: Vec<PacketSpaceAwareDevice> = Vec::new();
        let mut k: usize = 0;
        while k < toponet.packet_space_count()
            invariant
                k <= toponet.packet_space_names().len(),
                toponet.wf(),
                *toponet == self.toponet(),
                toponet.packet_space_names().len() == toponet.packet_space_bdds().len(),
                devices@ == toponet.devices(),
                marked_nodes.len() == k,
                forall|x: int|
                    0 <= x < k ==> (#[trigger] marked_nodes[x]).device_name@
                        == toponet.packet_space_names()[x] && marked_nodes[x].dst_prefix_bdd
                        == toponet.packet_space_bdds()[x] && exists|i: int|
                        is_first_named(toponet.devices(), marked_nodes[x].device_name@, i) && (
                        #[trigger] toponet.devices()[i]).id() == marked_nodes[x].device_id,
            decreases toponet.packet_space_names().len() - k,
        {
            let device_name = toponet.packet_space_name_at(k);
            let space_bdd = toponet.packet_space_at(k);
            let idx = match find_device(devices, device_name.as_str()) {
                Some(i) => i,
                None => {
                    proof {
                        assert(no_device_named(
                            self.toponet().devices(),
                            self.toponet().packet_space_names()[k as int],
                        ));
                    }
                    return Err(EngineError::UnknownDevice);
                },
            };
            let device_id = devices[idx].get_device_id();
            let ghost before = marked_nodes@;
            marked_nodes.push(
                PacketSpaceAwareDevice::new(device_name.clone(), space_bdd.clone(), device_id),
            );
            proof {
                assert(is_first_named(toponet.devices(), device_name@, idx as int));
                assert(forall|x: int| 0 <= x < k ==> marked_nodes[x] == before[x]);
            }
            k += 1;
        }
        proof {
            assert(marked_from(self.toponet(), marked_nodes@));
            assert(marked_names(marked_nodes@) =~= toponet.packet_space_names());
        }
        Ok(self.two_hops_merge(&marked_nodes))
    }

    /// Verifies every neighborhood, going backward, and counts over all of
    /// them the pairs of an edge device and a marked device that are
    /// reachable and that are not.
    ///
    /// The counts are those of the traversed nets of a grouping of the
    /// devices with a declared subnet; a count too large for the machine
    /// is given as the largest number. Fails with `UnknownDevice` when a
    /// device with a declared subnet or, there being such devices and the
    /// union of their subnets, an edge device is not among the devices,
    /// and with `NoPacketSpace` when there are declared subnets without
    /// their union.
    pub fn verify_reachability_with_npnet(&self) -> (r: Result<(usize, usize), EngineError>)
        requires
            self.wf(),
            self.toponet().network().closed(),
        ensures
            r.is_ok() <==> verifiable(self.toponet(), self.edge_devices()),
            match r {
                Ok(counts) => exists|components: Seq<Neighborhood>, nets: Seq<NPNet>|
                    #![trigger grouped(self.toponet(), components), pairs_total(nets, self.edge_devices(), true)]
                    {
                        &&& grouped(self.toponet(), components)
                        &&& nets.len() == components.len()
                        &&& forall|c: int|
                            0 <= c < nets.len() ==> traversed(
                                self.toponet(),
                                components[c],
                                #[trigger] nets[c],
                            )
                        &&& counts.0 == capped(pairs_total(nets, self.edge_devices(), true))
                        &&& counts.1 == capped(pairs_total(nets, self.edge_devices(), false))
                    },
                Err(e) => if self.toponet().packet_space_names().len() > 0
                    && self.toponet().all_space().is_none() && forall|k: int|
                    0 <= k < self.toponet().packet_space_names().len() ==> !no_device_named(
                        self.toponet().devices(),
                        #[trigger] self.toponet().packet_space_names()[k],
                    ) {
                    e == EngineError::NoPacketSpace
                } else {
                    e == EngineError::UnknownDevice
                },
            },
    {
        proof {
            self.src_toponet.lemma_wf();
        }
        let ghost toponet = self.toponet();
        let ghost edge = self.edge_devices();
        let mut neighborhoods = match self.find_neighborhood_from_subnet_space() {
            Ok(v) => v,
            Err(e) => {
                return Err(e);
            },
        };
        let ghost components = neighborhoods@;
        let ghost marked = choose|marked: Seq<PacketSpaceAwareDevice>|
            #![trigger marked_from(toponet, marked)]
            {
                &&& marked_from(toponet, marked)
                &&& components.len() <= marked.len()
                &&& forall|c: int|
                    0 <= c < components.len() ==> (#[trigger] components[c]).wf() && sorted_out(
                        components[c],
                        marked,
                    )
                &&& forall|m: int|
                    0 <= m < marked.len() ==> covered(components, (#[trigger] marked[m]).device_name@)
                &&& disjoint(components)
                &&& forall|c: int, x: Seq<char>|
                    0 <= c < components.len() && #[trigger] components[c].has_node(x)
                        ==> is_marked_name(marked, x) || toponet.network().device_names().contains(x)
            };
        proof {
            if marked.len() > 0 {
                assert(covered(components, marked[0].device_name@));
            }
            assert(components.len() > 0 <==> toponet.packet_space_names().len() > 0);
        }
        let mut reach: usize = 0;
        let mut unreach: usize = 0;
        let ghost mut nets = Seq::<NPNet>::empty();
        while neighborhoods.len() > 0
            invariant
                self.wf(),
                toponet == self.toponet(),
                edge == self.edge_devices(),
                devices_wf(toponet.devices(), toponet.width()),
                names_distinct(toponet.devices()),
                marked_from(toponet, marked),
                grouped(toponet, components),
                neighborhoods.len() <= components.len(),
                forall|c: int| 0 <= c < neighborhoods.len() ==> #[trigger] neighborhoods[c] == components[c],
                forall|c: int|
                    0 <= c < components.len() ==> (#[trigger] components[c]).wf() && sorted_out(
                        components[c],
                        marked,
                    ),
                forall|i: int|
                    0 <= i < toponet.packet_space_bdds().len() ==> is_space(
                        #[trigger] toponet.packet_space_bdds()[i],
                        toponet.width(),
                    ),
                toponet.packet_space_names().len() == toponet.packet_space_bdds().len(),
                forall|k: int|
                    0 <= k < toponet.packet_space_names().len() ==> !no_device_named(
                        toponet.devices(),
                        #[trigger] toponet.packet_space_names()[k],
                    ),
                nets.len() == components.len() - neighborhoods.len(),
                forall|c: int|
                    0 <= c < nets.len() ==> traversed(
                        toponet,
                        components[neighborhoods.len() + c],
                        #[trigger] nets[c],
                    ),
                reach == capped(pairs_total(nets, edge, true)),
                unreach == capped(pairs_total(nets, edge, false)),
                nets.len() > 0 ==> toponet.all_space().is_some() && forall|s: int|
                    0 <= s < edge.len() ==> !no_device_named(toponet.devices(), #[trigger] edge[s]),
            decreases neighborhoods.len(),
        {
            let ghost at = neighborhoods.len() - 1;
            let neighborhood = neighborhoods.pop().unwrap();
            proof {
                assert(neighborhood == components[at]);
                assert(components[at].wf() && sorted_out(components[at], marked));
                assert forall|k: int| 0 <= k < neighborhood.marked().len() implies !no_device_named(
                    toponet.devices(),
                    (#[trigger] neighborhood.marked()[k]).device_name@,
                ) && crate::kernel::bdd_width(neighborhood.marked()[k].dst_prefix_bdd)
                    == toponet.width() by {
                    let m = choose|m: int|
                        0 <= m < marked.len() && (#[trigger] marked[m]).device_name@ == (
                        #[trigger] neighborhood.marked()[k]).device_name@ && marked[m].dst_prefix_bdd
                            == neighborhood.marked()[k].dst_prefix_bdd && marked[m].device_id
                            == neighborhood.marked()[k].device_id;
                    assert(marked[m].device_name@ == toponet.packet_space_names()[m]);
                    assert(!no_device_named(toponet.devices(), toponet.packet_space_names()[m]));
                    assert(is_space(toponet.packet_space_bdds()[m], toponet.width()));
                }
            }
            let mut npnet = match NPNet::new_with_src_toponet(
                &self.src_toponet,
                neighborhood,
                &self.bdd.engine,
            ) {
                Ok(net) => net,
                Err(e) => {
                    proof {
                        assert(toponet.all_space().is_none());
                        assert(e == EngineError::NoPacketSpace);
                    }
                    return Err(e);
                },
            };
            let ghost start = npnet;
            npnet.iterative_traversal(
                &self.src_toponet,
                &self.bdd.engine,
                TraversalType::Backward,
                InvariantType::Reachability,
            );
            proof {
                assert(start.built_on(toponet));
                assert(traversed(toponet, neighborhood, npnet));
                assert forall|x: Seq<char>|
                    has_node_named(npnet.nodes@, x) == !no_device_named(toponet.devices(), x) by {
                    lemma_nodes_named(toponet, start, npnet, x);
                }
            }
            let counts = match npnet.check_reachability(
                &self.src_toponet,
                &self.bdd.engine,
                &self.edge_devices,
                TraversalType::Backward,
            ) {
                Ok(c) => c,
                Err(e) => {
                    proof {
                        let s = choose|s: int|
                            0 <= s < self.edge_devices.len() && !has_node_named(
                                npnet.nodes@,
                                (#[trigger] self.edge_devices[s])@,
                            );
                        assert(edge[s] == self.edge_devices[s]@);
                        assert(no_device_named(toponet.devices(), edge[s]));
                    }
                    return Err(e);
                },
            };
            proof {
                assert forall|s: int| 0 <= s < edge.len() implies !no_device_named(
                    toponet.devices(),
                    #[trigger] edge[s],
                ) by {
                    assert(has_node_named(npnet.nodes@, edge[s]));
                }
                let grown_nets = seq![npnet] + nets;
                assert(grown_nets.skip(1) =~= nets);
                assert(grown_nets[0] == npnet);
            }
            reach = sum_capped(
                counts.0,
                reach,
                Ghost(backward_total(npnet, edge, edge.len() as int, true)),
                Ghost(pairs_total(nets, edge, true)),
            );
            unreach = sum_capped(
                counts.1,
                unreach,
                Ghost(backward_total(npnet, edge, edge.len() as int, false)),
                Ghost(pairs_total(nets, edge, false)),
            );
            proof {
                let before = nets;
                nets = seq![npnet] + nets;
                assert forall|c: int| 0 <= c < nets.len() implies traversed(
                    toponet,
                    components[neighborhoods.len() + c],
                    #[trigger] nets[c],
                ) by {
                    if c > 0 {
                        assert(nets[c] == before[c - 1]);
                        assert(traversed(toponet, components[at + 1 + (c - 1)], before[c - 1]));
                    }
                }
            }
        }
        proof {
            assert(neighborhoods.len() == 0);
            assert(pairs_total(Seq::<NPNet>::empty(), edge, true) == 0);
        }
        Ok((reach, unreach))
    }
}

/// Where a node has a name, there is a first node of that name.
proof fn lemma_first_node(nodes: Seq<NPNetNode>, x: Seq<char>, i: int)
    requires
        0 <= i < nodes.len(),
        nodes[i].name@ == x,
    ensures
        has_node_named(nodes, x),
    decreases i,
{
    if exists|j: int| 0 <= j < i && (#[trigger] nodes[j]).name@ == x {
        let j = choose|j: int| 0 <= j < i && (#[trigger] nodes[j]).name@ == x;
        lemma_first_node(nodes, x, j);
    } else {
        assert(is_node_named(nodes, x, i));
    }
}

/// The nodes of a net that was laid out over the devices have the
/// devices' names.
pub proof fn lemma_nodes_named(toponet: Toponet, start: NPNet, net: NPNet, x: Seq<char>)
    requires
        start.built_on(toponet),
        grown(start, net),
    ensures
        has_node_named(net.nodes@, x) == !no_device_named(toponet.devices(), x),
{
    if has_node_named(net.nodes@, x) {
        let i = choose|i: int| is_node_named(net.nodes@, x, i);
        assert(net.nodes[i].name@ == start.nodes[i].name@);
        assert(toponet.devices()[i].name() == x);
    }
    if !no_device_named(toponet.devices(), x) {
        let i = choose|i: int| 0 <= i < toponet.devices().len() && (#[trigger] toponet.devices()[i]).name() == x;
        assert(net.nodes[i].name@ == start.nodes[i].name@);
        lemma_first_node(net.nodes@, x, i);
    }
}

} // verus!
