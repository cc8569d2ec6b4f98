//! A neighborhood: the devices around some declared subnets that are
//! verified together.
use crate::util::name_map::NameMap;
use crate::util::text::{contains_text, texts};
use biodivine_lib_bdd::Bdd;
use vstd::prelude::*;

verus! {

/// A device with a declared subnet: its name, the subnet's header set and
/// the device's number.
pub struct PacketSpaceAwareDevice {
    pub device_name: String,
    pub dst_prefix_bdd: Bdd,
    pub device_id: usize,
}

impl PacketSpaceAwareDevice {
    pub fn new(device_name: String, dst_prefix_bdd: Bdd, device_id: usize) -> (r: Self)
        ensures
            r.device_name == device_name,
            r.dst_prefix_bdd == dst_prefix_bdd,
            r.device_id == device_id,
    {
        Self { device_name, dst_prefix_bdd, device_id }
    }
}

impl Clone for PacketSpaceAwareDevice {
    fn clone(&self) -> (r: Self)
        ensures
            r.device_name@ == self.device_name@,
            r.dst_prefix_bdd == self.dst_prefix_bdd,
            r.device_id == self.device_id,
    {
        Self {
            device_name: self.device_name.clone(),
            dst_prefix_bdd: self.dst_prefix_bdd.clone(),
            device_id: self.device_id,
        }
    }
}

/// The names of a list of marked devices.
pub open spec fn marked_names(marked: Seq<PacketSpaceAwareDevice>) -> Seq<Seq<char>> {
    marked.map_values(|d: PacketSpaceAwareDevice| d.device_name@)
}

pub struct Neighborhood {
    marked_index: NameMap<usize>,
    local_marked_nodes: Vec<PacketSpaceAwareDevice>,
    local_normal_nodes: Vec<String>,
}

impl Neighborhood {
    /// The marked nodes: the devices with a declared subnet, in the order
    /// in which they joined.
    pub closed spec fn marked(&self) -> Seq<PacketSpaceAwareDevice> {
        self.local_marked_nodes@
    }

    /// The names of the normal nodes, in the order in which they joined.
    pub closed spec fn normal(&self) -> Seq<Seq<char>> {
        texts(self.local_normal_nodes@)
    }

    /// No marked node and no normal node is listed twice.
    pub closed spec fn wf(&self) -> bool {
        &&& self.marked_index.wf()
        &&& self.marked_index.names() == marked_names(self.local_marked_nodes@)
        &&& forall|i: int|
            0 <= i < self.local_marked_nodes.len() ==> #[trigger] self.marked_index.values()[i] == i
        &&& texts(self.local_normal_nodes@).no_duplicates()
    }

    /// What well-formedness says.
    pub proof fn lemma_wf(&self)
        requires
            self.wf(),
        ensures
            marked_names(self.marked()).no_duplicates(),
            self.normal().no_duplicates(),
    {
    }

    /// Whether the device is a node of the neighborhood.
    pub open spec fn has_node(&self, name: Seq<char>) -> bool {
        marked_names(self.marked()).contains(name) || self.normal().contains(name)
    }

    pub fn new() -> (r: Self)
        ensures
            r.wf(),
            r.marked() == Seq::<PacketSpaceAwareDevice>::empty(),
            r.normal() == Seq::<Seq<char>>::empty(),
    {
        let r = Self {
            marked_index: NameMap::new(),
            local_marked_nodes: Vec::new(),
            local_normal_nodes: Vec::new(),
        };
        assert(marked_names(r.local_marked_nodes@) =~= Seq::<Seq<char>>::empty());
        assert(texts(r.local_normal_nodes@) =~= Seq::<Seq<char>>::empty());
        r
    }

    /// Adds a marked node; a marked node of the same name is replaced.
    pub fn add_marked_node(&mut self, packet_space_aware_device: PacketSpaceAwareDevice)
        requires
            old(self).wf(),
        ensures
            final(self).wf(),
            final(self).normal() == old(self).normal(),
            forall|x: Seq<char>|
                final(self).has_node(x) <==> old(self).has_node(x) || x
                    == packet_space_aware_device.device_name@,
            final(self).marked() == if marked_names(old(self).marked()).contains(
                packet_space_aware_device.device_name@,
            ) {
                old(self).marked().update(
                    marked_names(old(self).marked()).index_of(packet_space_aware_device.device_name@),
                    packet_space_aware_device,
                )
            } else {
                old(self).marked().push(packet_space_aware_device)
            },
    {
        let ghost names0 = marked_names(self.local_marked_nodes@);
        match self.marked_index.find(packet_space_aware_device.device_name.as_str()) {
            Some(i) => {
                self.local_marked_nodes.set(i, packet_space_aware_device);
                assert(marked_names(self.local_marked_nodes@) =~= names0);
            },
            None => {
                let pos = self.local_marked_nodes.len();
                self.marked_index.set(packet_space_aware_device.device_name.clone(), pos);
                self.local_marked_nodes.push(packet_space_aware_device);
                let ghost names1 = marked_names(self.local_marked_nodes@);
                assert(names1 =~= names0.push(packet_space_aware_device.device_name@));
                assert(names1[pos as int] == packet_space_aware_device.device_name@);
                assert forall|x: Seq<char>| names1.contains(x) <==> names0.contains(x) || x
                    == packet_space_aware_device.device_name@ by {
                    if names0.contains(x) {
                        let j = names0.index_of(x);
                        assert(names0[j] == x);
                        assert(names1[j] == x);
                    }
                    if names1.contains(x) {
                        let j = names1.index_of(x);
                        assert(names1[j] == x);
                        if j < pos {
                            assert(names0[j] == x);
                        }
                    }
                }
            },
        }
    }

    /// Adds a normal node unless it is one already.
    pub fn add_normal_node(&mut self, node: String)
        requires
            old(self).wf(),
        ensures
            final(self).wf(),
            final(self).marked() == old(self).marked(),
            forall|x: Seq<char>| final(self).has_node(x) <==> old(self).has_node(x) || x == node@,
            final(self).normal() == if old(self).normal().contains(node@) {
                old(self).normal()
            } else {
                old(self).normal().push(node@)
            },
    {
        if !contains_text(&self.local_normal_nodes, &node) {
            let ghost names0 = texts(self.local_normal_nodes@);
            self.local_normal_nodes.push(node);
            proof {
                let names1 = texts(self.local_normal_nodes@);
                assert(names1 =~= names0.push(node@));
                assert(names1[names0.len() as int] == node@);
                assert forall|x: Seq<char>| names1.contains(x) <==> names0.contains(x) || x
                    == node@ by {
                    if names0.contains(x) {
                        let j = names0.index_of(x);
                        assert(names0[j] == x);
                        assert(names1[j] == x);
                    }
                    if names1.contains(x) {
                        let j = names1.index_of(x);
                        assert(names1[j] == x);
                        if j < names0.len() {
                            assert(names0[j] == x);
                        }
                    }
                }
                assert forall|i: int, j: int|
                    0 <= i < names1.len() && 0 <= j < names1.len() && i != j implies names1[i]
                    != names1[j] by {
                    if i < names0.len() {
                        assert(names0.contains(names0[i]));
                    }
                    if j < names0.len() {
                        assert(names0.contains(names0[j]));
                    }
                }
            }
        }
    }

    pub fn is_neighborhood_node(&self, device_name: &str) -> (r: bool)
        requires
            self.wf(),
        ensures
            r == self.has_node(device_name@),
    {
        self.is_marked_node(device_name) || self.is_normal_node(device_name)
    }

    pub fn is_marked_node(&self, device_name: &str) -> (r: bool)
        requires
            self.wf(),
        ensures
            r == marked_names(self.marked()).contains(device_name@),
    {
        self.marked_index.contains_key(device_name)
    }

    pub fn is_normal_node(&self, device_name: &str) -> (r: bool)
        requires
            self.wf(),
        ensures
            r == self.normal().contains(device_name@),
    {
        let mut i: usize = 0;
        while i < self.local_normal_nodes.len()
            invariant
                i <= self.local_normal_nodes.len(),
                forall|j: int| 0 <= j < i ==> self.local_normal_nodes[j]@ != device_name@,
            decreases self.local_normal_nodes.len() - i,
        {
            if crate::util::text::text_eq(self.local_normal_nodes[i].as_str(), device_name) {
                assert(texts(self.local_normal_nodes@)[i as int] == device_name@);
                return true;
            }
            i += 1;
        }
        proof {
            let names = texts(self.local_normal_nodes@);
            if names.contains(device_name@) {
                let j = names.index_of(device_name@);
                assert(names[j] == device_name@);
                assert(self.local_normal_nodes[j]@ == device_name@);
            }
        }
        false
    }

    pub fn get_marked_nodes(&self) -> (r: &Vec<PacketSpaceAwareDevice>)
        ensures
            r@ == self.marked(),
    {
        &self.local_marked_nodes
    }

    pub fn get_normal_nodes(&self) -> (r: &Vec<String>)
        ensures
            texts(r@) == self.normal(),
    {
        &self.local_normal_nodes
    }
}

} // verus!
