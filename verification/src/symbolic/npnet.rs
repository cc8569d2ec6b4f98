//! The two-region traversal of one neighborhood.
//!
//! Every device is a node. The nodes of the neighborhood form the inner
//! area, all others the outer area; a port whose link crosses from one area
//! to the other is a tunnel. Header sets arrive at nodes, are carried along
//! the links as far as the forwarding rules let them through, and collect in
//! each node's verified space. The two areas are traversed in turn, the
//! tunnels handing over between them, until no tunnel holds an arrival.
use crate::kernel::{all_valuations, bdd_reduced, bdd_sat, is_space, spaces_union};
use crate::symbolic::device::Device;
use crate::symbolic::flow::{
    flow_model, flowing, guard, lemma_entry_finished, lemma_entry_sound, lemma_hop_blocked,
    lemma_hop_to_node, lemma_hop_to_tunnel, lemma_passed_on_kept, passed_on, reach_space, reached,
    state_of, union_of, FlowModel,
};
use crate::symbolic::neighborhood::{marked_names, Neighborhood, PacketSpaceAwareDevice};
use crate::symbolic::progress::{lemma_missing_all_shrinks, missing_all};
use crate::symbolic::toponet::{names_distinct, no_device_named, Toponet};
use crate::util::device_port::DevicePort;
use crate::util::name_map::NameMap;
use crate::util::npbdd::{src_device_space, Engine, EngineError};
use biodivine_lib_bdd::Bdd;
use vstd::prelude::*;

verus! {

/// The direction in which header sets travel.
#[derive(Debug, Clone, Copy, PartialEq, Eq, Structural)]
pub enum TraversalType {
    /// From the sources along the forwarding direction.
    Forward,
    /// From the destinations against the forwarding direction.
    Backward,
}

/// What the traversal is to establish.
#[derive(Debug, Clone, Copy, PartialEq, Eq, Structural)]
pub enum InvariantType {
    Reachability,
}

/// Whether every diagram in the list is a space of width `n`.
pub open spec fn all_spaces(bdds: Seq<Bdd>, n: nat) -> bool {
    forall|i: int| 0 <= i < bdds.len() ==> is_space(#[trigger] bdds[i], n)
}

/// The union of the given header sets.
pub fn aggregate(spaces: &Vec<Bdd>, engine: &Engine) -> (r: Bdd)
    requires
        engine.wf(),
        all_spaces(spaces@, engine.width()),
    ensures
        is_space(r, engine.width()),
        bdd_sat(r) == spaces_union(spaces@, spaces.len() as int),
{
    let mut acc = engine.make_none_space_bdd();
    let mut i: usize = 0;
    while i < spaces.len()
        invariant
            i <= spaces.len(),
            engine.wf(),
            all_spaces(spaces@, engine.width()),
            is_space(acc, engine.width()),
            bdd_sat(acc) == spaces_union(spaces@, i as int),
        decreases spaces.len() - i,
    {
        acc = acc.or(&spaces[i]);
        i += 1;
    }
    acc
}

/// Takes `predicate` into `verified` and returns the part of it that was
/// not verified before.
pub fn prune(verified: &mut Bdd, predicate: &Bdd) -> (r: Bdd)
    requires
        bdd_sat(*old(verified)).subset_of(all_valuations(crate::kernel::bdd_width(*old(verified)))),
        is_space(*predicate, crate::kernel::bdd_width(*old(verified))),
    ensures
        crate::kernel::bdd_width(*final(verified)) == crate::kernel::bdd_width(*old(verified)),
        is_space(*final(verified), crate::kernel::bdd_width(*old(verified))),
        is_space(r, crate::kernel::bdd_width(*old(verified))),
        bdd_reduced(r),
        bdd_sat(r) == bdd_sat(*predicate).difference(bdd_sat(*old(verified))),
        bdd_sat(*final(verified)) == bdd_sat(*old(verified)).union(bdd_sat(*predicate)),
{
    let extra_space = predicate.and_not(verified);
    if extra_space.is_false() {
        assert(bdd_sat(*verified) =~= bdd_sat(*verified).union(bdd_sat(*predicate))) by {
            assert forall|v: Seq<bool>| bdd_sat(*predicate).contains(v) implies bdd_sat(
                *verified,
            ).contains(v) by {
                if !bdd_sat(*verified).contains(v) {
                    assert(bdd_sat(extra_space).contains(v));
                }
            }
        }
        return extra_space;
    }
    let ghost before = bdd_sat(*verified);
    *verified = verified.or(&extra_space);
    assert(bdd_sat(*verified) =~= before.union(bdd_sat(*predicate)));
    extra_space
}

/// A counter after one more arrival; it stops at the largest value.
pub open spec fn counted(c: u32) -> u32 {
    if c < u32::MAX {
        (c + 1) as u32
    } else {
        c
    }
}

/// A port whose link leads from one area into the other.
pub struct Tunnel {
    /// The port, with the port at the other end as its peer.
    pub device_port: DevicePort,
    /// What has arrived and is not handed over yet.
    pub arrive_spaces: Vec<Bdd>,
    /// Everything that has ever arrived.
    pub verified_space: Bdd,
    /// How often the tunnel was asked whether a loop is suspected.
    pub arrive_cnt: u32,
    /// The node at the other end of the link.
    pub peer: usize,
}

impl Tunnel {
    /// The tunnel's diagrams are spaces of width `n`.
    pub open spec fn wf(&self, n: nat) -> bool {
        &&& is_space(self.verified_space, n)
        &&& all_spaces(self.arrive_spaces@, n)
    }

    /// Takes `predicate` into the verified space and returns the part of it
    /// that is new.
    pub fn verified_space_prune(&mut self, predicate: &Bdd) -> (r: Bdd)
        requires
            old(self).wf(crate::kernel::bdd_width(*predicate)),
            is_space(*predicate, crate::kernel::bdd_width(*predicate)),
        ensures
            final(self).wf(crate::kernel::bdd_width(*predicate)),
            is_space(r, crate::kernel::bdd_width(*predicate)),
            bdd_reduced(r),
            bdd_sat(r) == bdd_sat(*predicate).difference(bdd_sat(old(self).verified_space)),
            bdd_sat(final(self).verified_space) == bdd_sat(old(self).verified_space).union(
                bdd_sat(*predicate),
            ),
            final(self).arrive_spaces == old(self).arrive_spaces,
            final(self).device_port == old(self).device_port,
            final(self).arrive_cnt == old(self).arrive_cnt,
            final(self).peer == old(self).peer,
    {
        prune(&mut self.verified_space, predicate)
    }

    /// Counts one more arrival and says whether there have been more than
    /// `max_arrive_cnt`, which points to a forwarding loop.
    pub fn loop_detection_at_port(&mut self, max_arrive_cnt: u32) -> (r: bool)
        ensures
            final(self).arrive_cnt == counted(old(self).arrive_cnt),
            r == (final(self).arrive_cnt > max_arrive_cnt),
            final(self).arrive_spaces == old(self).arrive_spaces,
            final(self).verified_space == old(self).verified_space,
            final(self).device_port == old(self).device_port,
            final(self).peer == old(self).peer,
    {
        if self.arrive_cnt < u32::MAX {
            self.arrive_cnt = self.arrive_cnt + 1;
        }
        self.arrive_cnt > max_arrive_cnt
    }
}

/// One link as a node sees it: the node's port, the node at the other end
/// with its port, and the tunnel if the link crosses between the areas.
pub struct Hop {
    pub port_name: String,
    pub peer: usize,
    pub peer_port: String,
    pub tunnel: Option<usize>,
}

/// A device as the traversal sees it.
pub struct NPNetNode {
    pub name: String,
    /// The position of the node's device among the devices.
    pub device: usize,
    /// Whether the node lies in the inner area.
    pub inner: bool,
    /// The node's links.
    pub hops: Vec<Hop>,
    /// What has arrived and is not dealt with yet.
    pub arrive_spaces: Vec<Bdd>,
    /// Everything the node has been reached with.
    pub verified_space: Bdd,
    /// Per port, how often the node was asked whether a loop is suspected.
    pub port_arrive_cnt: NameMap<u32>,
}

impl NPNetNode {
    /// The node's diagrams are spaces of width `n`.
    pub open spec fn wf(&self, n: nat) -> bool {
        &&& is_space(self.verified_space, n)
        &&& all_spaces(self.arrive_spaces@, n)
        &&& self.port_arrive_cnt.wf()
    }

    /// A node without links, arrivals or verified headers.
    pub fn new(name: String, device: usize, inner: bool, engine: &Engine) -> (r: Self)
        requires
            engine.wf(),
        ensures
            r.wf(engine.width()),
            r.name == name,
            r.device == device,
            r.inner == inner,
            r.hops@ == Seq::<Hop>::empty(),
            r.arrive_spaces@ == Seq::<Bdd>::empty(),
            bdd_sat(r.verified_space) == Set::<Seq<bool>>::empty(),
            r.port_arrive_cnt.names() == Seq::<Seq<char>>::empty(),
    {
        Self {
            name,
            device,
            inner,
            hops: Vec::new(),
            arrive_spaces: Vec::new(),
            verified_space: engine.make_none_space_bdd(),
            port_arrive_cnt: NameMap::new(),
        }
    }

    /// Everything that the node's device forwards somewhere.
    pub fn get_forwardable_space(&self, devices: &Vec<Device>) -> (r: Bdd)
        requires
            self.device < devices.len(),
        ensures
            r == devices[self.device as int].forwardable(),
    {
        devices[self.device].get_forwardable_space().clone()
    }

    /// Takes `predicate` into the verified space and returns the part of it
    /// that is new.
    pub fn verified_space_prune(&mut self, predicate: &Bdd) -> (r: Bdd)
        requires
            old(self).wf(crate::kernel::bdd_width(*predicate)),
            is_space(*predicate, crate::kernel::bdd_width(*predicate)),
        ensures
            final(self).wf(crate::kernel::bdd_width(*predicate)),
            is_space(r, crate::kernel::bdd_width(*predicate)),
            bdd_reduced(r),
            bdd_sat(r) == bdd_sat(*predicate).difference(bdd_sat(old(self).verified_space)),
            bdd_sat(final(self).verified_space) == bdd_sat(old(self).verified_space).union(
                bdd_sat(*predicate),
            ),
            final(self).arrive_spaces == old(self).arrive_spaces,
            final(self).name == old(self).name,
            final(self).device == old(self).device,
            final(self).inner == old(self).inner,
            final(self).hops == old(self).hops,
            final(self).port_arrive_cnt == old(self).port_arrive_cnt,
    {
        prune(&mut self.verified_space, predicate)
    }

    /// Gathers the arrivals into one header set, takes it into the verified
    /// space and empties the arrivals. The verified space never loses a
    /// header by this.
    pub fn arrive_space_aggregate_and_verify(&mut self, engine: &Engine) -> (r: Bdd)
        requires
            engine.wf(),
            old(self).wf(engine.width()),
        ensures
            final(self).wf(engine.width()),
            is_space(r, engine.width()),
            bdd_sat(r) == spaces_union(old(self).arrive_spaces@, old(self).arrive_spaces.len() as int),
            bdd_sat(final(self).verified_space) == bdd_sat(old(self).verified_space).union(
                bdd_sat(r),
            ),
            bdd_sat(old(self).verified_space).subset_of(bdd_sat(final(self).verified_space)),
            final(self).arrive_spaces@ == Seq::<Bdd>::empty(),
            final(self).name == old(self).name,
            final(self).device == old(self).device,
            final(self).inner == old(self).inner,
            final(self).hops == old(self).hops,
            final(self).port_arrive_cnt == old(self).port_arrive_cnt,
    {
        let aggre_space = aggregate(&self.arrive_spaces, engine);
        self.verified_space = self.verified_space.or(&aggre_space);
        self.arrive_spaces.clear();
        aggre_space
    }

    /// Counts one more arrival at the port and says whether there have been
    /// more than `max_arrive_cnt`, which points to a forwarding loop. The
    /// first arrival at a port is never a suspect.
    pub fn loop_detection_at_port(&mut self, port_name: String, max_arrive_cnt: u32) -> (r: bool)
        requires
            old(self).port_arrive_cnt.wf(),
        ensures
            final(self).port_arrive_cnt.wf(),
            match old(self).port_arrive_cnt.lookup(port_name@) {
                Some(c) => final(self).port_arrive_cnt.lookup(port_name@) == Some(counted(c)) && r
                    == (counted(c) > max_arrive_cnt),
                None => final(self).port_arrive_cnt.lookup(port_name@) == Some(1u32) && !r,
            },
            forall|k: Seq<char>|
                k != port_name@ ==> final(self).port_arrive_cnt.lookup(k) == old(
                    self,
                ).port_arrive_cnt.lookup(k),
            final(self).arrive_spaces == old(self).arrive_spaces,
            final(self).verified_space == old(self).verified_space,
            final(self).name == old(self).name,
            final(self).device == old(self).device,
            final(self).inner == old(self).inner,
            final(self).hops == old(self).hops,
    {
        match self.port_arrive_cnt.get(port_name.as_str()) {
            Some(cnt) => {
                let next = if cnt < u32::MAX {
                    cnt + 1
                } else {
                    cnt
                };
                self.port_arrive_cnt.set(port_name, next);
                next > max_arrive_cnt
            },
            None => {
                self.port_arrive_cnt.set(port_name, 1);
                false
            },
        }
    }
}

/// The verified header sets of the nodes.
pub open spec fn node_sets(nodes: Seq<NPNetNode>) -> Seq<Set<Seq<bool>>> {
    nodes.map_values(|x: NPNetNode| bdd_sat(x.verified_space))
}

/// The verified header sets of the tunnels.
pub open spec fn tunnel_sets(tunnels: Seq<Tunnel>) -> Seq<Set<Seq<bool>>> {
    tunnels.map_values(|x: Tunnel| bdd_sat(x.verified_space))
}

/// Whether the links of the nodes lead to nodes and tunnels that exist,
/// every tunnel of a link leading where the link leads.
pub open spec fn hops_ok(nodes: Seq<NPNetNode>, tunnels: Seq<Tunnel>) -> bool {
    &&& forall|i: int, h: int|
        0 <= i < nodes.len() && 0 <= h < nodes[i].hops.len() ==> (#[trigger] nodes[i].hops[h]).peer
            < nodes.len()
    &&& forall|i: int, h: int|
        0 <= i < nodes.len() && 0 <= h < nodes[i].hops.len() ==> match (
        #[trigger] nodes[i].hops[h]).tunnel {
            Some(t) => t < tunnels.len() && tunnels[t as int].peer == nodes[i].hops[h].peer
                && nodes[nodes[i].hops[h].peer as int].inner != nodes[i].inner,
            None => nodes[nodes[i].hops[h].peer as int].inner == nodes[i].inner,
        }
    &&& forall|t: int| 0 <= t < tunnels.len() ==> (#[trigger] tunnels[t]).peer < nodes.len()
}

/// Whether link `h` in the list is the one with tunnel `t`.
pub open spec fn hop_holds(hops: Seq<Hop>, h: int, t: usize) -> bool {
    0 <= h < hops.len() && hops[h].tunnel == Some(t)
}

/// Whether one of the links in the list has tunnel `t`.
pub open spec fn held(hops: Seq<Hop>, t: usize) -> bool {
    exists|h: int| #[trigger] hop_holds(hops, h, t)
}

/// Whether tunnel `t` stands at a link of node `i`.
pub open spec fn tunnel_of(nodes: Seq<NPNetNode>, i: int, t: usize) -> bool {
    0 <= i < nodes.len() && held(nodes[i].hops@, t)
}

/// Whether tunnel `t` stands at a link of some node.
pub open spec fn placed(nodes: Seq<NPNetNode>, t: usize) -> bool {
    exists|i: int| #[trigger] tunnel_of(nodes, i, t)
}

/// Whether every tunnel stands at a link of some node, which by the order
/// of the links is then a link that crosses between the areas.
pub open spec fn tunnels_placed(nodes: Seq<NPNetNode>, tunnels: Seq<Tunnel>) -> bool {
    forall|t: usize| t < tunnels.len() ==> #[trigger] placed(nodes, t)
}

/// Whether `after` has the nodes and tunnels of `before`, with the same
/// links, and no verified space has lost a header.
pub open spec fn grown(before: NPNet, after: NPNet) -> bool {
    &&& after.nodes.len() == before.nodes.len()
    &&& after.tunnels.len() == before.tunnels.len()
    &&& after.num_vars == before.num_vars
    &&& after.neighborhood == before.neighborhood
    &&& after.marked_at == before.marked_at
    &&& after.all_subnet_space == before.all_subnet_space
    &&& forall|i: int|
        0 <= i < before.nodes.len() ==> (#[trigger] after.nodes[i]).name == before.nodes[i].name
            && after.nodes[i].device == before.nodes[i].device && after.nodes[i].inner
            == before.nodes[i].inner && after.nodes[i].hops == before.nodes[i].hops
            && after.nodes[i].port_arrive_cnt == before.nodes[i].port_arrive_cnt && bdd_sat(
            before.nodes[i].verified_space,
        ).subset_of(bdd_sat(after.nodes[i].verified_space))
    &&& forall|t: int|
        0 <= t < before.tunnels.len() ==> (#[trigger] after.tunnels[t]).device_port
            == before.tunnels[t].device_port && after.tunnels[t].peer == before.tunnels[t].peer
            && after.tunnels[t].arrive_cnt == before.tunnels[t].arrive_cnt && bdd_sat(
            before.tunnels[t].verified_space,
        ).subset_of(bdd_sat(after.tunnels[t].verified_space))
}

/// Whether some node or tunnel of `after` has verified a header that it
/// had not verified in `before`.
pub open spec fn gained(before: NPNet, after: NPNet) -> bool {
    ||| exists|i: int, v: Seq<bool>|
        0 <= i < before.nodes.len() && v.len() == before.num_vars && #[trigger] bdd_sat(
            after.nodes[i].verified_space,
        ).contains(v) && !bdd_sat(before.nodes[i].verified_space).contains(v)
    ||| exists|t: int, v: Seq<bool>|
        0 <= t < before.tunnels.len() && v.len() == before.num_vars && #[trigger] bdd_sat(
            after.tunnels[t].verified_space,
        ).contains(v) && !bdd_sat(before.tunnels[t].verified_space).contains(v)
}

/// Whether the port's link leads to one of the devices.
pub open spec fn port_linked(port: DevicePort, devices: Seq<Device>) -> bool {
    port.peer().is_some() && exists|j: int|
        0 <= j < devices.len() && (#[trigger] devices[j]).name() == port.peer().unwrap().0
}

/// Whether the hop is the link of the given port.
pub open spec fn hop_matches(hop: Hop, port: DevicePort, devices: Seq<Device>) -> bool {
    &&& port.peer().is_some()
    &&& hop.port_name@ == port.port()
    &&& hop.peer_port@ == port.peer().unwrap().1
    &&& hop.peer < devices.len()
    &&& devices[hop.peer as int].name() == port.peer().unwrap().0
}

/// Whether the hops are the links of the ports that lead to one of the
/// devices, in the order of the ports.
pub open spec fn hops_from(hops: Seq<Hop>, ports: Seq<DevicePort>, devices: Seq<Device>) -> bool
    decreases ports.len(),
{
    if ports.len() == 0 {
        hops.len() == 0
    } else if port_linked(ports.last(), devices) {
        hops.len() > 0 && hop_matches(hops.last(), ports.last(), devices) && hops_from(
            hops.drop_last(),
            ports.drop_last(),
            devices,
        )
    } else {
        hops_from(hops, ports.drop_last(), devices)
    }
}

/// The traversal state of one neighborhood.
pub struct NPNet {
    pub neighborhood: Neighborhood,
    /// For each marked node of the neighborhood, the position of its node.
    pub marked_at: Vec<usize>,
    /// The nodes; node `i` stands for device `i`.
    pub nodes: Vec<NPNetNode>,
    /// The tunnels between the areas.
    pub tunnels: Vec<Tunnel>,
    /// The union of all declared subnets.
    pub all_subnet_space: Bdd,
    /// The number of header variables.
    pub num_vars: usize,
}

impl NPNet {
    /// The nodes and tunnels hold spaces of the net's width and the links
    /// are in order.
    pub open spec fn wf(&self) -> bool {
        &&& forall|i: int|
            0 <= i < self.nodes.len() ==> (#[trigger] self.nodes[i]).wf(self.num_vars as nat)
                && self.nodes[i].device == i
        &&& forall|t: int|
            0 <= t < self.tunnels.len() ==> (#[trigger] self.tunnels[t]).wf(self.num_vars as nat)
        &&& hops_ok(self.nodes@, self.tunnels@)
        &&& is_space(self.all_subnet_space, self.num_vars as nat)
        &&& self.neighborhood.wf()
        &&& self.marked_at.len() == self.neighborhood.marked().len()
        &&& forall|k: int|
            0 <= k < self.marked_at.len() ==> (#[trigger] self.marked_at[k]) < self.nodes.len()
                && self.nodes[self.marked_at[k] as int].name@
                == self.neighborhood.marked()[k].device_name@
                && self.nodes[self.marked_at[k] as int].inner && is_space(
                self.neighborhood.marked()[k].dst_prefix_bdd,
                self.num_vars as nat,
            )
    }

    /// Whether nothing has arrived anywhere, nothing is verified yet and no
    /// tunnel has counted an arrival.
    pub open spec fn fresh(&self) -> bool {
        &&& forall|i: int|
            0 <= i < self.nodes.len() ==> (#[trigger] self.nodes[i]).arrive_spaces.len() == 0
                && bdd_sat(self.nodes[i].verified_space) == Set::<Seq<bool>>::empty()
        &&& forall|t: int|
            0 <= t < self.tunnels.len() ==> (#[trigger] self.tunnels[t]).arrive_spaces.len() == 0
                && bdd_sat(self.tunnels[t].verified_space) == Set::<Seq<bool>>::empty()
                && self.tunnels[t].arrive_cnt == 0
    }

    /// Whether the net is laid out over the given devices and topology: one
    /// node for each device, inner exactly when the device is a node of the
    /// neighborhood, with the links of the device's ports, those that cross
    /// between the areas having a tunnel at their port, and no tunnel
    /// anywhere else.
    pub open spec fn built_on(&self, toponet: Toponet) -> bool {
        &&& self.nodes.len() == toponet.devices().len()
        &&& self.num_vars == toponet.width()
        &&& forall|i: int|
            0 <= i < self.nodes.len() ==> (#[trigger] self.nodes[i]).name@
                == toponet.devices()[i].name() && self.nodes[i].inner == self.neighborhood.has_node(
                toponet.devices()[i].name(),
            ) && hops_from(
                self.nodes[i].hops@,
                toponet.network().ports_of(toponet.devices()[i].name()),
                toponet.devices(),
            )
        &&& forall|i: int, h: int|
            0 <= i < self.nodes.len() && 0 <= h < self.nodes[i].hops.len() ==> (match (
            #[trigger] self.nodes[i].hops[h]).tunnel {
                Some(t) => t < self.tunnels.len() && self.tunnels[t as int].device_port.key() == (
                    self.nodes[i].name@,
                    self.nodes[i].hops[h].port_name@,
                ),
                None => true,
            })
        &&& tunnels_placed(self.nodes@, self.tunnels@)
    }

    /// Whether no tunnel holds an arrival.
    pub open spec fn drained(&self) -> bool {
        forall|t: int| 0 <= t < self.tunnels.len() ==> (#[trigger] self.tunnels[t]).arrive_spaces.len() == 0
    }

    /// The headers that the nodes and tunnels have yet to verify, counted
    /// over all of them. The traversal can take no more steps than this.
    pub open spec fn left(&self) -> nat {
        missing_all(node_sets(self.nodes@) + tunnel_sets(self.tunnels@), self.num_vars as nat)
    }

    /// There is never more left to verify than every header at every node
    /// and every tunnel.
    pub proof fn lemma_left_bound(net: NPNet)
        ensures
            net.left() <= (net.nodes.len() + net.tunnels.len()) * vstd::arithmetic::power2::pow2(
                net.num_vars as nat,
            ),
    {
        crate::symbolic::progress::lemma_missing_bound(
            node_sets(net.nodes@) + tunnel_sets(net.tunnels@),
            net.num_vars as nat,
        );
    }

    /// A net that has grown has no more left to verify, and less once a
    /// node or a tunnel has gained a header.
    pub proof fn lemma_left(before: NPNet, after: NPNet)
        requires
            grown(before, after),
        ensures
            after.left() <= before.left(),
            gained(before, after) ==> after.left() < before.left(),
    {
        let b = node_sets(before.nodes@) + tunnel_sets(before.tunnels@);
        let a = node_sets(after.nodes@) + tunnel_sets(after.tunnels@);
        let n = before.num_vars as nat;
        let k = before.nodes.len() as int;
        assert forall|i: int| 0 <= i < b.len() implies (#[trigger] b[i]).subset_of(a[i]) by {
            if i < k {
                assert(b[i] == bdd_sat(before.nodes[i].verified_space));
                assert(a[i] == bdd_sat(after.nodes[i].verified_space));
            } else {
                assert(b[i] == bdd_sat(before.tunnels[i - k].verified_space));
                assert(a[i] == bdd_sat(after.tunnels[i - k].verified_space));
            }
        }
        lemma_missing_all_shrinks(b, a, n);
        if gained(before, after) {
            if exists|i: int, v: Seq<bool>|
                0 <= i < before.nodes.len() && v.len() == before.num_vars && #[trigger] bdd_sat(
                    after.nodes[i].verified_space,
                ).contains(v) && !bdd_sat(before.nodes[i].verified_space).contains(v) {
                let (i, v) = choose|i: int, v: Seq<bool>|
                    0 <= i < before.nodes.len() && v.len() == before.num_vars && #[trigger] bdd_sat(
                        after.nodes[i].verified_space,
                    ).contains(v) && !bdd_sat(before.nodes[i].verified_space).contains(v);
                assert(a[i].contains(v) && !b[i].contains(v));
            } else {
                let (t, v) = choose|t: int, v: Seq<bool>|
                    0 <= t < before.tunnels.len() && v.len() == before.num_vars
                        && #[trigger] bdd_sat(after.tunnels[t].verified_space).contains(v)
                        && !bdd_sat(before.tunnels[t].verified_space).contains(v);
                assert(a[k + t].contains(v) && !b[k + t].contains(v));
            }
        }
    }

    /// Growing is transitive, and a gain is never lost.
    pub proof fn lemma_grown_trans(a: NPNet, b: NPNet, c: NPNet)
        requires
            grown(a, b),
            grown(b, c),
        ensures
            grown(a, c),
            gained(a, b) ==> gained(a, c),
            gained(b, c) ==> gained(a, c),
    {
        if gained(a, b) {
            if exists|i: int, v: Seq<bool>|
                0 <= i < a.nodes.len() && v.len() == a.num_vars && #[trigger] bdd_sat(
                    b.nodes[i].verified_space,
                ).contains(v) && !bdd_sat(a.nodes[i].verified_space).contains(v) {
                let (i, v) = choose|i: int, v: Seq<bool>|
                    0 <= i < a.nodes.len() && v.len() == a.num_vars && #[trigger] bdd_sat(
                        b.nodes[i].verified_space,
                    ).contains(v) && !bdd_sat(a.nodes[i].verified_space).contains(v);
                assert(bdd_sat(c.nodes[i].verified_space).contains(v));
            } else {
                let (t, v) = choose|t: int, v: Seq<bool>|
                    0 <= t < a.tunnels.len() && v.len() == a.num_vars && #[trigger] bdd_sat(
                        b.tunnels[t].verified_space,
                    ).contains(v) && !bdd_sat(a.tunnels[t].verified_space).contains(v);
                assert(bdd_sat(c.tunnels[t].verified_space).contains(v));
            }
        }
        if gained(b, c) {
            if exists|i: int, v: Seq<bool>|
                0 <= i < b.nodes.len() && v.len() == b.num_vars && #[trigger] bdd_sat(
                    c.nodes[i].verified_space,
                ).contains(v) && !bdd_sat(b.nodes[i].verified_space).contains(v) {
                let (i, v) = choose|i: int, v: Seq<bool>|
                    0 <= i < b.nodes.len() && v.len() == b.num_vars && #[trigger] bdd_sat(
                        c.nodes[i].verified_space,
                    ).contains(v) && !bdd_sat(b.nodes[i].verified_space).contains(v);
                assert(bdd_sat(c.nodes[i].verified_space).contains(v) && !bdd_sat(
                    a.nodes[i].verified_space,
                ).contains(v));
            } else {
                let (t, v) = choose|t: int, v: Seq<bool>|
                    0 <= t < b.tunnels.len() && v.len() == b.num_vars && #[trigger] bdd_sat(
                        c.tunnels[t].verified_space,
                    ).contains(v) && !bdd_sat(b.tunnels[t].verified_space).contains(v);
                assert(bdd_sat(c.tunnels[t].verified_space).contains(v) && !bdd_sat(
                    a.tunnels[t].verified_space,
                ).contains(v));
            }
        }
    }
}

/// Whether the net's nodes stand for the given devices, one node for each
/// device, all over the same variables.
pub open spec fn stands_for(net: NPNet, devices: Seq<Device>) -> bool {
    &&& net.nodes.len() == devices.len()
    &&& forall|i: int|
        0 <= i < devices.len() ==> (#[trigger] devices[i]).wf() && devices[i].width()
            == net.num_vars as nat
}

/// The rule that lets headers pass along a link: going forward it is what
/// the node sends out of its port, going backward what the peer sends out
/// of the peer port. A port that forwards nothing lets nothing pass.
pub open spec fn guard_space(
    devices: Seq<Device>,
    cur: int,
    hop: Hop,
    traversal_type: TraversalType,
) -> Set<Seq<bool>> {
    match traversal_type {
        TraversalType::Forward => if devices[cur].has_space(hop.port_name@) {
            bdd_sat(devices[cur].space_of(hop.port_name@))
        } else {
            Set::<Seq<bool>>::empty()
        },
        TraversalType::Backward => if devices[hop.peer as int].has_space(hop.peer_port@) {
            bdd_sat(devices[hop.peer as int].space_of(hop.peer_port@))
        } else {
            Set::<Seq<bool>>::empty()
        },
    }
}

/// The part of `arrive` that the link lets pass, or `None` when the port
/// that decides forwards nothing.
fn pass_hop(devices: &Vec<Device>, cur: usize, hop: &Hop, arrive: &Bdd, traversal_type: TraversalType) -> (r:
    Option<Bdd>)
    requires
        cur < devices.len(),
        hop.peer < devices.len(),
        devices[cur as int].wf(),
        devices[hop.peer as int].wf(),
        devices[cur as int].width() == devices[hop.peer as int].width(),
        is_space(*arrive, devices[cur as int].width()),
    ensures
        match r {
            Some(b) => is_space(b, devices[cur as int].width()) && bdd_reduced(b) && bdd_sat(b)
                == bdd_sat(*arrive).intersect(
                guard_space(devices@, cur as int, *hop, traversal_type),
            ),
            None => guard_space(devices@, cur as int, *hop, traversal_type) == Set::<
                Seq<bool>,
            >::empty(),
        },
{
    match traversal_type {
        TraversalType::Forward => {
            let device = &devices[cur];
            if device.has_space_bdd(hop.port_name.as_str()) {
                Some(arrive.and(device.get_space_bdd(hop.port_name.as_str())))
            } else {
                None
            }
        },
        TraversalType::Backward => {
            let device = &devices[hop.peer];
            if device.has_space_bdd(hop.peer_port.as_str()) {
                Some(arrive.and(device.get_space_bdd(hop.peer_port.as_str())))
            } else {
                None
            }
        },
    }
}

/// Whether a node was woken, or a tunnel got an arrival, between two
/// states of the net.
pub open spec fn progress(before: NPNet, woken0: Seq<bool>, after: NPNet, woken1: Seq<bool>) -> bool {
    ||| exists|j: int| 0 <= j < woken0.len() && #[trigger] woken1[j] && !woken0[j]
    ||| exists|t: int|
        0 <= t < before.tunnels.len() && (#[trigger] after.tunnels[t]).arrive_spaces.len()
            > before.tunnels[t].arrive_spaces.len()
}

/// What every step of a traversal keeps: the net grows, woken nodes stay
/// woken, arrivals only pile up, and whoever was woken or got an arrival
/// has gained a header.
pub open spec fn stepped(before: NPNet, woken0: Seq<bool>, after: NPNet, woken1: Seq<bool>) -> bool {
    &&& grown(before, after)
    &&& woken1.len() == woken0.len()
    &&& forall|j: int| 0 <= j < woken0.len() && #[trigger] woken0[j] ==> woken1[j]
    &&& forall|t: int|
        0 <= t < before.tunnels.len() ==> (#[trigger] after.tunnels[t]).arrive_spaces.len()
            >= before.tunnels[t].arrive_spaces.len()
    &&& forall|j: int|
        0 <= j < before.nodes.len() ==> (#[trigger] after.nodes[j]).arrive_spaces.len()
            >= before.nodes[j].arrive_spaces.len()
    &&& forall|j: int|
        0 <= j < before.nodes.len() && (#[trigger] after.nodes[j]).arrive_spaces.len()
            > before.nodes[j].arrive_spaces.len() ==> woken1[j]
    &&& progress(before, woken0, after, woken1) ==> gained(before, after)
}

/// Whether every node woken since `woken0` lies in the given area.
pub open spec fn woken_in(nodes: Seq<NPNetNode>, woken0: Seq<bool>, woken1: Seq<bool>, inner: bool) -> bool {
    forall|j: int|
        0 <= j < woken0.len() && #[trigger] woken1[j] && !woken0[j] ==> nodes[j].inner == inner
}

/// Whether the nodes outside the given area have the arrivals and the
/// verified space they had.
pub open spec fn outside_calm(before: NPNet, after: NPNet, inner: bool) -> bool {
    forall|j: int|
        0 <= j < before.nodes.len() && before.nodes[j].inner != inner ==> (
        #[trigger] after.nodes[j]).arrive_spaces@ == before.nodes[j].arrive_spaces@
            && after.nodes[j].verified_space == before.nodes[j].verified_space
}

/// Whether header set `b` is a new arrival for one that had verified `v`:
/// it is not empty and has nothing in common with `v`.
pub open spec fn news(b: Bdd, v: Bdd) -> bool {
    !(bdd_sat(b) == Set::<Seq<bool>>::empty()) && bdd_sat(b).intersect(bdd_sat(v)) == Set::<
        Seq<bool>,
    >::empty()
}

/// Whether arrival `k` of a tunnel was new to it when it came: it is not
/// empty, it has no header that the tunnel had verified before, nor one of
/// an arrival that came since, and the tunnel has verified it.
pub open spec fn fed_at(before: Tunnel, after: Tunnel, k: int) -> bool {
    &&& news(after.arrive_spaces[k], before.verified_space)
    &&& bdd_sat(after.arrive_spaces[k]).subset_of(bdd_sat(after.verified_space))
    &&& forall|e: int|
        before.arrive_spaces.len() <= e < k ==> bdd_sat(#[trigger] after.arrive_spaces[e]).intersect(
            bdd_sat(after.arrive_spaces[k]),
        ) == Set::<Seq<bool>>::empty()
}

/// Whether every tunnel has the arrivals it had and, after them, only
/// arrivals that were new to it when they came.
pub open spec fn tunnels_fed(before: NPNet, after: NPNet) -> bool {
    forall|t: int|
        0 <= t < before.tunnels.len() ==> (#[trigger] before.tunnels[t]).arrive_spaces@.is_prefix_of(
            after.tunnels[t].arrive_spaces@,
        ) && forall|k: int|
            before.tunnels[t].arrive_spaces.len() <= k < after.tunnels[t].arrive_spaces.len()
                ==> #[trigger] fed_at(before.tunnels[t], after.tunnels[t], k)
}

/// Two header sets of which one lies within a set that the other has
/// nothing in common with have nothing in common.
pub proof fn lemma_apart(x: Set<Seq<bool>>, y: Set<Seq<bool>>, v: Set<Seq<bool>>)
    requires
        x.subset_of(v),
        y.intersect(v) == Set::<Seq<bool>>::empty(),
    ensures
        x.intersect(y) == Set::<Seq<bool>>::empty(),
        y.intersect(x) == Set::<Seq<bool>>::empty(),
{
    assert forall|h: Seq<bool>| !(x.contains(h) && y.contains(h)) by {
        if x.contains(h) && y.contains(h) {
            assert(y.intersect(v).contains(h));
        }
    }
    assert(x.intersect(y) =~= Set::<Seq<bool>>::empty());
    assert(y.intersect(x) =~= Set::<Seq<bool>>::empty());
}

/// What tunnels are fed step after step, they are fed in all.
pub proof fn lemma_tunnels_fed_trans(a: NPNet, b: NPNet, c: NPNet)
    requires
        grown(a, b),
        grown(b, c),
        tunnels_fed(a, b),
        tunnels_fed(b, c),
    ensures
        tunnels_fed(a, c),
{
    assert forall|t: int| 0 <= t < a.tunnels.len() implies (
    #[trigger] a.tunnels[t]).arrive_spaces@.is_prefix_of(c.tunnels[t].arrive_spaces@) && forall|
        k: int,
    |
        a.tunnels[t].arrive_spaces.len() <= k < c.tunnels[t].arrive_spaces.len() ==> #[trigger] fed_at(
            a.tunnels[t],
            c.tunnels[t],
            k,
        ) by {
        let x = a.tunnels[t].arrive_spaces@;
        let y = b.tunnels[t].arrive_spaces@;
        let z = c.tunnels[t].arrive_spaces@;
        let va = bdd_sat(a.tunnels[t].verified_space);
        let vb = bdd_sat(b.tunnels[t].verified_space);
        let vc = bdd_sat(c.tunnels[t].verified_space);
        assert(b.tunnels[t].arrive_spaces@.is_prefix_of(z));
        assert(x.is_prefix_of(y));
        assert(va.subset_of(vb) && vb.subset_of(vc));
        assert forall|k: int| x.len() <= k < z.len() implies #[trigger] fed_at(
            a.tunnels[t],
            c.tunnels[t],
            k,
        ) by {
            if k < y.len() {
                assert(z[k] == y[k]);
                assert(fed_at(a.tunnels[t], b.tunnels[t], k));
                assert forall|e: int| x.len() <= e < k implies bdd_sat(#[trigger] z[e]).intersect(
                    bdd_sat(z[k]),
                ) == Set::<Seq<bool>>::empty() by {
                    assert(z[e] == y[e]);
                    assert(bdd_sat(y[e]).intersect(bdd_sat(y[k])) == Set::<Seq<bool>>::empty());
                }
            } else {
                assert(fed_at(b.tunnels[t], c.tunnels[t], k));
                lemma_apart(va, bdd_sat(z[k]), vb);
                assert forall|e: int| x.len() <= e < k implies bdd_sat(#[trigger] z[e]).intersect(
                    bdd_sat(z[k]),
                ) == Set::<Seq<bool>>::empty() by {
                    if e < y.len() {
                        assert(z[e] == y[e]);
                        assert(fed_at(a.tunnels[t], b.tunnels[t], e));
                        lemma_apart(bdd_sat(z[e]), bdd_sat(z[k]), vb);
                    }
                }
            }
        }
    }
}

/// Steps follow one another.
pub proof fn lemma_stepped_trans(
    a: NPNet,
    wa: Seq<bool>,
    b: NPNet,
    wb: Seq<bool>,
    c: NPNet,
    wc: Seq<bool>,
)
    requires
        stepped(a, wa, b, wb),
        stepped(b, wb, c, wc),
        wa.len() == a.nodes.len(),
    ensures
        stepped(a, wa, c, wc),
{
    NPNet::lemma_grown_trans(a, b, c);
    if progress(a, wa, c, wc) {
        if exists|j: int| 0 <= j < wa.len() && #[trigger] wc[j] && !wa[j] {
            let j = choose|j: int| 0 <= j < wa.len() && #[trigger] wc[j] && !wa[j];
            if wb[j] {
                assert(progress(a, wa, b, wb));
            } else {
                assert(progress(b, wb, c, wc));
            }
        } else {
            let t = choose|t: int|
                0 <= t < a.tunnels.len() && (#[trigger] c.tunnels[t]).arrive_spaces.len()
                    > a.tunnels[t].arrive_spaces.len();
            if b.tunnels[t].arrive_spaces.len() > a.tunnels[t].arrive_spaces.len() {
                assert(progress(a, wa, b, wb));
            } else {
                assert(progress(b, wb, c, wc));
            }
        }
    }
}

impl NPNet {
    /// Carries `arrive` from node `cur` along its link `h`: what the link
    /// lets pass goes to the peer node if it lies in the same area and to
    /// the link's tunnel if there is one. Only what is new to the receiver
    /// is added to its arrivals; a node that receives something is woken.
    fn process_hop(
        &mut self,
        devices: &Vec<Device>,
        cur: usize,
        h: usize,
        arrive: &Bdd,
        traversal_type: TraversalType,
        woken: &mut Vec<bool>,
        Ghost(track): Ghost<bool>,
        Ghost(m): Ghost<FlowModel>,
        Ghost(processed): Ghost<Seq<Set<Seq<bool>>>>,
        Ghost(queue): Ghost<Seq<(usize, Bdd)>>,
        Ghost(qpos): Ghost<int>,
    )
        requires
            old(self).wf(),
            stands_for(*old(self), devices@),
            cur < old(self).nodes.len(),
            h < old(self).nodes[cur as int].hops.len(),
            is_space(*arrive, old(self).num_vars as nat),
            old(woken).len() == old(self).nodes.len(),
            flowing(track, m, *old(self), devices@, traversal_type, processed, queue, qpos),
            track ==> forall|v: Seq<bool>| bdd_sat(*arrive).contains(v) ==> #[trigger] reached(m, cur as int, v),
        ensures
            final(self).wf(),
            stepped(*old(self), old(woken)@, *final(self), final(woken)@),
            outside_calm(*old(self), *final(self), old(self).nodes[cur as int].inner),
            tunnels_calm(*old(self), *final(self), old(self).nodes[cur as int].inner),
            tunnels_fed(*old(self), *final(self)),
            woken_in(old(self).nodes@, old(woken)@, final(woken)@, old(self).nodes[cur as int].inner),
            flowing(track, m, *final(self), devices@, traversal_type, processed, queue, qpos),
            track ==> passed_on(
                m,
                state_of(*final(self), processed, queue, qpos),
                cur as int,
                h as int,
                bdd_sat(*arrive),
            ),
    {
        let peer = self.nodes[cur].hops[h].peer;
        let tunnel = self.nodes[cur].hops[h].tunnel;
        let same_area = self.nodes[peer].inner == self.nodes[cur].inner;
        let passed = pass_hop(devices, cur, &self.nodes[cur].hops[h], arrive, traversal_type);
        let ghost x = bdd_sat(*arrive);
        proof {
            if track {
                assert(m.hops[cur as int] == self.nodes[cur as int].hops@);
                assert(guard(m, cur as int, h as int) == guard_space(
                    devices@,
                    cur as int,
                    self.nodes[cur as int].hops[h as int],
                    traversal_type,
                ));
            }
        }
        let intersection = match passed {
            Some(b) => b,
            None => {
                proof {
                    if track {
                        assert(x.intersect(guard(m, cur as int, h as int)) =~= Set::<Seq<bool>>::empty());
                        lemma_hop_blocked(
                            m,
                            state_of(*self, processed, queue, qpos),
                            cur as int,
                            h as int,
                            x,
                        );
                    }
                }
                return ;
            },
        };
        if intersection.is_false() {
            proof {
                if track {
                    lemma_hop_blocked(
                        m,
                        state_of(*self, processed, queue, qpos),
                        cur as int,
                        h as int,
                        x,
                    );
                }
            }
            return ;
        }
        let ghost n = self.num_vars as nat;
        let ghost s0 = *self;
        if same_area {
            let ghost arrivals0 = self.nodes[peer as int].arrive_spaces@;
            let arrive_space = self.nodes[peer].verified_space_prune(&intersection);
            if !arrive_space.is_false() {
                woken.set(peer, true);
                self.nodes[peer].arrive_spaces.push(arrive_space);
                proof {
                    crate::kernel::lemma_nonempty(bdd_sat(arrive_space));
                    let v = choose|v: Seq<bool>| bdd_sat(arrive_space).contains(v);
                    assert(bdd_sat(self.nodes[peer as int].verified_space).contains(v) && !bdd_sat(
                        s0.nodes[peer as int].verified_space,
                    ).contains(v));
                    assert(gained(s0, *self));
                    lemma_union_push(arrivals0, arrive_space);
                }
            } else {
                proof {
                    assert(union_of(arrivals0).union(bdd_sat(arrive_space)) =~= union_of(arrivals0));
                }
            }
            proof {
                if track {
                    assert(tunnel.is_none());
                    lemma_hop_to_node(
                        m,
                        s0,
                        *self,
                        devices@,
                        traversal_type,
                        processed,
                        queue,
                        qpos,
                        cur as int,
                        h as int,
                        x,
                        bdd_sat(intersection),
                    );
                }
            }
        }
        let ghost s1 = *self;
        let ghost w1 = woken@;
        assert(self.wf());
        assert(s1.tunnels == s0.tunnels);
        assert(grown(s0, s1));
        assert(progress(s0, old(woken)@, s1, w1) ==> gained(s0, s1));
        assert(stepped(s0, old(woken)@, s1, w1));
        match tunnel {
            Some(t) => {
                let ghost arrivals0 = self.tunnels[t as int].arrive_spaces@;
                let arrive_space = self.tunnels[t].verified_space_prune(&intersection);
                if !arrive_space.is_false() {
                    self.tunnels[t].arrive_spaces.push(arrive_space);
                    proof {
                        crate::kernel::lemma_nonempty(bdd_sat(arrive_space));
                        let v = choose|v: Seq<bool>| bdd_sat(arrive_space).contains(v);
                        assert(bdd_sat(self.tunnels[t as int].verified_space).contains(v)
                            && !bdd_sat(s1.tunnels[t as int].verified_space).contains(v));
                        assert(gained(s1, *self));
                        lemma_union_push(arrivals0, arrive_space);
                    }
                } else {
                    proof {
                        assert(union_of(arrivals0).union(bdd_sat(arrive_space)) =~= union_of(
                            arrivals0,
                        ));
                    }
                }
                proof {
                    assert(self.wf());
                    assert(tunnels_fed(s0, s1));
                    assert(tunnels_fed(s1, *self)) by {
                        assert forall|u: int| 0 <= u < s1.tunnels.len() implies (
                        #[trigger] s1.tunnels[u]).arrive_spaces@.is_prefix_of(
                            self.tunnels[u].arrive_spaces@,
                        ) && forall|k: int|
                            s1.tunnels[u].arrive_spaces.len() <= k < self.tunnels[u].arrive_spaces.len()
                                ==> #[trigger] fed_at(s1.tunnels[u], self.tunnels[u], k) by {
                            if u == t && !(bdd_sat(arrive_space) == Set::<Seq<bool>>::empty()) {
                                assert(self.tunnels[u].arrive_spaces@ =~= arrivals0.push(arrive_space));
                                assert(bdd_sat(arrive_space).intersect(
                                    bdd_sat(s1.tunnels[u].verified_space),
                                ) =~= Set::<Seq<bool>>::empty());
                                assert(bdd_sat(arrive_space).subset_of(
                                    bdd_sat(self.tunnels[u].verified_space),
                                ));
                            }
                        }
                    }
                    lemma_tunnels_fed_trans(s0, s1, *self);
                    assert(stepped(s1, w1, *self, w1));
                    lemma_stepped_trans(s0, old(woken)@, s1, w1, *self, w1);
                    if track {
                        assert(!same_area);
                        lemma_hop_to_tunnel(
                            m,
                            s1,
                            *self,
                            devices@,
                            traversal_type,
                            processed,
                            queue,
                            qpos,
                            cur as int,
                            h as int,
                            t as int,
                            x,
                            bdd_sat(intersection),
                        );
                    }
                }
            },
            None => {
                proof {
                    assert(same_area);
                }
            },
        }
    }
}

/// Whether the tunnels that hand over into the given area have the
/// arrivals they had.
pub open spec fn tunnels_calm(before: NPNet, after: NPNet, inner: bool) -> bool {
    forall|t: int|
        0 <= t < before.tunnels.len() && before.nodes[before.tunnels[t].peer as int].inner == inner
            ==> (#[trigger] after.tunnels[t]).arrive_spaces@ == before.tunnels[t].arrive_spaces@
}

/// What a traversal has to show for itself.
pub struct TraversalStats {
    /// How many rounds of inner and outer traversal were started.
    pub iterations: usize,
    /// How many links were looked at.
    pub hops: usize,
}

/// Whether every entry of the queue names a node and holds a space of
/// width `n`.
pub open spec fn queue_ok(queue: Seq<(usize, Bdd)>, nodes: int, n: nat) -> bool {
    forall|q: int| 0 <= q < queue.len() ==> (#[trigger] queue[q]).0 < nodes && is_space(queue[q].1, n)
}

/// Whether every entry of the queue names a node of the given area.
pub open spec fn queue_in(queue: Seq<(usize, Bdd)>, nodes: Seq<NPNetNode>, inner: bool) -> bool {
    forall|q: int|
        0 <= q < queue.len() ==> (#[trigger] queue[q]).0 < nodes.len() && nodes[queue[q].0 as int].inner
            == inner
}

/// A number after one more event; it stops at the largest value.
fn one_more(c: usize) -> (r: usize)
    ensures
        r >= c,
        c < usize::MAX ==> r == c + 1,
{
    if c < usize::MAX {
        c + 1
    } else {
        c
    }
}

impl Tunnel {
    /// Hands the arrivals over to the node at the other end: their union is
    /// added to the node's arrivals and to its verified space, and the
    /// tunnel's arrivals are emptied.
    pub fn trans_space_to_peer_node(&mut self, nodes: &mut Vec<NPNetNode>, engine: &Engine)
        requires
            engine.wf(),
            old(self).wf(engine.width()),
            old(self).peer < old(nodes).len(),
            old(nodes)[old(self).peer as int].wf(engine.width()),
        ensures
            final(self).wf(engine.width()),
            final(self).arrive_spaces@ == Seq::<Bdd>::empty(),
            final(self).verified_space == old(self).verified_space,
            final(self).device_port == old(self).device_port,
            final(self).arrive_cnt == old(self).arrive_cnt,
            final(self).peer == old(self).peer,
            final(nodes).len() == old(nodes).len(),
            forall|j: int|
                0 <= j < old(nodes).len() && j != old(self).peer ==> #[trigger] final(nodes)[j] == old(
                    nodes,
                )[j],
            ({
                let before = old(nodes)[old(self).peer as int];
                let after = final(nodes)[old(self).peer as int];
                let handed = spaces_union(
                    old(self).arrive_spaces@,
                    old(self).arrive_spaces.len() as int,
                );
                &&& after.wf(engine.width())
                &&& after.name == before.name
                &&& after.device == before.device
                &&& after.inner == before.inner
                &&& after.hops == before.hops
                &&& after.port_arrive_cnt == before.port_arrive_cnt
                &&& after.arrive_spaces@.len() == before.arrive_spaces@.len() + 1
                &&& after.arrive_spaces@.drop_last() == before.arrive_spaces@
                &&& bdd_sat(after.arrive_spaces@.last()) == handed
                &&& bdd_sat(after.verified_space) == bdd_sat(before.verified_space).union(handed)
            }),
    {
        let aggre_space = aggregate(&self.arrive_spaces, engine);
        self.arrive_spaces.clear();
        let peer = self.peer;
        let ghost before = nodes[peer as int];
        nodes[peer].verified_space = nodes[peer].verified_space.or(&aggre_space);
        nodes[peer].arrive_spaces.push(aggre_space);
        assert(nodes[peer as int].arrive_spaces@.drop_last() =~= before.arrive_spaces@);
    }
}

/// The calm of the tunnels carries over from step to step.
pub proof fn lemma_tunnels_calm_trans(a: NPNet, b: NPNet, c: NPNet, inner: bool)
    requires
        grown(a, b),
        tunnels_calm(a, b, inner),
        tunnels_calm(b, c, inner),
        forall|t: int| 0 <= t < a.tunnels.len() ==> (#[trigger] a.tunnels[t]).peer < a.nodes.len(),
    ensures
        tunnels_calm(a, c, inner),
{
    assert forall|t: int|
        0 <= t < a.tunnels.len() && a.nodes[a.tunnels[t].peer as int].inner == inner implies (
    #[trigger] c.tunnels[t]).arrive_spaces@ == a.tunnels[t].arrive_spaces@ by {
        assert(b.tunnels[t].arrive_spaces@ == a.tunnels[t].arrive_spaces@);
        assert(b.tunnels[t].peer == a.tunnels[t].peer);
        assert(b.nodes[a.tunnels[t].peer as int].inner == a.nodes[a.tunnels[t].peer as int].inner);
    }
}

impl NPNet {
    /// Carries `arrive` from node `cur` along all of its links.
    fn process_ctx(
        &mut self,
        devices: &Vec<Device>,
        cur: usize,
        arrive: &Bdd,
        traversal_type: TraversalType,
        woken: &mut Vec<bool>,
        count: usize,
        Ghost(track): Ghost<bool>,
        Ghost(m): Ghost<FlowModel>,
        Ghost(processed): Ghost<Seq<Set<Seq<bool>>>>,
        Ghost(queue): Ghost<Seq<(usize, Bdd)>>,
        Ghost(qpos): Ghost<int>,
    ) -> (r: usize)
        requires
            old(self).wf(),
            stands_for(*old(self), devices@),
            cur < old(self).nodes.len(),
            is_space(*arrive, old(self).num_vars as nat),
            old(woken).len() == old(self).nodes.len(),
            flowing(track, m, *old(self), devices@, traversal_type, processed, queue, qpos),
            track ==> forall|v: Seq<bool>| bdd_sat(*arrive).contains(v) ==> #[trigger] reached(m, cur as int, v),
        ensures
            final(self).wf(),
            stepped(*old(self), old(woken)@, *final(self), final(woken)@),
            outside_calm(*old(self), *final(self), old(self).nodes[cur as int].inner),
            tunnels_calm(*old(self), *final(self), old(self).nodes[cur as int].inner),
            tunnels_fed(*old(self), *final(self)),
            woken_in(old(self).nodes@, old(woken)@, final(woken)@, old(self).nodes[cur as int].inner),
            r >= count,
            flowing(track, m, *final(self), devices@, traversal_type, processed, queue, qpos),
            track ==> forall|h: int|
                0 <= h < m.hops[cur as int].len() ==> #[trigger] passed_on(
                    m,
                    state_of(*final(self), processed, queue, qpos),
                    cur as int,
                    h,
                    bdd_sat(*arrive),
                ),
    {
        let start = count;
        let mut count = count;
        let mut h: usize = 0;
        let hops = self.nodes[cur].hops.len();
        let ghost x = bdd_sat(*arrive);
        while h < hops
            invariant
                h <= hops,
                hops == old(self).nodes[cur as int].hops.len(),
                self.wf(),
                stands_for(*self, devices@),
                cur < self.nodes.len(),
                is_space(*arrive, self.num_vars as nat),
                x == bdd_sat(*arrive),
                woken.len() == self.nodes.len(),
                old(woken).len() == old(self).nodes.len(),
                old(self).wf(),
                stepped(*old(self), old(woken)@, *self, woken@),
                outside_calm(*old(self), *self, old(self).nodes[cur as int].inner),
                tunnels_calm(*old(self), *self, old(self).nodes[cur as int].inner),
                tunnels_fed(*old(self), *self),
                woken_in(old(self).nodes@, old(woken)@, woken@, old(self).nodes[cur as int].inner),
                count >= start,
                flowing(track, m, *self, devices@, traversal_type, processed, queue, qpos),
                track ==> forall|v: Seq<bool>| x.contains(v) ==> #[trigger] reached(m, cur as int, v),
                track ==> forall|g: int|
                    0 <= g < h ==> #[trigger] passed_on(
                        m,
                        state_of(*self, processed, queue, qpos),
                        cur as int,
                        g,
                        x,
                    ),
            decreases hops - h,
        {
            let ghost s1 = *self;
            let ghost w1 = woken@;
            count = one_more(count);
            self.process_hop(
                devices,
                cur,
                h,
                arrive,
                traversal_type,
                woken,
                Ghost(track),
                Ghost(m),
                Ghost(processed),
                Ghost(queue),
                Ghost(qpos),
            );
            proof {
                lemma_stepped_trans(*old(self), old(woken)@, s1, w1, *self, woken@);
                lemma_tunnels_calm_trans(
                    *old(self),
                    s1,
                    *self,
                    old(self).nodes[cur as int].inner,
                );
                lemma_tunnels_fed_trans(*old(self), s1, *self);
                if track {
                    assert(m.hops[cur as int] == self.nodes[cur as int].hops@);
                    assert forall|g: int| 0 <= g < h + 1 implies #[trigger] passed_on(
                        m,
                        state_of(*self, processed, queue, qpos),
                        cur as int,
                        g,
                        x,
                    ) by {
                        if g < h {
                            assert(passed_on(m, state_of(s1, processed, queue, qpos), cur as int, g, x));
                            lemma_passed_on_kept(
                                m,
                                s1,
                                *self,
                                processed,
                                queue,
                                qpos,
                                cur as int,
                                g,
                                x,
                            );
                        }
                    }
                }
            }
            h += 1;
        }
        proof {
            if track {
                assert(m.hops[cur as int] == self.nodes[cur as int].hops@);
            }
        }
        count
    }

    /// Carries every entry of the queue from its node along the node's links.
    fn run_wave(
        &mut self,
        devices: &Vec<Device>,
        queue: &Vec<(usize, Bdd)>,
        inner: bool,
        traversal_type: TraversalType,
        woken: &mut Vec<bool>,
        count: usize,
        Ghost(track): Ghost<bool>,
        Ghost(m): Ghost<FlowModel>,
        Ghost(processed): Ghost<Seq<Set<Seq<bool>>>>,
    ) -> (r: (usize, Ghost<Seq<Set<Seq<bool>>>>))
        requires
            old(self).wf(),
            stands_for(*old(self), devices@),
            queue_ok(queue@, old(self).nodes.len() as int, old(self).num_vars as nat),
            queue_in(queue@, old(self).nodes@, inner),
            old(woken).len() == old(self).nodes.len(),
            flowing(track, m, *old(self), devices@, traversal_type, processed, queue@, 0),
        ensures
            final(self).wf(),
            stepped(*old(self), old(woken)@, *final(self), final(woken)@),
            outside_calm(*old(self), *final(self), inner),
            tunnels_calm(*old(self), *final(self), inner),
            tunnels_fed(*old(self), *final(self)),
            woken_in(old(self).nodes@, old(woken)@, final(woken)@, inner),
            r.0 >= count,
            flowing(
                track,
                m,
                *final(self),
                devices@,
                traversal_type,
                r.1@,
                queue@,
                queue.len() as int,
            ),
    {
        let start = count;
        let mut count = count;
        let mut q: usize = 0;
        let ghost mut done = processed;
        while q < queue.len()
            invariant
                q <= queue.len(),
                self.wf(),
                old(self).wf(),
                stands_for(*self, devices@),
                queue_ok(queue@, self.nodes.len() as int, self.num_vars as nat),
                queue_in(queue@, old(self).nodes@, inner),
                woken.len() == self.nodes.len(),
                old(woken).len() == old(self).nodes.len(),
                stepped(*old(self), old(woken)@, *self, woken@),
                outside_calm(*old(self), *self, inner),
                tunnels_calm(*old(self), *self, inner),
                tunnels_fed(*old(self), *self),
                woken_in(old(self).nodes@, old(woken)@, woken@, inner),
                count >= start,
                flowing(track, m, *self, devices@, traversal_type, done, queue@, q as int),
            decreases queue.len() - q,
        {
            let ghost s1 = *self;
            let ghost w1 = woken@;
            proof {
                if track {
                    lemma_entry_sound(m, *self, done, queue@, q as int);
                }
            }
            count = self.process_ctx(
                devices,
                queue[q].0,
                &queue[q].1,
                traversal_type,
                woken,
                count,
                Ghost(track),
                Ghost(m),
                Ghost(done),
                Ghost(queue@),
                Ghost(q as int),
            );
            proof {
                lemma_stepped_trans(*old(self), old(woken)@, s1, w1, *self, woken@);
                lemma_tunnels_calm_trans(*old(self), s1, *self, inner);
                lemma_tunnels_fed_trans(*old(self), s1, *self);
                if track {
                    lemma_entry_finished(m, *self, done, queue@, q as int);
                    done = done.update(
                        queue[q as int].0 as int,
                        done[queue[q as int].0 as int].union(bdd_sat(queue[q as int].1)),
                    );
                }
            }
            q += 1;
        }
        (count, Ghost(done))
    }

    /// Queues every node of the given area that has arrivals, each with the
    /// union of its arrivals, which it thereby verifies.
    fn seed_queue(
        &mut self,
        engine: &Engine,
        inner: bool,
        Ghost(track): Ghost<bool>,
        Ghost(m): Ghost<FlowModel>,
        Ghost(processed): Ghost<Seq<Set<Seq<bool>>>>,
        Ghost(devices): Ghost<Seq<Device>>,
        Ghost(traversal_type): Ghost<TraversalType>,
    ) -> (queue: Vec<(usize, Bdd)>)
        requires
            old(self).wf(),
            engine.wf(),
            engine.width() == old(self).num_vars,
            flowing(
                track,
                m,
                *old(self),
                devices,
                traversal_type,
                processed,
                Seq::<(usize, Bdd)>::empty(),
                0,
            ),
        ensures
            final(self).wf(),
            grown(*old(self), *final(self)),
            final(self).tunnels == old(self).tunnels,
            queue_ok(queue@, final(self).nodes.len() as int, final(self).num_vars as nat),
            queue_in(queue@, final(self).nodes@, inner),
            forall|j: int|
                0 <= j < final(self).nodes.len() ==> (#[trigger] final(self).nodes[j]).arrive_spaces@
                    == if old(self).nodes[j].inner == inner {
                    Seq::<Bdd>::empty()
                } else {
                    old(self).nodes[j].arrive_spaces@
                },
            forall|j: int|
                0 <= j < final(self).nodes.len() && old(self).nodes[j].inner != inner ==> (
                #[trigger] final(self).nodes[j]).verified_space == old(self).nodes[j].verified_space,
            flowing(track, m, *final(self), devices, traversal_type, processed, queue@, 0),
    {
        let mut queue: Vec<(usize, Bdd)> = Vec::new();
        let mut j: usize = 0;
        while j < self.nodes.len()
            invariant
                j <= self.nodes.len(),
                self.wf(),
                engine.wf(),
                engine.width() == self.num_vars,
                grown(*old(self), *self),
                self.tunnels == old(self).tunnels,
                queue_ok(queue@, self.nodes.len() as int, self.num_vars as nat),
                queue_in(queue@, old(self).nodes@, inner),
                forall|k: int|
                    0 <= k < j ==> (#[trigger] self.nodes[k]).arrive_spaces@ == if old(
                        self,
                    ).nodes[k].inner == inner {
                        Seq::<Bdd>::empty()
                    } else {
                        old(self).nodes[k].arrive_spaces@
                    },
                forall|k: int|
                    0 <= k < j && old(self).nodes[k].inner != inner ==> (
                    #[trigger] self.nodes[k]).verified_space == old(self).nodes[k].verified_space,
                forall|k: int| j <= k < self.nodes.len() ==> #[trigger] self.nodes[k] == old(self).nodes[k],
                flowing(track, m, *self, devices, traversal_type, processed, queue@, 0),
            decreases self.nodes.len() - j,
        {
            if self.nodes[j].inner == inner && self.nodes[j].arrive_spaces.len() > 0 {
                let ghost s1 = *self;
                let ghost queue1 = queue@;
                let arrive = self.nodes[j].arrive_space_aggregate_and_verify(engine);
                queue.push((j, arrive));
                proof {
                    assert(grown(s1, *self));
                    NPNet::lemma_grown_trans(*old(self), s1, *self);
                    if track {
                        crate::symbolic::flow::lemma_woken(
                            m,
                            s1,
                            *self,
                            devices,
                            traversal_type,
                            processed,
                            queue1,
                            j as int,
                            arrive,
                        );
                    }
                }
            } else {
                assert(self.nodes[j as int].inner == inner ==> self.nodes[j as int].arrive_spaces@
                    =~= Seq::<Bdd>::empty());
            }
            j += 1;
        }
        queue
    }

    /// Queues every woken node with the union of its arrivals, which it
    /// thereby verifies.
    fn wake_queue(
        &mut self,
        engine: &Engine,
        woken: &Vec<bool>,
        Ghost(inner): Ghost<bool>,
        Ghost(track): Ghost<bool>,
        Ghost(m): Ghost<FlowModel>,
        Ghost(processed): Ghost<Seq<Set<Seq<bool>>>>,
        Ghost(devices): Ghost<Seq<Device>>,
        Ghost(traversal_type): Ghost<TraversalType>,
    ) -> (queue: Vec<(usize, Bdd)>)
        requires
            old(self).wf(),
            engine.wf(),
            engine.width() == old(self).num_vars,
            woken.len() == old(self).nodes.len(),
            forall|j: int|
                0 <= j < woken.len() && #[trigger] woken[j] ==> old(self).nodes[j].inner == inner,
            flowing(
                track,
                m,
                *old(self),
                devices,
                traversal_type,
                processed,
                Seq::<(usize, Bdd)>::empty(),
                0,
            ),
        ensures
            queue_in(queue@, final(self).nodes@, inner),
            final(self).wf(),
            grown(*old(self), *final(self)),
            final(self).tunnels == old(self).tunnels,
            queue_ok(queue@, final(self).nodes.len() as int, final(self).num_vars as nat),
            queue.len() > 0 <==> exists|j: int| 0 <= j < woken.len() && #[trigger] woken[j],
            forall|j: int|
                0 <= j < final(self).nodes.len() ==> (#[trigger] final(self).nodes[j]).arrive_spaces@
                    == if woken[j] {
                    Seq::<Bdd>::empty()
                } else {
                    old(self).nodes[j].arrive_spaces@
                },
            forall|j: int|
                0 <= j < final(self).nodes.len() && !woken[j] ==> (
                #[trigger] final(self).nodes[j]).verified_space == old(self).nodes[j].verified_space,
            flowing(track, m, *final(self), devices, traversal_type, processed, queue@, 0),
    {
        let mut queue: Vec<(usize, Bdd)> = Vec::new();
        let mut j: usize = 0;
        while j < self.nodes.len()
            invariant
                j <= self.nodes.len(),
                woken.len() == self.nodes.len(),
                self.wf(),
                engine.wf(),
                engine.width() == self.num_vars,
                grown(*old(self), *self),
                self.tunnels == old(self).tunnels,
                queue_ok(queue@, self.nodes.len() as int, self.num_vars as nat),
                queue_in(queue@, old(self).nodes@, inner),
                forall|k: int|
                    0 <= k < woken.len() && #[trigger] woken[k] ==> old(self).nodes[k].inner == inner,
                queue.len() > 0 <==> exists|k: int| 0 <= k < j && #[trigger] woken[k],
                forall|k: int|
                    0 <= k < j ==> (#[trigger] self.nodes[k]).arrive_spaces@ == if woken[k] {
                        Seq::<Bdd>::empty()
                    } else {
                        old(self).nodes[k].arrive_spaces@
                    },
                forall|k: int|
                    0 <= k < j && !woken[k] ==> (#[trigger] self.nodes[k]).verified_space == old(
                        self,
                    ).nodes[k].verified_space,
                forall|k: int| j <= k < self.nodes.len() ==> #[trigger] self.nodes[k] == old(self).nodes[k],
                flowing(track, m, *self, devices, traversal_type, processed, queue@, 0),
            decreases self.nodes.len() - j,
        {
            if woken[j] {
                let ghost s1 = *self;
                let ghost queue1 = queue@;
                let arrive = self.nodes[j].arrive_space_aggregate_and_verify(engine);
                queue.push((j, arrive));
                proof {
                    assert(grown(s1, *self));
                    NPNet::lemma_grown_trans(*old(self), s1, *self);
                    assert(woken[j as int]);
                    if track {
                        crate::symbolic::flow::lemma_woken(
                            m,
                            s1,
                            *self,
                            devices,
                            traversal_type,
                            processed,
                            queue1,
                            j as int,
                            arrive,
                        );
                    }
                }
            }
            proof {
                if exists|k: int| 0 <= k < j + 1 && #[trigger] woken[k] {
                    let k = choose|k: int| 0 <= k < j + 1 && #[trigger] woken[k];
                    if k < j {
                        assert(queue.len() > 0);
                    }
                }
            }
            j += 1;
        }
        queue
    }
}

impl NPNet {
    /// Traverses one area: the arrivals at its nodes are carried along the
    /// links, wave after wave, until no node of the area receives anything
    /// new. Returns the number of links looked at, added to `count`.
    fn traverse(
        &mut self,
        devices: &Vec<Device>,
        engine: &Engine,
        inner: bool,
        traversal_type: TraversalType,
        count: usize,
        Ghost(track): Ghost<bool>,
        Ghost(m): Ghost<FlowModel>,
        Ghost(processed): Ghost<Seq<Set<Seq<bool>>>>,
    ) -> (r: (usize, Ghost<Seq<Set<Seq<bool>>>>))
        requires
            old(self).wf(),
            stands_for(*old(self), devices@),
            engine.wf(),
            engine.width() == old(self).num_vars,
            flowing(
                track,
                m,
                *old(self),
                devices@,
                traversal_type,
                processed,
                Seq::<(usize, Bdd)>::empty(),
                0,
            ),
        ensures
            final(self).wf(),
            grown(*old(self), *final(self)),
            outside_calm(*old(self), *final(self), inner),
            tunnels_calm(*old(self), *final(self), inner),
            tunnels_fed(*old(self), *final(self)),
            forall|j: int|
                0 <= j < final(self).nodes.len() && old(self).nodes[j].inner == inner ==> (
                #[trigger] final(self).nodes[j]).arrive_spaces@ == Seq::<Bdd>::empty(),
            forall|t: int|
                0 <= t < old(self).tunnels.len() ==> (#[trigger] final(self).tunnels[t]).arrive_spaces.len()
                    >= old(self).tunnels[t].arrive_spaces.len(),
            (exists|t: int|
                0 <= t < old(self).tunnels.len() && (#[trigger] final(self).tunnels[t]).arrive_spaces.len()
                    > old(self).tunnels[t].arrive_spaces.len()) ==> gained(*old(self), *final(self)),
            r.0 >= count,
            flowing(
                track,
                m,
                *final(self),
                devices@,
                traversal_type,
                r.1@,
                Seq::<(usize, Bdd)>::empty(),
                0,
            ),
    {
        let mut count = count;
        let start = count;
        let ghost mut done = processed;
        let mut queue = self.seed_queue(
            engine,
            inner,
            Ghost(track),
            Ghost(m),
            Ghost(processed),
            Ghost(devices@),
            Ghost(traversal_type),
        );
        proof {
            assert(tunnels_calm(*old(self), *self, inner));
        }
        while queue.len() > 0
            invariant
                self.wf(),
                old(self).wf(),
                stands_for(*self, devices@),
                engine.wf(),
                engine.width() == self.num_vars,
                grown(*old(self), *self),
                outside_calm(*old(self), *self, inner),
                tunnels_calm(*old(self), *self, inner),
                tunnels_fed(*old(self), *self),
                queue_ok(queue@, self.nodes.len() as int, self.num_vars as nat),
                queue_in(queue@, self.nodes@, inner),
                forall|j: int|
                    0 <= j < self.nodes.len() && old(self).nodes[j].inner == inner ==> (
                    #[trigger] self.nodes[j]).arrive_spaces@ == Seq::<Bdd>::empty(),
                forall|t: int|
                    0 <= t < old(self).tunnels.len() ==> (#[trigger] self.tunnels[t]).arrive_spaces.len()
                        >= old(self).tunnels[t].arrive_spaces.len(),
                (exists|t: int|
                    0 <= t < old(self).tunnels.len() && (#[trigger] self.tunnels[t]).arrive_spaces.len()
                        > old(self).tunnels[t].arrive_spaces.len()) ==> gained(*old(self), *self),
                count >= start,
                flowing(track, m, *self, devices@, traversal_type, done, queue@, 0),
            decreases self.left(), queue.len(),
        {
            let ghost s1 = *self;
            let mut woken: Vec<bool> = Vec::new();
            let mut k: usize = 0;
            while k < self.nodes.len()
                invariant
                    k <= self.nodes.len(),
                    woken.len() == k,
                    forall|j: int| 0 <= j < k ==> !#[trigger] woken[j],
                decreases self.nodes.len() - k,
            {
                woken.push(false);
                k += 1;
            }
            let ghost w0 = woken@;
            let waved = self.run_wave(
                devices,
                &queue,
                inner,
                traversal_type,
                &mut woken,
                count,
                Ghost(track),
                Ghost(m),
                Ghost(done),
            );
            count = waved.0;
            let ghost s2 = *self;
            proof {
                done = waved.1@;
                if track {
                    crate::symbolic::flow::lemma_queue_spent(*self, done, queue@);
                }
            }
            queue = self.wake_queue(
                engine,
                &woken,
                Ghost(inner),
                Ghost(track),
                Ghost(m),
                Ghost(done),
                Ghost(devices@),
                Ghost(traversal_type),
            );
            proof {
                NPNet::lemma_grown_trans(s1, s2, *self);
                NPNet::lemma_grown_trans(*old(self), s1, *self);
                NPNet::lemma_left(s1, *self);
                lemma_tunnels_calm_trans(*old(self), s1, s2, inner);
                lemma_tunnels_fed_trans(*old(self), s1, s2);
                assert(tunnels_calm(s2, *self, inner));
                lemma_tunnels_calm_trans(*old(self), s2, *self, inner);
                assert(tunnels_fed(s2, *self));
                lemma_tunnels_fed_trans(*old(self), s2, *self);
                if queue.len() > 0 {
                    let j = choose|j: int| 0 <= j < woken.len() && #[trigger] woken[j];
                    assert(woken@[j] && !w0[j]);
                    assert(progress(s1, w0, s2, woken@));
                    assert(gained(s1, s2));
                }
                if exists|t: int|
                    0 <= t < old(self).tunnels.len() && (#[trigger] self.tunnels[t]).arrive_spaces.len()
                        > old(self).tunnels[t].arrive_spaces.len() {
                    let t = choose|t: int|
                        0 <= t < old(self).tunnels.len() && (
                        #[trigger] self.tunnels[t]).arrive_spaces.len() > old(
                            self,
                        ).tunnels[t].arrive_spaces.len();
                    if s1.tunnels[t].arrive_spaces.len() > old(self).tunnels[t].arrive_spaces.len() {
                        assert(gained(*old(self), s1));
                    } else {
                        assert(s2.tunnels[t].arrive_spaces.len() > s1.tunnels[t].arrive_spaces.len());
                        assert(progress(s1, w0, s2, woken@));
                        assert(gained(s1, *self));
                    }
                }
                assert forall|j: int|
                    0 <= j < self.nodes.len() && old(self).nodes[j].inner == inner implies (
                #[trigger] self.nodes[j]).arrive_spaces@ == Seq::<Bdd>::empty() by {
                    if !woken[j] {
                        assert(s2.nodes[j].arrive_spaces.len() <= s1.nodes[j].arrive_spaces.len());
                        assert(s2.nodes[j].arrive_spaces@ =~= Seq::<Bdd>::empty());
                    }
                }
            }
        }
        proof {
            if track {
                crate::symbolic::flow::lemma_queue_spent(*self, done, queue@);
                assert(queue@.len() == 0);
                assert(queue@ =~= Seq::<(usize, Bdd)>::empty());
            }
        }
        (count, Ghost(done))
    }

    /// Hands over what the tunnels hold: every tunnel with arrivals passes
    /// their union to the node at its other end, which takes it among its
    /// arrivals and into its verified space; a node that no such tunnel
    /// leads to stays as it was. Says whether there was nothing to hand
    /// over.
    fn entrace_check(
        &mut self,
        engine: &Engine,
        Ghost(track): Ghost<bool>,
        Ghost(m): Ghost<FlowModel>,
        Ghost(processed): Ghost<Seq<Set<Seq<bool>>>>,
        Ghost(devices): Ghost<Seq<Device>>,
        Ghost(traversal_type): Ghost<TraversalType>,
    ) -> (r: bool)
        requires
            old(self).wf(),
            engine.wf(),
            engine.width() == old(self).num_vars,
            flowing(
                track,
                m,
                *old(self),
                devices,
                traversal_type,
                processed,
                Seq::<(usize, Bdd)>::empty(),
                0,
            ),
        ensures
            final(self).wf(),
            grown(*old(self), *final(self)),
            final(self).drained(),
            r == old(self).drained(),
            r ==> final(self).nodes == old(self).nodes,
            forall|j: int|
                0 <= j < old(self).nodes.len() && !fed(*old(self), j) ==> (
                #[trigger] final(self).nodes[j]) == old(self).nodes[j],
            forall|j: int|
                0 <= j < old(self).nodes.len() ==> bdd_sat(
                    (#[trigger] final(self).nodes[j]).verified_space,
                ) == bdd_sat(old(self).nodes[j].verified_space).union(
                    handed_over(*old(self), j, old(self).tunnels.len() as int),
                ) && union_of(final(self).nodes[j].arrive_spaces@) == union_of(
                    old(self).nodes[j].arrive_spaces@,
                ).union(handed_over(*old(self), j, old(self).tunnels.len() as int)),
            flowing(
                track,
                m,
                *final(self),
                devices,
                traversal_type,
                processed,
                Seq::<(usize, Bdd)>::empty(),
                0,
            ),
    {
        let mut space_convergence = true;
        let mut t: usize = 0;
        proof {
            assert forall|j: int| 0 <= j < self.nodes.len() implies bdd_sat(
                (#[trigger] self.nodes[j]).verified_space,
            ) == bdd_sat(self.nodes[j].verified_space).union(handed_over(*self, j, 0)) && union_of(
                self.nodes[j].arrive_spaces@,
            ) == union_of(self.nodes[j].arrive_spaces@).union(handed_over(*self, j, 0)) by {
                let none = Set::<Seq<bool>>::empty();
                assert(bdd_sat(self.nodes[j].verified_space).union(none) =~= bdd_sat(
                    self.nodes[j].verified_space,
                ));
                assert(union_of(self.nodes[j].arrive_spaces@).union(none) =~= union_of(
                    self.nodes[j].arrive_spaces@,
                ));
            }
        }
        while t < self.tunnels.len()
            invariant
                t <= self.tunnels.len(),
                self.wf(),
                engine.wf(),
                engine.width() == self.num_vars,
                grown(*old(self), *self),
                forall|k: int| 0 <= k < t ==> (#[trigger] self.tunnels[k]).arrive_spaces.len() == 0,
                forall|k: int| t <= k < self.tunnels.len() ==> #[trigger] self.tunnels[k] == old(self).tunnels[k],
                space_convergence == (forall|k: int|
                    0 <= k < t ==> (#[trigger] old(self).tunnels[k]).arrive_spaces.len() == 0),
                space_convergence ==> self.nodes == old(self).nodes,
                forall|j: int|
                    0 <= j < old(self).nodes.len() && !fed(*old(self), j) ==> #[trigger] self.nodes[j]
                        == old(self).nodes[j],
                forall|j: int|
                    0 <= j < old(self).nodes.len() ==> bdd_sat(
                        (#[trigger] self.nodes[j]).verified_space,
                    ) == bdd_sat(old(self).nodes[j].verified_space).union(
                        handed_over(*old(self), j, t as int),
                    ) && union_of(self.nodes[j].arrive_spaces@) == union_of(
                        old(self).nodes[j].arrive_spaces@,
                    ).union(handed_over(*old(self), j, t as int)),
                flowing(
                    track,
                    m,
                    *self,
                    devices,
                    traversal_type,
                    processed,
                    Seq::<(usize, Bdd)>::empty(),
                    0,
                ),
            decreases self.tunnels.len() - t,
        {
            let ghost s1 = *self;
            proof {
                assert(self.tunnels[t as int] == old(self).tunnels[t as int]);
                if self.tunnels[t as int].arrive_spaces.len() == 0 {
                    assert forall|j: int| 0 <= j < self.nodes.len() implies handed_over(
                        *old(self),
                        j,
                        t + 1,
                    ) == handed_over(*old(self), j, t as int) by {
                        let h = handed_over(*old(self), j, t as int);
                        assert(h.union(Set::<Seq<bool>>::empty()) =~= h);
                    }
                }
            }
            if self.tunnels[t].arrive_spaces.len() > 0 {
                space_convergence = false;
                self.tunnels[t].trans_space_to_peer_node(&mut self.nodes, engine);
                proof {
                    assert forall|j: int| 0 <= j < old(self).nodes.len() implies bdd_sat(
                        (#[trigger] self.nodes[j]).verified_space,
                    ) == bdd_sat(old(self).nodes[j].verified_space).union(
                        handed_over(*old(self), j, t + 1),
                    ) && union_of(self.nodes[j].arrive_spaces@) == union_of(
                        old(self).nodes[j].arrive_spaces@,
                    ).union(handed_over(*old(self), j, t + 1)) by {
                        let h = handed_over(*old(self), j, t as int);
                        let got = union_of(old(self).tunnels[t as int].arrive_spaces@);
                        let v0 = bdd_sat(old(self).nodes[j].verified_space);
                        let a0 = union_of(old(self).nodes[j].arrive_spaces@);
                        if j == s1.tunnels[t as int].peer {
                            lemma_union_push(
                                s1.nodes[j].arrive_spaces@,
                                self.nodes[j].arrive_spaces@.last(),
                            );
                            assert(self.nodes[j].arrive_spaces@ =~= s1.nodes[j].arrive_spaces@.push(
                                self.nodes[j].arrive_spaces@.last(),
                            ));
                            assert(v0.union(h).union(got) =~= v0.union(h.union(got)));
                            assert(a0.union(h).union(got) =~= a0.union(h.union(got)));
                        } else {
                            assert(self.nodes[j] == s1.nodes[j]);
                            assert(h.union(Set::<Seq<bool>>::empty()) =~= h);
                        }
                    }
                    assert(grown(s1, *self));
                    NPNet::lemma_grown_trans(*old(self), s1, *self);
                    assert(old(self).tunnels[t as int].arrive_spaces.len() > 0);
                    let peer = s1.tunnels[t as int].peer as int;
                    assert(feeds(*old(self), t as int, peer));
                    lemma_union_push(
                        s1.nodes[peer].arrive_spaces@,
                        self.nodes[peer].arrive_spaces@.last(),
                    );
                    assert(self.nodes[peer].arrive_spaces@ =~= s1.nodes[peer].arrive_spaces@.push(
                        self.nodes[peer].arrive_spaces@.last(),
                    ));
                    if track {
                        crate::symbolic::flow::lemma_handed_over(
                            m,
                            s1,
                            *self,
                            devices,
                            traversal_type,
                            processed,
                            Seq::<(usize, Bdd)>::empty(),
                            0,
                            t as int,
                        );
                    }
                }
            }
            t += 1;
        }
        space_convergence
    }
}

/// What the first `t` tunnels hold for node `j`: the union of the arrivals
/// of those of them that hand over to the node.
pub open spec fn handed_over(net: NPNet, j: int, t: int) -> Set<Seq<bool>>
    decreases t,
{
    if t <= 0 {
        Set::<Seq<bool>>::empty()
    } else {
        handed_over(net, j, t - 1).union(
            if net.tunnels[t - 1].peer == j {
                union_of(net.tunnels[t - 1].arrive_spaces@)
            } else {
                Set::<Seq<bool>>::empty()
            },
        )
    }
}

/// Whether tunnel `t` hands over to node `j` and holds arrivals.
pub open spec fn feeds(net: NPNet, t: int, j: int) -> bool {
    0 <= t < net.tunnels.len() && net.tunnels[t].peer == j && net.tunnels[t].arrive_spaces.len() > 0
}

/// Whether some tunnel with arrivals hands over to node `j`.
pub open spec fn fed(net: NPNet, j: int) -> bool {
    exists|t: int| #[trigger] feeds(net, t, j)
}

impl NPNet {
    /// Lays the net out for one neighborhood: a node for each device, the
    /// devices of the neighborhood forming the inner area, and a tunnel at
    /// every port whose link crosses between the areas. Nothing has arrived
    /// yet.
    ///
    /// Fails when no subnet is declared, when a marked node of the
    /// neighborhood is not among the devices, or when the header set of a
    /// marked node is over other variables than the engine's.
    #[verifier::loop_isolation(false)]
    pub fn new_with_src_toponet(src_toponet: &Toponet, neighborhood: Neighborhood, engine: &Engine) -> (r:
        Result<NPNet, EngineError>)
        requires
            src_toponet.wf(),
            neighborhood.wf(),
            engine.wf(),
            engine.width() == src_toponet.width(),
        ensures
            match r {
                Ok(net) => {
                    &&& net.wf()
                    &&& net.fresh()
                    &&& net.drained()
                    &&& net.built_on(*src_toponet)
                    &&& stands_for(net, src_toponet.devices())
                    &&& net.neighborhood == neighborhood
                    &&& src_toponet.all_space() == Some(net.all_subnet_space)
                },
                Err(e) => if src_toponet.all_space().is_none() {
                    e == EngineError::NoPacketSpace
                } else if exists|k: int|
                    0 <= k < neighborhood.marked().len() && #[trigger] no_device_named(
                        src_toponet.devices(),
                        neighborhood.marked()[k].device_name@,
                    ) {
                    e == EngineError::UnknownDevice
                } else {
                    e == EngineError::ForeignDiagram && exists|k: int|
                        0 <= k < neighborhood.marked().len() && crate::kernel::bdd_width(
                            (#[trigger] neighborhood.marked()[k]).dst_prefix_bdd,
                        ) != engine.width()
                },
            },
    {
        proof {
            src_toponet.lemma_wf();
        }
        let all_subnet_space = match src_toponet.get_all_space() {
            Some(b) => b.clone(),
            None => {
                return Err(EngineError::NoPacketSpace);
            },
        };
        let devices = src_toponet.get_devices();
        let network = src_toponet.get_network();
        let ghost n = engine.width();
        let marked = neighborhood.get_marked_nodes();
        let mut marked_at: Vec<usize> = Vec::new();
        let mut k: usize = 0;
        while k < marked.len()
            invariant
                k <= marked.len(),
                marked_at.len() == k,
                forall|x: int|
                    0 <= x < k ==> (#[trigger] marked_at[x]) < devices.len()
                        && devices[marked_at[x] as int].name() == marked[x].device_name@,
            decreases marked.len() - k,
        {
            match crate::symbolic::toponet::find_device(devices, marked[k].device_name.as_str()) {
                Some(idx) => {
                    marked_at.push(idx);
                },
                None => {
                    assert(no_device_named(
                        src_toponet.devices(),
                        neighborhood.marked()[k as int].device_name@,
                    ));
                    return Err(EngineError::UnknownDevice);
                },
            }
            k += 1;
        }
        let mut k: usize = 0;
        while k < marked.len()
            invariant
                k <= marked.len(),
                forall|x: int| 0 <= x < k ==> is_space((#[trigger] marked[x]).dst_prefix_bdd, n),
            decreases marked.len() - k,
        {
            if !engine.owns(&marked[k].dst_prefix_bdd) {
                proof {
                    assert(crate::kernel::bdd_width(neighborhood.marked()[k as int].dst_prefix_bdd)
                        != engine.width());
                    assert forall|x: int| 0 <= x < neighborhood.marked().len() implies !#[trigger] no_device_named(
                        src_toponet.devices(),
                        neighborhood.marked()[x].device_name@,
                    ) by {
                        let j = marked_at[x] as int;
                        assert(src_toponet.devices()[j].name() == neighborhood.marked()[x].device_name@);
                    }
                }
                return Err(EngineError::ForeignDiagram);
            }
            k += 1;
        }
        let mut nodes: Vec<NPNetNode> = Vec::new();
        let mut i: usize = 0;
        while i < devices.len()
            invariant
                i <= devices.len(),
                nodes.len() == i,
                forall|x: int|
                    0 <= x < i ==> (#[trigger] nodes[x]).wf(n) && nodes[x].device == x
                        && nodes[x].name@ == devices[x].name() && nodes[x].inner
                        == neighborhood.has_node(devices[x].name()) && nodes[x].hops@.len() == 0
                        && nodes[x].arrive_spaces@.len() == 0 && bdd_sat(nodes[x].verified_space)
                        == Set::<Seq<bool>>::empty(),
            decreases devices.len() - i,
        {
            let name = devices[i].get_name();
            let inner = neighborhood.is_neighborhood_node(name.as_str());
            nodes.push(NPNetNode::new(name.clone(), i, inner, engine));
            i += 1;
        }
        let mut tunnels: Vec<Tunnel> = Vec::new();
        let mut i: usize = 0;
        while i < devices.len()
            invariant
                i <= devices.len(),
                nodes.len() == devices.len(),
                forall|x: int|
                    0 <= x < nodes.len() ==> (#[trigger] nodes[x]).wf(n) && nodes[x].device == x
                        && nodes[x].name@ == devices[x].name() && nodes[x].inner
                        == neighborhood.has_node(devices[x].name()) && nodes[x].arrive_spaces@.len()
                        == 0 && bdd_sat(nodes[x].verified_space) == Set::<Seq<bool>>::empty(),
                forall|x: int| i <= x < nodes.len() ==> (#[trigger] nodes[x]).hops@.len() == 0,
                forall|x: int|
                    0 <= x < i ==> hops_from(
                        (#[trigger] nodes[x]).hops@,
                        network.ports_of(devices[x].name()),
                        devices@,
                    ),
                hops_ok(nodes@, tunnels@),
                forall|x: int, h: int|
                    0 <= x < nodes.len() && 0 <= h < nodes[x].hops.len() ==> (match (
                    #[trigger] nodes[x].hops[h]).tunnel {
                        Some(t) => t < tunnels.len() && tunnels[t as int].device_port.key() == (
                            nodes[x].name@,
                            nodes[x].hops[h].port_name@,
                        ),
                        None => true,
                    }),
                forall|t: int|
                    0 <= t < tunnels.len() ==> (#[trigger] tunnels[t]).wf(n)
                        && tunnels[t].arrive_spaces.len() == 0 && bdd_sat(tunnels[t].verified_space)
                        == Set::<Seq<bool>>::empty() && tunnels[t].arrive_cnt == 0,
                tunnels_placed(nodes@, tunnels@),
            decreases devices.len() - i,
        {
            let mut hops: Vec<Hop> = Vec::new();
            let ghost tunnels_before = tunnels@;
            match network.get_device_ports(devices[i].get_name().as_str()) {
                Some(ports) => {
                    let mut p: usize = 0;
                    assert(ports@.take(0) =~= Seq::<DevicePort>::empty());
                    while p < ports.len()
                        invariant
                            p <= ports.len(),
                            i < devices.len(),
                            nodes.len() == devices.len(),
                            tunnels.len() >= tunnels_before.len(),
                            forall|t: int|
                                0 <= t < tunnels_before.len() ==> #[trigger] tunnels[t]
                                    == tunnels_before[t],
                            hops_from(hops@, ports@.take(p as int), devices@),
                            forall|h: int|
                                0 <= h < hops.len() ==> (#[trigger] hops[h]).peer < nodes.len()
                                    && match hops[h].tunnel {
                                    Some(t) => t < tunnels.len() && tunnels[t as int].peer
                                        == hops[h].peer && nodes[hops[h].peer as int].inner
                                        != nodes[i as int].inner && tunnels[t as int].device_port.key()
                                        == (nodes[i as int].name@, hops[h].port_name@),
                                    None => nodes[hops[h].peer as int].inner == nodes[i as int].inner,
                                },
                            forall|t: int|
                                0 <= t < tunnels.len() ==> (#[trigger] tunnels[t]).wf(n)
                                    && tunnels[t].arrive_spaces.len() == 0 && tunnels[t].peer
                                    < nodes.len() && bdd_sat(tunnels[t].verified_space) == Set::<
                                    Seq<bool>,
                                >::empty() && tunnels[t].arrive_cnt == 0,
                            forall|t: usize|
                                tunnels_before.len() <= t < tunnels.len() ==> #[trigger] held(hops@, t),
                        decreases ports.len() - p,
                    {
                        let port = &ports[p];
                        let ghost seen = ports@.take(p as int);
                        let ghost seen1 = ports@.take(p as int + 1);
                        let ghost hops0 = hops@;
                        proof {
                            assert(seen1.drop_last() =~= seen);
                            assert(seen1.last() == *port);
                            network.lemma_ports();
                        }
                        let mut linked = false;
                        match port.get_peer_port() {
                            Some(peer) => {
                                match crate::symbolic::toponet::find_device(
                                    devices,
                                    peer.0.as_str(),
                                ) {
                                    Some(j) => {
                                        let tunnel = if nodes[i].inner != nodes[j].inner {
                                            tunnels.push(
                                                Tunnel {
                                                    device_port: port.clone(),
                                                    arrive_spaces: Vec::new(),
                                                    verified_space: engine.make_none_space_bdd(),
                                                    arrive_cnt: 0,
                                                    peer: j,
                                                },
                                            );
                                            Some(tunnels.len() - 1)
                                        } else {
                                            None
                                        };
                                        hops.push(
                                            Hop {
                                                port_name: port.get_port_name(),
                                                peer: j,
                                                peer_port: peer.1.clone(),
                                                tunnel,
                                            },
                                        );
                                        proof {
                                            assert(hops@.drop_last() =~= hops0);
                                            assert forall|t: usize|
                                                tunnels_before.len() <= t < tunnels.len() implies #[trigger] held(
                                                hops@,
                                                t,
                                            ) by {
                                                if tunnel == Some(t) {
                                                    assert(hop_holds(hops@, hops0.len() as int, t));
                                                } else {
                                                    assert(held(hops0, t));
                                                    let h = choose|h: int| #[trigger] hop_holds(hops0, h, t);
                                                    assert(hop_holds(hops@, h, t));
                                                }
                                            }
                                            assert(port_linked(*port, devices@));
                                            assert(ports_ok_device(
                                                devices[i as int].name(),
                                                *port,
                                            )) by {
                                                assert(crate::util::network::ports_ok(
                                                    devices[i as int].name(),
                                                    ports@,
                                                ));
                                            }
                                        }
                                        linked = true;
                                    },
                                    None => {},
                                }
                            },
                            None => {},
                        }
                        proof {
                            if !linked {
                                assert(!port_linked(*port, devices@));
                            }
                        }
                        p += 1;
                    }
                    assert(ports@.take(ports.len() as int) =~= ports@);
                },
                None => {
                    assert(network.ports_of(devices[i as int].name()) =~= Seq::<DevicePort>::empty());
                },
            }
            let ghost nodes0 = nodes@;
            nodes[i].hops = hops;
            proof {
                assert(forall|x: int| 0 <= x < nodes.len() && x != i ==> nodes[x] == nodes0[x]);
                assert(nodes[i as int].inner == nodes0[i as int].inner);
                assert forall|t: usize| t < tunnels.len() implies #[trigger] placed(nodes@, t) by {
                    if t < tunnels_before.len() {
                        assert(placed(nodes0, t));
                        let x = choose|x: int| #[trigger] tunnel_of(nodes0, x, t);
                        let h = choose|h: int| #[trigger] hop_holds(nodes0[x].hops@, h, t);
                        assert(x != i);
                        assert(tunnel_of(nodes@, x, t));
                    } else {
                        assert(held(nodes[i as int].hops@, t));
                        assert(tunnel_of(nodes@, i as int, t));
                    }
                }
            }
            i += 1;
        }
        let net = NPNet {
            neighborhood,
            marked_at,
            nodes,
            tunnels,
            all_subnet_space,
            num_vars: engine.ip_bits_len(),
        };
        proof {
            assert forall|k: int| 0 <= k < net.marked_at.len() implies (#[trigger] net.marked_at[k])
                < net.nodes.len() && net.nodes[net.marked_at[k] as int].name@
                == net.neighborhood.marked()[k].device_name@ && net.nodes[net.marked_at[k] as int].inner
                && is_space(net.neighborhood.marked()[k].dst_prefix_bdd, net.num_vars as nat) by {
                let name = net.neighborhood.marked()[k].device_name@;
                assert(marked_names(net.neighborhood.marked())[k] == name);
                assert(marked_names(net.neighborhood.marked()).contains(name));
            }
        }
        Ok(net)
    }
}

/// Whether the port belongs to the device.
pub open spec fn ports_ok_device(device: Seq<char>, port: DevicePort) -> bool {
    port.device() == device
}

/// The header set that a marked node starts the traversal with: going
/// backward the node's own subnet, going forward the headers from the node
/// to any declared subnet.
pub open spec fn seed_space(
    marked: PacketSpaceAwareDevice,
    traversal_type: TraversalType,
    all_subnets: Set<Seq<bool>>,
    n: nat,
) -> Set<Seq<bool>> {
    match traversal_type {
        TraversalType::Forward => src_device_space(n, marked.device_id).intersect(all_subnets),
        TraversalType::Backward => bdd_sat(marked.dst_prefix_bdd),
    }
}

/// The headers that node `i` gets as seeds from the first `k` marked nodes.
pub open spec fn seeded(net: NPNet, traversal_type: TraversalType, i: int, k: int) -> Set<Seq<bool>>
    decreases k,
{
    if k <= 0 {
        Set::<Seq<bool>>::empty()
    } else if net.marked_at[k - 1] == i {
        seeded(net, traversal_type, i, k - 1).union(
            seed_space(
                net.neighborhood.marked()[k - 1],
                traversal_type,
                bdd_sat(net.all_subnet_space),
                net.num_vars as nat,
            ),
        )
    } else {
        seeded(net, traversal_type, i, k - 1)
    }
}

/// The union of the first `k` diagrams with one more diagram at the end is
/// the union of all and the last.
pub proof fn lemma_union_push(bdds: Seq<Bdd>, b: Bdd)
    ensures
        spaces_union(bdds.push(b), bdds.len() as int + 1) == spaces_union(bdds, bdds.len() as int).union(
            bdd_sat(b),
        ),
{
    crate::symbolic::toponet::lemma_union_prefix(bdds, bdds.push(b), bdds.len() as int);
}

impl NPNet {
    /// Gives every marked node its seed as an arrival.
    fn init_marked_nodes_packet_space(&mut self, engine: &Engine, traversal_type: TraversalType)
        requires
            old(self).wf(),
            engine.wf(),
            engine.width() == old(self).num_vars,
        ensures
            final(self).wf(),
            grown(*old(self), *final(self)),
            final(self).tunnels == old(self).tunnels,
            forall|i: int|
                0 <= i < old(self).nodes.len() ==> bdd_sat(
                    (#[trigger] final(self).nodes[i]).verified_space,
                ) == bdd_sat(old(self).nodes[i].verified_space) && spaces_union(
                    final(self).nodes[i].arrive_spaces@,
                    final(self).nodes[i].arrive_spaces.len() as int,
                ) == spaces_union(
                    old(self).nodes[i].arrive_spaces@,
                    old(self).nodes[i].arrive_spaces.len() as int,
                ).union(seeded(*old(self), traversal_type, i, old(self).marked_at.len() as int)),
            forall|i: int|
                0 <= i < old(self).nodes.len() && !old(self).nodes[i].inner ==> (
                #[trigger] final(self).nodes[i]).arrive_spaces@ == old(self).nodes[i].arrive_spaces@,
    {
        let mut k: usize = 0;
        proof {
            assert forall|i: int| 0 <= i < self.nodes.len() implies spaces_union(
                (#[trigger] self.nodes[i]).arrive_spaces@,
                self.nodes[i].arrive_spaces.len() as int,
            ) == spaces_union(
                old(self).nodes[i].arrive_spaces@,
                old(self).nodes[i].arrive_spaces.len() as int,
            ).union(seeded(*old(self), traversal_type, i, 0)) by {
                let u = spaces_union(
                    old(self).nodes[i].arrive_spaces@,
                    old(self).nodes[i].arrive_spaces.len() as int,
                );
                assert(u.union(Set::<Seq<bool>>::empty()) =~= u);
            }
        }
        while k < self.marked_at.len()
            invariant
                k <= self.marked_at.len(),
                self.wf(),
                engine.wf(),
                engine.width() == self.num_vars,
                grown(*old(self), *self),
                self.tunnels == old(self).tunnels,
                forall|i: int|
                    0 <= i < old(self).nodes.len() ==> bdd_sat(
                        (#[trigger] self.nodes[i]).verified_space,
                    ) == bdd_sat(old(self).nodes[i].verified_space) && spaces_union(
                        self.nodes[i].arrive_spaces@,
                        self.nodes[i].arrive_spaces.len() as int,
                    ) == spaces_union(
                        old(self).nodes[i].arrive_spaces@,
                        old(self).nodes[i].arrive_spaces.len() as int,
                    ).union(seeded(*old(self), traversal_type, i, k as int)),
                forall|i: int|
                    0 <= i < old(self).nodes.len() && !old(self).nodes[i].inner ==> (
                    #[trigger] self.nodes[i]).arrive_spaces@ == old(self).nodes[i].arrive_spaces@,
            decreases self.marked_at.len() - k,
        {
            let idx = self.marked_at[k];
            let marked = &self.neighborhood.get_marked_nodes()[k];
            let packet_space = match traversal_type {
                TraversalType::Forward => {
                    let device_bdd = engine.encode_src_device_constraint(marked.device_id);
                    device_bdd.and(&self.all_subnet_space)
                },
                TraversalType::Backward => marked.dst_prefix_bdd.clone(),
            };
            let ghost s1 = *self;
            let ghost seed = bdd_sat(packet_space);
            self.nodes[idx].arrive_spaces.push(packet_space);
            proof {
                assert(grown(s1, *self));
                NPNet::lemma_grown_trans(*old(self), s1, *self);
                lemma_union_push(s1.nodes[idx as int].arrive_spaces@, packet_space);
                assert forall|i: int| 0 <= i < old(self).nodes.len() implies spaces_union(
                    (#[trigger] self.nodes[i]).arrive_spaces@,
                    self.nodes[i].arrive_spaces.len() as int,
                ) == spaces_union(
                    old(self).nodes[i].arrive_spaces@,
                    old(self).nodes[i].arrive_spaces.len() as int,
                ).union(seeded(*old(self), traversal_type, i, k as int + 1)) by {
                    let u = spaces_union(
                        old(self).nodes[i].arrive_spaces@,
                        old(self).nodes[i].arrive_spaces.len() as int,
                    );
                    let sd = seeded(*old(self), traversal_type, i, k as int);
                    if i == idx {
                        assert(u.union(sd).union(seed) =~= u.union(sd.union(seed)));
                    }
                }
            }
            k += 1;
        }
    }

    /// Runs the traversal to its end: the marked nodes are seeded, then the
    /// inner and the outer area are traversed in turn, the tunnels handing
    /// over after each, until a hand-over finds every tunnel empty.
    ///
    /// No verified space ever loses a header. The number of rounds is at
    /// most one more than the number of headers that nodes and tunnels had
    /// yet to verify at the start, of which there are never more than two
    /// to the number of variables for each node and tunnel. On a net in which nothing had happened
    /// yet, every node ends with exactly the headers that can be derived at
    /// it verified: those that it is seeded with, and those that a link
    /// passes on from a node at which they can be derived; and no node has
    /// an arrival left.
    pub fn iterative_traversal(
        &mut self,
        src_toponet: &Toponet,
        engine: &Engine,
        traversal_type: TraversalType,
        invariant_type: InvariantType,
    ) -> (stats: TraversalStats)
        requires
            old(self).wf(),
            old(self).drained(),
            src_toponet.wf(),
            old(self).nodes.len() == src_toponet.devices().len(),
            old(self).num_vars == src_toponet.width(),
            engine.wf(),
            engine.width() == old(self).num_vars,
        ensures
            final(self).wf(),
            final(self).drained(),
            grown(*old(self), *final(self)),
            1 <= stats.iterations <= old(self).left() + 1,
            old(self).fresh() ==> forall|i: int|
                0 <= i < old(self).nodes.len() ==> bdd_sat(
                    (#[trigger] final(self).nodes[i]).verified_space,
                ) == reach_space(flow_model(*old(self), src_toponet.devices(), traversal_type), i)
                    && final(self).nodes[i].arrive_spaces.len() == 0,
    {
        proof {
            src_toponet.lemma_wf();
        }
        let devices = src_toponet.get_devices();
        let ghost track = old(self).fresh();
        let ghost m = flow_model(*old(self), devices@, traversal_type);
        let ghost mut seen = Seq::new(old(self).nodes.len() as nat, |i: int| Set::<Seq<bool>>::empty());
        self.init_marked_nodes_packet_space(engine, traversal_type);
        let ghost seeded_net = *self;
        proof {
            NPNet::lemma_left(*old(self), seeded_net);
            if track {
                crate::symbolic::flow::lemma_start(*old(self), seeded_net, devices@, traversal_type);
            }
        }
        let mut iterations: usize = 0;
        let mut hops: usize = 0;
        let mut done = false;
        while !done
            invariant
                self.wf(),
                old(self).wf(),
                self.drained(),
                stands_for(*self, devices@),
                engine.wf(),
                engine.width() == self.num_vars,
                grown(*old(self), *self),
                grown(seeded_net, *self),
                seeded_net.left() <= old(self).left(),
                done ==> iterations + self.left() <= old(self).left() + 1,
                done ==> iterations >= 1,
                !done ==> iterations + self.left() <= old(self).left(),
                flowing(
                    track,
                    m,
                    *self,
                    devices@,
                    traversal_type,
                    seen,
                    Seq::<(usize, Bdd)>::empty(),
                    0,
                ),
                track ==> forall|i: int|
                    0 <= i < self.nodes.len() && (done || !self.nodes[i].inner) ==> (
                    #[trigger] self.nodes[i]).arrive_spaces@.len() == 0,
            decreases
                    self.left(),
                    (if done {
                        0nat
                    } else {
                        1nat
                    }),
        {
            let ghost s1 = *self;
            iterations = one_more(iterations);
            let inside = self.traverse(
                devices,
                engine,
                true,
                traversal_type,
                hops,
                Ghost(track),
                Ghost(m),
                Ghost(seen),
            );
            hops = inside.0;
            let ghost s2 = *self;
            proof {
                seen = inside.1@;
                assert forall|j: int| 0 <= j < s2.nodes.len() && s2.nodes[j].inner implies !fed(
                    s2,
                    j,
                ) by {
                    if fed(s2, j) {
                        let t = choose|t: int| #[trigger] feeds(s2, t, j);
                        assert(s1.tunnels[t].arrive_spaces.len() == 0);
                        assert(s1.tunnels[t].peer == s2.tunnels[t].peer);
                        assert(s2.tunnels[t].arrive_spaces@ == s1.tunnels[t].arrive_spaces@);
                    }
                }
            }
            let converged = self.entrace_check(
                engine,
                Ghost(track),
                Ghost(m),
                Ghost(seen),
                Ghost(devices@),
                Ghost(traversal_type),
            );
            let ghost s3 = *self;
            proof {
                NPNet::lemma_grown_trans(s1, s2, s3);
                NPNet::lemma_grown_trans(*old(self), s1, s3);
                NPNet::lemma_grown_trans(seeded_net, s1, s3);
                NPNet::lemma_left(s1, s3);
                if track {
                    assert forall|i: int| 0 <= i < s3.nodes.len() && (converged
                        || s3.nodes[i].inner) implies (#[trigger] s3.nodes[i]).arrive_spaces@.len()
                        == 0 by {
                        if s1.nodes[i].inner {
                            assert(s2.nodes[i].arrive_spaces@ == Seq::<Bdd>::empty());
                            assert(!fed(s2, i));
                        } else {
                            assert(s2.nodes[i].arrive_spaces@ == s1.nodes[i].arrive_spaces@);
                        }
                    }
                }
            }
            if converged {
                done = true;
            } else {
                proof {
                    let t = choose|t: int|
                        0 <= t < s2.tunnels.len() && (#[trigger] s2.tunnels[t]).arrive_spaces.len()
                            != 0;
                    assert(s2.tunnels[t].arrive_spaces.len() > s1.tunnels[t].arrive_spaces.len());
                    assert(gained(s1, s2));
                    NPNet::lemma_left(s1, s3);
                }
                let outside = self.traverse(
                    devices,
                    engine,
                    false,
                    traversal_type,
                    hops,
                    Ghost(track),
                    Ghost(m),
                    Ghost(seen),
                );
                hops = outside.0;
                let ghost s4 = *self;
                proof {
                    seen = outside.1@;
                    assert forall|j: int|
                        0 <= j < s4.nodes.len() && !s4.nodes[j].inner implies !fed(s4, j) by {
                        if fed(s4, j) {
                            let t = choose|t: int| #[trigger] feeds(s4, t, j);
                            assert(s3.tunnels[t].arrive_spaces.len() == 0);
                            assert(s3.tunnels[t].peer == s4.tunnels[t].peer);
                            assert(s4.tunnels[t].arrive_spaces@ == s3.tunnels[t].arrive_spaces@);
                        }
                    }
                }
                let converged = self.entrace_check(
                    engine,
                    Ghost(track),
                    Ghost(m),
                    Ghost(seen),
                    Ghost(devices@),
                    Ghost(traversal_type),
                );
                proof {
                    NPNet::lemma_grown_trans(s3, s4, *self);
                    NPNet::lemma_grown_trans(s1, s3, *self);
                    NPNet::lemma_grown_trans(*old(self), s1, *self);
                    NPNet::lemma_grown_trans(seeded_net, s1, *self);
                    NPNet::lemma_left(s1, *self);
                    if track {
                        assert forall|i: int| 0 <= i < self.nodes.len() && (converged
                            || !self.nodes[i].inner) implies (
                        #[trigger] self.nodes[i]).arrive_spaces@.len() == 0 by {
                            if !s3.nodes[i].inner {
                                assert(s4.nodes[i].arrive_spaces@ == Seq::<Bdd>::empty());
                                assert(!fed(s4, i));
                            } else {
                                assert(s4.nodes[i].arrive_spaces@ == s3.nodes[i].arrive_spaces@);
                                assert(s3.nodes[i].arrive_spaces@.len() == 0);
                            }
                        }
                    }
                }
                if converged {
                    done = true;
                }
            }
        }
        proof {
            if track {
                crate::symbolic::flow::lemma_finished(m, *self, seen);
            }
        }
        TraversalStats { iterations, hops }
    }
}

/// Every link among the hops of a device is the link of one of the
/// device's ports.
pub proof fn lemma_hops_from(hops: Seq<Hop>, ports: Seq<DevicePort>, devices: Seq<Device>, h: int)
    requires
        hops_from(hops, ports, devices),
        0 <= h < hops.len(),
    ensures
        exists|x: int| 0 <= x < ports.len() && hop_matches(hops[h], #[trigger] ports[x], devices),
    decreases ports.len(),
{
    if ports.len() > 0 {
        if port_linked(ports.last(), devices) {
            if h == hops.len() - 1 {
                assert(hop_matches(hops[h], ports[ports.len() - 1], devices));
            } else {
                lemma_hops_from(hops.drop_last(), ports.drop_last(), devices, h);
                let x = choose|x: int|
                    0 <= x < ports.drop_last().len() && hop_matches(
                        hops.drop_last()[h],
                        #[trigger] ports.drop_last()[x],
                        devices,
                    );
                assert(hop_matches(hops[h], ports[x], devices));
            }
        } else {
            lemma_hops_from(hops, ports.drop_last(), devices, h);
            let x = choose|x: int|
                0 <= x < ports.drop_last().len() && hop_matches(
                    hops[h],
                    #[trigger] ports.drop_last()[x],
                    devices,
                );
            assert(hop_matches(hops[h], ports[x], devices));
        }
    }
}

/// A node that is no marked node of the traversal gets no seed.
pub proof fn lemma_unmarked(net: NPNet, traversal_type: TraversalType, d: int, k: int)
    requires
        0 <= k <= net.marked_at.len(),
        forall|x: int| 0 <= x < net.marked_at.len() ==> #[trigger] net.marked_at[x] != d,
    ensures
        seeded(net, traversal_type, d, k) == Set::<Seq<bool>>::empty(),
    decreases k,
{
    if k > 0 {
        lemma_unmarked(net, traversal_type, d, k - 1);
    }
}

/// A device without links is reached by nothing: where the topology knows
/// no port of device `d`, the node of `d` verifies in a traversal nothing
/// but what it is seeded with, and nothing at all if it is no marked node.
/// So no subnet that holds a header is verified at it, and going backward
/// it reaches no marked device.
pub proof fn lemma_device_without_links(
    toponet: Toponet,
    start: NPNet,
    traversal_type: TraversalType,
    d: int,
)
    requires
        start.built_on(toponet),
        toponet.network().closed(),
        0 <= d < start.nodes.len(),
        !toponet.network().device_names().contains(toponet.devices()[d].name()),
    ensures
        reach_space(flow_model(start, toponet.devices(), traversal_type), d) == seeded(
            start,
            traversal_type,
            d,
            start.marked_at.len() as int,
        ),
        (forall|x: int| 0 <= x < start.marked_at.len() ==> #[trigger] start.marked_at[x] != d)
            ==> reach_space(flow_model(start, toponet.devices(), traversal_type), d) == Set::<
            Seq<bool>,
        >::empty(),
{
    let m = flow_model(start, toponet.devices(), traversal_type);
    let network = toponet.network();
    let devices = toponet.devices();
    assert forall|i: int, h: int|
        0 <= i < m.hops.len() && 0 <= h < m.hops[i].len() implies (#[trigger] m.hops[i][h]).peer
        != d by {
        let name = devices[i].name();
        let ports = network.ports_of(name);
        assert(hops_from(start.nodes[i].hops@, ports, devices));
        lemma_hops_from(start.nodes[i].hops@, ports, devices, h);
        let x = choose|x: int|
            0 <= x < ports.len() && hop_matches(start.nodes[i].hops@[h], #[trigger] ports[x], devices);
        assert(network.device_names().contains(ports[x].peer().unwrap().0));
    }
    crate::symbolic::flow::lemma_unlinked(m, d);
    if forall|x: int| 0 <= x < start.marked_at.len() ==> #[trigger] start.marked_at[x] != d {
        lemma_unmarked(start, traversal_type, d, start.marked_at.len() as int);
    }
}

/// A count as a machine number: the count itself, or the largest number
/// if the count is larger.
pub open spec fn capped(count: nat) -> usize {
    if count <= usize::MAX {
        count as usize
    } else {
        usize::MAX
    }
}

/// Going backward, whether the source reaches the destination: every header
/// of the destination's subnet is verified at the source.
pub open spec fn backward_reaches(dst: PacketSpaceAwareDevice, src_verified: Bdd) -> bool {
    bdd_sat(dst.dst_prefix_bdd).subset_of(bdd_sat(src_verified))
}

/// Going forward, whether the source reaches the destination: every header
/// from the source to the destination's subnet is verified at the
/// destination.
pub open spec fn forward_reaches(
    src: PacketSpaceAwareDevice,
    dst_subnet: Bdd,
    dst_verified: Bdd,
    n: nat,
) -> bool {
    src_device_space(n, src.device_id).intersect(bdd_sat(dst_subnet)).subset_of(
        bdd_sat(dst_verified),
    )
}

/// Among the first `m` marked nodes, how many other than `name` the device
/// `name` with the verified space `verified` does (`reach`) or does not
/// (`!reach`) reach, going backward.
pub open spec fn backward_count(
    marked: Seq<PacketSpaceAwareDevice>,
    m: int,
    name: Seq<char>,
    verified: Bdd,
    reach: bool,
) -> nat
    decreases m,
{
    if m <= 0 {
        0
    } else {
        let rest = backward_count(marked, m - 1, name, verified, reach);
        if marked[m - 1].device_name@ != name && backward_reaches(marked[m - 1], verified)
            == reach {
            rest + 1
        } else {
            rest
        }
    }
}

/// Among the first `m` marked nodes, how many other than `name` do
/// (`reach`) or do not (`!reach`) reach the device `name` with the subnet
/// `subnet` and the verified space `verified`, going forward.
pub open spec fn forward_count(
    marked: Seq<PacketSpaceAwareDevice>,
    m: int,
    name: Seq<char>,
    subnet: Bdd,
    verified: Bdd,
    n: nat,
    reach: bool,
) -> nat
    decreases m,
{
    if m <= 0 {
        0
    } else {
        let rest = forward_count(marked, m - 1, name, subnet, verified, n, reach);
        if marked[m - 1].device_name@ != name && forward_reaches(
            marked[m - 1],
            subnet,
            verified,
            n,
        ) == reach {
            rest + 1
        } else {
            rest
        }
    }
}

/// Whether `i` is the position of the first node of the given name.
pub open spec fn is_node_named(nodes: Seq<NPNetNode>, name: Seq<char>, i: int) -> bool {
    &&& 0 <= i < nodes.len()
    &&& nodes[i].name@ == name
    &&& forall|j: int| 0 <= j < i ==> (#[trigger] nodes[j]).name@ != name
}

/// The verified space of the first node of the given name.
pub open spec fn verified_of(nodes: Seq<NPNetNode>, name: Seq<char>) -> Bdd {
    nodes[choose|i: int| is_node_named(nodes, name, i)].verified_space
}

/// Whether some node has the given name.
pub open spec fn has_node_named(nodes: Seq<NPNetNode>, name: Seq<char>) -> bool {
    exists|i: int| is_node_named(nodes, name, i)
}

/// Whether each of the first `s` names is that of a node.
pub open spec fn nodes_for(nodes: Seq<NPNetNode>, names: Seq<Seq<char>>, s: int) -> bool {
    forall|k: int| 0 <= k < s ==> has_node_named(nodes, #[trigger] names[k])
}

/// Over the first `s` of the given devices, the pairs counted by
/// `backward_count`.
pub open spec fn backward_total(net: NPNet, pair_devices: Seq<Seq<char>>, s: int, reach: bool) -> nat
    decreases s,
{
    if s <= 0 {
        0
    } else {
        backward_total(net, pair_devices, s - 1, reach) + backward_count(
            net.neighborhood.marked(),
            net.neighborhood.marked().len() as int,
            pair_devices[s - 1],
            verified_of(net.nodes@, pair_devices[s - 1]),
            reach,
        )
    }
}

/// The header set of the subnet declared at the named device, if any.
pub open spec fn subnet_of(toponet: Toponet, name: Seq<char>) -> Option<Bdd> {
    if toponet.packet_space_names().contains(name) {
        Some(toponet.packet_space_bdds()[toponet.packet_space_names().index_of(name)])
    } else {
        None
    }
}

/// Over the first `s` of the given devices, the pairs counted by
/// `forward_count`; a device without a declared subnet counts for nothing.
pub open spec fn forward_total(
    net: NPNet,
    toponet: Toponet,
    pair_devices: Seq<Seq<char>>,
    s: int,
    reach: bool,
) -> nat
    decreases s,
{
    if s <= 0 {
        0
    } else {
        let rest = forward_total(net, toponet, pair_devices, s - 1, reach);
        match subnet_of(toponet, pair_devices[s - 1]) {
            Some(subnet) => rest + forward_count(
                net.neighborhood.marked(),
                net.neighborhood.marked().len() as int,
                pair_devices[s - 1],
                subnet,
                verified_of(net.nodes@, pair_devices[s - 1]),
                net.num_vars as nat,
                reach,
            ),
            None => rest,
        }
    }
}

/// Adds to a capped count.
fn add_capped(a: usize, b: usize, Ghost(x): Ghost<nat>, Ghost(y): Ghost<nat>) -> (r: usize)
    requires
        a == capped(x),
        b == capped(y),
    ensures
        r == capped(x + y),
{
    if a > usize::MAX - b {
        usize::MAX
    } else {
        a + b
    }
}

impl NPNet {
    /// The position of the first node of the given name.
    pub fn node_index(&self, name: &str) -> (r: Option<usize>)
        ensures
            match r {
                Some(i) => is_node_named(self.nodes@, name@, i as int),
                None => !has_node_named(self.nodes@, name@),
            },
    {
        let mut i: usize = 0;
        while i < self.nodes.len()
            invariant
                i <= self.nodes.len(),
                forall|j: int| 0 <= j < i ==> (#[trigger] self.nodes[j]).name@ != name@,
            decreases self.nodes.len() - i,
        {
            if crate::util::text::text_eq(self.nodes[i].name.as_str(), name) {
                return Some(i);
            }
            i += 1;
        }
        proof {
            if has_node_named(self.nodes@, name@) {
                let i = choose|i: int| is_node_named(self.nodes@, name@, i);
                assert(self.nodes[i].name@ == name@);
            }
        }
        None
    }

    /// Counts the pairs of a given device and a marked node other than the
    /// device that are reachable and that are not, in the given direction.
    /// Fails when one of the given devices has no node.
    pub fn check_reachability(
        &self,
        src_toponet: &Toponet,
        engine: &Engine,
        pair_devices: &Vec<String>,
        traversal_type: TraversalType,
    ) -> (r: Result<(usize, usize), EngineError>)
        requires
            self.wf(),
            src_toponet.wf(),
            self.num_vars == src_toponet.width(),
            engine.wf(),
            engine.width() == self.num_vars,
        ensures
            match r {
                Ok(counts) => nodes_for(
                    self.nodes@,
                    crate::util::text::texts(pair_devices@),
                    pair_devices.len() as int,
                ) && match traversal_type {
                    TraversalType::Backward => counts.0 == capped(
                        backward_total(
                            *self,
                            crate::util::text::texts(pair_devices@),
                            pair_devices.len() as int,
                            true,
                        ),
                    ) && counts.1 == capped(
                        backward_total(
                            *self,
                            crate::util::text::texts(pair_devices@),
                            pair_devices.len() as int,
                            false,
                        ),
                    ),
                    TraversalType::Forward => counts.0 == capped(
                        forward_total(
                            *self,
                            *src_toponet,
                            crate::util::text::texts(pair_devices@),
                            pair_devices.len() as int,
                            true,
                        ),
                    ) && counts.1 == capped(
                        forward_total(
                            *self,
                            *src_toponet,
                            crate::util::text::texts(pair_devices@),
                            pair_devices.len() as int,
                            false,
                        ),
                    ),
                },
                Err(e) => e == EngineError::UnknownDevice && exists|s: int|
                    0 <= s < pair_devices.len() && !has_node_named(
                        self.nodes@,
                        (#[trigger] pair_devices[s])@,
                    ),
            },
    {
        match traversal_type {
            TraversalType::Backward => self.backward_check_reachability(pair_devices),
            TraversalType::Forward => self.forward_check_reachability(
                src_toponet,
                engine,
                pair_devices,
            ),
        }
    }

    /// Going backward: a given device reaches a marked node when the
    /// node's whole subnet is verified at the device.
    pub fn backward_check_reachability(&self, pair_devices: &Vec<String>) -> (r: Result<
        (usize, usize),
        EngineError,
    >)
        requires
            self.wf(),
        ensures
            match r {
                Ok(counts) => nodes_for(
                    self.nodes@,
                    crate::util::text::texts(pair_devices@),
                    pair_devices.len() as int,
                ) && counts.0 == capped(
                    backward_total(
                        *self,
                        crate::util::text::texts(pair_devices@),
                        pair_devices.len() as int,
                        true,
                    ),
                ) && counts.1 == capped(
                    backward_total(
                        *self,
                        crate::util::text::texts(pair_devices@),
                        pair_devices.len() as int,
                        false,
                    ),
                ),
                Err(e) => e == EngineError::UnknownDevice && exists|s: int|
                    0 <= s < pair_devices.len() && !has_node_named(
                        self.nodes@,
                        (#[trigger] pair_devices[s])@,
                    ),
            },
    {
        let ghost names = crate::util::text::texts(pair_devices@);
        let mut arrive_count: usize = 0;
        let mut unreachable_count: usize = 0;
        let dst_nodes = self.neighborhood.get_marked_nodes();
        let mut s: usize = 0;
        while s < pair_devices.len()
            invariant
                s <= pair_devices.len(),
                self.wf(),
                names == crate::util::text::texts(pair_devices@),
                nodes_for(self.nodes@, names, s as int),
                dst_nodes@ == self.neighborhood.marked(),
                arrive_count == capped(backward_total(*self, names, s as int, true)),
                unreachable_count == capped(backward_total(*self, names, s as int, false)),
            decreases pair_devices.len() - s,
        {
            let src_name = &pair_devices[s];
            assert(names[s as int] == src_name@);
            let src = match self.node_index(src_name.as_str()) {
                Some(i) => i,
                None => {
                    return Err(EngineError::UnknownDevice);
                },
            };
            let src_node = &self.nodes[src];
            proof {
                let c = choose|i: int| is_node_named(self.nodes@, src_name@, i);
                assert(is_node_named(self.nodes@, src_name@, src as int));
                if c < src {
                    assert(self.nodes[c].name@ != src_name@);
                } else if src < c {
                    assert(self.nodes[src as int].name@ != src_name@);
                }
                assert(verified_of(self.nodes@, src_name@) == src_node.verified_space);
            }
            let mut reach: usize = 0;
            let mut unreach: usize = 0;
            let mut m: usize = 0;
            while m < dst_nodes.len()
                invariant
                    m <= dst_nodes.len(),
                    self.wf(),
                    dst_nodes@ == self.neighborhood.marked(),
                    src < self.nodes.len(),
                    *src_node == self.nodes[src as int],
                    reach == capped(
                        backward_count(dst_nodes@, m as int, src_name@, src_node.verified_space, true),
                    ),
                    unreach == capped(
                        backward_count(
                            dst_nodes@,
                            m as int,
                            src_name@,
                            src_node.verified_space,
                            false,
                        ),
                    ),
                decreases dst_nodes.len() - m,
            {
                let device = &dst_nodes[m];
                if !crate::util::text::text_eq(device.device_name.as_str(), src_name.as_str()) {
                    proof {
                        assert(self.marked_at[m as int] < self.nodes.len());
                        assert(self.nodes[src as int].wf(self.num_vars as nat));
                    }
                    let rest = device.dst_prefix_bdd.and_not(&src_node.verified_space);
                    proof {
                        let a = bdd_sat(device.dst_prefix_bdd);
                        let b = bdd_sat(src_node.verified_space);
                        if a.subset_of(b) {
                            assert(a.difference(b) =~= Set::<Seq<bool>>::empty());
                        }
                        if a.difference(b) =~= Set::<Seq<bool>>::empty() {
                            assert forall|v: Seq<bool>| a.contains(v) implies b.contains(v) by {
                                if !b.contains(v) {
                                    assert(a.difference(b).contains(v));
                                }
                            }
                        }
                    }
                    if rest.is_false() {
                        if reach < usize::MAX {
                            reach = reach + 1;
                        }
                    } else {
                        if unreach < usize::MAX {
                            unreach = unreach + 1;
                        }
                    }
                }
                m += 1;
            }
            arrive_count = add_capped(
                arrive_count,
                reach,
                Ghost(backward_total(*self, names, s as int, true)),
                Ghost(
                    backward_count(
                        dst_nodes@,
                        dst_nodes.len() as int,
                        src_name@,
                        src_node.verified_space,
                        true,
                    ),
                ),
            );
            unreachable_count = add_capped(
                unreachable_count,
                unreach,
                Ghost(backward_total(*self, names, s as int, false)),
                Ghost(
                    backward_count(
                        dst_nodes@,
                        dst_nodes.len() as int,
                        src_name@,
                        src_node.verified_space,
                        false,
                    ),
                ),
            );
            s += 1;
        }
        Ok((arrive_count, unreachable_count))
    }

    /// Going forward: a marked node reaches a given device when every
    /// header from the node to the device's subnet is verified at the
    /// device. A given device without a declared subnet counts for nothing.
    pub fn forward_check_reachability(
        &self,
        src_toponet: &Toponet,
        engine: &Engine,
        pair_devices: &Vec<String>,
    ) -> (r: Result<(usize, usize), EngineError>)
        requires
            self.wf(),
            src_toponet.wf(),
            self.num_vars == src_toponet.width(),
            engine.wf(),
            engine.width() == self.num_vars,
        ensures
            match r {
                Ok(counts) => nodes_for(
                    self.nodes@,
                    crate::util::text::texts(pair_devices@),
                    pair_devices.len() as int,
                ) && counts.0 == capped(
                    forward_total(
                        *self,
                        *src_toponet,
                        crate::util::text::texts(pair_devices@),
                        pair_devices.len() as int,
                        true,
                    ),
                ) && counts.1 == capped(
                    forward_total(
                        *self,
                        *src_toponet,
                        crate::util::text::texts(pair_devices@),
                        pair_devices.len() as int,
                        false,
                    ),
                ),
                Err(e) => e == EngineError::UnknownDevice && exists|s: int|
                    0 <= s < pair_devices.len() && !has_node_named(
                        self.nodes@,
                        (#[trigger] pair_devices[s])@,
                    ),
            },
    {
        let ghost names = crate::util::text::texts(pair_devices@);
        let ghost n = self.num_vars as nat;
        let mut reach_cnt: usize = 0;
        let mut unreach_cnt: usize = 0;
        let src_nodes = self.neighborhood.get_marked_nodes();
        let mut s: usize = 0;
        while s < pair_devices.len()
            invariant
                s <= pair_devices.len(),
                self.wf(),
                src_toponet.wf(),
                n == self.num_vars,
                self.num_vars == src_toponet.width(),
                engine.wf(),
                engine.width() == self.num_vars,
                names == crate::util::text::texts(pair_devices@),
                nodes_for(self.nodes@, names, s as int),
                src_nodes@ == self.neighborhood.marked(),
                reach_cnt == capped(forward_total(*self, *src_toponet, names, s as int, true)),
                unreach_cnt == capped(forward_total(*self, *src_toponet, names, s as int, false)),
            decreases pair_devices.len() - s,
        {
            let dst_name = &pair_devices[s];
            assert(names[s as int] == dst_name@);
            let dst = match self.node_index(dst_name.as_str()) {
                Some(i) => i,
                None => {
                    return Err(EngineError::UnknownDevice);
                },
            };
            let dst_node = &self.nodes[dst];
            proof {
                let c = choose|i: int| is_node_named(self.nodes@, dst_name@, i);
                assert(is_node_named(self.nodes@, dst_name@, dst as int));
                if c < dst {
                    assert(self.nodes[c].name@ != dst_name@);
                } else if dst < c {
                    assert(self.nodes[dst as int].name@ != dst_name@);
                }
                assert(verified_of(self.nodes@, dst_name@) == dst_node.verified_space);
            }
            match src_toponet.get_packet_space_bdd(dst_name.as_str()) {
                Some(dst_subnet) => {
                    let mut reach: usize = 0;
                    let mut unreach: usize = 0;
                    let mut m: usize = 0;
                    while m < src_nodes.len()
                        invariant
                            m <= src_nodes.len(),
                            self.wf(),
                            engine.wf(),
                            engine.width() == n,
                            n == self.num_vars,
                            is_space(*dst_subnet, n),
                            src_nodes@ == self.neighborhood.marked(),
                            dst < self.nodes.len(),
                            *dst_node == self.nodes[dst as int],
                            reach == capped(
                                forward_count(
                                    src_nodes@,
                                    m as int,
                                    dst_name@,
                                    *dst_subnet,
                                    dst_node.verified_space,
                                    n,
                                    true,
                                ),
                            ),
                            unreach == capped(
                                forward_count(
                                    src_nodes@,
                                    m as int,
                                    dst_name@,
                                    *dst_subnet,
                                    dst_node.verified_space,
                                    n,
                                    false,
                                ),
                            ),
                        decreases src_nodes.len() - m,
                    {
                        let src = &src_nodes[m];
                        if !crate::util::text::text_eq(src.device_name.as_str(), dst_name.as_str()) {
                            proof {
                                assert(self.nodes[dst as int].wf(self.num_vars as nat));
                            }
                            let src_device_space = engine.encode_src_device_constraint(src.device_id);
                            let packet_space = src_device_space.and(dst_subnet);
                            let rest = packet_space.and_not(&dst_node.verified_space);
                            proof {
                                let a = bdd_sat(packet_space);
                                let b = bdd_sat(dst_node.verified_space);
                                if a.subset_of(b) {
                                    assert(a.difference(b) =~= Set::<Seq<bool>>::empty());
                                }
                                if a.difference(b) =~= Set::<Seq<bool>>::empty() {
                                    assert forall|v: Seq<bool>| a.contains(v) implies b.contains(
                                        v,
                                    ) by {
                                        if !b.contains(v) {
                                            assert(a.difference(b).contains(v));
                                        }
                                    }
                                }
                            }
                            if !rest.is_false() {
                                if unreach < usize::MAX {
                                    unreach = unreach + 1;
                                }
                            } else {
                                if reach < usize::MAX {
                                    reach = reach + 1;
                                }
                            }
                        }
                        m += 1;
                    }
                    reach_cnt = add_capped(
                        reach_cnt,
                        reach,
                        Ghost(forward_total(*self, *src_toponet, names, s as int, true)),
                        Ghost(
                            forward_count(
                                src_nodes@,
                                src_nodes.len() as int,
                                dst_name@,
                                *dst_subnet,
                                dst_node.verified_space,
                                n,
                                true,
                            ),
                        ),
                    );
                    unreach_cnt = add_capped(
                        unreach_cnt,
                        unreach,
                        Ghost(forward_total(*self, *src_toponet, names, s as int, false)),
                        Ghost(
                            forward_count(
                                src_nodes@,
                                src_nodes.len() as int,
                                dst_name@,
                                *dst_subnet,
                                dst_node.verified_space,
                                n,
                                false,
                            ),
                        ),
                    );
                },
                None => {},
            }
            s += 1;
        }
        Ok((reach_cnt, unreach_cnt))
    }
}

} // verus!
