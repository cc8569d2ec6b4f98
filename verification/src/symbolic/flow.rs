//! What the traversal computes.
//!
//! A header is derivable at a node when the node is seeded with it, or when
//! it is derivable at a node with a link to this one whose rule lets it
//! pass. The traversal verifies at every node exactly the derivable
//! headers: nothing else ever arrives, and when it comes to rest nothing
//! that could still be passed on is left.
use crate::kernel::{bdd_sat, spaces_union};
use crate::symbolic::device::Device;
use crate::symbolic::npnet::{
    grown, guard_space, seeded, Hop, NPNet, NPNetNode, TraversalType, Tunnel,
};
use biodivine_lib_bdd::Bdd;
use vstd::prelude::*;

verus! {

/// The links, the rules and the seeds that a traversal works on.
pub struct FlowModel {
    /// For every node its links.
    pub hops: Seq<Seq<Hop>>,
    /// The devices, whose compiled ports are the rules of the links.
    pub devices: Seq<Device>,
    /// The direction in which header sets travel.
    pub traversal_type: TraversalType,
    /// For every node the headers it starts with.
    pub seeds: Seq<Set<Seq<bool>>>,
}

/// The headers that link `h` of node `i` lets pass.
pub open spec fn guard(m: FlowModel, i: int, h: int) -> Set<Seq<bool>> {
    guard_space(m.devices, i, m.hops[i][h], m.traversal_type)
}

/// Whether link `h` of node `i` leads to node `j` and lets `v` pass.
pub open spec fn link_passes(m: FlowModel, j: int, v: Seq<bool>, i: int, h: int) -> bool {
    0 <= i < m.hops.len() && 0 <= h < m.hops[i].len() && m.hops[i][h].peer == j && guard(
        m,
        i,
        h,
    ).contains(v)
}

/// Whether `v` is derivable at node `j` in at most `k` steps.
pub open spec fn derivable(m: FlowModel, k: nat, j: int, v: Seq<bool>) -> bool
    decreases k,
{
    if k == 0 {
        m.seeds[j].contains(v)
    } else {
        let p = (k - 1) as nat;
        derivable(m, p, j, v) || exists|i: int, h: int| #[trigger]
            link_passes(m, j, v, i, h) && derivable(m, p, i, v)
    }
}

/// Whether `v` is derivable at node `j`.
pub open spec fn reached(m: FlowModel, j: int, v: Seq<bool>) -> bool {
    exists|k: nat| #[trigger] derivable(m, k, j, v)
}

/// The headers derivable at node `j`.
pub open spec fn reach_space(m: FlowModel, j: int) -> Set<Seq<bool>> {
    Set::new(|v: Seq<bool>| reached(m, j, v))
}

/// What is derivable at a node passes along the node's links.
pub proof fn lemma_reached_step(m: FlowModel, i: int, h: int, v: Seq<bool>)
    requires
        0 <= i < m.hops.len(),
        0 <= h < m.hops[i].len(),
        reached(m, i, v),
        guard(m, i, h).contains(v),
    ensures
        reached(m, m.hops[i][h].peer as int, v),
{
    let k = choose|k: nat| #[trigger] derivable(m, k, i, v);
    let j = m.hops[i][h].peer as int;
    assert(link_passes(m, j, v, i, h) && derivable(m, k, i, v));
    assert(derivable(m, (k + 1) as nat, j, v));
}

/// At a node that no link leads to, nothing is derivable but what the node
/// is seeded with: a device without links is reached by nothing.
pub proof fn lemma_unlinked(m: FlowModel, j: int)
    requires
        forall|i: int, h: int|
            0 <= i < m.hops.len() && 0 <= h < m.hops[i].len() ==> (#[trigger] m.hops[i][h]).peer != j,
    ensures
        reach_space(m, j) == m.seeds[j],
{
    assert forall|v: Seq<bool>| reach_space(m, j).contains(v) == m.seeds[j].contains(v) by {
        if reached(m, j, v) {
            let k = choose|k: nat| #[trigger] derivable(m, k, j, v);
            lemma_unlinked_steps(m, j, k, v);
        }
        if m.seeds[j].contains(v) {
            assert(derivable(m, 0, j, v));
        }
    }
    assert(reach_space(m, j) =~= m.seeds[j]);
}

/// At a node that no link leads to, what is derivable in some steps is
/// derivable in none.
proof fn lemma_unlinked_steps(m: FlowModel, j: int, k: nat, v: Seq<bool>)
    requires
        forall|i: int, h: int|
            0 <= i < m.hops.len() && 0 <= h < m.hops[i].len() ==> (#[trigger] m.hops[i][h]).peer != j,
        derivable(m, k, j, v),
    ensures
        m.seeds[j].contains(v),
    decreases k,
{
    if k > 0 {
        let p = (k - 1) as nat;
        if derivable(m, p, j, v) {
            lemma_unlinked_steps(m, j, p, v);
        } else {
            let (i, h) = choose|i: int, h: int| #[trigger]
                link_passes(m, j, v, i, h) && derivable(m, p, i, v);
            assert(m.hops[i][h].peer == j);
        }
    }
}

/// The state of a traversal as header sets.
pub struct FlowState {
    /// For every node what it has verified.
    pub verified: Seq<Set<Seq<bool>>>,
    /// For every node what has arrived and is not dealt with yet.
    pub arrived: Seq<Set<Seq<bool>>>,
    /// For every node what waits for it in the queue.
    pub queued: Seq<Set<Seq<bool>>>,
    /// For every node what it has passed on along all of its links.
    pub processed: Seq<Set<Seq<bool>>>,
    /// For every tunnel what it has verified.
    pub t_verified: Seq<Set<Seq<bool>>>,
    /// For every tunnel what has arrived and is not handed over yet.
    pub t_arrived: Seq<Set<Seq<bool>>>,
    /// For every tunnel the node it hands over to.
    pub t_peer: Seq<int>,
}

/// Whether the state has a set for every node and every tunnel.
pub open spec fn shaped(m: FlowModel, s: FlowState) -> bool {
    &&& s.verified.len() == m.hops.len()
    &&& s.arrived.len() == m.hops.len()
    &&& s.queued.len() == m.hops.len()
    &&& s.processed.len() == m.hops.len()
    &&& m.seeds.len() == m.hops.len()
    &&& s.t_arrived.len() == s.t_verified.len()
    &&& s.t_peer.len() == s.t_verified.len()
    &&& forall|t: int| 0 <= t < s.t_peer.len() ==> 0 <= #[trigger] s.t_peer[t] < m.hops.len()
    &&& forall|i: int, h: int|
        0 <= i < m.hops.len() && 0 <= h < m.hops[i].len() ==> (#[trigger] m.hops[i][h]).peer
            < m.hops.len() && (m.hops[i][h].tunnel matches Some(t) ==> t < s.t_peer.len()
            && s.t_peer[t as int] == m.hops[i][h].peer)
}

/// Whether everything at node `i` is derivable there.
pub open spec fn sound_node(m: FlowModel, s: FlowState, i: int) -> bool {
    forall|v: Seq<bool>|
        s.verified[i].contains(v) || s.arrived[i].contains(v) || s.queued[i].contains(v)
            ==> #[trigger] reached(m, i, v)
}

/// Whether everything in tunnel `t` is derivable at the node it hands
/// over to.
pub open spec fn sound_tunnel(m: FlowModel, s: FlowState, t: int) -> bool {
    forall|v: Seq<bool>|
        s.t_verified[t].contains(v) || s.t_arrived[t].contains(v) ==> #[trigger] reached(
            m,
            s.t_peer[t],
            v,
        )
}

/// Whether what node `i` has passed on along link `h` is verified where the
/// link leads: at its tunnel if it has one, else at the peer node.
pub open spec fn sent(m: FlowModel, s: FlowState, i: int, h: int) -> bool {
    forall|v: Seq<bool>|
        s.processed[i].contains(v) && #[trigger] guard(m, i, h).contains(v) ==> match m.hops[i][h].tunnel {
            Some(t) => s.t_verified[t as int].contains(v),
            None => s.verified[m.hops[i][h].peer as int].contains(v),
        }
}

/// Whether what tunnel `t` has verified is verified at its node or still
/// waits in the tunnel.
pub open spec fn handed(s: FlowState, t: int) -> bool {
    forall|v: Seq<bool>| #[trigger]
        s.t_verified[t].contains(v) ==> s.verified[s.t_peer[t]].contains(v) || s.t_arrived[t].contains(
            v,
        )
}

/// Whether what node `i` has verified is passed on, or waits among its
/// arrivals or in the queue.
pub open spec fn accounted(s: FlowState, i: int) -> bool {
    forall|v: Seq<bool>| #[trigger]
        s.verified[i].contains(v) ==> s.processed[i].contains(v) || s.arrived[i].contains(v)
            || s.queued[i].contains(v)
}

/// Whether the seeds of node `i` are verified or wait among its arrivals.
pub open spec fn seeds_in(m: FlowModel, s: FlowState, i: int) -> bool {
    forall|v: Seq<bool>| #[trigger]
        m.seeds[i].contains(v) ==> s.verified[i].contains(v) || s.arrived[i].contains(v)
}

/// What holds througout a traversal.
pub open spec fn flow_inv(m: FlowModel, s: FlowState) -> bool {
    &&& shaped(m, s)
    &&& forall|i: int| 0 <= i < m.hops.len() ==> #[trigger] sound_node(m, s, i)
    &&& forall|t: int| 0 <= t < s.t_peer.len() ==> #[trigger] sound_tunnel(m, s, t)
    &&& forall|i: int, h: int|
        0 <= i < m.hops.len() && 0 <= h < m.hops[i].len() ==> #[trigger] sent(m, s, i, h)
    &&& forall|t: int| 0 <= t < s.t_peer.len() ==> #[trigger] handed(s, t)
    &&& forall|i: int| 0 <= i < m.hops.len() ==> #[trigger] accounted(s, i)
    &&& forall|i: int| 0 <= i < m.hops.len() ==> #[trigger] seeds_in(m, s, i)
}

/// Whether nothing waits anywhere: no arrivals, nothing queued, nothing in
/// a tunnel.
pub open spec fn at_rest(s: FlowState) -> bool {
    &&& forall|i: int|
        0 <= i < s.arrived.len() ==> (#[trigger] s.arrived[i]) == Set::<Seq<bool>>::empty()
            && s.queued[i] == Set::<Seq<bool>>::empty()
    &&& forall|t: int|
        0 <= t < s.t_arrived.len() ==> (#[trigger] s.t_arrived[t]) == Set::<Seq<bool>>::empty()
}

/// At rest, whatever is derivable at a node is verified there.
pub proof fn lemma_complete(m: FlowModel, s: FlowState, k: nat, j: int, v: Seq<bool>)
    requires
        flow_inv(m, s),
        at_rest(s),
        0 <= j < m.hops.len(),
        derivable(m, k, j, v),
    ensures
        s.verified[j].contains(v),
    decreases k,
{
    if k == 0 {
        assert(seeds_in(m, s, j));
        assert(s.arrived[j] == Set::<Seq<bool>>::empty());
    } else {
        let p = (k - 1) as nat;
        if derivable(m, p, j, v) {
            lemma_complete(m, s, p, j, v);
        } else {
            let (i, h) = choose|i: int, h: int| #[trigger]
                link_passes(m, j, v, i, h) && derivable(m, p, i, v);
            lemma_complete(m, s, p, i, v);
            assert(accounted(s, i));
            assert(s.arrived[i] == Set::<Seq<bool>>::empty());
            assert(s.queued[i] == Set::<Seq<bool>>::empty());
            assert(s.processed[i].contains(v));
            assert(sent(m, s, i, h));
            assert(guard(m, i, h).contains(v));
            match m.hops[i][h].tunnel {
                Some(t) => {
                    assert(s.t_verified[t as int].contains(v));
                    assert(handed(s, t as int));
                    assert(s.t_arrived[t as int] == Set::<Seq<bool>>::empty());
                },
                None => {},
            }
        }
    }
}

/// At rest, every node has verified exactly what is derivable at it.
pub proof fn lemma_exact(m: FlowModel, s: FlowState, j: int)
    requires
        flow_inv(m, s),
        at_rest(s),
        0 <= j < m.hops.len(),
    ensures
        s.verified[j] == reach_space(m, j),
{
    assert forall|v: Seq<bool>| s.verified[j].contains(v) <==> reach_space(m, j).contains(v) by {
        if s.verified[j].contains(v) {
            assert(sound_node(m, s, j));
            assert(reached(m, j, v));
        }
        if reached(m, j, v) {
            let k = choose|k: nat| #[trigger] derivable(m, k, j, v);
            lemma_complete(m, s, k, j, v);
        }
    }
    assert(s.verified[j] =~= reach_space(m, j));
}

/// Whether `b` is `a` but for the set at position `j`.
pub open spec fn same_but(a: Seq<Set<Seq<bool>>>, b: Seq<Set<Seq<bool>>>, j: int) -> bool {
    a.len() == b.len() && forall|i: int| 0 <= i < a.len() && i != j ==> #[trigger] b[i] == a[i]
}

/// A node takes in what a link of its own area passed: the invariant
/// holds on, and what was passed is verified at the node.
pub proof fn lemma_node_receives(
    m: FlowModel,
    s0: FlowState,
    s1: FlowState,
    j: int,
    passed: Set<Seq<bool>>,
)
    requires
        flow_inv(m, s0),
        0 <= j < m.hops.len(),
        forall|v: Seq<bool>| passed.contains(v) ==> #[trigger] reached(m, j, v),
        same_but(s0.verified, s1.verified, j),
        s1.verified[j] == s0.verified[j].union(passed),
        same_but(s0.arrived, s1.arrived, j),
        s1.arrived[j] == s0.arrived[j].union(passed.difference(s0.verified[j])),
        s1.queued == s0.queued,
        s1.processed == s0.processed,
        s1.t_verified == s0.t_verified,
        s1.t_arrived == s0.t_arrived,
        s1.t_peer == s0.t_peer,
    ensures
        flow_inv(m, s1),
{
    assert forall|i: int| 0 <= i < m.hops.len() implies #[trigger] sound_node(m, s1, i) by {
        assert(sound_node(m, s0, i));
    }
    assert forall|t: int| 0 <= t < s1.t_peer.len() implies #[trigger] sound_tunnel(m, s1, t) by {
        assert(sound_tunnel(m, s0, t));
    }
    assert forall|i: int, h: int|
        0 <= i < m.hops.len() && 0 <= h < m.hops[i].len() implies #[trigger] sent(m, s1, i, h) by {
        assert(sent(m, s0, i, h));
        assert(m.hops[i][h].peer < m.hops.len());
    }
    assert forall|t: int| 0 <= t < s1.t_peer.len() implies #[trigger] handed(s1, t) by {
        assert(handed(s0, t));
    }
    assert forall|i: int| 0 <= i < m.hops.len() implies #[trigger] accounted(s1, i) by {
        assert(accounted(s0, i));
    }
    assert forall|i: int| 0 <= i < m.hops.len() implies #[trigger] seeds_in(m, s1, i) by {
        assert(seeds_in(m, s0, i));
    }
}

/// A tunnel takes in what its link passed: the invariant holds on.
pub proof fn lemma_tunnel_receives(
    m: FlowModel,
    s0: FlowState,
    s1: FlowState,
    t: int,
    passed: Set<Seq<bool>>,
)
    requires
        flow_inv(m, s0),
        0 <= t < s0.t_peer.len(),
        forall|v: Seq<bool>| passed.contains(v) ==> #[trigger] reached(m, s0.t_peer[t], v),
        same_but(s0.t_verified, s1.t_verified, t),
        s1.t_verified[t] == s0.t_verified[t].union(passed),
        same_but(s0.t_arrived, s1.t_arrived, t),
        s1.t_arrived[t] == s0.t_arrived[t].union(passed.difference(s0.t_verified[t])),
        s1.verified == s0.verified,
        s1.arrived == s0.arrived,
        s1.queued == s0.queued,
        s1.processed == s0.processed,
        s1.t_peer == s0.t_peer,
    ensures
        flow_inv(m, s1),
{
    assert forall|i: int| 0 <= i < m.hops.len() implies #[trigger] sound_node(m, s1, i) by {
        assert(sound_node(m, s0, i));
    }
    assert forall|x: int| 0 <= x < s1.t_peer.len() implies #[trigger] sound_tunnel(m, s1, x) by {
        assert(sound_tunnel(m, s0, x));
    }
    assert forall|i: int, h: int|
        0 <= i < m.hops.len() && 0 <= h < m.hops[i].len() implies #[trigger] sent(m, s1, i, h) by {
        assert(sent(m, s0, i, h));
        assert(m.hops[i][h].peer < m.hops.len());
    }
    assert forall|x: int| 0 <= x < s1.t_peer.len() implies #[trigger] handed(s1, x) by {
        assert(handed(s0, x));
    }
    assert forall|i: int| 0 <= i < m.hops.len() implies #[trigger] accounted(s1, i) by {
        assert(accounted(s0, i));
    }
    assert forall|i: int| 0 <= i < m.hops.len() implies #[trigger] seeds_in(m, s1, i) by {
        assert(seeds_in(m, s0, i));
    }
}

/// Whether everything of `x` that link `h` of node `i` lets pass is
/// verified where the link leads.
pub open spec fn passed_on(m: FlowModel, s: FlowState, i: int, h: int, x: Set<Seq<bool>>) -> bool {
    forall|v: Seq<bool>|
        x.contains(v) && #[trigger] guard(m, i, h).contains(v) ==> match m.hops[i][h].tunnel {
            Some(t) => s.t_verified[t as int].contains(v),
            None => s.verified[m.hops[i][h].peer as int].contains(v),
        }
}

/// What is passed on stays passed on as verified spaces grow.
pub proof fn lemma_passed_on_grows(
    m: FlowModel,
    s0: FlowState,
    s1: FlowState,
    i: int,
    h: int,
    x: Set<Seq<bool>>,
)
    requires
        shaped(m, s0),
        0 <= i < m.hops.len(),
        0 <= h < m.hops[i].len(),
        passed_on(m, s0, i, h, x),
        s1.verified.len() == s0.verified.len(),
        s1.t_verified.len() == s0.t_verified.len(),
        forall|a: int| 0 <= a < s0.verified.len() ==> (#[trigger] s0.verified[a]).subset_of(s1.verified[a]),
        forall|a: int|
            0 <= a < s0.t_verified.len() ==> (#[trigger] s0.t_verified[a]).subset_of(s1.t_verified[a]),
    ensures
        passed_on(m, s1, i, h, x),
{
    assert(m.hops[i][h].peer < m.hops.len());
    assert forall|v: Seq<bool>| x.contains(v) && #[trigger] guard(m, i, h).contains(v) implies match m.hops[i][h].tunnel {
        Some(t) => s1.t_verified[t as int].contains(v),
        None => s1.verified[m.hops[i][h].peer as int].contains(v),
    } by {
        match m.hops[i][h].tunnel {
            Some(t) => {
                assert(s0.t_verified[t as int].subset_of(s1.t_verified[t as int]));
            },
            None => {
                assert(s0.verified[m.hops[i][h].peer as int].subset_of(
                    s1.verified[m.hops[i][h].peer as int],
                ));
            },
        }
    }
}

/// A node is done with an entry of the queue, having passed it on along
/// all of its links: the invariant holds on.
pub proof fn lemma_entry_done(m: FlowModel, s0: FlowState, s1: FlowState, i: int, x: Set<Seq<bool>>)
    requires
        flow_inv(m, s0),
        0 <= i < m.hops.len(),
        forall|h: int| 0 <= h < m.hops[i].len() ==> #[trigger] passed_on(m, s0, i, h, x),
        same_but(s0.processed, s1.processed, i),
        s1.processed[i] == s0.processed[i].union(x),
        same_but(s0.queued, s1.queued, i),
        s1.queued[i].subset_of(s0.queued[i]),
        s0.queued[i].subset_of(s1.queued[i].union(x)),
        s1.verified == s0.verified,
        s1.arrived == s0.arrived,
        s1.t_verified == s0.t_verified,
        s1.t_arrived == s0.t_arrived,
        s1.t_peer == s0.t_peer,
    ensures
        flow_inv(m, s1),
{
    assert forall|a: int| 0 <= a < m.hops.len() implies #[trigger] sound_node(m, s1, a) by {
        assert(sound_node(m, s0, a));
    }
    assert forall|t: int| 0 <= t < s1.t_peer.len() implies #[trigger] sound_tunnel(m, s1, t) by {
        assert(sound_tunnel(m, s0, t));
    }
    assert forall|a: int, h: int|
        0 <= a < m.hops.len() && 0 <= h < m.hops[a].len() implies #[trigger] sent(m, s1, a, h) by {
        assert(sent(m, s0, a, h));
        if a == i {
            assert(passed_on(m, s0, i, h, x));
        }
    }
    assert forall|t: int| 0 <= t < s1.t_peer.len() implies #[trigger] handed(s1, t) by {
        assert(handed(s0, t));
    }
    assert forall|a: int| 0 <= a < m.hops.len() implies #[trigger] accounted(s1, a) by {
        assert(accounted(s0, a));
    }
    assert forall|a: int| 0 <= a < m.hops.len() implies #[trigger] seeds_in(m, s1, a) by {
        assert(seeds_in(m, s0, a));
    }
}

/// A node gathers its arrivals into an entry of the queue and verifies
/// them: the invariant holds on.
pub proof fn lemma_node_wakes(m: FlowModel, s0: FlowState, s1: FlowState, j: int)
    requires
        flow_inv(m, s0),
        0 <= j < m.hops.len(),
        same_but(s0.verified, s1.verified, j),
        s1.verified[j] == s0.verified[j].union(s0.arrived[j]),
        same_but(s0.arrived, s1.arrived, j),
        s1.arrived[j] == Set::<Seq<bool>>::empty(),
        same_but(s0.queued, s1.queued, j),
        s1.queued[j] == s0.queued[j].union(s0.arrived[j]),
        s1.processed == s0.processed,
        s1.t_verified == s0.t_verified,
        s1.t_arrived == s0.t_arrived,
        s1.t_peer == s0.t_peer,
    ensures
        flow_inv(m, s1),
{
    assert forall|a: int| 0 <= a < m.hops.len() implies #[trigger] sound_node(m, s1, a) by {
        assert(sound_node(m, s0, a));
    }
    assert forall|t: int| 0 <= t < s1.t_peer.len() implies #[trigger] sound_tunnel(m, s1, t) by {
        assert(sound_tunnel(m, s0, t));
    }
    assert forall|a: int, h: int|
        0 <= a < m.hops.len() && 0 <= h < m.hops[a].len() implies #[trigger] sent(m, s1, a, h) by {
        assert(sent(m, s0, a, h));
        assert(m.hops[a][h].peer < m.hops.len());
    }
    assert forall|t: int| 0 <= t < s1.t_peer.len() implies #[trigger] handed(s1, t) by {
        assert(handed(s0, t));
    }
    assert forall|a: int| 0 <= a < m.hops.len() implies #[trigger] accounted(s1, a) by {
        assert(accounted(s0, a));
    }
    assert forall|a: int| 0 <= a < m.hops.len() implies #[trigger] seeds_in(m, s1, a) by {
        assert(seeds_in(m, s0, a));
    }
}

/// A tunnel hands its arrivals over to its node: the invariant holds on.
pub proof fn lemma_tunnel_hands(m: FlowModel, s0: FlowState, s1: FlowState, t: int)
    requires
        flow_inv(m, s0),
        0 <= t < s0.t_peer.len(),
        same_but(s0.verified, s1.verified, s0.t_peer[t]),
        s1.verified[s0.t_peer[t]] == s0.verified[s0.t_peer[t]].union(s0.t_arrived[t]),
        same_but(s0.arrived, s1.arrived, s0.t_peer[t]),
        s1.arrived[s0.t_peer[t]] == s0.arrived[s0.t_peer[t]].union(s0.t_arrived[t]),
        same_but(s0.t_arrived, s1.t_arrived, t),
        s1.t_arrived[t] == Set::<Seq<bool>>::empty(),
        s1.queued == s0.queued,
        s1.processed == s0.processed,
        s1.t_verified == s0.t_verified,
        s1.t_peer == s0.t_peer,
    ensures
        flow_inv(m, s1),
{
    let j = s0.t_peer[t];
    assert(sound_tunnel(m, s0, t));
    assert forall|a: int| 0 <= a < m.hops.len() implies #[trigger] sound_node(m, s1, a) by {
        assert(sound_node(m, s0, a));
    }
    assert forall|x: int| 0 <= x < s1.t_peer.len() implies #[trigger] sound_tunnel(m, s1, x) by {
        assert(sound_tunnel(m, s0, x));
    }
    assert forall|a: int, h: int|
        0 <= a < m.hops.len() && 0 <= h < m.hops[a].len() implies #[trigger] sent(m, s1, a, h) by {
        assert(sent(m, s0, a, h));
        assert(m.hops[a][h].peer < m.hops.len());
    }
    assert forall|x: int| 0 <= x < s1.t_peer.len() implies #[trigger] handed(s1, x) by {
        assert(handed(s0, x));
    }
    assert forall|a: int| 0 <= a < m.hops.len() implies #[trigger] accounted(s1, a) by {
        assert(accounted(s0, a));
    }
    assert forall|a: int| 0 <= a < m.hops.len() implies #[trigger] seeds_in(m, s1, a) by {
        assert(seeds_in(m, s0, a));
    }
}

/// A state in which the seeds have arrived and nothing else has happened
/// satisfies the invariant.
pub proof fn lemma_seeded(m: FlowModel, s: FlowState)
    requires
        shaped(m, s),
        forall|i: int|
            0 <= i < m.hops.len() ==> (#[trigger] s.verified[i]) == Set::<Seq<bool>>::empty()
                && s.arrived[i] == m.seeds[i] && s.queued[i] == Set::<Seq<bool>>::empty()
                && s.processed[i] == Set::<Seq<bool>>::empty(),
        forall|t: int|
            0 <= t < s.t_peer.len() ==> (#[trigger] s.t_verified[t]) == Set::<Seq<bool>>::empty()
                && s.t_arrived[t] == Set::<Seq<bool>>::empty(),
    ensures
        flow_inv(m, s),
{
    assert forall|i: int| 0 <= i < m.hops.len() implies #[trigger] sound_node(m, s, i) by {
        assert(s.verified[i] == Set::<Seq<bool>>::empty());
        assert forall|v: Seq<bool>|
            s.verified[i].contains(v) || s.arrived[i].contains(v) || s.queued[i].contains(v) implies #[trigger] reached(
            m,
            i,
            v,
        ) by {
            assert(derivable(m, 0, i, v));
        }
    }
    assert forall|t: int| 0 <= t < s.t_peer.len() implies #[trigger] sound_tunnel(m, s, t) by {
        assert(s.t_verified[t] == Set::<Seq<bool>>::empty());
    }
    assert forall|i: int, h: int|
        0 <= i < m.hops.len() && 0 <= h < m.hops[i].len() implies #[trigger] sent(m, s, i, h) by {
        assert(s.verified[i] == Set::<Seq<bool>>::empty());
    }
    assert forall|t: int| 0 <= t < s.t_peer.len() implies #[trigger] handed(s, t) by {
        assert(s.t_verified[t] == Set::<Seq<bool>>::empty());
    }
    assert forall|i: int| 0 <= i < m.hops.len() implies #[trigger] accounted(s, i) by {
        assert(s.verified[i] == Set::<Seq<bool>>::empty());
    }
    assert forall|i: int| 0 <= i < m.hops.len() implies #[trigger] seeds_in(m, s, i) by {
        assert(s.verified[i] == Set::<Seq<bool>>::empty());
    }
}

/// The union of the header sets of the diagrams.
pub open spec fn union_of(bdds: Seq<Bdd>) -> Set<Seq<bool>> {
    spaces_union(bdds, bdds.len() as int)
}

/// Whether entry `q` of the queue is for node `i` and holds `v`.
pub open spec fn queue_has(queue: Seq<(usize, Bdd)>, q: int, i: int, v: Seq<bool>) -> bool {
    0 <= q < queue.len() && queue[q].0 == i && bdd_sat(queue[q].1).contains(v)
}

/// What waits for node `i` in the queue from position `qpos` on.
pub open spec fn queued_at(queue: Seq<(usize, Bdd)>, qpos: int, i: int) -> Set<Seq<bool>> {
    Set::new(|v: Seq<bool>| exists|q: int| #[trigger] queue_has(queue, q, i, v) && qpos <= q)
}

/// The state of the net as header sets, with what the nodes have passed on
/// and what waits in the queue from position `qpos` on.
pub open spec fn state_of(
    net: NPNet,
    processed: Seq<Set<Seq<bool>>>,
    queue: Seq<(usize, Bdd)>,
    qpos: int,
) -> FlowState {
    FlowState {
        verified: Seq::new(net.nodes.len() as nat, |i: int| bdd_sat(net.nodes[i].verified_space)),
        arrived: Seq::new(net.nodes.len() as nat, |i: int| union_of(net.nodes[i].arrive_spaces@)),
        queued: Seq::new(net.nodes.len() as nat, |i: int| queued_at(queue, qpos, i)),
        processed,
        t_verified: Seq::new(
            net.tunnels.len() as nat,
            |t: int| bdd_sat(net.tunnels[t].verified_space),
        ),
        t_arrived: Seq::new(net.tunnels.len() as nat, |t: int| union_of(net.tunnels[t].arrive_spaces@)),
        t_peer: Seq::new(net.tunnels.len() as nat, |t: int| net.tunnels[t].peer as int),
    }
}

/// The links and seeds of a net that is about to be traversed in the given
/// direction over the given devices.
pub open spec fn flow_model(net: NPNet, devices: Seq<Device>, traversal_type: TraversalType) -> FlowModel {
    FlowModel {
        hops: Seq::new(net.nodes.len() as nat, |i: int| net.nodes[i].hops@),
        devices,
        traversal_type,
        seeds: Seq::new(
            net.nodes.len() as nat,
            |i: int| seeded(net, traversal_type, i, net.marked_at.len() as int),
        ),
    }
}

/// Whether the model is that of the net: the same links over the same
/// devices in the same direction.
pub open spec fn models(m: FlowModel, net: NPNet, devices: Seq<Device>, traversal_type: TraversalType) -> bool {
    &&& m.hops.len() == net.nodes.len()
    &&& m.seeds.len() == net.nodes.len()
    &&& forall|i: int| 0 <= i < net.nodes.len() ==> #[trigger] m.hops[i] == net.nodes[i].hops@
    &&& m.devices == devices
    &&& m.traversal_type == traversal_type
}

/// What holds of a traversal that is kept track of: the model is that of
/// the net and the invariant holds of the net's state.
pub open spec fn flowing(
    track: bool,
    m: FlowModel,
    net: NPNet,
    devices: Seq<Device>,
    traversal_type: TraversalType,
    processed: Seq<Set<Seq<bool>>>,
    queue: Seq<(usize, Bdd)>,
    qpos: int,
) -> bool {
    track ==> models(m, net, devices, traversal_type) && processed.len() == net.nodes.len()
        && flow_inv(m, state_of(net, processed, queue, qpos))
}

/// Whether the two nets have the same tunnels and the same nodes but for
/// node `j`, which has kept its links.
pub open spec fn same_but_node(before: NPNet, after: NPNet, j: int) -> bool {
    &&& after.nodes.len() == before.nodes.len()
    &&& after.tunnels@ == before.tunnels@
    &&& 0 <= j < before.nodes.len()
    &&& after.nodes[j].hops@ == before.nodes[j].hops@
    &&& forall|i: int| 0 <= i < before.nodes.len() && i != j ==> #[trigger] after.nodes[i] == before.nodes[i]
}

/// Whether the two nets have the same nodes and the same tunnels but for
/// tunnel `t`, which has kept its peer.
pub open spec fn same_but_tunnel(before: NPNet, after: NPNet, t: int) -> bool {
    &&& after.tunnels.len() == before.tunnels.len()
    &&& after.nodes@ == before.nodes@
    &&& 0 <= t < before.tunnels.len()
    &&& after.tunnels[t].peer == before.tunnels[t].peer
    &&& forall|x: int|
        0 <= x < before.tunnels.len() && x != t ==> #[trigger] after.tunnels[x] == before.tunnels[x]
}

/// A change at one node changes the state at that node only.
pub proof fn lemma_state_node(
    before: NPNet,
    after: NPNet,
    processed: Seq<Set<Seq<bool>>>,
    queue: Seq<(usize, Bdd)>,
    qpos: int,
    j: int,
)
    requires
        same_but_node(before, after, j),
    ensures
        ({
            let s0 = state_of(before, processed, queue, qpos);
            let s1 = state_of(after, processed, queue, qpos);
            &&& same_but(s0.verified, s1.verified, j)
            &&& same_but(s0.arrived, s1.arrived, j)
            &&& s1.queued == s0.queued
            &&& s1.processed == s0.processed
            &&& s1.t_verified == s0.t_verified
            &&& s1.t_arrived == s0.t_arrived
            &&& s1.t_peer == s0.t_peer
        }),
{
    let s0 = state_of(before, processed, queue, qpos);
    let s1 = state_of(after, processed, queue, qpos);
    assert(s1.queued =~= s0.queued);
    assert(s1.t_verified =~= s0.t_verified);
    assert(s1.t_arrived =~= s0.t_arrived);
    assert(s1.t_peer =~= s0.t_peer);
}

/// A change at one tunnel changes the state at that tunnel only.
pub proof fn lemma_state_tunnel(
    before: NPNet,
    after: NPNet,
    processed: Seq<Set<Seq<bool>>>,
    queue: Seq<(usize, Bdd)>,
    qpos: int,
    t: int,
)
    requires
        same_but_tunnel(before, after, t),
    ensures
        ({
            let s0 = state_of(before, processed, queue, qpos);
            let s1 = state_of(after, processed, queue, qpos);
            &&& same_but(s0.t_verified, s1.t_verified, t)
            &&& same_but(s0.t_arrived, s1.t_arrived, t)
            &&& s1.queued == s0.queued
            &&& s1.processed == s0.processed
            &&& s1.verified == s0.verified
            &&& s1.arrived == s0.arrived
            &&& s1.t_peer == s0.t_peer
        }),
{
    let s0 = state_of(before, processed, queue, qpos);
    let s1 = state_of(after, processed, queue, qpos);
    assert(s1.queued =~= s0.queued);
    assert(s1.verified =~= s0.verified);
    assert(s1.arrived =~= s0.arrived);
    assert(s1.t_peer =~= s0.t_peer);
}

/// The model of a net is the model of the net with a changed node that
/// has kept its links.
pub proof fn lemma_models_node(
    m: FlowModel,
    before: NPNet,
    after: NPNet,
    devices: Seq<Device>,
    traversal_type: TraversalType,
    j: int,
)
    requires
        models(m, before, devices, traversal_type),
        same_but_node(before, after, j),
    ensures
        models(m, after, devices, traversal_type),
{
    assert forall|i: int| 0 <= i < after.nodes.len() implies #[trigger] m.hops[i]
        == after.nodes[i].hops@ by {
        if i != j {
            assert(after.nodes[i] == before.nodes[i]);
        }
    }
}

/// A link that lets nothing of `x` pass has passed on all of `x`.
pub proof fn lemma_hop_blocked(m: FlowModel, s: FlowState, i: int, h: int, x: Set<Seq<bool>>)
    requires
        x.intersect(guard(m, i, h)) == Set::<Seq<bool>>::empty(),
    ensures
        passed_on(m, s, i, h, x),
{
    assert forall|v: Seq<bool>| x.contains(v) && #[trigger] guard(m, i, h).contains(v) implies match m.hops[i][h].tunnel {
        Some(t) => s.t_verified[t as int].contains(v),
        None => s.verified[m.hops[i][h].peer as int].contains(v),
    } by {
        assert(x.intersect(guard(m, i, h)).contains(v));
    }
}

/// The step in which the peer node of a link within one area takes in
/// what the link let pass.
pub proof fn lemma_hop_to_node(
    m: FlowModel,
    before: NPNet,
    after: NPNet,
    devices: Seq<Device>,
    traversal_type: TraversalType,
    processed: Seq<Set<Seq<bool>>>,
    queue: Seq<(usize, Bdd)>,
    qpos: int,
    cur: int,
    h: int,
    arrive: Set<Seq<bool>>,
    passed: Set<Seq<bool>>,
)
    requires
        models(m, before, devices, traversal_type),
        processed.len() == before.nodes.len(),
        flow_inv(m, state_of(before, processed, queue, qpos)),
        0 <= cur < m.hops.len(),
        0 <= h < m.hops[cur].len(),
        m.hops[cur][h].tunnel.is_none(),
        same_but_node(before, after, m.hops[cur][h].peer as int),
        passed == arrive.intersect(guard(m, cur, h)),
        forall|v: Seq<bool>| arrive.contains(v) ==> #[trigger] reached(m, cur, v),
        bdd_sat(after.nodes[m.hops[cur][h].peer as int].verified_space) == bdd_sat(
            before.nodes[m.hops[cur][h].peer as int].verified_space,
        ).union(passed),
        union_of(after.nodes[m.hops[cur][h].peer as int].arrive_spaces@) == union_of(
            before.nodes[m.hops[cur][h].peer as int].arrive_spaces@,
        ).union(
            passed.difference(bdd_sat(before.nodes[m.hops[cur][h].peer as int].verified_space)),
        ),
    ensures
        models(m, after, devices, traversal_type),
        flow_inv(m, state_of(after, processed, queue, qpos)),
        passed_on(m, state_of(after, processed, queue, qpos), cur, h, arrive),
{
    let j = m.hops[cur][h].peer as int;
    let s0 = state_of(before, processed, queue, qpos);
    let s1 = state_of(after, processed, queue, qpos);
    lemma_state_node(before, after, processed, queue, qpos, j);
    lemma_models_node(m, before, after, devices, traversal_type, j);
    assert forall|v: Seq<bool>| passed.contains(v) implies #[trigger] reached(m, j, v) by {
        lemma_reached_step(m, cur, h, v);
    }
    lemma_node_receives(m, s0, s1, j, passed);
    assert forall|v: Seq<bool>| arrive.contains(v) && #[trigger] guard(m, cur, h).contains(v) implies match m.hops[cur][h].tunnel {
        Some(t) => s1.t_verified[t as int].contains(v),
        None => s1.verified[m.hops[cur][h].peer as int].contains(v),
    } by {
        assert(passed.contains(v));
    }
}

/// The step in which the tunnel of a link between the areas takes in what
/// the link let pass.
pub proof fn lemma_hop_to_tunnel(
    m: FlowModel,
    before: NPNet,
    after: NPNet,
    devices: Seq<Device>,
    traversal_type: TraversalType,
    processed: Seq<Set<Seq<bool>>>,
    queue: Seq<(usize, Bdd)>,
    qpos: int,
    cur: int,
    h: int,
    t: int,
    arrive: Set<Seq<bool>>,
    passed: Set<Seq<bool>>,
)
    requires
        models(m, before, devices, traversal_type),
        processed.len() == before.nodes.len(),
        flow_inv(m, state_of(before, processed, queue, qpos)),
        0 <= cur < m.hops.len(),
        0 <= h < m.hops[cur].len(),
        m.hops[cur][h].tunnel == Some(t as usize),
        0 <= t <= usize::MAX,
        same_but_tunnel(before, after, t),
        passed == arrive.intersect(guard(m, cur, h)),
        forall|v: Seq<bool>| arrive.contains(v) ==> #[trigger] reached(m, cur, v),
        bdd_sat(after.tunnels[t].verified_space) == bdd_sat(before.tunnels[t].verified_space).union(
            passed,
        ),
        union_of(after.tunnels[t].arrive_spaces@) == union_of(before.tunnels[t].arrive_spaces@).union(
            passed.difference(bdd_sat(before.tunnels[t].verified_space)),
        ),
    ensures
        models(m, after, devices, traversal_type),
        flow_inv(m, state_of(after, processed, queue, qpos)),
        passed_on(m, state_of(after, processed, queue, qpos), cur, h, arrive),
{
    let s0 = state_of(before, processed, queue, qpos);
    let s1 = state_of(after, processed, queue, qpos);
    lemma_state_tunnel(before, after, processed, queue, qpos, t);
    assert(m.hops[cur][h].peer < m.hops.len() && s0.t_peer[t] == m.hops[cur][h].peer);
    assert forall|v: Seq<bool>| passed.contains(v) implies #[trigger] reached(m, s0.t_peer[t], v) by {
        lemma_reached_step(m, cur, h, v);
    }
    lemma_tunnel_receives(m, s0, s1, t, passed);
    assert forall|v: Seq<bool>| arrive.contains(v) && #[trigger] guard(m, cur, h).contains(v) implies match m.hops[cur][h].tunnel {
        Some(x) => s1.t_verified[x as int].contains(v),
        None => s1.verified[m.hops[cur][h].peer as int].contains(v),
    } by {
        assert(passed.contains(v));
    }
}

/// What a link has passed on stays passed on as the net grows.
pub proof fn lemma_passed_on_kept(
    m: FlowModel,
    before: NPNet,
    after: NPNet,
    processed: Seq<Set<Seq<bool>>>,
    queue: Seq<(usize, Bdd)>,
    qpos: int,
    i: int,
    h: int,
    x: Set<Seq<bool>>,
)
    requires
        shaped(m, state_of(before, processed, queue, qpos)),
        grown(before, after),
        0 <= i < m.hops.len(),
        0 <= h < m.hops[i].len(),
        passed_on(m, state_of(before, processed, queue, qpos), i, h, x),
    ensures
        passed_on(m, state_of(after, processed, queue, qpos), i, h, x),
{
    let s0 = state_of(before, processed, queue, qpos);
    let s1 = state_of(after, processed, queue, qpos);
    lemma_passed_on_grows(m, s0, s1, i, h, x);
}

/// Once a node has passed an entry of the queue on along all of its links,
/// the traversal goes on with the next entry.
pub proof fn lemma_entry_finished(
    m: FlowModel,
    net: NPNet,
    processed: Seq<Set<Seq<bool>>>,
    queue: Seq<(usize, Bdd)>,
    q: int,
)
    requires
        0 <= q < queue.len(),
        queue[q].0 < net.nodes.len(),
        processed.len() == net.nodes.len(),
        flow_inv(m, state_of(net, processed, queue, q)),
        forall|h: int|
            0 <= h < m.hops[queue[q].0 as int].len() ==> #[trigger] passed_on(
                m,
                state_of(net, processed, queue, q),
                queue[q].0 as int,
                h,
                bdd_sat(queue[q].1),
            ),
    ensures
        flow_inv(
            m,
            state_of(
                net,
                processed.update(
                    queue[q].0 as int,
                    processed[queue[q].0 as int].union(bdd_sat(queue[q].1)),
                ),
                queue,
                q + 1,
            ),
        ),
{
    let cur = queue[q].0 as int;
    let x = bdd_sat(queue[q].1);
    let done = processed.update(cur, processed[cur].union(x));
    let s0 = state_of(net, processed, queue, q);
    let s1 = state_of(net, done, queue, q + 1);
    assert forall|i: int| 0 <= i < s0.queued.len() && i != cur implies #[trigger] s1.queued[i]
        == s0.queued[i] by {
        assert forall|v: Seq<bool>| s1.queued[i].contains(v) <==> s0.queued[i].contains(v) by {
            if s0.queued[i].contains(v) {
                let p = choose|p: int| #[trigger] queue_has(queue, p, i, v) && q <= p;
                assert(queue_has(queue, p, i, v) && q + 1 <= p);
            }
            if s1.queued[i].contains(v) {
                let p = choose|p: int| #[trigger] queue_has(queue, p, i, v) && q + 1 <= p;
                assert(queue_has(queue, p, i, v) && q <= p);
            }
        }
        assert(s1.queued[i] =~= s0.queued[i]);
    }
    assert forall|v: Seq<bool>| s1.queued[cur].contains(v) implies s0.queued[cur].contains(v) by {
        let p = choose|p: int| #[trigger] queue_has(queue, p, cur, v) && q + 1 <= p;
        assert(queue_has(queue, p, cur, v) && q <= p);
    }
    assert forall|v: Seq<bool>| s0.queued[cur].contains(v) implies s1.queued[cur].union(x).contains(
        v,
    ) by {
        let p = choose|p: int| #[trigger] queue_has(queue, p, cur, v) && q <= p;
        if p != q {
            assert(queue_has(queue, p, cur, v) && q + 1 <= p);
        }
    }
    assert(s1.verified =~= s0.verified);
    assert(s1.arrived =~= s0.arrived);
    assert(s1.t_verified =~= s0.t_verified);
    assert(s1.t_arrived =~= s0.t_arrived);
    assert(s1.t_peer =~= s0.t_peer);
    lemma_entry_done(m, s0, s1, cur, x);
}

/// What an entry of the queue holds is derivable at its node.
pub proof fn lemma_entry_sound(
    m: FlowModel,
    net: NPNet,
    processed: Seq<Set<Seq<bool>>>,
    queue: Seq<(usize, Bdd)>,
    q: int,
)
    requires
        0 <= q < queue.len(),
        queue[q].0 < net.nodes.len(),
        flow_inv(m, state_of(net, processed, queue, q)),
    ensures
        forall|v: Seq<bool>| bdd_sat(queue[q].1).contains(v) ==> #[trigger] reached(m, queue[q].0 as int, v),
{
    let cur = queue[q].0 as int;
    let s = state_of(net, processed, queue, q);
    assert(sound_node(m, s, cur));
    assert forall|v: Seq<bool>| bdd_sat(queue[q].1).contains(v) implies #[trigger] reached(
        m,
        cur,
        v,
    ) by {
        assert(queue_has(queue, q, cur, v) && q <= q);
        assert(s.queued[cur].contains(v));
    }
}

/// A queue that is worked off holds as much as no queue at all.
pub proof fn lemma_queue_spent(
    net: NPNet,
    processed: Seq<Set<Seq<bool>>>,
    queue: Seq<(usize, Bdd)>,
)
    ensures
        state_of(net, processed, queue, queue.len() as int) == state_of(
            net,
            processed,
            Seq::<(usize, Bdd)>::empty(),
            0,
        ),
{
    let s0 = state_of(net, processed, queue, queue.len() as int);
    let s1 = state_of(net, processed, Seq::<(usize, Bdd)>::empty(), 0);
    assert forall|i: int| 0 <= i < s0.queued.len() implies #[trigger] s0.queued[i] == s1.queued[i] by {
        assert(s0.queued[i] =~= s1.queued[i]);
    }
    assert(s0.queued =~= s1.queued);
    assert(s0.verified =~= s1.verified);
    assert(s0.arrived =~= s1.arrived);
    assert(s0.t_verified =~= s1.t_verified);
    assert(s0.t_arrived =~= s1.t_arrived);
    assert(s0.t_peer =~= s1.t_peer);
}

/// The step in which a node gathers its arrivals into a new entry at the
/// end of the queue.
pub proof fn lemma_woken(
    m: FlowModel,
    before: NPNet,
    after: NPNet,
    devices: Seq<Device>,
    traversal_type: TraversalType,
    processed: Seq<Set<Seq<bool>>>,
    queue: Seq<(usize, Bdd)>,
    j: int,
    gathered: Bdd,
)
    requires
        models(m, before, devices, traversal_type),
        processed.len() == before.nodes.len(),
        flow_inv(m, state_of(before, processed, queue, 0)),
        same_but_node(before, after, j),
        0 <= j <= usize::MAX,
        bdd_sat(gathered) == union_of(before.nodes[j].arrive_spaces@),
        bdd_sat(after.nodes[j].verified_space) == bdd_sat(before.nodes[j].verified_space).union(
            bdd_sat(gathered),
        ),
        after.nodes[j].arrive_spaces@.len() == 0,
    ensures
        models(m, after, devices, traversal_type),
        flow_inv(m, state_of(after, processed, queue.push((j as usize, gathered)), 0)),
{
    let queue1 = queue.push((j as usize, gathered));
    let s0 = state_of(before, processed, queue, 0);
    let s1 = state_of(after, processed, queue1, 0);
    lemma_models_node(m, before, after, devices, traversal_type, j);
    assert forall|i: int| 0 <= i < s0.queued.len() && i != j implies #[trigger] s1.queued[i]
        == s0.queued[i] by {
        assert forall|v: Seq<bool>| s1.queued[i].contains(v) <==> s0.queued[i].contains(v) by {
            if s0.queued[i].contains(v) {
                let p = choose|p: int| #[trigger] queue_has(queue, p, i, v) && 0 <= p;
                assert(queue1[p] == queue[p]);
                assert(queue_has(queue1, p, i, v) && 0 <= p);
            }
            if s1.queued[i].contains(v) {
                let p = choose|p: int| #[trigger] queue_has(queue1, p, i, v) && 0 <= p;
                assert(p < queue.len());
                assert(queue1[p] == queue[p]);
                assert(queue_has(queue, p, i, v) && 0 <= p);
            }
        }
        assert(s1.queued[i] =~= s0.queued[i]);
    }
    assert(s1.queued[j] =~= s0.queued[j].union(s0.arrived[j])) by {
        assert forall|v: Seq<bool>| s1.queued[j].contains(v) <==> s0.queued[j].union(
            s0.arrived[j],
        ).contains(v) by {
            if s0.queued[j].contains(v) {
                let p = choose|p: int| #[trigger] queue_has(queue, p, j, v) && 0 <= p;
                assert(queue1[p] == queue[p]);
                assert(queue_has(queue1, p, j, v) && 0 <= p);
            }
            if s0.arrived[j].contains(v) {
                assert(queue_has(queue1, queue.len() as int, j, v) && 0 <= queue.len());
            }
            if s1.queued[j].contains(v) {
                let p = choose|p: int| #[trigger] queue_has(queue1, p, j, v) && 0 <= p;
                if p < queue.len() {
                    assert(queue1[p] == queue[p]);
                    assert(queue_has(queue, p, j, v) && 0 <= p);
                }
            }
        }
    }
    assert(s1.t_verified =~= s0.t_verified);
    assert(s1.t_arrived =~= s0.t_arrived);
    assert(s1.t_peer =~= s0.t_peer);
    assert(s1.arrived[j] =~= Set::<Seq<bool>>::empty());
    lemma_node_wakes(m, s0, s1, j);
}

/// The step in which a tunnel hands its arrivals over to its node.
pub proof fn lemma_handed_over(
    m: FlowModel,
    before: NPNet,
    after: NPNet,
    devices: Seq<Device>,
    traversal_type: TraversalType,
    processed: Seq<Set<Seq<bool>>>,
    queue: Seq<(usize, Bdd)>,
    qpos: int,
    t: int,
)
    requires
        models(m, before, devices, traversal_type),
        processed.len() == before.nodes.len(),
        flow_inv(m, state_of(before, processed, queue, qpos)),
        0 <= t < before.tunnels.len(),
        after.tunnels.len() == before.tunnels.len(),
        after.nodes.len() == before.nodes.len(),
        forall|x: int|
            0 <= x < before.tunnels.len() && x != t ==> #[trigger] after.tunnels[x] == before.tunnels[x],
        after.tunnels[t].peer == before.tunnels[t].peer,
        after.tunnels[t].verified_space == before.tunnels[t].verified_space,
        after.tunnels[t].arrive_spaces@.len() == 0,
        forall|i: int|
            0 <= i < before.nodes.len() && i != before.tunnels[t].peer ==> #[trigger] after.nodes[i]
                == before.nodes[i],
        after.nodes[before.tunnels[t].peer as int].hops@
            == before.nodes[before.tunnels[t].peer as int].hops@,
        bdd_sat(after.nodes[before.tunnels[t].peer as int].verified_space) == bdd_sat(
            before.nodes[before.tunnels[t].peer as int].verified_space,
        ).union(union_of(before.tunnels[t].arrive_spaces@)),
        union_of(after.nodes[before.tunnels[t].peer as int].arrive_spaces@) == union_of(
            before.nodes[before.tunnels[t].peer as int].arrive_spaces@,
        ).union(union_of(before.tunnels[t].arrive_spaces@)),
    ensures
        models(m, after, devices, traversal_type),
        flow_inv(m, state_of(after, processed, queue, qpos)),
{
    let s0 = state_of(before, processed, queue, qpos);
    let s1 = state_of(after, processed, queue, qpos);
    let j = before.tunnels[t].peer as int;
    assert(s0.t_peer[t] == j);
    assert forall|i: int| 0 <= i < after.nodes.len() implies #[trigger] m.hops[i]
        == after.nodes[i].hops@ by {
        if i != j {
            assert(after.nodes[i] == before.nodes[i]);
        }
    }
    assert(s1.queued =~= s0.queued);
    assert(s1.t_verified =~= s0.t_verified);
    assert(s1.t_peer =~= s0.t_peer);
    assert(s1.t_arrived[t] =~= Set::<Seq<bool>>::empty());
    lemma_tunnel_hands(m, s0, s1, t);
}

/// A net in which nothing has happened but the seeding satisfies the
/// invariant of its own model.
pub proof fn lemma_start(
    fresh: NPNet,
    seeded_net: NPNet,
    devices: Seq<Device>,
    traversal_type: TraversalType,
)
    requires
        fresh.fresh(),
        fresh.wf(),
        grown(fresh, seeded_net),
        seeded_net.tunnels == fresh.tunnels,
        forall|i: int|
            0 <= i < fresh.nodes.len() ==> bdd_sat((#[trigger] seeded_net.nodes[i]).verified_space)
                == bdd_sat(fresh.nodes[i].verified_space) && union_of(
                seeded_net.nodes[i].arrive_spaces@,
            ) == union_of(fresh.nodes[i].arrive_spaces@).union(
                seeded(fresh, traversal_type, i, fresh.marked_at.len() as int),
            ),
    ensures
        models(flow_model(fresh, devices, traversal_type), seeded_net, devices, traversal_type),
        flow_inv(
            flow_model(fresh, devices, traversal_type),
            state_of(
                seeded_net,
                Seq::new(fresh.nodes.len() as nat, |i: int| Set::<Seq<bool>>::empty()),
                Seq::<(usize, Bdd)>::empty(),
                0,
            ),
        ),
{
    let m = flow_model(fresh, devices, traversal_type);
    let s = state_of(
        seeded_net,
        Seq::new(fresh.nodes.len() as nat, |i: int| Set::<Seq<bool>>::empty()),
        Seq::<(usize, Bdd)>::empty(),
        0,
    );
    assert forall|i: int, h: int|
        0 <= i < m.hops.len() && 0 <= h < m.hops[i].len() implies (#[trigger] m.hops[i][h]).peer
        < m.hops.len() && (m.hops[i][h].tunnel matches Some(t) ==> t < s.t_peer.len()
        && s.t_peer[t as int] == m.hops[i][h].peer) by {
        assert(fresh.nodes[i].hops[h].peer < fresh.nodes.len());
    }
    assert forall|i: int| 0 <= i < m.hops.len() implies (#[trigger] s.verified[i]) == Set::<
        Seq<bool>,
    >::empty() && s.arrived[i] == m.seeds[i] && s.queued[i] == Set::<Seq<bool>>::empty()
        && s.processed[i] == Set::<Seq<bool>>::empty() by {
        assert(fresh.nodes[i].arrive_spaces.len() == 0);
        assert(union_of(fresh.nodes[i].arrive_spaces@) =~= Set::<Seq<bool>>::empty());
        assert(s.arrived[i] =~= m.seeds[i]);
        assert(s.queued[i] =~= Set::<Seq<bool>>::empty());
    }
    assert forall|t: int| 0 <= t < s.t_peer.len() implies (#[trigger] s.t_verified[t]) == Set::<
        Seq<bool>,
    >::empty() && s.t_arrived[t] == Set::<Seq<bool>>::empty() by {
        assert(fresh.tunnels[t].arrive_spaces.len() == 0);
        assert(union_of(seeded_net.tunnels[t].arrive_spaces@) =~= Set::<Seq<bool>>::empty());
    }
    lemma_seeded(m, s);
}

/// When nothing waits anywhere, every node has verified exactly what is
/// derivable at it.
pub proof fn lemma_finished(m: FlowModel, net: NPNet, processed: Seq<Set<Seq<bool>>>)
    requires
        flow_inv(m, state_of(net, processed, Seq::<(usize, Bdd)>::empty(), 0)),
        forall|i: int| 0 <= i < net.nodes.len() ==> (#[trigger] net.nodes[i]).arrive_spaces@.len() == 0,
        forall|t: int| 0 <= t < net.tunnels.len() ==> (#[trigger] net.tunnels[t]).arrive_spaces@.len() == 0,
    ensures
        forall|i: int|
            0 <= i < net.nodes.len() ==> bdd_sat((#[trigger] net.nodes[i]).verified_space)
                == reach_space(m, i),
{
    let s = state_of(net, processed, Seq::<(usize, Bdd)>::empty(), 0);
    assert(at_rest(s)) by {
        assert forall|i: int| 0 <= i < s.arrived.len() implies (#[trigger] s.arrived[i]) == Set::<
            Seq<bool>,
        >::empty() && s.queued[i] == Set::<Seq<bool>>::empty() by {
            assert(net.nodes[i].arrive_spaces@.len() == 0);
            assert(s.arrived[i] =~= Set::<Seq<bool>>::empty());
            assert(s.queued[i] =~= Set::<Seq<bool>>::empty());
        }
        assert forall|t: int| 0 <= t < s.t_arrived.len() implies (#[trigger] s.t_arrived[t])
            == Set::<Seq<bool>>::empty() by {
            assert(net.tunnels[t].arrive_spaces@.len() == 0);
            assert(s.t_arrived[t] =~= Set::<Seq<bool>>::empty());
        }
    }
    assert forall|i: int| 0 <= i < net.nodes.len() implies bdd_sat(
        (#[trigger] net.nodes[i]).verified_space,
    ) == reach_space(m, i) by {
        lemma_exact(m, s, i);
    }
}

} // verus!
