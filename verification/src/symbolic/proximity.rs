//! Which devices a neighborhood takes in.
//!
//! Exploring goes from device to device along the links. It steps from a
//! marked device to every neighbor and from any other device to its marked
//! neighbors only, and it enters no device that was claimed before. A
//! neighborhood holds what exploring reaches from its first marked device.
use crate::util::network::Network;
use vstd::prelude::*;

verus! {

/// Whether port `x` of device `i` leads to device `j`.
pub open spec fn leads_to(network: Network, i: int, x: int, j: int) -> bool {
    &&& 0 <= i < network.device_names().len()
    &&& 0 <= j < network.device_names().len()
    &&& 0 <= x < network.ports_at(i).len()
    &&& network.ports_at(i)[x].peer().is_some()
    &&& network.ports_at(i)[x].peer().unwrap().0 == network.device_names()[j]
}

/// Whether exploring steps from device `i` to device `j`: a link leads from
/// the one to the other and one of the two is marked.
pub open spec fn steps(network: Network, marked: Seq<Seq<char>>, i: int, j: int) -> bool {
    (exists|x: int| #[trigger] leads_to(network, i, x, j)) && (marked.contains(
        network.device_names()[i],
    ) || marked.contains(network.device_names()[j]))
}

/// Whether exploring can go along the path: none of its devices is blocked
/// and it steps from each to the next.
pub open spec fn walk(network: Network, marked: Seq<Seq<char>>, blocked: Seq<bool>, path: Seq<int>) -> bool {
    &&& path.len() > 0
    &&& forall|k: int|
        0 <= k < path.len() ==> 0 <= #[trigger] path[k] < blocked.len() && !blocked[path[k]]
    &&& forall|k: int| 0 <= k < path.len() - 1 ==> steps(network, marked, #[trigger] path[k], path[k + 1])
}

/// Whether exploring from device `start` reaches device `i`.
pub open spec fn explored(
    network: Network,
    marked: Seq<Seq<char>>,
    blocked: Seq<bool>,
    start: int,
    i: int,
) -> bool {
    exists|path: Seq<int>|
        #[trigger] walk(network, marked, blocked, path) && path[0] == start && path.last() == i
}

/// Whether entry `q` of the stack is for device `w` and has reach left.
pub open spec fn waits(stack: Seq<(usize, u8)>, q: int, w: int) -> bool {
    0 <= q < stack.len() && stack[q].0 == w && stack[q].1 > 0
}

/// Whether the stack holds device `w` with reach left.
pub open spec fn pending(stack: Seq<(usize, u8)>, w: int) -> bool {
    exists|q: int| #[trigger] waits(stack, q, w)
}

/// Whether a stack entry is in order: a marked device has full reach, any
/// other device at most one step, and a device that will be entered is
/// reached from the start.
pub open spec fn entry_ok(
    network: Network,
    marked: Seq<Seq<char>>,
    blocked: Seq<bool>,
    start: int,
    e: (usize, u8),
) -> bool {
    &&& e.0 < blocked.len()
    &&& marked.contains(network.device_names()[e.0 as int]) ==> e.1 == 2
    &&& !marked.contains(network.device_names()[e.0 as int]) ==> e.1 <= 1
    &&& e.1 > 0 && !blocked[e.0 as int] ==> explored(network, marked, blocked, start, e.0 as int)
}

/// What holds of every state of the search, whatever device is being
/// looked at.
pub open spec fn search_base(
    network: Network,
    marked: Seq<Seq<char>>,
    blocked: Seq<bool>,
    start: int,
    visited: Seq<bool>,
    stack: Seq<(usize, u8)>,
) -> bool {
    &&& network.device_names().no_duplicates()
    &&& blocked.len() == network.device_names().len()
    &&& visited.len() == blocked.len()
    &&& 0 <= start < blocked.len()
    &&& marked.contains(network.device_names()[start])
    &&& forall|i: int| 0 <= i < blocked.len() && blocked[i] ==> #[trigger] visited[i]
    &&& forall|i: int|
        0 <= i < blocked.len() && #[trigger] visited[i] && !blocked[i] ==> explored(
            network,
            marked,
            blocked,
            start,
            i,
        )
    &&& forall|q: int| 0 <= q < stack.len() ==> entry_ok(network, marked, blocked, start, #[trigger] stack[q])
    &&& visited[start] || pending(stack, start)
}

/// Whether every step from a device entered in this search leads to a
/// device that is visited or waits on the stack; of device `cur` only the
/// steps along its first `p` ports are asked for.
pub open spec fn search_closed(
    network: Network,
    marked: Seq<Seq<char>>,
    blocked: Seq<bool>,
    visited: Seq<bool>,
    stack: Seq<(usize, u8)>,
    cur: int,
    p: int,
) -> bool {
    &&& forall|u: int, w: int|
        0 <= u < blocked.len() && visited[u] && !blocked[u] && u != cur && #[trigger] steps(
            network,
            marked,
            u,
            w,
        ) ==> visited[w] || pending(stack, w)
    &&& forall|x: int, w: int|
        0 <= x < p && #[trigger] leads_to(network, cur, x, w) && (marked.contains(
            network.device_names()[cur],
        ) || marked.contains(network.device_names()[w])) ==> visited[w] || pending(stack, w)
}

/// The state of the search between two devices.
pub open spec fn searching(
    network: Network,
    marked: Seq<Seq<char>>,
    blocked: Seq<bool>,
    start: int,
    visited: Seq<bool>,
    stack: Seq<(usize, u8)>,
) -> bool {
    search_base(network, marked, blocked, start, visited, stack) && search_closed(
        network,
        marked,
        blocked,
        visited,
        stack,
        -1,
        0,
    )
}

/// The state of the search while the ports of device `cur`, entered with
/// reach `depth`, are gone through, before port `p`.
pub open spec fn expanding(
    network: Network,
    marked: Seq<Seq<char>>,
    blocked: Seq<bool>,
    start: int,
    visited: Seq<bool>,
    stack: Seq<(usize, u8)>,
    cur: int,
    depth: u8,
    p: int,
) -> bool {
    &&& search_base(network, marked, blocked, start, visited, stack)
    &&& search_closed(network, marked, blocked, visited, stack, cur, p)
    &&& 0 <= cur < blocked.len()
    &&& visited[cur]
    &&& !blocked[cur]
    &&& 0 <= p <= network.ports_at(cur).len()
    &&& marked.contains(network.device_names()[cur]) ==> depth == 2
    &&& !marked.contains(network.device_names()[cur]) ==> depth == 1
}

/// A path that exploring can go along can be gone one step further.
pub proof fn lemma_walk_on(
    network: Network,
    marked: Seq<Seq<char>>,
    blocked: Seq<bool>,
    start: int,
    i: int,
    j: int,
)
    requires
        explored(network, marked, blocked, start, i),
        steps(network, marked, i, j),
        0 <= j < blocked.len(),
        !blocked[j],
    ensures
        explored(network, marked, blocked, start, j),
{
    let path = choose|path: Seq<int>|
        #[trigger] walk(network, marked, blocked, path) && path[0] == start && path.last() == i;
    let longer = path.push(j);
    assert forall|k: int| 0 <= k < longer.len() - 1 implies steps(
        network,
        marked,
        #[trigger] longer[k],
        longer[k + 1],
    ) by {
        if k < path.len() - 1 {
            assert(steps(network, marked, path[k], path[k + 1]));
        }
    }
    assert(walk(network, marked, blocked, longer) && longer[0] == start && longer.last() == j);
}

/// The search begins with the start on the stack.
pub proof fn lemma_search_start(
    network: Network,
    marked: Seq<Seq<char>>,
    blocked: Seq<bool>,
    start: usize,
)
    requires
        network.device_names().no_duplicates(),
        blocked.len() == network.device_names().len(),
        start < blocked.len(),
        marked.contains(network.device_names()[start as int]),
    ensures
        searching(network, marked, blocked, start as int, blocked, seq![(start, 2u8)]),
{
    let stack = seq![(start, 2u8)];
    if !blocked[start as int] {
        let path = seq![start as int];
        assert(walk(network, marked, blocked, path) && path[0] == start && path.last() == start);
    }
    assert(waits(stack, 0, start as int));
}

/// An entry for a visited device, or one without reach, is dropped.
pub proof fn lemma_search_skip(
    network: Network,
    marked: Seq<Seq<char>>,
    blocked: Seq<bool>,
    start: int,
    visited: Seq<bool>,
    stack: Seq<(usize, u8)>,
)
    requires
        searching(network, marked, blocked, start, visited, stack),
        stack.len() > 0,
        visited[stack.last().0 as int] || stack.last().1 == 0,
    ensures
        searching(network, marked, blocked, start, visited, stack.drop_last()),
{
    let rest = stack.drop_last();
    assert forall|w: int| pending(stack, w) implies visited[w] || pending(rest, w) by {
        let q = choose|q: int| #[trigger] waits(stack, q, w);
        if q < rest.len() {
            assert(waits(rest, q, w));
        }
    }
    assert forall|q: int| 0 <= q < rest.len() implies entry_ok(
        network,
        marked,
        blocked,
        start,
        #[trigger] rest[q],
    ) by {
        assert(rest[q] == stack[q]);
    }
}

/// A device is entered: it is visited, and its ports are to be gone
/// through.
pub proof fn lemma_search_visit(
    network: Network,
    marked: Seq<Seq<char>>,
    blocked: Seq<bool>,
    start: int,
    visited: Seq<bool>,
    stack: Seq<(usize, u8)>,
)
    requires
        searching(network, marked, blocked, start, visited, stack),
        stack.len() > 0,
        !visited[stack.last().0 as int],
        stack.last().1 > 0,
    ensures
        expanding(
            network,
            marked,
            blocked,
            start,
            visited.update(stack.last().0 as int, true),
            stack.drop_last(),
            stack.last().0 as int,
            stack.last().1,
            0,
        ),
{
    let rest = stack.drop_last();
    let cur = stack.last().0 as int;
    let after = visited.update(cur, true);
    assert(entry_ok(network, marked, blocked, start, stack[stack.len() - 1]));
    assert forall|w: int| pending(stack, w) implies after[w] || pending(rest, w) by {
        let q = choose|q: int| #[trigger] waits(stack, q, w);
        if q < rest.len() {
            assert(waits(rest, q, w));
        }
    }
    assert forall|q: int| 0 <= q < rest.len() implies entry_ok(
        network,
        marked,
        blocked,
        start,
        #[trigger] rest[q],
    ) by {
        assert(rest[q] == stack[q]);
    }
    assert forall|u: int, w: int|
        0 <= u < blocked.len() && after[u] && !blocked[u] && u != cur && #[trigger] steps(
            network,
            marked,
            u,
            w,
        ) implies after[w] || pending(rest, w) by {
        assert(visited[u]);
        assert(visited[w] || pending(stack, w));
    }
}

/// A port that leads to a device not visited yet puts the device on the
/// stack, with full reach if it is marked and one step less otherwise.
pub proof fn lemma_expand_push(
    network: Network,
    marked: Seq<Seq<char>>,
    blocked: Seq<bool>,
    start: int,
    visited: Seq<bool>,
    stack: Seq<(usize, u8)>,
    cur: int,
    depth: u8,
    p: int,
    j: usize,
)
    requires
        expanding(network, marked, blocked, start, visited, stack, cur, depth, p),
        leads_to(network, cur, p, j as int),
        !visited[j as int],
    ensures
        expanding(
            network,
            marked,
            blocked,
            start,
            visited,
            stack.push(
                (
                    j,
                    if marked.contains(network.device_names()[j as int]) {
                        2u8
                    } else {
                        (depth - 1) as u8
                    },
                ),
            ),
            cur,
            depth,
            p + 1,
        ),
{
    let names = network.device_names();
    let reach = if marked.contains(names[j as int]) {
        2u8
    } else {
        (depth - 1) as u8
    };
    let more = stack.push((j, reach));
    assert forall|w: int| pending(stack, w) implies pending(more, w) by {
        let q = choose|q: int| #[trigger] waits(stack, q, w);
        assert(waits(more, q, w));
    }
    assert forall|q: int| 0 <= q < more.len() implies entry_ok(
        network,
        marked,
        blocked,
        start,
        #[trigger] more[q],
    ) by {
        if q < stack.len() {
            assert(more[q] == stack[q]);
        } else if reach > 0 {
            assert(marked.contains(names[cur]) || marked.contains(names[j as int]));
            assert(steps(network, marked, cur, j as int));
            lemma_walk_on(network, marked, blocked, start, cur, j as int);
        }
    }
    assert forall|x: int, w: int|
        0 <= x < p + 1 && #[trigger] leads_to(network, cur, x, w) && (marked.contains(names[cur])
            || marked.contains(names[w])) implies visited[w] || pending(more, w) by {
        if x == p {
            assert(names[w] == names[j as int]);
            assert(w == j);
            assert(waits(more, stack.len() as int, j as int));
        }
    }
}

/// A port that leads nowhere new changes nothing.
pub proof fn lemma_expand_pass(
    network: Network,
    marked: Seq<Seq<char>>,
    blocked: Seq<bool>,
    start: int,
    visited: Seq<bool>,
    stack: Seq<(usize, u8)>,
    cur: int,
    depth: u8,
    p: int,
)
    requires
        expanding(network, marked, blocked, start, visited, stack, cur, depth, p),
        p < network.ports_at(cur).len(),
        forall|w: int| #[trigger] leads_to(network, cur, p, w) ==> visited[w],
    ensures
        expanding(network, marked, blocked, start, visited, stack, cur, depth, p + 1),
{
}

/// When all ports of the device are gone through, the search goes on.
pub proof fn lemma_expand_done(
    network: Network,
    marked: Seq<Seq<char>>,
    blocked: Seq<bool>,
    start: int,
    visited: Seq<bool>,
    stack: Seq<(usize, u8)>,
    cur: int,
    depth: u8,
)
    requires
        expanding(
            network,
            marked,
            blocked,
            start,
            visited,
            stack,
            cur,
            depth,
            network.ports_at(cur).len() as int,
        ),
    ensures
        searching(network, marked, blocked, start, visited, stack),
{
    assert forall|u: int, w: int|
        0 <= u < blocked.len() && visited[u] && !blocked[u] && u != -1 && #[trigger] steps(
            network,
            marked,
            u,
            w,
        ) implies visited[w] || pending(stack, w) by {
        if u == cur {
            let x = choose|x: int| #[trigger] leads_to(network, cur, x, w);
            assert(leads_to(network, cur, x, w));
        }
    }
    assert forall|x: int, w: int|
        0 <= x < 0 && #[trigger] leads_to(network, -1, x, w) && (marked.contains(
            network.device_names()[-1],
        ) || marked.contains(network.device_names()[w])) implies visited[w] || pending(stack, w) by {
    }
}

/// Every device of a path from the start is visited when the search ends.
proof fn lemma_walk_visited(
    network: Network,
    marked: Seq<Seq<char>>,
    blocked: Seq<bool>,
    start: int,
    visited: Seq<bool>,
    path: Seq<int>,
    k: int,
)
    requires
        searching(network, marked, blocked, start, visited, Seq::<(usize, u8)>::empty()),
        walk(network, marked, blocked, path),
        path[0] == start,
        0 <= k < path.len(),
    ensures
        visited[path[k]],
    decreases k,
{
    let none = Seq::<(usize, u8)>::empty();
    assert forall|w: int| !pending(none, w) by {
        if pending(none, w) {
            let q = choose|q: int| #[trigger] waits(none, q, w);
        }
    }
    if k > 0 {
        lemma_walk_visited(network, marked, blocked, start, visited, path, k - 1);
        assert(0 <= path[k - 1] < blocked.len() && !blocked[path[k - 1]]);
        assert(steps(network, marked, path[k - 1], path[k - 1 + 1]));
    }
}

/// When the stack is empty, the devices visited in the search are those
/// that exploring reaches from the start.
pub proof fn lemma_search_done(
    network: Network,
    marked: Seq<Seq<char>>,
    blocked: Seq<bool>,
    start: int,
    visited: Seq<bool>,
)
    requires
        searching(network, marked, blocked, start, visited, Seq::<(usize, u8)>::empty()),
    ensures
        forall|i: int|
            0 <= i < blocked.len() ==> (#[trigger] visited[i] <==> blocked[i] || explored(
                network,
                marked,
                blocked,
                start,
                i,
            )),
        visited[start],
{
    let none = Seq::<(usize, u8)>::empty();
    if pending(none, start) {
        let q = choose|q: int| #[trigger] waits(none, q, start);
    }
    assert forall|i: int| 0 <= i < blocked.len() implies (#[trigger] visited[i] <==> blocked[i]
        || explored(network, marked, blocked, start, i)) by {
        if explored(network, marked, blocked, start, i) {
            let path = choose|path: Seq<int>|
                #[trigger] walk(network, marked, blocked, path) && path[0] == start && path.last()
                    == i;
            lemma_walk_visited(network, marked, blocked, start, visited, path, path.len() - 1);
        }
    }
}

/// The devices that are claimed when the first `m` marked devices have had
/// their turn. At its turn a marked device that the topology knows and
/// that is not claimed yet claims all that exploring reaches from it.
pub open spec fn claimed(network: Network, marked: Seq<Seq<char>>, m: int) -> Seq<bool>
    decreases m,
{
    if m <= 0 {
        Seq::new(network.device_names().len(), |i: int| false)
    } else {
        let before = claimed(network, marked, m - 1);
        if network.device_names().contains(marked[m - 1]) {
            Seq::new(
                before.len(),
                |i: int|
                    before[i] || explored(
                        network,
                        marked,
                        before,
                        network.device_names().index_of(marked[m - 1]),
                        i,
                    ),
            )
        } else {
            before
        }
    }
}

/// Whether marked device `m` founds a neighborhood: it is not claimed when
/// its turn comes.
pub open spec fn founds(network: Network, marked: Seq<Seq<char>>, m: int) -> bool {
    !(network.device_names().contains(marked[m]) && claimed(
        network,
        marked,
        m,
    )[network.device_names().index_of(marked[m])])
}

/// Whether device `i` is claimed at the turn of marked device `m`.
pub open spec fn joins(network: Network, marked: Seq<Seq<char>>, m: int, i: int) -> bool {
    0 <= i < network.device_names().len() && claimed(network, marked, m + 1)[i] && !claimed(
        network,
        marked,
        m,
    )[i]
}

/// Whether the device named `x` belongs to the neighborhood that marked
/// device `m` founds: it is claimed at the turn of `m`, or it is `m`
/// itself where the topology does not know `m`.
pub open spec fn member(network: Network, marked: Seq<Seq<char>>, m: int, x: Seq<char>) -> bool {
    if network.device_names().contains(marked[m]) {
        exists|i: int| #[trigger] joins(network, marked, m, i) && network.device_names()[i] == x
    } else {
        x == marked[m]
    }
}

/// Those of the first `m` marked devices that found a neighborhood, in
/// order.
pub open spec fn founders(network: Network, marked: Seq<Seq<char>>, m: int) -> Seq<int>
    decreases m,
{
    if m <= 0 {
        Seq::empty()
    } else if founds(network, marked, m - 1) {
        founders(network, marked, m - 1).push(m - 1)
    } else {
        founders(network, marked, m - 1)
    }
}

/// As many devices are claimed or not as there are devices.
pub proof fn lemma_claimed_len(network: Network, marked: Seq<Seq<char>>, m: int)
    ensures
        claimed(network, marked, m).len() == network.device_names().len(),
    decreases m,
{
    if m > 0 {
        lemma_claimed_len(network, marked, m - 1);
    }
}

/// Exploring from a blocked device reaches nothing.
pub proof fn lemma_blocked_start(
    network: Network,
    marked: Seq<Seq<char>>,
    blocked: Seq<bool>,
    start: int,
    i: int,
)
    requires
        0 <= start < blocked.len(),
        blocked[start],
    ensures
        !explored(network, marked, blocked, start, i),
{
    if explored(network, marked, blocked, start, i) {
        let path = choose|path: Seq<int>|
            #[trigger] walk(network, marked, blocked, path) && path[0] == start && path.last() == i;
        assert(!blocked[path[0]]);
    }
}

/// What is visited after the turn of marked device `m` is what is claimed
/// then.
pub proof fn lemma_turn(
    network: Network,
    marked: Seq<Seq<char>>,
    m: int,
    visited: Seq<bool>,
)
    requires
        0 <= m < marked.len(),
        visited.len() == network.device_names().len(),
        if network.device_names().contains(marked[m]) {
            forall|i: int|
                0 <= i < visited.len() ==> (#[trigger] visited[i] <==> claimed(network, marked, m)[i]
                    || explored(
                    network,
                    marked,
                    claimed(network, marked, m),
                    network.device_names().index_of(marked[m]),
                    i,
                ))
        } else {
            visited == claimed(network, marked, m)
        },
    ensures
        visited == claimed(network, marked, m + 1),
{
    lemma_claimed_len(network, marked, m);
    assert(visited =~= claimed(network, marked, m + 1));
}

/// A marked device that is claimed when its turn comes claims nothing.
pub proof fn lemma_turn_passed(network: Network, marked: Seq<Seq<char>>, m: int)
    requires
        0 <= m < marked.len(),
        !founds(network, marked, m),
    ensures
        claimed(network, marked, m + 1) == claimed(network, marked, m),
{
    lemma_claimed_len(network, marked, m);
    let before = claimed(network, marked, m);
    let start = network.device_names().index_of(marked[m]);
    assert forall|i: int| 0 <= i < before.len() implies !explored(
        network,
        marked,
        before,
        start,
        i,
    ) by {
        lemma_blocked_start(network, marked, before, start, i);
    }
    assert(claimed(network, marked, m + 1) =~= before);
}

} // verus!
