//! What compiling a rule list means.
//!
//! The rules of a device are taken longest prefix first. A rule is live when
//! its address passes the common-prefix filter and its prefix meets the
//! space of all declared subnets. The hit of a live rule is what its prefix
//! matches and no earlier live rule has matched; a port forwards the union of
//! the hits of the rules that name it. Compiled stepwise, the rules of the
//! greatest length are not held against one another.
use crate::util::npbdd::{prefix_ok, prefix_text_space};
use crate::util::rule::{lemma_lpm_order, longest_first, lpm_order, Rule};
use vstd::prelude::*;

verus! {

/// What a device's rules are compiled against.
pub struct LecInput {
    /// The number of header variables.
    pub n: nat,
    /// The rules, longest prefix first.
    pub rules: Seq<Rule>,
    /// The text that all declared subnet addresses begin with.
    pub common_prefix: Seq<char>,
    /// The union of all declared subnets.
    pub all_space: Set<Seq<bool>>,
    /// The names of the ports that the topology knows at the device.
    pub known_ports: Set<Seq<char>>,
    /// Whether the rules are compiled stepwise: a live rule as long as the
    /// first rule then hits all that it matches.
    pub stepwise: bool,
}

/// Whether the rule passes the common-prefix filter.
pub open spec fn rule_considered(inp: LecInput, i: int) -> bool {
    inp.common_prefix.is_prefix_of(inp.rules[i].ip_text()) || inp.rules[i].len() == 0
}

/// Whether the rule's prefix can be encoded.
pub open spec fn rule_encodable(inp: LecInput, i: int) -> bool {
    prefix_ok(inp.n, inp.rules[i].ip_text(), inp.rules[i].len())
}

/// Whether every rule that passes the filter can be encoded.
pub open spec fn rules_encodable(inp: LecInput) -> bool {
    forall|i: int|
        0 <= i < inp.rules.len() && #[trigger] rule_considered(inp, i) ==> rule_encodable(inp, i)
}

/// The headers that the rule's prefix matches.
pub open spec fn rule_match(inp: LecInput, i: int) -> Set<Seq<bool>> {
    prefix_text_space(inp.n, inp.rules[i].ip_text(), inp.rules[i].len())
}

/// Whether the rule takes part: it passes the filter and its prefix meets
/// the space of all declared subnets.
pub open spec fn rule_live(inp: LecInput, i: int) -> bool {
    rule_considered(inp, i) && !(inp.all_space.intersect(rule_match(inp, i)) == Set::<
        Seq<bool>,
    >::empty())
}

/// The headers matched by the live rules before rule `i`.
pub open spec fn used_before(inp: LecInput, i: int) -> Set<Seq<bool>>
    decreases i,
{
    if i <= 0 {
        Set::<Seq<bool>>::empty()
    } else if rule_live(inp, i - 1) {
        used_before(inp, i - 1).union(rule_match(inp, i - 1))
    } else {
        used_before(inp, i - 1)
    }
}

/// Whether rule `i` keeps its whole match: the rules are compiled stepwise
/// and the rule is as long as the first rule.
pub open spec fn keeps_match(inp: LecInput, i: int) -> bool {
    inp.stepwise && inp.rules[i].len() == inp.rules[0].len()
}

/// The hit of rule `i`: what it matches and no earlier live rule has, or
/// all that it matches where it keeps its whole match.
pub open spec fn rule_hit(inp: LecInput, i: int) -> Set<Seq<bool>> {
    if !rule_live(inp, i) {
        Set::<Seq<bool>>::empty()
    } else if keeps_match(inp, i) {
        rule_match(inp, i)
    } else {
        rule_match(inp, i).difference(used_before(inp, i))
    }
}

/// Whether rule `i` forwards to port `p`: the rule names the port and the
/// topology knows it.
pub open spec fn routes_to(inp: LecInput, i: int, p: Seq<char>) -> bool {
    inp.rules[i].port_names().contains(p) && inp.known_ports.contains(p)
}

/// The headers that port `p` forwards by the rules before rule `i`.
pub open spec fn port_space(inp: LecInput, p: Seq<char>, i: int) -> Set<Seq<bool>>
    decreases i,
{
    if i <= 0 {
        Set::<Seq<bool>>::empty()
    } else if routes_to(inp, i - 1, p) {
        port_space(inp, p, i - 1).union(rule_hit(inp, i - 1))
    } else {
        port_space(inp, p, i - 1)
    }
}

/// The headers that port `p` forwards once all rules are compiled.
pub open spec fn lec_space(inp: LecInput, p: Seq<char>) -> Set<Seq<bool>> {
    port_space(inp, p, inp.rules.len() as int)
}

/// A header is in a port's space exactly when some earlier rule that
/// forwards to the port hits it.
pub proof fn lemma_port_space(inp: LecInput, p: Seq<char>, i: int, v: Seq<bool>)
    requires
        0 <= i <= inp.rules.len(),
    ensures
        port_space(inp, p, i).contains(v) <==> exists|j: int|
            0 <= j < i && routes_to(inp, j, p) && (#[trigger] rule_hit(inp, j)).contains(v),
    decreases i,
{
    if i > 0 {
        lemma_port_space(inp, p, i - 1, v);
        if port_space(inp, p, i).contains(v) {
            if routes_to(inp, i - 1, p) && rule_hit(inp, i - 1).contains(v) {
            } else {
                let j = choose|j: int|
                    0 <= j < i - 1 && routes_to(inp, j, p) && (#[trigger] rule_hit(inp, j)).contains(
                        v,
                    );
                assert(0 <= j < i && routes_to(inp, j, p) && rule_hit(inp, j).contains(v));
            }
        }
        if exists|j: int|
            0 <= j < i && routes_to(inp, j, p) && (#[trigger] rule_hit(inp, j)).contains(v) {
            let j = choose|j: int|
                0 <= j < i && routes_to(inp, j, p) && (#[trigger] rule_hit(inp, j)).contains(v);
            if j < i - 1 {
                assert(port_space(inp, p, i - 1).contains(v));
            }
        }
    }
}

/// A header is used before rule `i` exactly when an earlier live rule
/// matches it.
pub proof fn lemma_used_before(inp: LecInput, i: int, v: Seq<bool>)
    requires
        0 <= i <= inp.rules.len(),
    ensures
        used_before(inp, i).contains(v) <==> exists|j: int|
            0 <= j < i && #[trigger] rule_live(inp, j) && rule_match(inp, j).contains(v),
    decreases i,
{
    if i > 0 {
        lemma_used_before(inp, i - 1, v);
        if used_before(inp, i).contains(v) {
            if rule_live(inp, i - 1) && rule_match(inp, i - 1).contains(v) {
            } else {
                let j = choose|j: int|
                    0 <= j < i - 1 && #[trigger] rule_live(inp, j) && rule_match(inp, j).contains(v);
                assert(0 <= j < i && rule_live(inp, j) && rule_match(inp, j).contains(v));
            }
        }
        if exists|j: int|
            0 <= j < i && #[trigger] rule_live(inp, j) && rule_match(inp, j).contains(v) {
            let j = choose|j: int|
                0 <= j < i && #[trigger] rule_live(inp, j) && rule_match(inp, j).contains(v);
            if j < i - 1 {
                assert(used_before(inp, i - 1).contains(v));
            }
        }
    }
}

/// The hits of two different rules have no header in common.
pub proof fn lemma_hits_disjoint(inp: LecInput, i: int, j: int)
    requires
        0 <= i < j < inp.rules.len(),
        !inp.stepwise,
    ensures
        rule_hit(inp, i).intersect(rule_hit(inp, j)) == Set::<Seq<bool>>::empty(),
{
    assert forall|v: Seq<bool>| !rule_hit(inp, i).intersect(rule_hit(inp, j)).contains(v) by {
        if rule_hit(inp, i).contains(v) && rule_hit(inp, j).contains(v) {
            lemma_used_before(inp, j, v);
            assert(rule_live(inp, i) && rule_match(inp, i).contains(v));
        }
    }
    assert(rule_hit(inp, i).intersect(rule_hit(inp, j)) =~= Set::<Seq<bool>>::empty());
}

/// Two ports forward disjoint header sets unless some rule with a hit
/// forwards to both of them.
pub proof fn lemma_lecs_disjoint(inp: LecInput, p: Seq<char>, q: Seq<char>)
    requires
        !inp.stepwise,
        forall|i: int|
            0 <= i < inp.rules.len() && routes_to(inp, i, p) && routes_to(inp, i, q)
                ==> #[trigger] rule_hit(inp, i) == Set::<Seq<bool>>::empty(),
    ensures
        lec_space(inp, p).intersect(lec_space(inp, q)) == Set::<Seq<bool>>::empty(),
{
    let len = inp.rules.len() as int;
    assert forall|v: Seq<bool>| !lec_space(inp, p).intersect(lec_space(inp, q)).contains(v) by {
        if lec_space(inp, p).contains(v) && lec_space(inp, q).contains(v) {
            lemma_port_space(inp, p, len, v);
            lemma_port_space(inp, q, len, v);
            let a = choose|j: int|
                0 <= j < len && routes_to(inp, j, p) && (#[trigger] rule_hit(inp, j)).contains(v);
            let b = choose|j: int|
                0 <= j < len && routes_to(inp, j, q) && (#[trigger] rule_hit(inp, j)).contains(v);
            if a < b {
                lemma_hits_disjoint(inp, a, b);
                assert(rule_hit(inp, a).intersect(rule_hit(inp, b)).contains(v));
            } else if b < a {
                lemma_hits_disjoint(inp, b, a);
                assert(rule_hit(inp, b).intersect(rule_hit(inp, a)).contains(v));
            } else {
                assert(rule_hit(inp, a) == Set::<Seq<bool>>::empty());
            }
        }
    }
    assert(lec_space(inp, p).intersect(lec_space(inp, q)) =~= Set::<Seq<bool>>::empty());
}

/// Whether rule `i` is live and matches the header.
pub open spec fn takes(inp: LecInput, i: int, v: Seq<bool>) -> bool {
    0 <= i < inp.rules.len() && rule_live(inp, i) && rule_match(inp, i).contains(v)
}

/// Whether rule `i` is a longest of the live rules that match the header.
pub open spec fn longest_match(inp: LecInput, i: int, v: Seq<bool>) -> bool {
    takes(inp, i, v) && forall|j: int| #[trigger] takes(inp, j, v) ==> inp.rules[j].len() <= inp.rules[i].len()
}

/// Whether the two rules forward to the same ports that the topology
/// knows, in whatever order they name them.
pub open spec fn same_routes(inp: LecInput, i: int, j: int) -> bool {
    forall|p: Seq<char>| #[trigger] routes_to(inp, i, p) == routes_to(inp, j, p)
}

/// Whether the order among rules of equal length decides nothing: where a
/// header has two longest live matches, so that the one that comes first
/// hits it, the two forward to the same known ports. A tie over headers
/// that a longer rule takes anyway decides nothing and is not asked
/// about.
pub open spec fn untied(inp: LecInput) -> bool {
    forall|i: int, j: int, v: Seq<bool>|
        #[trigger] longest_match(inp, i, v) && #[trigger] takes(inp, j, v) && inp.rules[i].len()
            == inp.rules[j].len() ==> same_routes(inp, i, j)
}

/// The same input with its rules ordered longest prefix first.
pub open spec fn ordered(inp: LecInput) -> LecInput {
    LecInput {
        n: inp.n,
        rules: lpm_order(inp.rules),
        common_prefix: inp.common_prefix,
        all_space: inp.all_space,
        known_ports: inp.known_ports,
        stepwise: inp.stepwise,
    }
}

/// Whether the two inputs differ in their rules at most.
pub open spec fn same_setting(a: LecInput, b: LecInput) -> bool {
    a.n == b.n && a.common_prefix == b.common_prefix && a.all_space == b.all_space && a.known_ports
        == b.known_ports && a.stepwise == b.stepwise
}

/// A live rule that matches a header is the one that hits it, or an earlier
/// rule is.
pub proof fn lemma_first_taker(inp: LecInput, i: int, v: Seq<bool>) -> (k: int)
    requires
        takes(inp, i, v),
    ensures
        0 <= k <= i,
        rule_hit(inp, k).contains(v),
    decreases i,
{
    lemma_used_before(inp, i, v);
    if used_before(inp, i).contains(v) {
        let j = choose|j: int|
            0 <= j < i && #[trigger] rule_live(inp, j) && rule_match(inp, j).contains(v);
        lemma_first_taker(inp, j, v)
    } else {
        i
    }
}

/// With the rules longest first and no tie that decides, a port forwards a
/// header exactly when a longest live rule that matches the header
/// forwards to the port.
pub proof fn lemma_longest_match(inp: LecInput, p: Seq<char>, v: Seq<bool>)
    requires
        !inp.stepwise,
        longest_first(inp.rules),
        untied(inp),
    ensures
        lec_space(inp, p).contains(v) <==> exists|i: int|
            #[trigger] longest_match(inp, i, v) && routes_to(inp, i, p),
{
    let len = inp.rules.len() as int;
    lemma_port_space(inp, p, len, v);
    if lec_space(inp, p).contains(v) {
        let j = choose|j: int|
            0 <= j < len && routes_to(inp, j, p) && (#[trigger] rule_hit(inp, j)).contains(v);
        assert forall|k: int| #[trigger] takes(inp, k, v) implies inp.rules[k].len()
            <= inp.rules[j].len() by {
            lemma_used_before(inp, j, v);
            if k < j {
                assert(rule_live(inp, k) && rule_match(inp, k).contains(v));
            }
        }
        assert(longest_match(inp, j, v) && routes_to(inp, j, p));
    }
    if exists|i: int| #[trigger] longest_match(inp, i, v) && routes_to(inp, i, p) {
        let i = choose|i: int| #[trigger] longest_match(inp, i, v) && routes_to(inp, i, p);
        let k = lemma_first_taker(inp, i, v);
        assert(takes(inp, k, v));
        assert(inp.rules[k].len() == inp.rules[i].len());
        assert(same_routes(inp, i, k));
        assert(routes_to(inp, i, p) == routes_to(inp, k, p));
        assert(routes_to(inp, k, p));
    }
}

/// A rule takes a header in one of two inputs with the same rules in some
/// order exactly when it does in the other.
proof fn lemma_takes_moved(a: LecInput, b: LecInput, i: int, v: Seq<bool>) -> (j: int)
    requires
        same_setting(a, b),
        a.rules.to_multiset() == b.rules.to_multiset(),
        takes(a, i, v),
    ensures
        takes(b, j, v),
        b.rules[j] == a.rules[i],
{
    a.rules.to_multiset_ensures();
    b.rules.to_multiset_ensures();
    assert(a.rules.contains(a.rules[i]));
    assert(b.rules.to_multiset().count(a.rules[i]) > 0);
    assert(b.rules.contains(a.rules[i]));
    let j = choose|j: int| 0 <= j < b.rules.len() && b.rules[j] == a.rules[i];
    assert(rule_match(b, j) == rule_match(a, i));
    j
}

/// A tie that decides nothing in one order decides nothing in another.
pub proof fn lemma_untied_moved(a: LecInput, b: LecInput)
    requires
        same_setting(a, b),
        a.rules.to_multiset() == b.rules.to_multiset(),
        untied(a),
    ensures
        untied(b),
{
    assert forall|i: int, j: int, v: Seq<bool>|
        #[trigger] longest_match(b, i, v) && #[trigger] takes(b, j, v) && b.rules[i].len()
            == b.rules[j].len() implies same_routes(b, i, j) by {
        let x = lemma_takes_moved(b, a, i, v);
        let y = lemma_takes_moved(b, a, j, v);
        assert forall|k: int| #[trigger] takes(a, k, v) implies a.rules[k].len()
            <= a.rules[x].len() by {
            let z = lemma_takes_moved(a, b, k, v);
            assert(takes(b, z, v));
        }
        assert(longest_match(a, x, v) && takes(a, y, v));
        assert(same_routes(a, x, y));
        assert forall|p: Seq<char>| #[trigger] routes_to(b, i, p) == routes_to(b, j, p) by {
            assert(routes_to(a, x, p) == routes_to(a, y, p));
        }
    }
}

/// One half of the law below.
proof fn lemma_order_free_half(a: LecInput, b: LecInput, p: Seq<char>, v: Seq<bool>)
    requires
        !a.stepwise,
        same_setting(a, b),
        a.rules.to_multiset() == b.rules.to_multiset(),
        longest_first(a.rules),
        longest_first(b.rules),
        untied(a),
        lec_space(a, p).contains(v),
    ensures
        lec_space(b, p).contains(v),
{
    lemma_untied_moved(a, b);
    lemma_longest_match(a, p, v);
    lemma_longest_match(b, p, v);
    let i = choose|i: int| #[trigger] longest_match(a, i, v) && routes_to(a, i, p);
    let j = lemma_takes_moved(a, b, i, v);
    assert forall|k: int| #[trigger] takes(b, k, v) implies b.rules[k].len() <= b.rules[j].len() by {
        let x = lemma_takes_moved(b, a, k, v);
        assert(takes(a, x, v));
    }
    assert(longest_match(b, j, v) && routes_to(b, j, p));
}

/// The order in which the rules are given does not matter: two rule lists
/// that hold the same rules, each as often as the other, give every port
/// the same header set once they are ordered longest prefix first,
/// provided that no tie between rules of equal length decides anything.
pub proof fn lemma_order_free(a: LecInput, b: LecInput, p: Seq<char>)
    requires
        !a.stepwise,
        same_setting(a, b),
        a.rules.to_multiset() == b.rules.to_multiset(),
        untied(a),
    ensures
        lec_space(ordered(a), p) == lec_space(ordered(b), p),
{
    lemma_lpm_order(a.rules);
    lemma_lpm_order(b.rules);
    lemma_untied_moved(a, ordered(a));
    lemma_untied_moved(a, ordered(b));
    assert forall|v: Seq<bool>| lec_space(ordered(a), p).contains(v) == lec_space(
        ordered(b),
        p,
    ).contains(v) by {
        if lec_space(ordered(a), p).contains(v) {
            lemma_order_free_half(ordered(a), ordered(b), p, v);
        }
        if lec_space(ordered(b), p).contains(v) {
            lemma_order_free_half(ordered(b), ordered(a), p, v);
        }
    }
    assert(lec_space(ordered(a), p) =~= lec_space(ordered(b), p));
}

} // verus!
