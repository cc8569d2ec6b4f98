//! The rule compiler: from each device's rules to the header set that each
//! of its ports forwards.
use crate::kernel::{bdd_reduced, bdd_sat, is_space};
use crate::symbolic::device::{lec_port, Device};
use crate::symbolic::lec::Lec;
use crate::symbolic::lec_model::{
    lec_space, port_space, rule_considered, rule_encodable, rule_hit, rule_live, rule_match,
    routes_to, rules_encodable, used_before, LecInput,
};
use crate::util::bdd_table::{space, valid_id};
use crate::util::device_port::DevicePort;
use crate::util::forward_action::ForwardAction;
use crate::util::name_map::NameMap;
use crate::util::network::{has_port, port_keys, Network};
use crate::kernel::spaces_union;
use crate::util::npbdd::{prefix_ok, prefix_text_space, Engine, EngineError, NPBDD};
use crate::util::rule::{lpm_order, Rule};
use crate::util::text::{text_starts_with, texts};
use biodivine_lib_bdd::Bdd;
use vstd::prelude::*;
use vstd::string::StringExecFns;

verus! {

/// The names of the ports that the topology knows at the device.
pub open spec fn known_port_names(topo_ports: Seq<DevicePort>, device: Seq<char>) -> Set<Seq<char>> {
    Set::new(|p: Seq<char>| port_keys(topo_ports).contains((device, p)))
}

/// The ids in `ports` stand for what the ports forward by the rules before
/// rule `i`, and a port has an id exactly when it forwards something.
pub open spec fn ports_track(t: Seq<Bdd>, ports: NameMap<u32>, inp: LecInput, i: int) -> bool {
    &&& ports.wf()
    &&& forall|p: Seq<char>|
        match #[trigger] ports.lookup(p) {
            Some(id) => valid_id(t, id) && space(t, id) == port_space(inp, p, i) && !(port_space(
                inp,
                p,
                i,
            ) == Set::<Seq<bool>>::empty()),
            None => port_space(inp, p, i) == Set::<Seq<bool>>::empty(),
        }
}

/// The ports of the rule that the topology knows, in the rule's order, each
/// with the id it has so far, or `none_id` if it has none.
fn collect_ports(
    rule: &Rule,
    device_name: &String,
    topo_ports: &Vec<DevicePort>,
    ports: &NameMap<u32>,
    none_id: u32,
) -> (r: (Vec<String>, Vec<u32>))
    requires
        ports.wf(),
    ensures
        r.0.len() == r.1.len(),
        r.0.len() <= rule.port_names().len(),
        forall|j: int|
            0 <= j < r.0.len() ==> rule.port_names().contains((#[trigger] r.0[j])@)
                && known_port_names(topo_ports@, device_name@).contains(r.0[j]@),
        forall|p: Seq<char>|
            rule.port_names().contains(p) && known_port_names(topo_ports@, device_name@).contains(p)
                ==> texts(r.0@).contains(p),
        forall|j: int|
            0 <= j < r.0.len() ==> #[trigger] r.1[j] == match ports.lookup(r.0[j]@) {
                Some(id) => id,
                None => none_id,
            },
{
    let forward_action = rule.get_forward_action();
    let tmp_ports = forward_action.get_ports();
    let mut names: Vec<String> = Vec::new();
    let mut ids: Vec<u32> = Vec::new();
    let mut c: usize = 0;
    while c < tmp_ports.len()
        invariant
            c <= tmp_ports.len(),
            ports.wf(),
            texts(tmp_ports@) == rule.port_names(),
            names.len() == ids.len(),
            names.len() <= c,
            forall|j: int|
                0 <= j < names.len() ==> rule.port_names().contains((#[trigger] names[j])@)
                    && known_port_names(topo_ports@, device_name@).contains(names[j]@),
            forall|k: int|
                0 <= k < c && known_port_names(topo_ports@, device_name@).contains(
                    #[trigger] texts(tmp_ports@)[k],
                ) ==> texts(names@).contains(texts(tmp_ports@)[k]),
            forall|j: int|
                0 <= j < names.len() ==> #[trigger] ids[j] == match ports.lookup(names[j]@) {
                    Some(id) => id,
                    None => none_id,
                },
        decreases tmp_ports.len() - c,
    {
        let port = &tmp_ports[c];
        assert(texts(tmp_ports@)[c as int] == port@);
        let tmp_device_port = DevicePort::new(device_name.clone(), port.clone());
        if has_port(topo_ports, &tmp_device_port) {
            let id = match ports.get(port.as_str()) {
                Some(id) => id,
                None => none_id,
            };
            let ghost names0 = names@;
            names.push(port.clone());
            ids.push(id);
            proof {
                assert(texts(names@)[names0.len() as int] == port@);
                assert forall|k: int|
                    0 <= k < c + 1 && known_port_names(topo_ports@, device_name@).contains(
                        #[trigger] texts(tmp_ports@)[k],
                    ) implies texts(names@).contains(texts(tmp_ports@)[k]) by {
                    if k < c {
                        let q = texts(tmp_ports@)[k];
                        let j = texts(names0).index_of(q);
                        assert(texts(names0)[j] == q);
                        assert(texts(names@)[j] == q);
                    }
                }
            }
        }
        c += 1;
    }
    proof {
        assert forall|p: Seq<char>|
            rule.port_names().contains(p) && known_port_names(topo_ports@, device_name@).contains(
                p,
            ) implies texts(names@).contains(p) by {
            let k = rule.port_names().index_of(p);
            assert(texts(tmp_ports@)[k] == p);
        }
    }
    (names, ids)
}

/// Stores `new_ids[k]` under `names[k]` for every `k`.
fn write_back(ports: &mut NameMap<u32>, names: &Vec<String>, new_ids: &Vec<u32>)
    requires
        old(ports).wf(),
        names.len() == new_ids.len(),
    ensures
        final(ports).wf(),
        forall|p: Seq<char>|
            texts(names@).contains(p) ==> exists|j: int|
                0 <= j < names.len() && (#[trigger] names[j])@ == p && final(ports).lookup(p)
                    == Some(new_ids[j]),
        forall|p: Seq<char>|
            !texts(names@).contains(p) ==> final(ports).lookup(p) == old(ports).lookup(p),
{
    let mut k: usize = 0;
    while k < names.len()
        invariant
            k <= names.len(),
            names.len() == new_ids.len(),
            ports.wf(),
            forall|p: Seq<char>|
                texts(names@.take(k as int)).contains(p) ==> exists|j: int|
                    0 <= j < k && (#[trigger] names[j])@ == p && ports.lookup(p) == Some(
                        new_ids[j],
                    ),
            forall|p: Seq<char>|
                !texts(names@.take(k as int)).contains(p) ==> ports.lookup(p) == old(ports).lookup(p),
        decreases names.len() - k,
    {
        let ghost before = *ports;
        ports.set(names[k].clone(), new_ids[k]);
        proof {
            let t0 = texts(names@.take(k as int));
            let t1 = texts(names@.take(k as int + 1));
            assert(t1 =~= t0.push(names[k as int]@));
            assert forall|p: Seq<char>| t1.contains(p) implies exists|j: int|
                0 <= j < k + 1 && (#[trigger] names[j])@ == p && ports.lookup(p) == Some(
                    new_ids[j],
                ) by {
                if p == names[k as int]@ {
                    assert(names[k as int]@ == p && ports.lookup(p) == Some(new_ids[k as int]));
                } else {
                    let i = t1.index_of(p);
                    assert(t1[i] == p);
                    assert(t0[i] == p);
                    assert(t0.contains(p));
                    let j = choose|j: int|
                        0 <= j < k && (#[trigger] names[j])@ == p && before.lookup(p) == Some(
                            new_ids[j],
                        );
                    assert(names[j]@ == p && ports.lookup(p) == Some(new_ids[j]));
                }
            }
            assert forall|p: Seq<char>| !t1.contains(p) implies ports.lookup(p) == old(
                ports,
            ).lookup(p) by {
                assert(t1[k as int] == names[k as int]@);
                if t0.contains(p) {
                    let i = t0.index_of(p);
                    assert(t0[i] == p);
                    assert(t1[i] == p);
                }
            }
        }
        k += 1;
    }
    assert(names@.take(names.len() as int) =~= names@);
}

/// A table that extends another keeps the tracked ids in place.
proof fn lemma_track_grows(t0: Seq<Bdd>, t1: Seq<Bdd>, ports: NameMap<u32>, inp: LecInput, i: int)
    requires
        ports_track(t0, ports, inp, i),
        t0.is_prefix_of(t1),
    ensures
        ports_track(t1, ports, inp, i),
{
    assert forall|p: Seq<char>|
        match #[trigger] ports.lookup(p) {
            Some(id) => valid_id(t1, id) && space(t1, id) == port_space(inp, p, i) && !(port_space(
                inp,
                p,
                i,
            ) == Set::<Seq<bool>>::empty()),
            None => port_space(inp, p, i) == Set::<Seq<bool>>::empty(),
        } by {
        match ports.lookup(p) {
            Some(id) => {
                assert(valid_id(t0, id));
                assert(t1[id - 1] == t0[id - 1]);
            },
            None => {},
        }
    }
}

/// A rule without a hit leaves every port as it was.
proof fn lemma_track_no_hit(t: Seq<Bdd>, ports: NameMap<u32>, inp: LecInput, i: int)
    requires
        0 <= i < inp.rules.len(),
        ports_track(t, ports, inp, i),
        rule_hit(inp, i) == Set::<Seq<bool>>::empty(),
    ensures
        ports_track(t, ports, inp, i + 1),
{
    assert forall|p: Seq<char>| port_space(inp, p, i + 1) == port_space(inp, p, i) by {
        assert(port_space(inp, p, i).union(Set::<Seq<bool>>::empty()) =~= port_space(inp, p, i));
    }
    assert forall|p: Seq<char>|
        match #[trigger] ports.lookup(p) {
            Some(id) => valid_id(t, id) && space(t, id) == port_space(inp, p, i + 1) && !(
            port_space(inp, p, i + 1) == Set::<Seq<bool>>::empty()),
            None => port_space(inp, p, i + 1) == Set::<Seq<bool>>::empty(),
        } by {
        assert(port_space(inp, p, i + 1) == port_space(inp, p, i));
    }
}

/// Takes rule `i` into account: updates the ids of the ports it forwards to
/// and returns the id of the space used after it.
fn apply_rule(
    bdd: &mut NPBDD,
    Ghost(inp): Ghost<LecInput>,
    i: usize,
    rule: &Rule,
    device_name: &String,
    topo_ports: &Vec<DevicePort>,
    ports: &mut NameMap<u32>,
    used_space_id: u32,
    none_id: u32,
    all_space_id: u32,
    common_prefix: &str,
    stepwise: bool,
    longest: usize,
) -> (r: Result<u32, EngineError>)
    requires
        old(bdd).wf(),
        inp.n == old(bdd).width(),
        i < inp.rules.len(),
        *rule == inp.rules[i as int],
        inp.stepwise == stepwise,
        inp.rules[0].len() == longest,
        inp.common_prefix == common_prefix@,
        inp.known_ports == known_port_names(topo_ports@, device_name@),
        ports_track(old(bdd).table@, *old(ports), inp, i as int),
        valid_id(old(bdd).table@, used_space_id),
        space(old(bdd).table@, used_space_id) == used_before(inp, i as int),
        valid_id(old(bdd).table@, none_id),
        space(old(bdd).table@, none_id) == Set::<Seq<bool>>::empty(),
        valid_id(old(bdd).table@, all_space_id),
        space(old(bdd).table@, all_space_id) == inp.all_space,
    ensures
        final(bdd).extends(old(bdd)),
        final(ports).wf(),
        final(bdd).table@.len() <= old(bdd).table@.len() + 5 + rule.port_names().len(),
        match r {
            Ok(new_used) => ports_track(final(bdd).table@, *final(ports), inp, i + 1) && valid_id(
                final(bdd).table@,
                new_used,
            ) && space(final(bdd).table@, new_used) == used_before(inp, i + 1) && (rule_considered(
                inp,
                i as int,
            ) ==> rule_encodable(inp, i as int)),
            Err(e) => if e == EngineError::BadPrefix {
                rule_considered(inp, i as int) && !rule_encodable(inp, i as int)
            } else {
                e == EngineError::TableFull && final(bdd).table@.len() == u32::MAX
            },
        },
{
    let ghost t0 = bdd.table@;
    let ghost ports0 = *ports;
    let rule_ip = rule.get_ip();
    let rule_prefix_len = rule.get_prefix_len();
    if !text_starts_with(rule_ip, common_prefix) && rule_prefix_len != 0 {
        proof {
            lemma_track_no_hit(t0, *ports, inp, i as int);
        }
        return Ok(used_space_id);
    }
    let prefix_bdd_id = match bdd.cache.l2_encode_rule(
        &bdd.engine,
        &mut bdd.table,
        rule_ip,
        rule_prefix_len,
    ) {
        Ok(id) => id,
        Err(e) => {
            return Err(e);
        },
    };
    let ghost t1 = bdd.table@;
    assert(space(t1, prefix_bdd_id) == rule_match(inp, i as int));
    assert(t1[all_space_id - 1] == t0[all_space_id - 1]);
    let is_relevant = match bdd.cache.cached_relevance(&mut bdd.table, all_space_id, prefix_bdd_id) {
        Ok(b) => b,
        Err(e) => {
            return Err(e);
        },
    };
    let ghost t2 = bdd.table@;
    if !is_relevant {
        proof {
            lemma_track_grows(t0, t2, *ports, inp, i as int);
            lemma_track_no_hit(t2, *ports, inp, i as int);
            assert(t2[used_space_id - 1] == t0[used_space_id - 1]);
        }
        return Ok(used_space_id);
    }
    assert(rule_live(inp, i as int));
    assert(t2[used_space_id - 1] == t0[used_space_id - 1]);
    assert(t2[prefix_bdd_id - 1] == t1[prefix_bdd_id - 1]);
    let (hit_id, new_used_space_id) = if stepwise && rule_prefix_len == longest {
        match bdd.cache.cached_or(&mut bdd.table, used_space_id, prefix_bdd_id) {
            Ok(all) => (prefix_bdd_id, all),
            Err(e) => {
                return Err(e);
            },
        }
    } else if stepwise {
        match bdd.cache.cached_prefix_match(&mut bdd.table, used_space_id, prefix_bdd_id) {
            Ok(p) => (p.1, p.0),
            Err(e) => {
                return Err(e);
            },
        }
    } else {
        match bdd.cache.l2_cal_hit(&mut bdd.table, prefix_bdd_id, used_space_id) {
            Ok(p) => p,
            Err(e) => {
                return Err(e);
            },
        }
    };
    let ghost t3 = bdd.table@;
    assert(t3[prefix_bdd_id - 1] == t2[prefix_bdd_id - 1]);
    assert(space(t3, hit_id) == rule_hit(inp, i as int));
    assert(space(t3, new_used_space_id) == used_before(inp, i + 1));
    if bdd.table.bdd_ref(hit_id).is_false() {
        proof {
            lemma_track_grows(t0, t3, *ports, inp, i as int);
            lemma_track_no_hit(t3, *ports, inp, i as int);
        }
        return Ok(new_used_space_id);
    }
    let (names, ids) = collect_ports(rule, device_name, topo_ports, ports, none_id);
    if ids.len() == 0 {
        proof {
            lemma_track_grows(t0, t3, *ports, inp, i as int);
            assert forall|p: Seq<char>| port_space(inp, p, i + 1) == port_space(inp, p, i as int) by {
                if routes_to(inp, i as int, p) {
                    assert(texts(names@).contains(p));
                    assert(false);
                }
            }
            assert forall|p: Seq<char>|
                match #[trigger] ports.lookup(p) {
                    Some(id) => valid_id(t3, id) && space(t3, id) == port_space(inp, p, i + 1)
                        && !(port_space(inp, p, i + 1) == Set::<Seq<bool>>::empty()),
                    None => port_space(inp, p, i + 1) == Set::<Seq<bool>>::empty(),
                } by {
                assert(port_space(inp, p, i + 1) == port_space(inp, p, i as int));
            }
        }
        return Ok(new_used_space_id);
    }
    proof {
        lemma_track_grows(t0, t3, *ports, inp, i as int);
        assert(t3[none_id - 1] == t0[none_id - 1]);
        assert forall|j: int| 0 <= j < ids.len() implies valid_id(t3, #[trigger] ids[j]) by {
            let q = names[j]@;
            match ports.lookup(q) {
                Some(id) => {},
                None => {},
            }
        }
    }
    let new_ids = match bdd.cache.l2_merge_port_space(&mut bdd.table, hit_id, &ids) {
        Ok(v) => v,
        Err(e) => {
            return Err(e);
        },
    };
    let ghost t4 = bdd.table@;
    write_back(ports, &names, &new_ids);
    proof {
        let hit = rule_hit(inp, i as int);
        assert(t4[hit_id - 1] == t3[hit_id - 1]);
        assert(t4[new_used_space_id - 1] == t3[new_used_space_id - 1]);
        lemma_track_grows(t3, t4, ports0, inp, i as int);
        assert forall|p: Seq<char>|
            match #[trigger] ports.lookup(p) {
                Some(id) => valid_id(t4, id) && space(t4, id) == port_space(inp, p, i + 1) && !(
                port_space(inp, p, i + 1) == Set::<Seq<bool>>::empty()),
                None => port_space(inp, p, i + 1) == Set::<Seq<bool>>::empty(),
            } by {
            if texts(names@).contains(p) {
                let j = choose|j: int|
                    0 <= j < names.len() && (#[trigger] names[j])@ == p && ports.lookup(p) == Some(
                        new_ids[j],
                    );
                assert(routes_to(inp, i as int, p));
                assert(valid_id(t4, new_ids[j]));
                assert(space(t4, new_ids[j]) == space(t4, ids[j]).union(space(t4, hit_id)));
                match ports0.lookup(p) {
                    Some(id) => {
                        assert(ids[j] == id);
                    },
                    None => {
                        assert(ids[j] == none_id);
                        assert(t4[none_id - 1] == t0[none_id - 1]);
                        assert(space(t4, ids[j]) == Set::<Seq<bool>>::empty());
                    },
                }
                assert(space(t4, ids[j]) == port_space(inp, p, i as int));
                assert(port_space(inp, p, i + 1) == port_space(inp, p, i as int).union(hit));
                assert(!(hit =~= Set::<Seq<bool>>::empty()));
                let v = choose|v: Seq<bool>| hit.contains(v);
                assert(port_space(inp, p, i + 1).contains(v));
            } else {
                assert(ports.lookup(p) == ports0.lookup(p));
                if routes_to(inp, i as int, p) {
                    assert(texts(names@).contains(p));
                }
                assert(port_space(inp, p, i + 1) == port_space(inp, p, i as int));
            }
        }
    }
    Ok(new_used_space_id)
}

/// Every header that some port forwards.
pub open spec fn forwardable_space(inp: LecInput) -> Set<Seq<bool>> {
    Set::new(|v: Seq<bool>| exists|p: Seq<char>| (#[trigger] lec_space(inp, p)).contains(v))
}

/// What a compiled device holds: a port forwards something exactly when the
/// rules give it a header, it forwards exactly those headers, and two ports
/// share a group exactly when they forward the same diagram.
pub open spec fn device_compiled(d: Device, inp: LecInput) -> bool {
    &&& forall|p: Seq<char>| #[trigger]
        d.has_space(p) <==> !(lec_space(inp, p) == Set::<Seq<bool>>::empty())
    &&& forall|p: Seq<char>| d.has_space(p) ==> bdd_sat(#[trigger] d.space_of(p)) == lec_space(inp, p)
    &&& forall|p: Seq<char>, q: Seq<char>|
        #![trigger d.space_id_of(p), d.space_id_of(q)]
        d.has_space(p) && d.has_space(q) ==> ((d.space_id_of(p) == d.space_id_of(q)) <==> (
        d.space_of(p) == d.space_of(q)))
}

/// How many diagrams compiling the first `k` rules can add to the
/// canonical table at most: five for each rule and one for each port it
/// names.
pub open spec fn rules_weight(rules: Seq<Rule>, k: int) -> nat
    decreases k,
{
    if k <= 0 {
        0
    } else {
        rules_weight(rules, k - 1) + 5 + rules[k - 1].port_names().len()
    }
}

/// More rules weigh no less.
pub proof fn lemma_rules_weight(rules: Seq<Rule>, k: int, m: int)
    requires
        k <= m,
    ensures
        rules_weight(rules, k) <= rules_weight(rules, m),
    decreases m - k,
{
    if k < m {
        lemma_rules_weight(rules, k, m - 1);
    }
}

/// How many diagrams compiling a device can add to the canonical table at
/// most.
pub open spec fn device_weight(d: Device) -> nat {
    1 + rules_weight(lpm_order(d.rules()), d.rules().len() as int)
}

/// How many diagrams a pass over the first `k` devices can add to the
/// canonical table at most.
pub open spec fn pass_weight(devices: Seq<Device>, k: int) -> nat
    decreases k,
{
    if k <= 0 {
        0
    } else {
        pass_weight(devices, k - 1) + device_weight(devices[k - 1])
    }
}

/// More devices weigh no less.
pub proof fn lemma_pass_weight(devices: Seq<Device>, k: int, m: int)
    requires
        k <= m,
    ensures
        pass_weight(devices, k) <= pass_weight(devices, m),
    decreases m - k,
{
    if k < m {
        lemma_pass_weight(devices, k, m - 1);
    }
}

/// Whether more ports get a header set than a device can have groups.
pub open spec fn overfull(inp: LecInput) -> bool {
    exists|ps: Seq<Seq<char>>|
        #![trigger ps.no_duplicates()]
        ps.no_duplicates() && ps.len() > crate::symbolic::device::MAX_SPACE_PORTS && forall|j: int|
            0 <= j < ps.len() ==> !(lec_space(inp, #[trigger] ps[j]) == Set::<Seq<bool>>::empty())
}

/// What the rules of `device` are compiled against.
pub open spec fn lec_input(
    n: nat,
    rules: Seq<Rule>,
    device: Seq<char>,
    topo_ports: Seq<DevicePort>,
    common_prefix: Seq<char>,
    all_space: Set<Seq<bool>>,
    stepwise: bool,
) -> LecInput {
    LecInput {
        n,
        rules: lpm_order(rules),
        common_prefix,
        all_space,
        known_ports: known_port_names(topo_ports, device),
        stepwise,
    }
}

/// The ports of a compiled device forward header sets that have nothing in
/// common, unless some rule with a hit forwards to both ports.
pub proof fn lemma_device_spaces_disjoint(d: Device, inp: LecInput, p: Seq<char>, q: Seq<char>)
    requires
        !inp.stepwise,
        device_compiled(d, inp),
        d.has_space(p),
        d.has_space(q),
        forall|i: int|
            0 <= i < inp.rules.len() && crate::symbolic::lec_model::routes_to(inp, i, p)
                && crate::symbolic::lec_model::routes_to(inp, i, q)
                ==> #[trigger] crate::symbolic::lec_model::rule_hit(inp, i) == Set::<
                Seq<bool>,
            >::empty(),
    ensures
        bdd_sat(d.space_of(p)).intersect(bdd_sat(d.space_of(q))) == Set::<Seq<bool>>::empty(),
{
    crate::symbolic::lec_model::lemma_lecs_disjoint(inp, p, q);
}

/// What the rules make forwardable is the union of what the ports of the
/// compiled device forward.
pub proof fn lemma_forwardable_is_union(d: Device, inp: LecInput, v: Seq<bool>)
    requires
        device_compiled(d, inp),
    ensures
        forwardable_space(inp).contains(v) <==> exists|p: Seq<char>|
            d.has_space(p) && bdd_sat(#[trigger] d.space_of(p)).contains(v),
{
    if forwardable_space(inp).contains(v) {
        let p = choose|p: Seq<char>| (#[trigger] lec_space(inp, p)).contains(v);
        assert(!(lec_space(inp, p) =~= Set::<Seq<bool>>::empty()));
        assert(d.has_space(p) && bdd_sat(d.space_of(p)).contains(v));
    }
    if exists|p: Seq<char>| d.has_space(p) && bdd_sat(#[trigger] d.space_of(p)).contains(v) {
        let p = choose|p: Seq<char>| d.has_space(p) && bdd_sat(#[trigger] d.space_of(p)).contains(v);
        assert(lec_space(inp, p).contains(v));
    }
}

/// Compiling does not depend on the order in which the rules are given:
/// of two rule lists that hold the same rules, each as often as the other,
/// every port gets the same header set, provided that no tie between rules
/// of equal length decides anything.
pub proof fn lemma_compile_order_free(
    n: nat,
    rules: Seq<Rule>,
    shuffled: Seq<Rule>,
    device: Seq<char>,
    topo_ports: Seq<DevicePort>,
    common_prefix: Seq<char>,
    all_space: Set<Seq<bool>>,
    p: Seq<char>,
)
    requires
        rules.to_multiset() == shuffled.to_multiset(),
        crate::symbolic::lec_model::untied(
            lec_input(n, rules, device, topo_ports, common_prefix, all_space, false),
        ),
    ensures
        lec_space(lec_input(n, rules, device, topo_ports, common_prefix, all_space, false), p) == lec_space(
            lec_input(n, shuffled, device, topo_ports, common_prefix, all_space, false),
            p,
        ),
{
    let a = LecInput {
        n,
        rules,
        common_prefix,
        all_space,
        known_ports: known_port_names(topo_ports, device),
        stepwise: false,
    };
    let b = LecInput {
        n,
        rules: shuffled,
        common_prefix,
        all_space,
        known_ports: known_port_names(topo_ports, device),
        stepwise: false,
    };
    crate::util::rule::lemma_lpm_order(rules);
    crate::symbolic::lec_model::lemma_untied_moved(
        lec_input(n, rules, device, topo_ports, common_prefix, all_space, false),
        a,
    );
    crate::symbolic::lec_model::lemma_order_free(a, b, p);
    assert(crate::symbolic::lec_model::ordered(a) == lec_input(
        n,
        rules,
        device,
        topo_ports,
        common_prefix,
        all_space,
        false,
    ));
    assert(crate::symbolic::lec_model::ordered(b) == lec_input(
        n,
        shuffled,
        device,
        topo_ports,
        common_prefix,
        all_space,
        false,
    ));
}

/// The classes are those of the tracked ports, in order.
spec fn lecs_of(t: Seq<Bdd>, ports: NameMap<u32>, lecs: Seq<Lec>, k: int) -> bool {
    &&& lecs.len() == k
    &&& forall|j: int|
        0 <= j < k ==> (#[trigger] lecs[j]).forward_action.port_names() == seq![ports.names()[j]]
            && lecs[j].predicate == t[ports.values()[j] - 1]
}

/// A header is in the union of the first `k` classes exactly when one of
/// them holds it.
proof fn lemma_lecs_union(lecs: Seq<Lec>, k: int, v: Seq<bool>)
    requires
        0 <= k <= lecs.len(),
    ensures
        crate::symbolic::device::lecs_union(lecs, k).contains(v) <==> exists|j: int|
            0 <= j < k && bdd_sat((#[trigger] lecs[j]).predicate).contains(v),
    decreases k,
{
    if k > 0 {
        lemma_lecs_union(lecs, k - 1, v);
        if crate::symbolic::device::lecs_union(lecs, k).contains(v) {
            if bdd_sat(lecs[k - 1].predicate).contains(v) {
            } else {
                let j = choose|j: int|
                    0 <= j < k - 1 && bdd_sat((#[trigger] lecs[j]).predicate).contains(v);
                assert(0 <= j < k && bdd_sat(lecs[j].predicate).contains(v));
            }
        }
        if exists|j: int| 0 <= j < k && bdd_sat((#[trigger] lecs[j]).predicate).contains(v) {
            let j = choose|j: int| 0 <= j < k && bdd_sat((#[trigger] lecs[j]).predicate).contains(v);
            if j < k - 1 {
                assert(crate::symbolic::device::lecs_union(lecs, k - 1).contains(v));
            }
        }
    }
}

/// Compiles the rules of one device. The rules are first put in order,
/// longest prefix first. Then every port that the topology knows at the
/// device gets the union of the hits of the rules that name it. Compiled
/// stepwise, a rule as long as the first rule hits all that it matches.
///
/// Fails when a rule that passes the common-prefix filter cannot be encoded,
/// when the canonical table is full, or when the ports fall into more groups
/// than a device can number.
pub fn compile_device(
    bdd: &mut NPBDD,
    device: &mut Device,
    topo_ports: &Vec<DevicePort>,
    common_prefix: &str,
    all_space_id: u32,
    stepwise: bool,
) -> (r: Result<(), EngineError>)
    requires
        old(bdd).wf(),
        old(device).wf(),
        old(device).width() == old(bdd).width(),
        valid_id(old(bdd).table@, all_space_id),
    ensures
        final(bdd).extends(old(bdd)),
        final(bdd).table@.len() <= old(bdd).table@.len() + device_weight(*old(device)),
        final(device).wf(),
        final(device).width() == old(device).width(),
        final(device).name() == old(device).name(),
        final(device).id() == old(device).id(),
        final(device).id_space() == old(device).id_space(),
        final(device).packet_space() == old(device).packet_space(),
        final(device).subnet() == old(device).subnet(),
        final(device).rules() == lpm_order(old(device).rules()),
        ({
            let inp = lec_input(
                old(bdd).width(),
                old(device).rules(),
                old(device).name(),
                topo_ports@,
                common_prefix@,
                space(old(bdd).table@, all_space_id),
                stepwise,
            );
            match r {
                Ok(_) => rules_encodable(inp) && device_compiled(*final(device), inp) && bdd_sat(
                    final(device).forwardable(),
                ) == bdd_sat(old(device).forwardable()).union(forwardable_space(inp)),
                Err(e) => if e == EngineError::BadPrefix {
                    !rules_encodable(inp)
                } else if e == EngineError::TableFull {
                    final(bdd).table@.len() == u32::MAX
                } else {
                    e == EngineError::SpaceIdsExhausted && overfull(inp)
                },
            }
        }),
{
    let ghost t_start = bdd.table@;
    let ghost inp = lec_input(
        bdd.width(),
        device.rules(),
        device.name(),
        topo_ports@,
        common_prefix@,
        space(bdd.table@, all_space_id),
        stepwise,
    );
    device.order_rules();
    let none_id = match bdd.intern(bdd.make_none_space_bdd()) {
        Ok(id) => id,
        Err(e) => {
            return Err(e);
        },
    };
    assert(bdd.table@[all_space_id - 1] == t_start[all_space_id - 1]);
    let mut used_space_id = none_id;
    let mut ports: NameMap<u32> = NameMap::new();
    let ghost sorted = *device;
    let rules = device.get_rules();
    let device_name = device.get_name();
    let longest = if rules.len() > 0 {
        rules[0].get_prefix_len()
    } else {
        0
    };
    let mut i: usize = 0;
    while i < rules.len()
        invariant
            i <= rules.len(),
            rules.len() > 0 ==> longest == inp.rules[0].len(),
            bdd.table@.len() <= t_start.len() + 1 + rules_weight(inp.rules, i as int),
            *device == sorted,
            sorted.wf(),
            sorted.width() == old(device).width(),
            sorted.name() == old(device).name(),
            sorted.id() == old(device).id(),
            sorted.id_space() == old(device).id_space(),
            sorted.packet_space() == old(device).packet_space(),
            sorted.subnet() == old(device).subnet(),
            sorted.rules() == lpm_order(old(device).rules()),
            inp == lec_input(
                old(bdd).width(),
                old(device).rules(),
                old(device).name(),
                topo_ports@,
                common_prefix@,
                space(old(bdd).table@, all_space_id),
                stepwise,
            ),
            rules@ == inp.rules,
            inp.n == bdd.width(),
            inp.common_prefix == common_prefix@,
            inp.known_ports == known_port_names(topo_ports@, device_name@),
            inp.all_space == space(t_start, all_space_id),
            valid_id(t_start, all_space_id),
            t_start == old(bdd).table@,
            bdd.extends(old(bdd)),
            ports_track(bdd.table@, ports, inp, i as int),
            valid_id(bdd.table@, used_space_id),
            space(bdd.table@, used_space_id) == used_before(inp, i as int),
            valid_id(bdd.table@, none_id),
            space(bdd.table@, none_id) == Set::<Seq<bool>>::empty(),
            forall|j: int| 0 <= j < i && #[trigger] rule_considered(inp, j) ==> rule_encodable(inp, j),
        decreases rules.len() - i,
    {
        let ghost t1 = bdd.table@;
        assert(t1[all_space_id - 1] == t_start[all_space_id - 1]);
        used_space_id = match apply_rule(
            bdd,
            Ghost(inp),
            i,
            &rules[i],
            device_name,
            topo_ports,
            &mut ports,
            used_space_id,
            none_id,
            all_space_id,
            common_prefix,
            stepwise,
            longest,
        ) {
            Ok(id) => id,
            Err(e) => {
                proof {
                    if e == EngineError::BadPrefix {
                        assert(rule_considered(inp, i as int) && !rule_encodable(inp, i as int));
                    }
                    crate::util::rule::lemma_lpm_order(old(device).rules());
                    lemma_rules_weight(inp.rules, i + 1, inp.rules.len() as int);
                }
                return Err(e);
            },
        };
        proof {
            assert(bdd.table@[none_id - 1] == t1[none_id - 1]);
        }
        i += 1;
    }
    let ghost t_end = bdd.table@;
    proof {
        crate::util::rule::lemma_lpm_order(old(device).rules());
    }
    let mut tmp_lecs: Vec<Lec> = Vec::new();
    let mut k: usize = 0;
    while k < ports.len()
        invariant
            k <= ports.names().len(),
            ports.wf(),
            bdd.wf(),
            t_end == bdd.table@,
            inp.n == bdd.width(),
            ports_track(t_end, ports, inp, inp.rules.len() as int),
            lecs_of(t_end, ports, tmp_lecs@, k as int),
        decreases ports.names().len() - k,
    {
        let port = ports.name_at(k).clone();
        let id = ports.value_at(k);
        proof {
            ports.lemma_lookup_at(k as int);
            assert(ports.lookup(ports.names()[k as int]) == Some(id));
            assert(valid_id(t_end, id));
        }
        let predicate = bdd.table.bdd_ref(id).clone();
        let lec_ports: Vec<String> = vec![port];
        assert(texts(lec_ports@) =~= seq![ports.names()[k as int]]);
        let lec = Lec::new(ForwardAction::new(String::from_str("ALL"), lec_ports), predicate);
        let ghost before = tmp_lecs@;
        tmp_lecs.push(lec);
        assert(forall|j: int| 0 <= j < k ==> tmp_lecs@[j] == before[j]);
        k += 1;
    }
    let ghost lecs = tmp_lecs@;
    let ghost len = inp.rules.len() as int;
    proof {
        bdd.table.lemma_table_ok();
        assert forall|j: int| 0 <= j < lecs.len() implies is_space(
            (#[trigger] lecs[j]).predicate,
            device.width(),
        ) by {
            ports.lemma_lookup_at(j);
        }
    }
    device.cal_forwardable_space(&tmp_lecs);
    let ghost device_mid = *device;
    let merged = device.merge_lec_to_space_port(tmp_lecs);
    proof {
        assert forall|j: int| 0 <= j < lecs.len() implies lec_port(#[trigger] lecs[j])
            == ports.names()[j] && lecs[j].forward_action.port_names().len() == 1 by {
            assert(lecs[j].forward_action.port_names() == seq![ports.names()[j]]);
        }
        assert forall|j: int| 0 <= j < lecs.len() implies !(lec_space(inp, #[trigger] ports.names()[j])
            == Set::<Seq<bool>>::empty()) by {
            ports.lemma_lookup_at(j);
        }
    }
    match merged {
        Ok(_) => {
            proof {
                lemma_all_merged(lecs, 0);
                let m = lecs.len() as int;
                assert(device.groups_from(lecs, m));
                assert forall|p: Seq<char>| #[trigger]
                    device.has_space(p) <==> !(lec_space(inp, p) == Set::<Seq<bool>>::empty()) by {
                    if device.has_space(p) {
                        let j = choose|j: int| 0 <= j < m && lec_port(#[trigger] lecs[j]) == p;
                        ports.lemma_lookup_at(j);
                    }
                    if !(lec_space(inp, p) == Set::<Seq<bool>>::empty()) {
                        assert(ports.lookup(p).is_some());
                        let j = ports.names().index_of(p);
                        assert(ports.names()[j] == p);
                        assert(lec_port(lecs[j]) == p);
                    }
                }
                assert forall|p: Seq<char>| device.has_space(p) implies bdd_sat(
                    #[trigger] device.space_of(p),
                ) == lec_space(inp, p) by {
                    let j = choose|j: int| 0 <= j < m && lec_port(#[trigger] lecs[j]) == p;
                    ports.lemma_lookup_at(j);
                    assert(crate::symbolic::device::last_for_port(lecs, m, j)) by {
                        assert forall|j2: int| j < j2 < m implies lec_port(#[trigger] lecs[j2])
                            != lec_port(lecs[j]) by {
                            assert(ports.names()[j2] != ports.names()[j]);
                        }
                    }
                    assert(device.space_of(lec_port(lecs[j])) == lecs[j].predicate);
                }
                assert(crate::symbolic::device::lecs_union(lecs, m) =~= forwardable_space(inp)) by {
                    assert forall|v: Seq<bool>|
                        crate::symbolic::device::lecs_union(lecs, m).contains(v)
                            <==> forwardable_space(inp).contains(v) by {
                        lemma_lecs_union(lecs, m, v);
                        if crate::symbolic::device::lecs_union(lecs, m).contains(v) {
                            let j = choose|j: int|
                                0 <= j < m && bdd_sat((#[trigger] lecs[j]).predicate).contains(v);
                            ports.lemma_lookup_at(j);
                            assert(lec_space(inp, ports.names()[j]).contains(v));
                        }
                        if forwardable_space(inp).contains(v) {
                            let p = choose|p: Seq<char>| (#[trigger] lec_space(inp, p)).contains(v);
                            assert(ports.lookup(p).is_some());
                            let j = ports.names().index_of(p);
                            assert(ports.names()[j] == p);
                            ports.lemma_lookup_at(j);
                            assert(bdd_sat(lecs[j].predicate).contains(v));
                        }
                    }
                }
                assert(rules_encodable(inp));
            }
            Ok(())
        },
        Err(e) => {
            proof {
                let ps = ports.names();
                assert(ps.no_duplicates());
                assert(ps.len() > crate::symbolic::device::MAX_SPACE_PORTS);
            }
            Err(e)
        },
    }
}

/// When every class names a port, a merge takes up all of them.
proof fn lemma_all_merged(lecs: Seq<Lec>, from: int)
    requires
        0 <= from <= lecs.len(),
        forall|j: int| 0 <= j < lecs.len() ==> (#[trigger] lecs[j]).forward_action.port_names().len() == 1,
    ensures
        crate::symbolic::device::merged_count(lecs.subrange(from, lecs.len() as int)) == lecs.len()
            - from,
        from == 0 ==> crate::symbolic::device::merged_count(lecs) == lecs.len(),
    decreases lecs.len() - from,
{
    let s = lecs.subrange(from, lecs.len() as int);
    if from < lecs.len() {
        lemma_all_merged(lecs, from + 1);
        assert(s[0] == lecs[from]);
        assert(s.drop_first() =~= lecs.subrange(from + 1, lecs.len() as int));
    }
    if from == 0 {
        assert(s =~= lecs);
    }
}

/// The union of the first `k` diagrams depends on those diagrams only.
pub proof fn lemma_union_prefix(a: Seq<Bdd>, b: Seq<Bdd>, k: int)
    requires
        0 <= k <= a.len(),
        k <= b.len(),
        forall|j: int| 0 <= j < k ==> a[j] == b[j],
    ensures
        spaces_union(a, k) == spaces_union(b, k),
    decreases k,
{
    if k > 0 {
        lemma_union_prefix(a, b, k - 1);
    }
}

/// The position of the first device with the given name.
pub fn find_device(devices: &Vec<Device>, name: &str) -> (r: Option<usize>)
    ensures
        match r {
            Some(i) => i < devices.len() && devices[i as int].name() == name@ && forall|j: int|
                0 <= j < i ==> (#[trigger] devices[j]).name() != name@,
            None => forall|j: int| 0 <= j < devices.len() ==> (#[trigger] devices[j]).name() != name@,
        },
{
    let mut i: usize = 0;
    while i < devices.len()
        invariant
            i <= devices.len(),
            forall|j: int| 0 <= j < i ==> (#[trigger] devices[j]).name() != name@,
        decreases devices.len() - i,
    {
        if crate::util::text::text_eq(devices[i].get_name().as_str(), name) {
            return Some(i);
        }
        i += 1;
    }
    None
}

/// Whether every device is well formed over `n` variables.
pub open spec fn devices_wf(devices: Seq<Device>, n: nat) -> bool {
    forall|i: int| 0 <= i < devices.len() ==> (#[trigger] devices[i]).wf() && devices[i].width() == n
}

/// Whether the device is compiled in a pass over the devices: the topology
/// knows it and it has rules.
pub open spec fn takes_part(d: Device, network: Network) -> bool {
    network.device_names().contains(d.name()) && d.rules().len() > 0
}

/// What device `d` is compiled against in a pass over the devices.
pub open spec fn pass_input(
    d: Device,
    network: Network,
    n: nat,
    common_prefix: Seq<char>,
    all_space: Set<Seq<bool>>,
    stepwise: bool,
) -> LecInput {
    lec_input(n, d.rules(), d.name(), network.ports_of(d.name()), common_prefix, all_space, stepwise)
}

/// Whether device `i` takes part in the pass and its compiling fails with
/// `e` for the rules' sake.
pub open spec fn fails_at(
    e: EngineError,
    devices: Seq<Device>,
    i: int,
    network: Network,
    n: nat,
    common_prefix: Seq<char>,
    all_space: Set<Seq<bool>>,
    stepwise: bool,
) -> bool {
    let inp = pass_input(devices[i], network, n, common_prefix, all_space, stepwise);
    0 <= i < devices.len() && takes_part(devices[i], network) && if e == EngineError::BadPrefix {
        !rules_encodable(inp)
    } else {
        e == EngineError::SpaceIdsExhausted && overfull(inp)
    }
}

/// What a failure of a pass over the devices says: there is no space of
/// all subnets, the canonical table is full, or one of the devices has a
/// rule that cannot be encoded or too many ports with a header set.
pub open spec fn pass_failure(
    e: EngineError,
    devices: Seq<Device>,
    network: Network,
    n: nat,
    common_prefix: Seq<char>,
    all_space: Option<Bdd>,
    stepwise: bool,
    table_len: nat,
) -> bool {
    if all_space.is_none() {
        e == EngineError::NoPacketSpace
    } else if e == EngineError::TableFull {
        table_len == u32::MAX
    } else {
        exists|i: int|
            #[trigger] fails_at(
                e,
                devices,
                i,
                network,
                n,
                common_prefix,
                bdd_sat(all_space.unwrap()),
                stepwise,
            )
    }
}

/// What compiling leaves at device `after`, which was `before`: a device
/// that the topology knows and that has rules is compiled against them; any
/// other device is as it was.
pub open spec fn device_encoded(
    before: Device,
    after: Device,
    network: Network,
    n: nat,
    common_prefix: Seq<char>,
    all_space: Set<Seq<bool>>,
    stepwise: bool,
) -> bool {
    if takes_part(before, network) {
        let inp = pass_input(before, network, n, common_prefix, all_space, stepwise);
        &&& after.name() == before.name()
        &&& after.id() == before.id()
        &&& after.id_space() == before.id_space()
        &&& after.packet_space() == before.packet_space()
        &&& after.subnet() == before.subnet()
        &&& after.rules() == lpm_order(before.rules())
        &&& rules_encodable(inp)
        &&& device_compiled(after, inp)
        &&& bdd_sat(after.forwardable()) == bdd_sat(before.forwardable()).union(
            forwardable_space(inp),
        )
    } else {
        after == before
    }
}

/// Whether no two devices have the same name.
pub open spec fn names_distinct(devices: Seq<Device>) -> bool {
    forall|i: int, j: int|
        0 <= i < j < devices.len() ==> (#[trigger] devices[i]).name() != (#[trigger] devices[j]).name()
}

/// Whether the declared subnets are in order: one header set of width `n`
/// for each name, at the position that the name maps to.
pub open spec fn packet_spaces_wf(names: NameMap<usize>, bdds: Seq<Bdd>, n: nat) -> bool {
    &&& names.wf()
    &&& names.names().len() == bdds.len()
    &&& forall|i: int| 0 <= i < bdds.len() ==> #[trigger] names.values()[i] == i
    &&& forall|i: int| 0 <= i < bdds.len() ==> is_space(#[trigger] bdds[i], n)
}

/// Whether no two of the devices have the same name.
pub fn has_distinct_names(devices: &Vec<Device>) -> (r: bool)
    ensures
        r == names_distinct(devices@),
{
    let mut j: usize = 0;
    while j < devices.len()
        invariant
            j <= devices.len(),
            names_distinct(devices@.take(j as int)),
        decreases devices.len() - j,
    {
        let name = devices[j].get_name();
        let mut i: usize = 0;
        while i < j
            invariant
                i <= j < devices.len(),
                name@ == devices[j as int].name(),
                forall|k: int| 0 <= k < i ==> (#[trigger] devices[k]).name() != name@,
            decreases j - i,
        {
            if crate::util::text::text_eq(devices[i].get_name().as_str(), name.as_str()) {
                return false;
            }
            i += 1;
        }
        proof {
            let a = devices@.take(j as int);
            let b = devices@.take(j as int + 1);
            assert forall|x: int, y: int| 0 <= x < y < b.len() implies (#[trigger] b[x]).name() != (
            #[trigger] b[y]).name() by {
                if y < j {
                    assert(a[x] == b[x] && a[y] == b[y]);
                }
            }
        }
        j += 1;
    }
    assert(devices@.take(devices.len() as int) =~= devices@);
    true
}

/// Whether none of the devices has the given name.
pub open spec fn no_device_named(devices: Seq<Device>, name: Seq<char>) -> bool {
    forall|i: int| 0 <= i < devices.len() ==> (#[trigger] devices[i]).name() != name
}

/// Whether `i` is the position of the first device of the given name.
pub open spec fn is_first_named(devices: Seq<Device>, name: Seq<char>, i: int) -> bool {
    &&& 0 <= i < devices.len()
    &&& devices[i].name() == name
    &&& forall|j: int| 0 <= j < i ==> (#[trigger] devices[j]).name() != name
}

/// Whether the subnet declared at the device, if any, can be encoded.
pub open spec fn subnet_ok(d: Device, n: nat) -> bool {
    d.packet_space() matches Some(r) ==> prefix_ok(n, r.ip_text(), r.len())
}

/// Whether the subnet declared at any of the devices can be encoded.
pub open spec fn subnets_ok(devices: Seq<Device>, n: nat) -> bool {
    forall|i: int| 0 <= i < devices.len() ==> subnet_ok(#[trigger] devices[i], n)
}

/// Whether each of the names is that of a device.
pub open spec fn devices_known(devices: Seq<Device>, names: Seq<Seq<char>>) -> bool {
    forall|k: int| 0 <= k < names.len() ==> !no_device_named(devices, #[trigger] names[k])
}

/// The headers of the subnet declared at the device.
pub open spec fn declared_space(d: Device, n: nat) -> Set<Seq<bool>> {
    prefix_text_space(n, d.packet_space().unwrap().ip_text(), d.packet_space().unwrap().len())
}

/// What encoding the subnets leaves at device `after`, which was `before`:
/// a device with a declared subnet has it as its subnet space.
pub open spec fn subnet_encoded(before: Device, after: Device, n: nat) -> bool {
    if before.packet_space().is_some() {
        &&& after.name() == before.name()
        &&& after.id() == before.id()
        &&& after.id_space() == before.id_space()
        &&& after.rules() == before.rules()
        &&& after.packet_space() == before.packet_space()
        &&& after.forwardable() == before.forwardable()
        &&& after.lec_ports() == before.lec_ports()
        &&& after.groups() == before.groups()
        &&& (forall|p: Seq<char>| after.space_id_of(p) == before.space_id_of(p))
        &&& bdd_sat(after.subnet()) == declared_space(before, n)
    } else {
        after == before
    }
}

/// The devices, the topology, and the declared subnets as header sets.
pub struct Toponet {
    ip_bits_len: usize,
    devices: Vec<Device>,
    network: Network,
    packet_space_names: NameMap<usize>,
    packet_space_bdds: Vec<Bdd>,
    all_space: Option<Bdd>,
}

impl Toponet {
    /// The number of header variables.
    pub closed spec fn width(&self) -> nat {
        self.ip_bits_len as nat
    }

    /// The devices.
    pub closed spec fn devices(&self) -> Seq<Device> {
        self.devices@
    }

    /// The topology.
    pub closed spec fn network(&self) -> Network {
        self.network
    }

    /// The union of all declared subnets, once there is one.
    pub closed spec fn all_space(&self) -> Option<Bdd> {
        self.all_space
    }

    /// The names of the devices with a declared subnet, in the order in
    /// which the subnets were encoded.
    pub closed spec fn packet_space_names(&self) -> Seq<Seq<char>> {
        self.packet_space_names.names()
    }

    /// The header sets of the declared subnets, each at the position of its
    /// device's name.
    pub closed spec fn packet_space_bdds(&self) -> Seq<Bdd> {
        self.packet_space_bdds@
    }

    /// The devices, the topology and the subnets are well formed and all over
    /// the same variables, and no two devices have the same name.
    pub closed spec fn wf(&self) -> bool {
        &&& devices_wf(self.devices@, self.ip_bits_len as nat)
        &&& names_distinct(self.devices@)
        &&& self.network.wf()
        &&& packet_spaces_wf(
            self.packet_space_names,
            self.packet_space_bdds@,
            self.ip_bits_len as nat,
        )
        &&& (self.all_space matches Some(b) ==> is_space(b, self.ip_bits_len as nat)
            && bdd_reduced(b))
    }

    /// What well-formedness says.
    pub proof fn lemma_wf(&self)
        requires
            self.wf(),
        ensures
            devices_wf(self.devices(), self.width()),
            names_distinct(self.devices()),
            self.network().wf(),
            self.packet_space_names().no_duplicates(),
            self.packet_space_names().len() == self.packet_space_bdds().len(),
            forall|i: int|
                0 <= i < self.packet_space_bdds().len() ==> is_space(
                    #[trigger] self.packet_space_bdds()[i],
                    self.width(),
                ),
            self.all_space() matches Some(b) ==> is_space(b, self.width()),
    {
    }

    /// A network model without devices, links or subnets.
    pub fn new(ip_bits: usize) -> (r: Self)
        ensures
            r.wf(),
            r.width() == ip_bits,
            r.devices() == Seq::<Device>::empty(),
            r.all_space().is_none(),
            r.packet_space_names() == Seq::<Seq<char>>::empty(),
            r.network().device_names() == Seq::<Seq<char>>::empty(),
    {
        Toponet {
            ip_bits_len: ip_bits,
            devices: Vec::new(),
            network: Network::new(),
            packet_space_names: NameMap::new(),
            packet_space_bdds: Vec::new(),
            all_space: None,
        }
    }

    pub fn get_ip_bits_len(&self) -> (r: usize)
        ensures
            r == self.width(),
    {
        self.ip_bits_len
    }

    pub fn get_devices(&self) -> (r: &Vec<Device>)
        ensures
            r@ == self.devices(),
    {
        &self.devices
    }

    pub fn get_network(&self) -> (r: &Network)
        ensures
            *r == self.network(),
    {
        &self.network
    }

    pub fn get_all_space(&self) -> (r: &Option<Bdd>)
        ensures
            *r == self.all_space(),
    {
        &self.all_space
    }

    /// The number of devices with a declared subnet.
    pub fn packet_space_count(&self) -> (r: usize)
        requires
            self.wf(),
        ensures
            r == self.packet_space_names().len(),
    {
        self.packet_space_bdds.len()
    }

    /// The name of the `i`-th device with a declared subnet.
    pub fn packet_space_name_at(&self, i: usize) -> (r: &String)
        requires
            self.wf(),
            i < self.packet_space_names().len(),
        ensures
            r@ == self.packet_space_names()[i as int],
    {
        self.packet_space_names.name_at(i)
    }

    /// The header set of the `i`-th declared subnet.
    pub fn packet_space_at(&self, i: usize) -> (r: &Bdd)
        requires
            self.wf(),
            i < self.packet_space_names().len(),
        ensures
            *r == self.packet_space_bdds()[i as int],
            is_space(*r, self.width()),
    {
        &self.packet_space_bdds[i]
    }

    /// The header set of the subnet declared at the named device, if any.
    pub fn get_packet_space_bdd(&self, device_name: &str) -> (r: Option<&Bdd>)
        requires
            self.wf(),
        ensures
            match r {
                Some(b) => self.packet_space_names().contains(device_name@) && *b
                    == self.packet_space_bdds()[self.packet_space_names().index_of(device_name@)]
                    && is_space(*b, self.width()),
                None => !self.packet_space_names().contains(device_name@),
            },
    {
        match self.packet_space_names.find(device_name) {
            Some(i) => Some(&self.packet_space_bdds[i]),
            None => None,
        }
    }

    /// The position of the named device.
    pub fn device_index(&self, device_name: &str) -> (r: Option<usize>)
        ensures
            match r {
                Some(i) => i < self.devices().len() && self.devices()[i as int].name() == device_name@,
                None => forall|j: int|
                    0 <= j < self.devices().len() ==> (#[trigger] self.devices()[j]).name()
                        != device_name@,
            },
    {
        find_device(&self.devices, device_name)
    }

    /// Takes up the devices, provided that no two of them have the same
    /// name; otherwise nothing changes and the answer is `false`.
    pub fn set_arc_devices(&mut self, arc_devices: Vec<Device>) -> (r: bool)
        requires
            old(self).wf(),
            devices_wf(arc_devices@, old(self).width()),
        ensures
            final(self).wf(),
            final(self).width() == old(self).width(),
            final(self).network() == old(self).network(),
            final(self).all_space() == old(self).all_space(),
            final(self).packet_space_names() == old(self).packet_space_names(),
            final(self).packet_space_bdds() == old(self).packet_space_bdds(),
            r == names_distinct(arc_devices@),
            final(self).devices() == if r {
                arc_devices@
            } else {
                old(self).devices()
            },
    {
        if !has_distinct_names(&arc_devices) {
            return false;
        }
        self.devices = arc_devices;
        true
    }

    /// Takes up the topology.
    pub fn set_arc_network(&mut self, arc_network: Network)
        requires
            old(self).wf(),
            arc_network.wf(),
        ensures
            final(self).wf(),
            final(self).width() == old(self).width(),
            final(self).network() == arc_network,
            final(self).devices() == old(self).devices(),
            final(self).all_space() == old(self).all_space(),
            final(self).packet_space_names() == old(self).packet_space_names(),
            final(self).packet_space_bdds() == old(self).packet_space_bdds(),
    {
        self.network = arc_network;
    }

    /// Encodes the declared subnets. Every device with a declared subnet gets
    /// its header set as its subnet space; the destination devices that
    /// declare one are listed with their header sets, and the union of those
    /// becomes the space of all subnets. If no destination declares a
    /// subnet, the space of all subnets stays as it was.
    ///
    /// Fails, changing nothing, when a declared subnet cannot be encoded or
    /// a destination is not among the devices.
    #[verifier::loop_isolation(false)]
    pub fn encode_packet_space_group(
        &mut self,
        engine: &Engine,
        tmp_devices: &mut Vec<Device>,
        dst_devices: &Vec<String>,
    ) -> (r: Result<(), EngineError>)
        requires
            old(self).wf(),
            engine.wf(),
            engine.width() == old(self).width(),
            devices_wf(old(tmp_devices)@, old(self).width()),
        ensures
            final(self).wf(),
            final(self).width() == old(self).width(),
            final(self).devices() == old(self).devices(),
            final(self).network() == old(self).network(),
            final(tmp_devices).len() == old(tmp_devices).len(),
            devices_wf(final(tmp_devices)@, old(self).width()),
            r.is_ok() <==> subnets_ok(old(tmp_devices)@, old(self).width()) && devices_known(
                old(tmp_devices)@,
                texts(dst_devices@),
            ),
            match r {
                Ok(_) => {
                    &&& forall|i: int|
                        0 <= i < final(tmp_devices).len() ==> subnet_encoded(
                            old(tmp_devices)[i],
                            #[trigger] final(tmp_devices)[i],
                            old(self).width(),
                        )
                    &&& forall|name: Seq<char>| #[trigger]
                        final(self).packet_space_names().contains(name) <==> texts(
                            dst_devices@,
                        ).contains(name) && exists|i: int|
                            is_first_named(old(tmp_devices)@, name, i) && (#[trigger] old(
                                tmp_devices,
                            )[i]).packet_space().is_some()
                    &&& forall|k: int|
                        0 <= k < final(self).packet_space_names().len() ==> exists|i: int|
                            is_first_named(
                                old(tmp_devices)@,
                                #[trigger] final(self).packet_space_names()[k],
                                i,
                            ) && bdd_sat(final(self).packet_space_bdds()[k]) == declared_space(
                                #[trigger] old(tmp_devices)[i],
                                old(self).width(),
                            )
                    &&& if final(self).packet_space_names().len() > 0 {
                        final(self).all_space().is_some() && bdd_sat(
                            final(self).all_space().unwrap(),
                        ) == spaces_union(
                            final(self).packet_space_bdds(),
                            final(self).packet_space_bdds().len() as int,
                        )
                    } else {
                        final(self).all_space() == old(self).all_space()
                    }
                },
                Err(e) => {
                    &&& final(tmp_devices)@ == old(tmp_devices)@
                    &&& final(self).all_space() == old(self).all_space()
                    &&& final(self).packet_space_names() == old(self).packet_space_names()
                    &&& final(self).packet_space_bdds() == old(self).packet_space_bdds()
                    &&& if subnets_ok(old(tmp_devices)@, old(self).width()) {
                        e == EngineError::UnknownDevice
                    } else {
                        e == EngineError::BadPrefix
                    }
                },
            },
    {
        let ghost n = self.ip_bits_len as nat;
        let ghost devs = tmp_devices@;
        let mut subnets: Vec<Option<Bdd>> = Vec::new();
        let mut i: usize = 0;
        while i < tmp_devices.len()
            invariant
                i <= tmp_devices.len(),
                tmp_devices@ == devs,
                engine.wf(),
                engine.width() == n,
                subnets.len() == i,
                forall|j: int| 0 <= j < i ==> subnet_ok(#[trigger] devs[j], n),
                forall|j: int|
                    0 <= j < i ==> match #[trigger] subnets[j] {
                        Some(b) => devs[j].packet_space().is_some() && is_space(b, n) && bdd_sat(b)
                            == declared_space(devs[j], n),
                        None => devs[j].packet_space().is_none(),
                    },
            decreases tmp_devices.len() - i,
        {
            let subnet = match tmp_devices[i].get_packet_space() {
                Some(packet_space) => {
                    match engine.encode_dst_ip_prefix_clause(
                        packet_space.get_ip(),
                        packet_space.get_prefix_len(),
                    ) {
                        Ok(b) => Some(b),
                        Err(e) => {
                            assert(!subnet_ok(devs[i as int], n));
                            return Err(e);
                        },
                    }
                },
                None => None,
            };
            subnets.push(subnet);
            i += 1;
        }
        let mut names: NameMap<usize> = NameMap::new();
        let mut bdds: Vec<Bdd> = Vec::new();
        let mut all = engine.make_none_space_bdd();
        let mut k: usize = 0;
        assert(texts(dst_devices@.take(0)) =~= Seq::<Seq<char>>::empty());
        while k < dst_devices.len()
            invariant
                k <= dst_devices.len(),
                tmp_devices@ == devs,
                subnets.len() == devs.len(),
                forall|j: int| 0 <= j < devs.len() ==> subnet_ok(#[trigger] devs[j], n),
                forall|j: int|
                    0 <= j < devs.len() ==> match #[trigger] subnets[j] {
                        Some(b) => devs[j].packet_space().is_some() && is_space(b, n) && bdd_sat(b)
                            == declared_space(devs[j], n),
                        None => devs[j].packet_space().is_none(),
                    },
                packet_spaces_wf(names, bdds@, n),
                is_space(all, n),
                bdd_reduced(all),
                bdd_sat(all) == spaces_union(bdds@, bdds.len() as int),
                forall|x: int|
                    0 <= x < k ==> !no_device_named(devs, #[trigger] texts(dst_devices@)[x]),
                forall|name: Seq<char>| #[trigger]
                    names.names().contains(name) <==> texts(dst_devices@.take(k as int)).contains(
                        name,
                    ) && exists|i: int|
                        is_first_named(devs, name, i) && (#[trigger] devs[i]).packet_space().is_some(),
                forall|x: int|
                    0 <= x < names.names().len() ==> exists|i: int|
                        is_first_named(devs, #[trigger] names.names()[x], i) && bdd_sat(bdds[x])
                            == declared_space(#[trigger] devs[i], n),
            decreases dst_devices.len() - k,
        {
            let name = &dst_devices[k];
            let ghost seen = texts(dst_devices@.take(k as int));
            let ghost seen1 = texts(dst_devices@.take(k as int + 1));
            proof {
                assert(seen1 =~= seen.push(name@));
                assert(seen1[k as int] == name@);
            }
            let idx = match find_device(tmp_devices, name.as_str()) {
                Some(idx) => idx,
                None => {
                    assert(no_device_named(devs, texts(dst_devices@)[k as int]));
                    return Err(EngineError::UnknownDevice);
                },
            };
            assert(is_first_named(devs, name@, idx as int));
            assert(texts(dst_devices@)[k as int] == name@);
            let ghost names0 = names;
            let ghost bdds0 = bdds@;
            let fresh = !names.contains_key(name.as_str());
            if fresh {
                match &subnets[idx] {
                    Some(b) => {
                        let pos = bdds.len();
                        names.set(name.clone(), pos);
                        bdds.push(b.clone());
                        all = all.or(b);
                        proof {
                            assert(spaces_union(bdds@, pos as int) == spaces_union(bdds0, pos as int))
                                by {
                                lemma_union_prefix(bdds0, bdds@, pos as int);
                            }
                            assert(names.names()[pos as int] == name@);
                            assert forall|x: int| 0 <= x < names.names().len() implies exists|i: int|
                                is_first_named(devs, #[trigger] names.names()[x], i) && bdd_sat(
                                    bdds[x],
                                ) == declared_space(#[trigger] devs[i], n) by {
                                if x < pos {
                                    let i = choose|i: int|
                                        is_first_named(devs, #[trigger] names0.names()[x], i)
                                            && bdd_sat(bdds0[x]) == declared_space(
                                            #[trigger] devs[i],
                                            n,
                                        );
                                    assert(is_first_named(devs, names.names()[x], i) && bdd_sat(
                                        bdds[x],
                                    ) == declared_space(devs[i], n));
                                } else {
                                    assert(is_first_named(devs, names.names()[x], idx as int)
                                        && bdd_sat(bdds[x]) == declared_space(devs[idx as int], n));
                                }
                            }
                        }
                    },
                    None => {},
                }
            }
            proof {
                assert forall|q: Seq<char>| #[trigger] names.names().contains(q) <==> seen1.contains(
                    q,
                ) && exists|i: int|
                    is_first_named(devs, q, i) && (#[trigger] devs[i]).packet_space().is_some() by {
                    let declared = exists|i: int|
                        is_first_named(devs, q, i) && (#[trigger] devs[i]).packet_space().is_some();
                    if q == name@ {
                        if declared {
                            let i = choose|i: int|
                                is_first_named(devs, q, i) && (#[trigger] devs[i]).packet_space().is_some();
                            assert(i == idx);
                        }
                        if subnets[idx as int].is_some() {
                            assert(devs[idx as int].packet_space().is_some());
                            assert(names.lookup(name@).is_some() || names0.names().contains(name@));
                        }
                    } else {
                        assert(names.lookup(q) == names0.lookup(q));
                        if seen1.contains(q) {
                            let x = seen1.index_of(q);
                            assert(seen1[x] == q);
                            assert(seen[x] == q);
                        }
                        if seen.contains(q) {
                            let x = seen.index_of(q);
                            assert(seen[x] == q);
                            assert(seen1[x] == q);
                        }
                    }
                }
            }
            k += 1;
        }
        assert(dst_devices@.take(dst_devices.len() as int) =~= dst_devices@);
        let mut c: usize = 0;
        while c < tmp_devices.len()
            invariant
                c <= tmp_devices.len(),
                tmp_devices.len() == devs.len(),
                subnets.len() == devs.len(),
                devices_wf(devs, n),
                devices_wf(tmp_devices@, n),
                forall|j: int|
                    0 <= j < devs.len() ==> match #[trigger] subnets[j] {
                        Some(b) => devs[j].packet_space().is_some() && is_space(b, n) && bdd_sat(b)
                            == declared_space(devs[j], n),
                        None => devs[j].packet_space().is_none(),
                    },
                forall|j: int| c <= j < devs.len() ==> #[trigger] tmp_devices[j] == devs[j],
                forall|j: int| 0 <= j < c ==> subnet_encoded(devs[j], #[trigger] tmp_devices[j], n),
            decreases tmp_devices.len() - c,
        {
            let ghost before = tmp_devices@;
            match &subnets[c] {
                Some(b) => {
                    tmp_devices[c].set_subnet_space(b.clone());
                    proof {
                        assert(forall|j: int|
                            0 <= j < tmp_devices.len() && j != c ==> tmp_devices[j] == before[j]);
                    }
                },
                None => {},
            }
            c += 1;
        }
        let declared = bdds.len() > 0;
        self.packet_space_names = names;
        self.packet_space_bdds = bdds;
        if declared {
            self.all_space = Some(all);
        }
        Ok(())
    }

    /// Compiles the rules of every device that the topology knows and that
    /// has rules, one device after the other. The first failure ends the
    /// pass; the devices after the failing one are then as they were.
    pub fn encode_rule_npbdd(
        &self,
        bdd: &mut NPBDD,
        tmp_devices: &mut Vec<Device>,
        common_prefix: &str,
        network: &Network,
    ) -> (r: Result<(), EngineError>)
        requires
            self.wf(),
            old(bdd).wf(),
            old(bdd).width() == self.width(),
            network.wf(),
            devices_wf(old(tmp_devices)@, self.width()),
        ensures
            final(bdd).extends(old(bdd)),
            final(bdd).table@.len() <= old(bdd).table@.len() + 1 + pass_weight(
                old(tmp_devices)@,
                old(tmp_devices).len() as int,
            ),
            final(tmp_devices).len() == old(tmp_devices).len(),
            devices_wf(final(tmp_devices)@, self.width()),
            forall|i: int|
                0 <= i < final(tmp_devices).len() ==> (#[trigger] final(tmp_devices)[i]).name()
                    == old(tmp_devices)[i].name(),
            match r {
                Ok(_) => self.all_space().is_some() && forall|i: int|
                    0 <= i < final(tmp_devices).len() ==> device_encoded(
                        old(tmp_devices)[i],
                        #[trigger] final(tmp_devices)[i],
                        *network,
                        self.width(),
                        common_prefix@,
                        bdd_sat(self.all_space().unwrap()),
                        false,
                    ),
                Err(e) => pass_failure(
                    e,
                    old(tmp_devices)@,
                    *network,
                    self.width(),
                    common_prefix@,
                    self.all_space(),
                    false,
                    final(bdd).table@.len() as nat,
                ) && (self.all_space().is_none() ==> final(tmp_devices)@ == old(tmp_devices)@),
            },
    {
        self.encode_rules(bdd, tmp_devices, common_prefix, network, false)
    }

    /// Compiles the rules of every device as `encode_rule_npbdd` does, but
    /// stepwise: the rules of the greatest length of a device are not held
    /// against one another, so that each of them hits all that it matches.
    pub fn encode_rule_stepwise(
        &self,
        bdd: &mut NPBDD,
        tmp_devices: &mut Vec<Device>,
        common_prefix: &str,
        network: &Network,
    ) -> (r: Result<(), EngineError>)
        requires
            self.wf(),
            old(bdd).wf(),
            old(bdd).width() == self.width(),
            network.wf(),
            devices_wf(old(tmp_devices)@, self.width()),
        ensures
            final(bdd).extends(old(bdd)),
            final(bdd).table@.len() <= old(bdd).table@.len() + 1 + pass_weight(
                old(tmp_devices)@,
                old(tmp_devices).len() as int,
            ),
            final(tmp_devices).len() == old(tmp_devices).len(),
            devices_wf(final(tmp_devices)@, self.width()),
            forall|i: int|
                0 <= i < final(tmp_devices).len() ==> (#[trigger] final(tmp_devices)[i]).name()
                    == old(tmp_devices)[i].name(),
            match r {
                Ok(_) => self.all_space().is_some() && forall|i: int|
                    0 <= i < final(tmp_devices).len() ==> device_encoded(
                        old(tmp_devices)[i],
                        #[trigger] final(tmp_devices)[i],
                        *network,
                        self.width(),
                        common_prefix@,
                        bdd_sat(self.all_space().unwrap()),
                        true,
                    ),
                Err(e) => pass_failure(
                    e,
                    old(tmp_devices)@,
                    *network,
                    self.width(),
                    common_prefix@,
                    self.all_space(),
                    true,
                    final(bdd).table@.len() as nat,
                ) && (self.all_space().is_none() ==> final(tmp_devices)@ == old(tmp_devices)@),
            },
    {
        self.encode_rules(bdd, tmp_devices, common_prefix, network, true)
    }

    /// Compiles the rules of every device that the topology knows and that
    /// has rules, one device after the other, stepwise or not. The first
    /// failure ends the pass; the devices after the failing one are then
    /// as they were.
    fn encode_rules(
        &self,
        bdd: &mut NPBDD,
        tmp_devices: &mut Vec<Device>,
        common_prefix: &str,
        network: &Network,
        stepwise: bool,
    ) -> (r: Result<(), EngineError>)
        requires
            self.wf(),
            old(bdd).wf(),
            old(bdd).width() == self.width(),
            network.wf(),
            devices_wf(old(tmp_devices)@, self.width()),
        ensures
            final(bdd).extends(old(bdd)),
            final(bdd).table@.len() <= old(bdd).table@.len() + 1 + pass_weight(
                old(tmp_devices)@,
                old(tmp_devices).len() as int,
            ),
            final(tmp_devices).len() == old(tmp_devices).len(),
            devices_wf(final(tmp_devices)@, self.width()),
            forall|i: int|
                0 <= i < final(tmp_devices).len() ==> (#[trigger] final(tmp_devices)[i]).name()
                    == old(tmp_devices)[i].name(),
            match r {
                Ok(_) => self.all_space().is_some() && forall|i: int|
                    0 <= i < final(tmp_devices).len() ==> device_encoded(
                        old(tmp_devices)[i],
                        #[trigger] final(tmp_devices)[i],
                        *network,
                        self.width(),
                        common_prefix@,
                        bdd_sat(self.all_space().unwrap()),
                        stepwise,
                    ),
                Err(e) => pass_failure(
                    e,
                    old(tmp_devices)@,
                    *network,
                    self.width(),
                    common_prefix@,
                    self.all_space(),
                    stepwise,
                    final(bdd).table@.len() as nat,
                ) && (self.all_space().is_none() ==> final(tmp_devices)@ == old(tmp_devices)@),
            },
    {
        let all_space = match &self.all_space {
            Some(b) => b,
            None => {
                return Err(EngineError::NoPacketSpace);
            },
        };
        let all_space_id = match bdd.intern(all_space.clone()) {
            Ok(id) => id,
            Err(e) => {
                return Err(e);
            },
        };
        let ghost t_start = bdd.table@;
        let ghost all = bdd_sat(*all_space);
        let ghost n = self.ip_bits_len as nat;
        let mut i: usize = 0;
        while i < tmp_devices.len()
            invariant
                i <= tmp_devices.len(),
                tmp_devices.len() == old(tmp_devices).len(),
                n == self.width(),
                old(bdd).width() == self.width(),
                network.wf(),
                bdd.extends(old(bdd)),
                t_start.is_prefix_of(bdd.table@),
                bdd.table@.len() <= old(bdd).table@.len() + 1 + pass_weight(old(tmp_devices)@, i as int),
                valid_id(t_start, all_space_id),
                space(t_start, all_space_id) == all,
                self.all_space() == Some(*all_space),
                all == bdd_sat(*all_space),
                devices_wf(tmp_devices@, n),
                forall|j: int|
                    0 <= j < tmp_devices.len() ==> (#[trigger] tmp_devices[j]).name() == old(
                        tmp_devices,
                    )[j].name(),
                forall|j: int| i <= j < tmp_devices.len() ==> #[trigger] tmp_devices[j] == old(tmp_devices)[j],
                forall|j: int|
                    0 <= j < i ==> device_encoded(
                        old(tmp_devices)[j],
                        #[trigger] tmp_devices[j],
                        *network,
                        n,
                        common_prefix@,
                        all,
                        stepwise,
                    ),
            decreases tmp_devices.len() - i,
        {
            let ghost before = tmp_devices@;
            let ghost t1 = bdd.table@;
            assert(t1[all_space_id - 1] == t_start[all_space_id - 1]);
            let has_rules = tmp_devices[i].get_rules().len() > 0;
            let topo_ports = network.get_device_ports(tmp_devices[i].get_name().as_str());
            match topo_ports {
                Some(ports) => {
                    if has_rules {
                        let ghost inp = lec_input(
                            n,
                            before[i as int].rules(),
                            before[i as int].name(),
                            ports@,
                            common_prefix@,
                            all,
                            stepwise,
                        );
                        match compile_device(
                            bdd,
                            &mut tmp_devices[i],
                            ports,
                            common_prefix,
                            all_space_id,
                            stepwise,
                        ) {
                            Ok(_) => {},
                            Err(e) => {
                                proof {
                                    lemma_pass_weight(
                                        old(tmp_devices)@,
                                        i + 1,
                                        old(tmp_devices).len() as int,
                                    );
                                    assert(forall|j: int|
                                        0 <= j < tmp_devices.len() && j != i ==> tmp_devices[j]
                                            == before[j]);
                                    assert(before[i as int] == old(tmp_devices)[i as int]);
                                    assert(inp == pass_input(
                                        old(tmp_devices)[i as int],
                                        *network,
                                        n,
                                        common_prefix@,
                                        all,
                                        stepwise,
                                    ));
                                    assert(self.all_space().unwrap() == *all_space);
                                    if e != EngineError::TableFull {
                                        assert(fails_at(
                                            e,
                                            old(tmp_devices)@,
                                            i as int,
                                            *network,
                                            self.width(),
                                            common_prefix@,
                                            bdd_sat(self.all_space().unwrap()),
                                            stepwise,
                                        ));
                                    }
                                }
                                return Err(e);
                            },
                        }
                        proof {
                            assert(forall|j: int|
                                0 <= j < tmp_devices.len() && j != i ==> tmp_devices[j] == before[j]);
                        }
                    }
                },
                None => {},
            }
            i += 1;
        }
        Ok(())
    }
}

} // verus!
