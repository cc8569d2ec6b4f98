//! A device: its rules, the subnet declared at it, and, once compiled, the
//! header set that each of its ports forwards.
use crate::kernel::{bdd_sat, is_space, same_bdd};
use crate::symbolic::lec::Lec;
use crate::util::name_map::NameMap;
use crate::util::npbdd::{Engine, EngineError};
use crate::util::ip_text::{addr_bit, address_bit, ip_octets, parse_ip};
use crate::util::rule::{lpm_order, sort_rules, Rule};
use crate::util::space_port::SpacePort;
use biodivine_lib_bdd::Bdd;
use vstd::prelude::*;

verus! {

/// The most port groups a device can have: group numbers are `i8`.
pub const MAX_SPACE_PORTS: usize = 128;

/// The port that a class forwards to: the first port of its action.
pub open spec fn lec_port(l: Lec) -> Seq<char> {
    l.forward_action.port_names()[0]
}

/// How many classes a merge takes up: all of them, or those before the
/// first class that names no port.
pub open spec fn merged_count(lecs: Seq<Lec>) -> nat
    decreases lecs.len(),
{
    if lecs.len() == 0 {
        0
    } else if lecs[0].forward_action.port_names().len() == 0 {
        0
    } else {
        1 + merged_count(lecs.drop_first())
    }
}

/// The count is at most the number of classes; every class before it names a
/// port, and the class at it, if there is one, names none.
pub proof fn lemma_merged_count(lecs: Seq<Lec>, k: int)
    requires
        0 <= k <= merged_count(lecs),
    ensures
        merged_count(lecs) <= lecs.len(),
        k < lecs.len() && lecs[k].forward_action.port_names().len() == 0 ==> merged_count(lecs) == k,
        k < lecs.len() && lecs[k].forward_action.port_names().len() > 0 ==> merged_count(lecs) > k,
        k == lecs.len() ==> merged_count(lecs) == k,
    decreases lecs.len(),
{
    if lecs.len() == 0 {
    } else if lecs[0].forward_action.port_names().len() == 0 {
    } else {
        if k == 0 {
            lemma_merged_count(lecs.drop_first(), 0);
        } else {
            lemma_merged_count(lecs.drop_first(), k - 1);
            if k < lecs.len() {
                assert(lecs.drop_first()[k - 1] == lecs[k]);
            }
        }
    }
}

/// The union of the headers of the first `k` classes.
pub open spec fn lecs_union(lecs: Seq<Lec>, k: int) -> Set<Seq<bool>>
    decreases k,
{
    if k <= 0 {
        Set::<Seq<bool>>::empty()
    } else {
        lecs_union(lecs, k - 1).union(bdd_sat(lecs[k - 1].predicate))
    }
}

/// The header sets of the first `m` classes, each once, in the order in
/// which they first appear.
pub open spec fn distinct_spaces(lecs: Seq<Lec>, m: int) -> Seq<Bdd>
    decreases m,
{
    if m <= 0 {
        Seq::empty()
    } else if distinct_spaces(lecs, m - 1).contains(lecs[m - 1].predicate) {
        distinct_spaces(lecs, m - 1)
    } else {
        distinct_spaces(lecs, m - 1).push(lecs[m - 1].predicate)
    }
}

/// The header sets of a list of port groups.
pub open spec fn group_spaces(groups: Seq<SpacePort>) -> Seq<Bdd> {
    groups.map_values(|g: SpacePort| g.predicate())
}

/// More classes never have fewer different header sets.
pub proof fn lemma_distinct_spaces(lecs: Seq<Lec>, k: int, m: int)
    requires
        k <= m,
    ensures
        distinct_spaces(lecs, k).len() <= distinct_spaces(lecs, m).len(),
    decreases m - k,
{
    if k < m {
        lemma_distinct_spaces(lecs, k, m - 1);
    }
}

/// Whether the two addresses agree in their first `len` bits.
pub open spec fn same_leading_bits(a: Seq<u8>, b: Seq<u8>, len: int) -> bool {
    forall|i: int| 0 <= i < len ==> #[trigger] addr_bit(a, i) == addr_bit(b, i)
}

/// Whether the subnet lies within the rule's prefix: the rule's prefix is
/// no longer than the subnet's, both addresses can be read and are of one
/// kind, and they agree in the bits of the rule's prefix.
pub open spec fn prefix_covers(rule: Rule, subnet_ip: Seq<char>, subnet_len: nat) -> bool {
    match (ip_octets(rule.ip_text()), ip_octets(subnet_ip)) {
        (Some(r), Some(s)) => rule.len() <= subnet_len && r.len() == s.len() && rule.len() <= 8
            * r.len() && same_leading_bits(r, s, rule.len() as int),
        _ => false,
    }
}

/// Whether rule `k` is the first of the rules whose prefix the subnet lies
/// within.
pub open spec fn first_cover(rules: Seq<Rule>, subnet_ip: Seq<char>, subnet_len: nat, k: int) -> bool {
    &&& 0 <= k < rules.len()
    &&& prefix_covers(rules[k], subnet_ip, subnet_len)
    &&& forall|j: int| 0 <= j < k ==> !prefix_covers(#[trigger] rules[j], subnet_ip, subnet_len)
}

/// Whether the subnet with the given octets lies within the rule's prefix.
fn match_check(rule: &Rule, subnet_octets: &Vec<u8>, subnet_prefix_len: u8, Ghost(subnet_ip): Ghost<
    Seq<char>,
>) -> (r: bool)
    requires
        ip_octets(subnet_ip) == Some(subnet_octets@),
    ensures
        r == prefix_covers(*rule, subnet_ip, subnet_prefix_len as nat),
{
    let len = rule.get_prefix_len();
    if len > subnet_prefix_len as usize {
        return false;
    }
    let octets = match parse_ip(rule.get_ip()) {
        Some(o) => o,
        None => {
            return false;
        },
    };
    if octets.len() != subnet_octets.len() || len > 8 * octets.len() {
        return false;
    }
    let mut i: usize = 0;
    while i < len
        invariant
            i <= len,
            len == rule.len(),
            len <= subnet_prefix_len,
            len <= 8 * octets.len(),
            octets.len() == subnet_octets.len(),
            ip_octets(rule.ip_text()) == Some(octets@),
            ip_octets(subnet_ip) == Some(subnet_octets@),
            same_leading_bits(octets@, subnet_octets@, i as int),
        decreases len - i,
    {
        if address_bit(&octets, i) != address_bit(subnet_octets, i) {
            return false;
        }
        i += 1;
    }
    true
}

/// Whether no class after the `k`-th among the first `m` forwards to the
/// same port as the `k`-th.
pub open spec fn last_for_port(lecs: Seq<Lec>, m: int, k: int) -> bool {
    forall|j: int| k < j < m ==> lec_port(#[trigger] lecs[j]) != lec_port(lecs[k])
}

pub struct Device {
    name: String,
    device_id: usize,
    device_id_bdd: Bdd,
    rules: Vec<Rule>,
    packet_space: Option<Rule>,
    port_name_to_space_id: NameMap<i8>,
    space_id_to_space_port: Vec<SpacePort>,
    forwardable_space: Bdd,
    subnet_space: Bdd,
    num_vars: usize,
}

impl Device {
    /// The number of header variables of the device's diagrams.
    pub closed spec fn width(&self) -> nat {
        self.num_vars as nat
    }

    /// The device's name.
    pub closed spec fn name(&self) -> Seq<char> {
        self.name@
    }

    /// The device's number.
    pub closed spec fn id(&self) -> usize {
        self.device_id
    }

    /// The headers that carry the device's number as their source.
    pub closed spec fn id_space(&self) -> Bdd {
        self.device_id_bdd
    }

    /// The device's rules.
    pub closed spec fn rules(&self) -> Seq<Rule> {
        self.rules@
    }

    /// The subnet declared at the device, if any.
    pub closed spec fn packet_space(&self) -> Option<Rule> {
        self.packet_space
    }

    /// Every header that the device forwards somewhere.
    pub closed spec fn forwardable(&self) -> Bdd {
        self.forwardable_space
    }

    /// The headers of the declared subnet.
    pub closed spec fn subnet(&self) -> Bdd {
        self.subnet_space
    }

    /// The ports that forward something, in the order they were filled in.
    pub closed spec fn lec_ports(&self) -> Seq<Seq<char>> {
        self.port_name_to_space_id.names()
    }

    /// Whether the port forwards anything.
    pub open spec fn has_space(&self, p: Seq<char>) -> bool {
        self.lec_ports().contains(p)
    }

    /// The number of the port's group.
    pub closed spec fn space_id_of(&self, p: Seq<char>) -> i8 {
        self.port_name_to_space_id.lookup(p).unwrap()
    }

    /// The port groups, each at the position of its number.
    pub closed spec fn groups(&self) -> Seq<SpacePort> {
        self.space_id_to_space_port@
    }

    /// The headers that the port forwards.
    pub open spec fn space_of(&self, p: Seq<char>) -> Bdd {
        self.groups()[self.space_id_of(p) as int].predicate()
    }

    /// Every diagram of the device is a space of the device's width, every
    /// port that forwards something belongs to a group, and the groups are
    /// numbered by their positions.
    pub closed spec fn wf(&self) -> bool {
        let n = self.num_vars as nat;
        &&& self.port_name_to_space_id.wf()
        &&& self.space_id_to_space_port.len() <= MAX_SPACE_PORTS
        &&& forall|j: int|
            0 <= j < self.space_id_to_space_port.len() ==> (#[trigger] self.space_id_to_space_port[j]).id()
                == j && is_space(self.space_id_to_space_port[j].predicate(), n)
        &&& forall|k: int|
            0 <= k < self.port_name_to_space_id.values().len() ==> 0
                <= #[trigger] self.port_name_to_space_id.values()[k]
                < self.space_id_to_space_port.len()
        &&& is_space(self.forwardable_space, n)
        &&& is_space(self.subnet_space, n)
        &&& is_space(self.device_id_bdd, n)
    }

    /// What well-formedness says of the diagrams.
    pub proof fn lemma_spaces(&self)
        requires
            self.wf(),
        ensures
            is_space(self.forwardable(), self.width()),
            is_space(self.subnet(), self.width()),
            is_space(self.id_space(), self.width()),
            self.lec_ports().no_duplicates(),
            forall|p: Seq<char>| #[trigger]
                self.has_space(p) ==> is_space(self.space_of(p), self.width()) && 0 <= self.space_id_of(p)
                    < self.groups().len(),
            forall|j: int|
                0 <= j < self.groups().len() ==> (#[trigger] self.groups()[j]).id() == j
                    && is_space(self.groups()[j].predicate(), self.width()),
    {
        assert forall|p: Seq<char>| #[trigger] self.has_space(p) implies is_space(
            self.space_of(p),
            self.width(),
        ) && 0 <= self.space_id_of(p) < self.groups().len() by {
            let i = self.port_name_to_space_id.names().index_of(p);
            assert(self.port_name_to_space_id.names()[i] == p);
            self.port_name_to_space_id.lemma_lookup_at(i);
        }
    }

    /// A device with no rules, no subnet and nothing compiled.
    pub fn new(name: String, engine: &Engine) -> (r: Self)
        requires
            engine.wf(),
        ensures
            r.wf(),
            r.width() == engine.width(),
            r.name() == name@,
            r.id() == 0,
            r.rules() == Seq::<Rule>::empty(),
            r.packet_space().is_none(),
            r.lec_ports() == Seq::<Seq<char>>::empty(),
            bdd_sat(r.forwardable()) == Set::<Seq<bool>>::empty(),
            bdd_sat(r.subnet()) == Set::<Seq<bool>>::empty(),
            bdd_sat(r.id_space()) == Set::<Seq<bool>>::empty(),
    {
        Device {
            num_vars: engine.ip_bits_len(),
            name,
            device_id: 0,
            device_id_bdd: engine.make_none_space_bdd(),
            rules: Vec::new(),
            packet_space: None,
            port_name_to_space_id: NameMap::new(),
            space_id_to_space_port: Vec::new(),
            forwardable_space: engine.make_none_space_bdd(),
            subnet_space: engine.make_none_space_bdd(),
        }
    }

    /// Takes up the rules read for the device: they join the rules already
    /// there and the whole list is ordered longest prefix first.
    pub fn load_rules(&mut self, records: Vec<Rule>)
        ensures
            final(self).rules() == lpm_order(old(self).rules() + records@),
            final(self).name() == old(self).name(),
            final(self).id() == old(self).id(),
            final(self).id_space() == old(self).id_space(),
            final(self).packet_space() == old(self).packet_space(),
            final(self).forwardable() == old(self).forwardable(),
            final(self).subnet() == old(self).subnet(),
            final(self).lec_ports() == old(self).lec_ports(),
            old(self).wf() ==> final(self).wf(),
            final(self).width() == old(self).width(),
            forall|p: Seq<char>| final(self).space_id_of(p) == old(self).space_id_of(p),
            final(self).groups() == old(self).groups(),
    {
        let mut all: Vec<Rule> = Vec::new();
        core::mem::swap(&mut all, &mut self.rules);
        let mut records = records;
        all.append(&mut records);
        self.rules = sort_rules(all);
    }

    /// Puts the rules in order, longest prefix first; rules of equal length
    /// keep their order.
    pub fn order_rules(&mut self)
        ensures
            final(self).rules() == lpm_order(old(self).rules()),
            final(self).name() == old(self).name(),
            final(self).id() == old(self).id(),
            final(self).id_space() == old(self).id_space(),
            final(self).packet_space() == old(self).packet_space(),
            final(self).forwardable() == old(self).forwardable(),
            final(self).subnet() == old(self).subnet(),
            final(self).lec_ports() == old(self).lec_ports(),
            old(self).wf() ==> final(self).wf(),
            final(self).width() == old(self).width(),
            forall|p: Seq<char>| final(self).space_id_of(p) == old(self).space_id_of(p),
            final(self).groups() == old(self).groups(),
    {
        let mut all: Vec<Rule> = Vec::new();
        core::mem::swap(&mut all, &mut self.rules);
        self.rules = sort_rules(all);
    }

    /// Folds the headers of the classes into the device's forwardable space.
    pub fn cal_forwardable_space(&mut self, tmp_lecs: &Vec<Lec>)
        requires
            old(self).wf(),
            forall|k: int| 0 <= k < tmp_lecs.len() ==> is_space((#[trigger] tmp_lecs[k]).predicate, old(self).width()),
        ensures
            final(self).wf(),
            final(self).width() == old(self).width(),
            bdd_sat(final(self).forwardable()) == bdd_sat(old(self).forwardable()).union(
                lecs_union(tmp_lecs@, tmp_lecs.len() as int),
            ),
            final(self).name() == old(self).name(),
            final(self).id() == old(self).id(),
            final(self).id_space() == old(self).id_space(),
            final(self).rules() == old(self).rules(),
            final(self).packet_space() == old(self).packet_space(),
            final(self).subnet() == old(self).subnet(),
            final(self).lec_ports() == old(self).lec_ports(),
            forall|p: Seq<char>| final(self).space_id_of(p) == old(self).space_id_of(p),
            final(self).groups() == old(self).groups(),
    {
        let mut k: usize = 0;
        assert(bdd_sat(self.forwardable_space) =~= bdd_sat(old(self).forwardable()).union(
            lecs_union(tmp_lecs@, 0),
        ));
        while k < tmp_lecs.len()
            invariant
                k <= tmp_lecs.len(),
                self.wf(),
                self.num_vars == old(self).num_vars,
                forall|j: int|
                    0 <= j < tmp_lecs.len() ==> is_space(
                        (#[trigger] tmp_lecs[j]).predicate,
                        self.num_vars as nat,
                    ),
                bdd_sat(self.forwardable_space) == bdd_sat(old(self).forwardable()).union(
                    lecs_union(tmp_lecs@, k as int),
                ),
                self.name == old(self).name,
                self.device_id == old(self).device_id,
                self.device_id_bdd == old(self).device_id_bdd,
                self.rules == old(self).rules,
                self.packet_space == old(self).packet_space,
                self.subnet_space == old(self).subnet_space,
                self.port_name_to_space_id == old(self).port_name_to_space_id,
                self.space_id_to_space_port == old(self).space_id_to_space_port,
            decreases tmp_lecs.len() - k,
        {
            let ghost before = bdd_sat(self.forwardable_space);
            self.forwardable_space = self.forwardable_space.or(&tmp_lecs[k].predicate);
            proof {
                assert(bdd_sat(self.forwardable_space) =~= bdd_sat(old(self).forwardable()).union(
                    lecs_union(tmp_lecs@, k as int + 1),
                ));
            }
            k += 1;
        }
    }

    /// What the device's ports forward after the first `m` of the classes
    /// `lecs` were merged in: a port forwards something exactly when one of
    /// the classes names it, it forwards what the last such class holds, and
    /// two ports are in one group exactly when they forward the same headers.
    pub open spec fn groups_from(&self, lecs: Seq<Lec>, m: int) -> bool {
        &&& forall|p: Seq<char>| #[trigger]
            self.has_space(p) <==> exists|k: int| 0 <= k < m && lec_port(#[trigger] lecs[k]) == p
        &&& forall|k: int|
            0 <= k < m && #[trigger] last_for_port(lecs, m, k) ==> self.space_of(lec_port(lecs[k]))
                == lecs[k].predicate
        &&& forall|p: Seq<char>, q: Seq<char>|
            #![trigger self.space_id_of(p), self.space_id_of(q)]
            self.has_space(p) && self.has_space(q) ==> ((self.space_id_of(p) == self.space_id_of(q))
                <==> (self.space_of(p) == self.space_of(q)))
    }

    /// The position of the group that forwards exactly `predicate`, if any.
    fn find_group(&self, predicate: &Bdd) -> (r: Option<usize>)
        ensures
            match r {
                Some(g) => g < self.groups().len() && self.groups()[g as int].predicate()
                    == *predicate,
                None => forall|j: int|
                    0 <= j < self.groups().len() ==> (#[trigger] self.groups()[j]).predicate()
                        != *predicate,
            },
    {
        let mut g: usize = 0;
        while g < self.space_id_to_space_port.len()
            invariant
                g <= self.space_id_to_space_port.len(),
                forall|j: int|
                    0 <= j < g ==> (#[trigger] self.space_id_to_space_port[j]).predicate()
                        != *predicate,
            decreases self.space_id_to_space_port.len() - g,
        {
            if same_bdd(self.space_id_to_space_port[g].get_space(), predicate) {
                return Some(g);
            }
            g += 1;
        }
        None
    }

    /// Replaces the device's port groups by those of the given classes. Each
    /// class gives its headers to its first port; ports that get the same
    /// headers share a group. There is one group for every different header
    /// set among the classes, and the groups are numbered in the order in
    /// which their header sets first appear. A class without a port ends
    /// the merge. Fails exactly when the classes that are merged have more
    /// different header sets than groups can be numbered.
    pub fn merge_lec_to_space_port(&mut self, tmp_lecs: Vec<Lec>) -> (r: Result<(), EngineError>)
        requires
            old(self).wf(),
            forall|k: int|
                0 <= k < tmp_lecs.len() ==> is_space(
                    (#[trigger] tmp_lecs[k]).predicate,
                    old(self).width(),
                ),
        ensures
            final(self).wf(),
            final(self).width() == old(self).width(),
            final(self).name() == old(self).name(),
            final(self).id() == old(self).id(),
            final(self).id_space() == old(self).id_space(),
            final(self).rules() == old(self).rules(),
            final(self).packet_space() == old(self).packet_space(),
            final(self).forwardable() == old(self).forwardable(),
            final(self).subnet() == old(self).subnet(),
            r.is_ok() <==> distinct_spaces(tmp_lecs@, merged_count(tmp_lecs@) as int).len()
                <= MAX_SPACE_PORTS,
            match r {
                Ok(_) => final(self).groups_from(tmp_lecs@, merged_count(tmp_lecs@) as int)
                    && group_spaces(final(self).groups()) == distinct_spaces(
                    tmp_lecs@,
                    merged_count(tmp_lecs@) as int,
                ),
                Err(e) => e == EngineError::SpaceIdsExhausted && final(self).groups().len()
                    == MAX_SPACE_PORTS && tmp_lecs.len() > MAX_SPACE_PORTS,
            },
    {
        self.port_name_to_space_id = NameMap::new();
        self.space_id_to_space_port = Vec::new();
        let ghost lecs = tmp_lecs@;
        let ghost n = self.num_vars as nat;
        let mut k: usize = 0;
        while k < tmp_lecs.len()
            invariant
                k <= tmp_lecs.len(),
                lecs == tmp_lecs@,
                n == self.num_vars as nat,
                self.wf(),
                forall|j: int| 0 <= j < lecs.len() ==> is_space((#[trigger] lecs[j]).predicate, n),
                self.name == old(self).name,
                self.device_id == old(self).device_id,
                self.device_id_bdd == old(self).device_id_bdd,
                self.rules == old(self).rules,
                self.packet_space == old(self).packet_space,
                self.forwardable_space == old(self).forwardable_space,
                self.subnet_space == old(self).subnet_space,
                self.num_vars == old(self).num_vars,
                self.space_id_to_space_port.len() <= k,
                k <= merged_count(lecs),
                group_spaces(self.space_id_to_space_port@) == distinct_spaces(lecs, k as int),
                forall|a: int, b: int|
                    0 <= a < b < self.space_id_to_space_port.len()
                        ==> (#[trigger] self.space_id_to_space_port[a]).predicate()
                        != (#[trigger] self.space_id_to_space_port[b]).predicate(),
                forall|p: Seq<char>| #[trigger]
                    self.has_space(p) <==> exists|j: int|
                        0 <= j < k && lec_port(#[trigger] lecs[j]) == p,
                forall|j: int|
                    0 <= j < k && #[trigger] last_for_port(lecs, k as int, j) ==> self.space_of(
                        lec_port(lecs[j]),
                    ) == lecs[j].predicate,
            decreases tmp_lecs.len() - k,
        {
            let lec = &tmp_lecs[k];
            let ports = lec.forward_action.get_ports();
            proof {
                lemma_merged_count(lecs, k as int);
            }
            if ports.len() == 0 {
                proof {
                    assert(crate::util::text::texts(ports@).len() == 0);
                    assert(merged_count(lecs) == k);
                    self.lemma_groups_from(lecs, k as int);
                }
                return Ok(());
            }
            let port_name = ports[0].clone();
            assert(port_name@ == lec_port(lecs[k as int])) by {
                assert(crate::util::text::texts(ports@)[0] == ports[0]@);
            }
            let ghost before = *self;
            let found = self.find_group(&lec.predicate);
            let g: usize = match found {
                Some(g) => g,
                None => {
                    proof {
                        let had = group_spaces(self.space_id_to_space_port@);
                        if had.contains(lec.predicate) {
                            let j = had.index_of(lec.predicate);
                            assert(had[j] == lec.predicate);
                            assert(self.groups()[j].predicate() == lec.predicate);
                        }
                        assert(!had.contains(lec.predicate));
                        assert(lecs[k as int].predicate == lec.predicate);
                        assert(had == distinct_spaces(lecs, k as int));
                        assert(distinct_spaces(lecs, k as int + 1) == distinct_spaces(
                            lecs,
                            k as int,
                        ).push(lecs[k as int].predicate));
                    }
                    if self.space_id_to_space_port.len() >= MAX_SPACE_PORTS {
                        proof {
                            lemma_distinct_spaces(lecs, k + 1, merged_count(lecs) as int);
                        }
                        return Err(EngineError::SpaceIdsExhausted);
                    }
                    let id = self.space_id_to_space_port.len();
                    let ghost groups0 = self.space_id_to_space_port@;
                    assert(self.groups() == groups0);
                    assert(forall|j: int|
                        0 <= j < groups0.len() ==> (#[trigger] groups0[j]).predicate()
                            != lec.predicate);
                    self.space_id_to_space_port.push(SpacePort::new(id as i8, lec.predicate.clone()));
                    assert(forall|j: int|
                        0 <= j < groups0.len() ==> self.space_id_to_space_port[j] == groups0[j]);
                    assert(group_spaces(self.space_id_to_space_port@) =~= group_spaces(groups0).push(
                        lec.predicate,
                    ));
                    id
                },
            };
            proof {
                if found.is_some() {
                    let had = group_spaces(self.space_id_to_space_port@);
                    assert(had[g as int] == lec.predicate);
                    assert(lecs[k as int].predicate == lec.predicate);
                    assert(distinct_spaces(lecs, k as int).contains(lecs[k as int].predicate));
                    assert(distinct_spaces(lecs, k as int + 1) == had);
                }
            }
            self.port_name_to_space_id.set(port_name, g as i8);
            proof {
                let p0 = lec_port(lecs[k as int]);
                assert(self.space_id_to_space_port[g as int].predicate() == lecs[k as int].predicate);
                assert forall|p: Seq<char>| #[trigger] self.has_space(p) <==> exists|j: int|
                    0 <= j < k + 1 && lec_port(#[trigger] lecs[j]) == p by {
                    if self.has_space(p) {
                        if p == p0 {
                            assert(lec_port(lecs[k as int]) == p);
                        } else {
                            assert(before.has_space(p)) by {
                                if before.port_name_to_space_id.names().contains(p0) {
                                } else {
                                    let names1 = self.port_name_to_space_id.names();
                                    let i = names1.index_of(p);
                                    assert(names1[i] == p);
                                    assert(before.port_name_to_space_id.names()[i] == p);
                                }
                            }
                            let j = choose|j: int| 0 <= j < k && lec_port(#[trigger] lecs[j]) == p;
                            assert(0 <= j < k + 1 && lec_port(lecs[j]) == p);
                        }
                    }
                    if exists|j: int| 0 <= j < k + 1 && lec_port(#[trigger] lecs[j]) == p {
                        let j = choose|j: int| 0 <= j < k + 1 && lec_port(#[trigger] lecs[j]) == p;
                        if j < k {
                            assert(before.has_space(p));
                            let names0 = before.port_name_to_space_id.names();
                            let i = names0.index_of(p);
                            assert(names0[i] == p);
                            if names0.contains(p0) {
                            } else {
                                assert(names0.push(p0)[i] == p);
                            }
                        } else {
                            assert(self.port_name_to_space_id.lookup(p0).is_some());
                        }
                    }
                }
                assert forall|j: int|
                    0 <= j < k + 1 && #[trigger] last_for_port(lecs, k as int + 1, j) implies self.space_of(
                    lec_port(lecs[j]),
                ) == lecs[j].predicate by {
                    if j < k {
                        assert(lec_port(lecs[k as int]) != lec_port(lecs[j]));
                        assert(last_for_port(lecs, k as int, j));
                        let pj = lec_port(lecs[j]);
                        assert(self.port_name_to_space_id.lookup(pj)
                            == before.port_name_to_space_id.lookup(pj));
                        assert(before.has_space(pj));
                        before.lemma_spaces();
                    }
                }
                assert(self.wf()) by {
                    let values1 = self.port_name_to_space_id.values();
                    assert forall|i: int| 0 <= i < values1.len() implies 0 <= #[trigger] values1[i]
                        < self.space_id_to_space_port.len() by {
                        if i < before.port_name_to_space_id.values().len() {
                            assert(0 <= before.port_name_to_space_id.values()[i]);
                        }
                    }
                }
            }
            k += 1;
        }
        proof {
            lemma_merged_count(lecs, k as int);
            self.lemma_groups_from(lecs, k as int);
        }
        Ok(())
    }

    /// Groups with pairwise different headers make two ports share a group
    /// exactly when they forward the same headers.
    proof fn lemma_groups_from(&self, lecs: Seq<Lec>, m: int)
        requires
            self.wf(),
            forall|a: int, b: int|
                0 <= a < b < self.space_id_to_space_port.len()
                    ==> (#[trigger] self.space_id_to_space_port[a]).predicate()
                    != (#[trigger] self.space_id_to_space_port[b]).predicate(),
            forall|p: Seq<char>| #[trigger]
                self.has_space(p) <==> exists|j: int| 0 <= j < m && lec_port(#[trigger] lecs[j]) == p,
            forall|j: int|
                0 <= j < m && #[trigger] last_for_port(lecs, m, j) ==> self.space_of(
                    lec_port(lecs[j]),
                ) == lecs[j].predicate,
        ensures
            self.groups_from(lecs, m),
    {
        self.lemma_spaces();
        assert forall|p: Seq<char>, q: Seq<char>|
            #![trigger self.space_id_of(p), self.space_id_of(q)]
            self.has_space(p) && self.has_space(q) implies ((self.space_id_of(p)
            == self.space_id_of(q)) <==> (self.space_of(p) == self.space_of(q))) by {
            let a = self.space_id_of(p) as int;
            let b = self.space_id_of(q) as int;
            if a < b {
                assert(self.space_id_to_space_port[a].predicate()
                    != self.space_id_to_space_port[b].predicate());
            } else if b < a {
                assert(self.space_id_to_space_port[b].predicate()
                    != self.space_id_to_space_port[a].predicate());
            }
        }
    }

    /// Whether every header of `arrive_bdd` is forwarded by the port.
    pub fn check_intersection_at_port(&self, arrive_bdd: &Bdd, port_name: &str) -> (r: bool)
        requires
            self.wf(),
            is_space(*arrive_bdd, self.width()),
        ensures
            r == (self.has_space(port_name@) && bdd_sat(*arrive_bdd).subset_of(
                bdd_sat(self.space_of(port_name@)),
            )),
    {
        if !self.has_space_bdd(port_name) {
            return false;
        }
        proof {
            self.lemma_spaces();
        }
        let port_space_bdd = self.get_space_bdd(port_name);
        let rest = arrive_bdd.and_not(port_space_bdd);
        proof {
            let a = bdd_sat(*arrive_bdd);
            let s = bdd_sat(self.space_of(port_name@));
            if a.difference(s) =~= Set::<Seq<bool>>::empty() {
                assert forall|v: Seq<bool>| a.contains(v) implies s.contains(v) by {
                    if !s.contains(v) {
                        assert(a.difference(s).contains(v));
                    }
                }
            }
            if a.subset_of(s) {
                assert(a.difference(s) =~= Set::<Seq<bool>>::empty());
            }
        }
        rest.is_false()
    }

    /// The headers that the port forwards.
    pub fn get_space_bdd(&self, port_name: &str) -> (r: &Bdd)
        requires
            self.wf(),
            self.has_space(port_name@),
        ensures
            *r == self.space_of(port_name@),
            is_space(*r, self.width()),
    {
        proof {
            self.lemma_spaces();
        }
        let cur_id = self.port_name_to_space_id.get(port_name).unwrap();
        self.space_id_to_space_port[cur_id as usize].get_space()
    }

    /// The number of the port's group.
    pub fn get_space_id(&self, port_name: &str) -> (r: i8)
        requires
            self.wf(),
            self.has_space(port_name@),
        ensures
            r == self.space_id_of(port_name@),
    {
        proof {
            self.lemma_spaces();
        }
        let cur_id = self.port_name_to_space_id.get(port_name).unwrap();
        self.space_id_to_space_port[cur_id as usize].get_space_id()
    }

    /// The port groups, each at the position of its number.
    pub fn get_space_id_to_space_port(&self) -> (r: &Vec<SpacePort>)
        ensures
            r@ == self.groups(),
    {
        &self.space_id_to_space_port
    }

    /// Whether the port forwards anything.
    pub fn has_space_bdd(&self, port_name: &str) -> (r: bool)
        requires
            self.wf(),
        ensures
            r == self.has_space(port_name@),
    {
        self.port_name_to_space_id.contains_key(port_name)
    }

    /// Declares the subnet that lives at the device.
    pub fn set_packet_space_file(&mut self, packet_space: Rule)
        ensures
            final(self).packet_space() == Some(packet_space),
            final(self).name() == old(self).name(),
            final(self).id() == old(self).id(),
            final(self).id_space() == old(self).id_space(),
            final(self).rules() == old(self).rules(),
            final(self).forwardable() == old(self).forwardable(),
            final(self).subnet() == old(self).subnet(),
            final(self).lec_ports() == old(self).lec_ports(),
            old(self).wf() ==> final(self).wf(),
            final(self).width() == old(self).width(),
            forall|p: Seq<char>| final(self).space_id_of(p) == old(self).space_id_of(p),
            final(self).groups() == old(self).groups(),
    {
        self.packet_space = Some(packet_space);
    }

    pub fn get_packet_space(&self) -> (r: &Option<Rule>)
        ensures
            *r == self.packet_space(),
    {
        &self.packet_space
    }

    pub fn get_name(&self) -> (r: &String)
        ensures
            r@ == self.name(),
    {
        &self.name
    }

    pub fn get_rules(&self) -> (r: &Vec<Rule>)
        ensures
            r@ == self.rules(),
    {
        &self.rules
    }

    /// The first of the device's rules whose prefix the subnet lies within,
    /// if there is one; with the rules longest prefix first, that is the
    /// longest such prefix. A rule or subnet whose address cannot be read
    /// matches nothing.
    pub fn routes_table_prefix_match(&self, subnet_ip: &str, subnet_prefix_len: u8) -> (r: Option<
        Rule,
    >)
        ensures
            match r {
                Some(rule) => exists|k: int|
                    #[trigger] first_cover(self.rules(), subnet_ip@, subnet_prefix_len as nat, k)
                        && rule.len() == self.rules()[k].len() && rule.ip_text()
                        == self.rules()[k].ip_text() && rule.action().kind()
                        == self.rules()[k].action().kind() && rule.port_names()
                        == self.rules()[k].port_names(),
                None => forall|k: int|
                    0 <= k < self.rules().len() ==> !prefix_covers(
                        #[trigger] self.rules()[k],
                        subnet_ip@,
                        subnet_prefix_len as nat,
                    ),
            },
    {
        let subnet_octets = match parse_ip(subnet_ip) {
            Some(o) => o,
            None => {
                return None;
            },
        };
        let mut k: usize = 0;
        while k < self.rules.len()
            invariant
                k <= self.rules.len(),
                ip_octets(subnet_ip@) == Some(subnet_octets@),
                forall|j: int|
                    0 <= j < k ==> !prefix_covers(
                        #[trigger] self.rules@[j],
                        subnet_ip@,
                        subnet_prefix_len as nat,
                    ),
            decreases self.rules.len() - k,
        {
            if match_check(&self.rules[k], &subnet_octets, subnet_prefix_len, Ghost(subnet_ip@)) {
                assert(first_cover(self.rules(), subnet_ip@, subnet_prefix_len as nat, k as int));
                return Some(self.rules[k].clone());
            }
            k += 1;
        }
        None
    }

    /// Hands the rules out and leaves the device without any.
    pub fn take_rules(&mut self) -> (r: Vec<Rule>)
        ensures
            r@ == old(self).rules(),
            final(self).rules() == Seq::<Rule>::empty(),
            final(self).name() == old(self).name(),
            final(self).id() == old(self).id(),
            final(self).id_space() == old(self).id_space(),
            final(self).packet_space() == old(self).packet_space(),
            final(self).forwardable() == old(self).forwardable(),
            final(self).subnet() == old(self).subnet(),
            final(self).lec_ports() == old(self).lec_ports(),
            old(self).wf() ==> final(self).wf(),
            final(self).width() == old(self).width(),
            forall|p: Seq<char>| final(self).space_id_of(p) == old(self).space_id_of(p),
            final(self).groups() == old(self).groups(),
    {
        let mut out: Vec<Rule> = Vec::new();
        core::mem::swap(&mut out, &mut self.rules);
        out
    }

    pub fn get_device_id(&self) -> (r: usize)
        ensures
            r == self.id(),
    {
        self.device_id
    }

    pub fn get_device_id_bdd(&self) -> (r: &Bdd)
        ensures
            *r == self.id_space(),
    {
        &self.device_id_bdd
    }

    pub fn get_forwardable_space(&self) -> (r: &Bdd)
        ensures
            *r == self.forwardable(),
    {
        &self.forwardable_space
    }

    pub fn get_subnet_space(&self) -> (r: &Bdd)
        ensures
            *r == self.subnet(),
    {
        &self.subnet_space
    }

    /// Gives the device its number and the header set that encodes it.
    pub fn set_device_id(&mut self, device_id: usize, device_id_bdd: Bdd)
        requires
            old(self).wf(),
            is_space(device_id_bdd, old(self).width()),
        ensures
            final(self).wf(),
            final(self).width() == old(self).width(),
            final(self).id() == device_id,
            final(self).id_space() == device_id_bdd,
            final(self).name() == old(self).name(),
            final(self).rules() == old(self).rules(),
            final(self).packet_space() == old(self).packet_space(),
            final(self).forwardable() == old(self).forwardable(),
            final(self).subnet() == old(self).subnet(),
            final(self).lec_ports() == old(self).lec_ports(),
            forall|p: Seq<char>| final(self).space_id_of(p) == old(self).space_id_of(p),
            final(self).groups() == old(self).groups(),
    {
        self.device_id = device_id;
        self.device_id_bdd = device_id_bdd;
    }

    /// Sets the header set of the declared subnet.
    pub fn set_subnet_space(&mut self, subnet_space: Bdd)
        requires
            old(self).wf(),
            is_space(subnet_space, old(self).width()),
        ensures
            final(self).wf(),
            final(self).width() == old(self).width(),
            final(self).subnet() == subnet_space,
            final(self).id() == old(self).id(),
            final(self).id_space() == old(self).id_space(),
            final(self).name() == old(self).name(),
            final(self).rules() == old(self).rules(),
            final(self).packet_space() == old(self).packet_space(),
            final(self).forwardable() == old(self).forwardable(),
            final(self).lec_ports() == old(self).lec_ports(),
            forall|p: Seq<char>| final(self).space_id_of(p) == old(self).space_id_of(p),
            final(self).groups() == old(self).groups(),
    {
        self.subnet_space = subnet_space;
    }
}

} // verus!
