//! A longest-prefix-match forwarding rule.
use crate::util::forward_action::ForwardAction;
use crate::util::text::{decimal_text, same_text, usize_to_text};
use vstd::prelude::*;
use vstd::string::StringExecFns;

verus! {

/// A destination prefix and what to do with the packets that match it.
#[derive(Debug)]
pub struct Rule {
    forward_action: ForwardAction,
    prefix_len: usize,
    ip: String,
}

/// The forwarding type of a rule that only declares a packet space.
pub open spec fn packet_space_kind() -> Seq<char> {
    "packet_space"@
}

impl Rule {
    /// The prefix address as text.
    pub closed spec fn ip_text(&self) -> Seq<char> {
        self.ip@
    }

    /// The number of leading address bits that the rule matches on.
    pub closed spec fn len(&self) -> nat {
        self.prefix_len as nat
    }

    /// The rule's action.
    pub closed spec fn action(&self) -> ForwardAction {
        self.forward_action
    }

    /// The names of the ports that the rule forwards to, in declared order.
    pub open spec fn port_names(&self) -> Seq<Seq<char>> {
        self.action().port_names()
    }

    pub fn new(prefix_len: usize, ip: String, forward_type: String, ports: Vec<String>) -> (r: Self)
        ensures
            r.len() == prefix_len,
            r.ip_text() == ip@,
            r.action().kind() == forward_type@,
            r.port_names() == crate::util::text::texts(ports@),
    {
        let forward_action: ForwardAction = ForwardAction::new(forward_type, ports);
        Rule { forward_action, prefix_len, ip }
    }

    /// A rule that declares the subnet living at a device and forwards nowhere.
    pub fn new_for_packet_space(prefix_len: usize, ip: String) -> (r: Self)
        ensures
            r.len() == prefix_len,
            r.ip_text() == ip@,
            r.action().kind() == packet_space_kind(),
            r.port_names() == Seq::<Seq<char>>::empty(),
    {
        let ports: Vec<String> = Vec::new();
        assert(crate::util::text::texts(ports@) =~= Seq::<Seq<char>>::empty());
        let forward_action: ForwardAction = ForwardAction::new(
            String::from_str("packet_space"),
            ports,
        );
        Rule { forward_action, prefix_len, ip }
    }

    pub fn get_prefix_len(&self) -> (r: usize)
        ensures
            r == self.len(),
    {
        self.prefix_len
    }

    pub fn get_ip(&self) -> (r: &str)
        ensures
            r@ == self.ip_text(),
    {
        self.ip.as_str()
    }

    /// The rule's prefix written as `ip/len`.
    pub fn get_name(&self) -> (r: String)
        ensures
            r@ == self.ip_text() + seq!['/'] + decimal_text(self.len()),
    {
        let mut name = self.ip.clone();
        proof {
            reveal_strlit("/");
            assert("/"@ =~= seq!['/']);
        }
        name.append("/");
        let digits = usize_to_text(self.prefix_len);
        name.append(digits.as_str());
        name
    }

    pub fn get_forward_action(&self) -> (r: ForwardAction)
        ensures
            r.kind() == self.action().kind(),
            r.port_names() == self.port_names(),
    {
        self.forward_action.clone()
    }

    /// Whether two rules have the same prefix and the same action.
    pub fn same_rule(&self, other: &Rule) -> (r: bool)
        ensures
            r == (self.len() == other.len() && self.ip_text() == other.ip_text()
                && self.action().kind() == other.action().kind() && self.port_names()
                == other.port_names()),
    {
        self.forward_action.same_action(&other.forward_action) && self.prefix_len
            == other.prefix_len && same_text(&self.ip, &other.ip)
    }
}

impl Clone for Rule {
    fn clone(&self) -> (r: Self)
        ensures
            r.len() == self.len(),
            r.ip_text() == self.ip_text(),
            r.action().kind() == self.action().kind(),
            r.port_names() == self.port_names(),
    {
        Rule {
            forward_action: self.forward_action.clone(),
            prefix_len: self.prefix_len,
            ip: self.ip.clone(),
        }
    }
}

} // verus!

verus! {

/// Where a rule with prefix length `len` goes in a list that is ordered
/// longest prefix first: behind every rule that is at least as long.
pub open spec fn insert_at(sorted: Seq<Rule>, len: nat) -> int
    decreases sorted.len(),
{
    if sorted.len() == 0 {
        0
    } else if sorted.last().len() >= len {
        sorted.len() as int
    } else {
        insert_at(sorted.drop_last(), len)
    }
}

/// The rules ordered longest prefix first; rules of equal length keep the
/// order in which they were given.
pub open spec fn lpm_order(rules: Seq<Rule>) -> Seq<Rule>
    decreases rules.len(),
{
    if rules.len() == 0 {
        rules
    } else {
        let t = lpm_order(rules.drop_last());
        t.insert(insert_at(t, rules.last().len()), rules.last())
    }
}

/// Whether no rule stands before a longer one.
pub open spec fn longest_first(rules: Seq<Rule>) -> bool {
    forall|i: int, j: int| 0 <= i < j < rules.len() ==> rules[i].len() >= rules[j].len()
}

/// The insertion point lies within the list; everything before it is at
/// least as long as `len` and everything from it on is shorter, provided the
/// list is ordered.
pub proof fn lemma_insert_at(sorted: Seq<Rule>, len: nat)
    ensures
        0 <= insert_at(sorted, len) <= sorted.len(),
        insert_at(sorted, len) > 0 ==> sorted[insert_at(sorted, len) - 1].len() >= len,
        forall|j: int| insert_at(sorted, len) <= j < sorted.len() ==> sorted[j].len() < len,
        longest_first(sorted) ==> forall|j: int|
            0 <= j < insert_at(sorted, len) ==> sorted[j].len() >= len,
    decreases sorted.len(),
{
    if sorted.len() > 0 && sorted.last().len() < len {
        lemma_insert_at(sorted.drop_last(), len);
        let p = insert_at(sorted.drop_last(), len);
        assert forall|j: int| p <= j < sorted.len() implies sorted[j].len() < len by {
            if j < sorted.len() - 1 {
                assert(sorted.drop_last()[j] == sorted[j]);
            }
        }
        if p > 0 {
            assert(sorted.drop_last()[p - 1] == sorted[p - 1]);
        }
        if longest_first(sorted) {
            assert forall|j: int| 0 <= j < p implies sorted[j].len() >= len by {
                assert(sorted[j].len() >= sorted[p - 1].len());
            }
        }
    } else if sorted.len() > 0 {
        if longest_first(sorted) {
            assert forall|j: int| 0 <= j < sorted.len() implies sorted[j].len() >= len by {
                assert(sorted[j].len() >= sorted.last().len());
            }
        }
    }
}

/// Ordering gives a list that is longest first and holds the same rules.
pub proof fn lemma_lpm_order(rules: Seq<Rule>)
    ensures
        longest_first(lpm_order(rules)),
        lpm_order(rules).len() == rules.len(),
        lpm_order(rules).to_multiset() == rules.to_multiset(),
    decreases rules.len(),
{
    if rules.len() == 0 {
    } else {
        let t = lpm_order(rules.drop_last());
        let r = rules.last();
        let p = insert_at(t, r.len());
        lemma_lpm_order(rules.drop_last());
        lemma_insert_at(t, r.len());
        let out = t.insert(p, r);
        assert forall|i: int, j: int| 0 <= i < j < out.len() implies out[i].len()
            >= out[j].len() by {
            if j < p {
                assert(out[i] == t[i] && out[j] == t[j]);
            } else if j == p {
                assert(out[i] == t[i]);
            } else if i < p {
                assert(out[i] == t[i] && out[j] == t[j - 1]);
                assert(t[j - 1].len() < r.len());
            } else if i == p {
                assert(out[j] == t[j - 1]);
            } else {
                assert(out[i] == t[i - 1] && out[j] == t[j - 1]);
            }
        }
        assert(out.to_multiset() =~= t.to_multiset().insert(r)) by {
            vstd::seq_lib::to_multiset_remove(out, p);
            assert(out.remove(p) =~= t);
            assert(out[p] == r);
            out.to_multiset_ensures();
            assert(out.contains(r));
        }
        assert(rules =~= rules.drop_last().push(r));
        vstd::seq_lib::to_multiset_build(rules.drop_last(), r);
    }
}

/// The rules of the given prefix length, in their order.
pub open spec fn of_length(rules: Seq<Rule>, len: nat) -> Seq<Rule>
    decreases rules.len(),
{
    if rules.len() == 0 {
        rules
    } else if rules.last().len() == len {
        of_length(rules.drop_last(), len).push(rules.last())
    } else {
        of_length(rules.drop_last(), len)
    }
}

/// A rule put before shorter rules only comes last among the rules of its
/// length and leaves the rules of every other length as they were.
proof fn lemma_of_length_insert(t: Seq<Rule>, p: int, r: Rule, len: nat)
    requires
        0 <= p <= t.len(),
        forall|j: int| p <= j < t.len() ==> (#[trigger] t[j]).len() < r.len(),
    ensures
        of_length(t.insert(p, r), len) == if r.len() == len {
            of_length(t, len).push(r)
        } else {
            of_length(t, len)
        },
    decreases t.len(),
{
    let out = t.insert(p, r);
    if p == t.len() {
        assert(out =~= t.push(r));
        assert(out.drop_last() =~= t);
    } else {
        let last = t.last();
        let shorter = t.drop_last();
        assert(last == t[t.len() - 1]);
        assert(out =~= shorter.insert(p, r).push(last));
        assert(out.drop_last() =~= shorter.insert(p, r));
        assert forall|j: int| p <= j < shorter.len() implies (#[trigger] shorter[j]).len()
            < r.len() by {
            assert(shorter[j] == t[j]);
        }
        lemma_of_length_insert(shorter, p, r, len);
    }
}

/// Ordering keeps the rules of equal length in the order in which they
/// were given.
pub proof fn lemma_lpm_order_stable(rules: Seq<Rule>, len: nat)
    ensures
        of_length(lpm_order(rules), len) == of_length(rules, len),
    decreases rules.len(),
{
    if rules.len() > 0 {
        let t = lpm_order(rules.drop_last());
        let r = rules.last();
        lemma_lpm_order_stable(rules.drop_last(), len);
        lemma_insert_at(t, r.len());
        lemma_of_length_insert(t, insert_at(t, r.len()), r, len);
    }
}

/// Orders rules longest prefix first, keeping the given order among rules of
/// equal length.
pub fn sort_rules(rules: Vec<Rule>) -> (r: Vec<Rule>)
    ensures
        r@ == lpm_order(rules@),
{
    let ghost input = rules@;
    let mut rules = rules;
    let mut reversed: Vec<Rule> = Vec::new();
    while rules.len() > 0
        invariant
            rules@.len() + reversed@.len() == input.len(),
            rules@ == input.take(rules@.len() as int),
            forall|k: int|
                0 <= k < reversed@.len() ==> reversed@[k] == input[input.len() - 1 - k],
        decreases rules.len(),
    {
        let last = rules.pop().unwrap();
        reversed.push(last);
    }
    let mut out: Vec<Rule> = Vec::new();
    let ghost mut done: int = 0;
    assert(input.take(0) =~= Seq::<Rule>::empty());
    while reversed.len() > 0
        invariant
            done + reversed@.len() == input.len(),
            0 <= done,
            forall|k: int|
                0 <= k < reversed@.len() ==> reversed@[k] == input[input.len() - 1 - k],
            out@ == lpm_order(input.take(done)),
        decreases reversed.len(),
    {
        let next = reversed.pop().unwrap();
        assert(next == input[done]);
        let len = next.get_prefix_len();
        let mut j: usize = out.len();
        assert(out@.take(j as int) =~= out@);
        while j > 0 && out[j - 1].get_prefix_len() < len
            invariant
                j <= out.len(),
                insert_at(out@, len as nat) == insert_at(out@.take(j as int), len as nat),
            decreases j,
        {
            proof {
                let s = out@.take(j as int);
                assert(s.last() == out@[j - 1]);
                assert(s.drop_last() =~= out@.take(j - 1));
            }
            j -= 1;
        }
        proof {
            let s = out@.take(j as int);
            if j > 0 {
                assert(s.last() == out@[j - 1]);
            }
            assert(insert_at(s, len as nat) == j);
            let whole = input.take(done + 1);
            assert(whole.drop_last() =~= input.take(done));
            assert(whole.last() == next);
        }
        out.insert(j, next);
        proof {
            done = done + 1;
        }
    }
    assert(input.take(input.len() as int) =~= input);
    out
}

} // verus!
