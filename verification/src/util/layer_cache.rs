//! Memoization of the engine's operations, keyed by ids.
//!
//! The primitive tier remembers `make`, `and`, `or` and `not`; the
//! compositional tier remembers rule encodings, the hit of a rule against the
//! space already used, and the merge of a hit into a list of port spaces.
//! Every entry of these is sound for the canonical table it was made
//! against, and stays so as the table grows, because the table never
//! renumbers. The holistic tier holds whole rule applications as its callers
//! register them: it is looked up, never computed, and holds what it was
//! told.
use crate::kernel::{all_valuations, bdd_sat, is_space};
use crate::memo::{
    id_memo_entries, id_memo_get, id_memo_insert, id_memo_new, prefix_memo_entries,
    prefix_memo_get, prefix_memo_insert, prefix_memo_new, whole_memo_entries, whole_memo_get,
    whole_memo_insert, whole_memo_new, IdMemo, PrefixMemo, WholeMemo,
};
use crate::util::bdd_table::{space, table_ok, valid_id, BDDTable};
use crate::util::npbdd::{prefix_ok, prefix_text_space, Engine, EngineError};
use crate::util::rule::Rule;
use biodivine_lib_bdd::Bdd;
use vstd::prelude::*;

verus! {

/// Whether every id in the list was handed out by a table that holds `t`.
pub open spec fn ids_valid(t: Seq<Bdd>, ids: Seq<u32>) -> bool {
    forall|i: int| 0 <= i < ids.len() ==> valid_id(t, #[trigger] ids[i])
}

/// A remembered prefix encoding: the id's diagram is the prefix's header set.
pub open spec fn prefix_entry(t: Seq<Bdd>, n: nat, key: (Seq<char>, usize), v: u32) -> bool {
    &&& prefix_ok(n, key.0, key.1 as nat)
    &&& valid_id(t, v)
    &&& space(t, v) == prefix_text_space(n, key.0, key.1 as nat)
}

/// A remembered conjunction `k[0] & k[1] = v[0]`.
pub open spec fn and_entry(t: Seq<Bdd>, k: Seq<u32>, v: Seq<u32>) -> bool {
    &&& k.len() == 2
    &&& v.len() == 1
    &&& valid_id(t, k[0])
    &&& valid_id(t, k[1])
    &&& valid_id(t, v[0])
    &&& space(t, v[0]) == space(t, k[0]).intersect(space(t, k[1]))
}

/// A remembered disjunction `k[0] | k[1] = v[0]`.
pub open spec fn or_entry(t: Seq<Bdd>, k: Seq<u32>, v: Seq<u32>) -> bool {
    &&& k.len() == 2
    &&& v.len() == 1
    &&& valid_id(t, k[0])
    &&& valid_id(t, k[1])
    &&& valid_id(t, v[0])
    &&& space(t, v[0]) == space(t, k[0]).union(space(t, k[1]))
}

/// A remembered negation `!k[0] = v[0]`.
pub open spec fn not_entry(t: Seq<Bdd>, n: nat, k: Seq<u32>, v: Seq<u32>) -> bool {
    &&& k.len() == 1
    &&& v.len() == 1
    &&& valid_id(t, k[0])
    &&& valid_id(t, v[0])
    &&& space(t, v[0]) == all_valuations(n).difference(space(t, k[0]))
}

/// A remembered hit: for prefix `k[0]` and used space `k[1]`, the hit `v[0]`
/// is the prefix without the used space and `v[1]` is the used space with
/// the prefix added.
pub open spec fn hit_entry(t: Seq<Bdd>, k: Seq<u32>, v: Seq<u32>) -> bool {
    &&& k.len() == 2
    &&& v.len() == 2
    &&& valid_id(t, k[0])
    &&& valid_id(t, k[1])
    &&& valid_id(t, v[0])
    &&& valid_id(t, v[1])
    &&& space(t, v[0]) == space(t, k[0]).difference(space(t, k[1]))
    &&& space(t, v[1]) == space(t, k[1]).union(space(t, k[0]))
}

/// What a merge of the hit `hit` into the port spaces `olds` must give:
/// one id for each old id, in the same order, each the union of the old space
/// and the hit.
pub open spec fn merged(t: Seq<Bdd>, hit: u32, olds: Seq<u32>, news: Seq<u32>) -> bool {
    &&& news.len() == olds.len()
    &&& forall|i: int|
        0 <= i < olds.len() ==> valid_id(t, #[trigger] news[i]) && space(t, news[i]) == space(
            t,
            olds[i],
        ).union(space(t, hit))
}

/// The rule's prefix written as `ip/len`, by which a rule application is
/// registered.
pub open spec fn rule_text(rule: Rule) -> Seq<char> {
    rule.ip_text() + seq!['/'] + crate::util::text::decimal_text(rule.len())
}

/// Whether a merge can be carried out: with no port there is nothing to
/// look up; otherwise the hit and every old id must be known.
pub open spec fn merge_ids_ok(t: Seq<Bdd>, hit: u32, olds: Seq<u32>) -> bool {
    olds.len() == 0 || (valid_id(t, hit) && ids_valid(t, olds))
}

/// A remembered merge: the key is the hit followed by the old ids.
pub open spec fn merge_entry(t: Seq<Bdd>, k: Seq<u32>, v: Seq<u32>) -> bool {
    &&& k.len() >= 1
    &&& merge_ids_ok(t, k[0], k.subrange(1, k.len() as int))
    &&& merged(t, k[0], k.subrange(1, k.len() as int), v)
}

/// What a memo does in one operation. On a hit the memo stays as it is and
/// the result is what it holds under the key. On a miss the result, if
/// there is one, is taken up under the key.
pub open spec fn memo_step(
    before: Map<Seq<u32>, Seq<u32>>,
    after: Map<Seq<u32>, Seq<u32>>,
    key: Seq<u32>,
    result: Option<Seq<u32>>,
) -> bool {
    if before.contains_key(key) {
        after == before && result == Some(before[key])
    } else {
        match result {
            Some(v) => after == before.insert(key, v),
            None => after == before,
        }
    }
}

/// A counter after one more event; it stops at the largest value.
pub open spec fn bumped(c: usize) -> usize {
    if c < usize::MAX {
        (c + 1) as usize
    } else {
        c
    }
}

fn all_ids_known(table: &BDDTable, ids: &Vec<u32>) -> (r: bool)
    ensures
        r == ids_valid(table@, ids@),
{
    let mut c: usize = 0;
    while c < ids.len()
        invariant
            c <= ids.len(),
            forall|j: int| 0 <= j < c ==> valid_id(table@, #[trigger] ids[j]),
        decreases ids.len() - c,
    {
        if !table.has_id(ids[c]) {
            return false;
        }
        c += 1;
    }
    true
}

fn clone_ids(v: &Vec<u32>) -> (r: Vec<u32>)
    ensures
        r@ == v@,
{
    let mut out: Vec<u32> = Vec::new();
    let mut i: usize = 0;
    while i < v.len()
        invariant
            i <= v.len(),
            out@ == v@.take(i as int),
        decreases v.len() - i,
    {
        out.push(v[i]);
        i += 1;
        assert(out@ =~= v@.take(i as int));
    }
    assert(v@.take(v.len() as int) =~= v@);
    out
}

fn bump(c: usize) -> (r: usize)
    ensures
        r == bumped(c),
{
    if c < usize::MAX {
        c + 1
    } else {
        c
    }
}

/// The memo maps of the primitive and the compositional tier.
pub struct Memos {
    l3_make: PrefixMemo,
    l3_and: IdMemo,
    l3_or: IdMemo,
    l3_not: IdMemo,
    l2_encode_rule: PrefixMemo,
    l2_cal_hit: IdMemo,
    l2_merge_port_space: IdMemo,
}

impl Memos {
    /// Every remembered entry is sound for the table `t` over `n` variables.
    pub closed spec fn sound(&self, t: Seq<Bdd>, n: nat) -> bool {
        &&& forall|k: (Seq<char>, usize)| #[trigger]
            prefix_memo_entries(self.l3_make).contains_key(k) ==> prefix_entry(
                t,
                n,
                k,
                prefix_memo_entries(self.l3_make)[k],
            )
        &&& forall|k: (Seq<char>, usize)| #[trigger]
            prefix_memo_entries(self.l2_encode_rule).contains_key(k) ==> prefix_entry(
                t,
                n,
                k,
                prefix_memo_entries(self.l2_encode_rule)[k],
            )
        &&& forall|k: Seq<u32>| #[trigger]
            id_memo_entries(self.l3_and).contains_key(k) ==> and_entry(
                t,
                k,
                id_memo_entries(self.l3_and)[k],
            )
        &&& forall|k: Seq<u32>| #[trigger]
            id_memo_entries(self.l3_or).contains_key(k) ==> or_entry(
                t,
                k,
                id_memo_entries(self.l3_or)[k],
            )
        &&& forall|k: Seq<u32>| #[trigger]
            id_memo_entries(self.l3_not).contains_key(k) ==> not_entry(
                t,
                n,
                k,
                id_memo_entries(self.l3_not)[k],
            )
        &&& forall|k: Seq<u32>| #[trigger]
            id_memo_entries(self.l2_cal_hit).contains_key(k) ==> hit_entry(
                t,
                k,
                id_memo_entries(self.l2_cal_hit)[k],
            )
        &&& forall|k: Seq<u32>| #[trigger]
            id_memo_entries(self.l2_merge_port_space).contains_key(k) ==> merge_entry(
                t,
                k,
                id_memo_entries(self.l2_merge_port_space)[k],
            )
    }

    /// Entries that are sound for a table are sound for any table that
    /// extends it.
    pub proof fn lemma_sound_grows(&self, t0: Seq<Bdd>, t1: Seq<Bdd>, n: nat)
        requires
            self.sound(t0, n),
            t0.is_prefix_of(t1),
        ensures
            self.sound(t1, n),
    {
        let m = id_memo_entries(self.l2_merge_port_space);
        assert forall|k: Seq<u32>| #[trigger] m.contains_key(k) implies merge_entry(t1, k, m[k]) by {
            let v = m[k];
            assert(merge_entry(t0, k, v));
            let olds = k.subrange(1, k.len() as int);
            assert forall|i: int| 0 <= i < olds.len() implies valid_id(t1, #[trigger] v[i])
                && space(t1, v[i]) == space(t1, olds[i]).union(space(t1, k[0])) by {
                assert(valid_id(t0, olds[i]));
            }
        }
    }
}

pub struct LayerCache {
    memos: Memos,
    l1_complete_rule: WholeMemo,
    l1_hit_cnt: usize,
    l2_hit_cnt: usize,
    l3_hit_cnt: usize,
    miss_cnt: usize,
}

impl LayerCache {
    /// The remembered `make` results.
    pub closed spec fn make_memo(&self) -> Map<(Seq<char>, usize), u32> {
        prefix_memo_entries(self.memos.l3_make)
    }

    /// The remembered conjunctions.
    pub closed spec fn and_memo(&self) -> Map<Seq<u32>, Seq<u32>> {
        id_memo_entries(self.memos.l3_and)
    }

    /// The remembered disjunctions.
    pub closed spec fn or_memo(&self) -> Map<Seq<u32>, Seq<u32>> {
        id_memo_entries(self.memos.l3_or)
    }

    /// The remembered negations.
    pub closed spec fn not_memo(&self) -> Map<Seq<u32>, Seq<u32>> {
        id_memo_entries(self.memos.l3_not)
    }

    /// The remembered rule encodings.
    pub closed spec fn rule_memo(&self) -> Map<(Seq<char>, usize), u32> {
        prefix_memo_entries(self.memos.l2_encode_rule)
    }

    /// The remembered hits.
    pub closed spec fn hit_memo(&self) -> Map<Seq<u32>, Seq<u32>> {
        id_memo_entries(self.memos.l2_cal_hit)
    }

    /// The remembered merges.
    pub closed spec fn merge_memo(&self) -> Map<Seq<u32>, Seq<u32>> {
        id_memo_entries(self.memos.l2_merge_port_space)
    }

    /// The rule applications that were registered as wholes.
    pub closed spec fn complete_memo(&self) -> Map<(Seq<char>, u32, Seq<u32>), (u32, Seq<u32>)> {
        whole_memo_entries(self.l1_complete_rule)
    }

    /// The counters: hits of the holistic, compositional and primitive tier,
    /// then misses.
    pub closed spec fn stats(&self) -> (usize, usize, usize, usize) {
        (self.l1_hit_cnt, self.l2_hit_cnt, self.l3_hit_cnt, self.miss_cnt)
    }

    /// Every remembered entry is sound for the table `t` over `n` variables.
    pub closed spec fn wf(&self, t: Seq<Bdd>, n: nat) -> bool {
        self.memos.sound(t, n)
    }

    /// No counter has gone down since `before`.
    pub open spec fn counted_since(&self, before: &LayerCache) -> bool {
        &&& before.stats().0 <= self.stats().0
        &&& before.stats().1 <= self.stats().1
        &&& before.stats().2 <= self.stats().2
        &&& before.stats().3 <= self.stats().3
    }

    /// What every cache operation keeps: the cache stays sound for the
    /// table, the table only grows, and no counter goes down.
    pub open spec fn step(
        before: &LayerCache,
        table_before: &BDDTable,
        after: &LayerCache,
        table_after: &BDDTable,
    ) -> bool {
        &&& table_after.wf()
        &&& table_after.width() == table_before.width()
        &&& table_after.prefix_ids() == table_before.prefix_ids()
        &&& table_before@.is_prefix_of(table_after@)
        &&& after.wf(table_after@, table_after.width())
        &&& after.counted_since(before)
        &&& after.complete_memo() == before.complete_memo()
    }

    /// Entries that are sound for a table are sound for any table that
    /// extends it.
    pub proof fn lemma_wf_grows(&self, t0: Seq<Bdd>, t1: Seq<Bdd>, n: nat)
        requires
            self.wf(t0, n),
            t0.is_prefix_of(t1),
        ensures
            self.wf(t1, n),
    {
        self.memos.lemma_sound_grows(t0, t1, n);
    }

    /// What the memos say of their entries.
    pub proof fn lemma_entries(&self, t: Seq<Bdd>, n: nat)
        requires
            self.wf(t, n),
        ensures
            forall|k: (Seq<char>, usize)| #[trigger]
                self.make_memo().contains_key(k) ==> prefix_entry(t, n, k, self.make_memo()[k]),
            forall|k: (Seq<char>, usize)| #[trigger]
                self.rule_memo().contains_key(k) ==> prefix_entry(t, n, k, self.rule_memo()[k]),
            forall|k: Seq<u32>| #[trigger]
                self.and_memo().contains_key(k) ==> and_entry(t, k, self.and_memo()[k]),
            forall|k: Seq<u32>| #[trigger]
                self.or_memo().contains_key(k) ==> or_entry(t, k, self.or_memo()[k]),
            forall|k: Seq<u32>| #[trigger]
                self.not_memo().contains_key(k) ==> not_entry(t, n, k, self.not_memo()[k]),
            forall|k: Seq<u32>| #[trigger]
                self.hit_memo().contains_key(k) ==> hit_entry(t, k, self.hit_memo()[k]),
            forall|k: Seq<u32>| #[trigger]
                self.merge_memo().contains_key(k) ==> merge_entry(t, k, self.merge_memo()[k]),
    {
    }

    /// A cache with nothing remembered and all counters at zero.
    pub fn init() -> (r: LayerCache)
        ensures
            r.stats() == (0usize, 0usize, 0usize, 0usize),
            forall|t: Seq<Bdd>, n: nat| r.wf(t, n),
            (r.complete_memo() == Map::<(Seq<char>, u32, Seq<u32>), (u32, Seq<u32>)>::empty()),
    {
        LayerCache {
            l1_complete_rule: whole_memo_new(),
            memos: Memos {
                l3_make: prefix_memo_new(),
                l3_and: id_memo_new(),
                l3_or: id_memo_new(),
                l3_not: id_memo_new(),
                l2_encode_rule: prefix_memo_new(),
                l2_cal_hit: id_memo_new(),
                l2_merge_port_space: id_memo_new(),
            },
            l1_hit_cnt: 0,
            l2_hit_cnt: 0,
            l3_hit_cnt: 0,
            miss_cnt: 0,
        }
    }

    /// The id of the diagram of the prefix `ip/prefix_len`.
    pub fn l3_make(&mut self, engine: &Engine, table: &mut BDDTable, ip: &str, prefix_len: usize) -> (r:
        Result<u32, EngineError>)
        requires
            engine.wf(),
            old(table).wf(),
            old(table).width() == engine.width(),
            old(self).wf(old(table)@, old(table).width()),
        ensures
            LayerCache::step(old(self), old(table), final(self), final(table)),
            final(table)@.len() <= old(table)@.len() + 1,
            match r {
                Ok(id) => prefix_entry(
                    final(table)@,
                    engine.width(),
                    (ip@, prefix_len),
                    id,
                ),
                Err(e) => final(table)@ == old(table)@ && if prefix_ok(
                    engine.width(),
                    ip@,
                    prefix_len as nat,
                ) {
                    e == EngineError::TableFull && old(table)@.len() == u32::MAX
                } else {
                    e == EngineError::BadPrefix
                },
            },
            final(self).stats().0 == old(self).stats().0,
            final(self).stats().1 == old(self).stats().1,
            final(self).stats().2 == if old(self).make_memo().contains_key((ip@, prefix_len)) {
                bumped(old(self).stats().2)
            } else {
                old(self).stats().2
            },
            final(self).stats().3 == if old(self).make_memo().contains_key((ip@, prefix_len)) {
                old(self).stats().3
            } else {
                bumped(old(self).stats().3)
            },
    {
        match prefix_memo_get(&self.memos.l3_make, ip, prefix_len) {
            Some(id) => {
                self.l3_hit_cnt = bump(self.l3_hit_cnt);
                return Ok(id);
            },
            None => {},
        }
        self.miss_cnt = bump(self.miss_cnt);
        let bdd = match engine.encode_dst_ip_prefix_clause(ip, prefix_len) {
            Ok(b) => b,
            Err(e) => {
                return Err(e);
            },
        };
        let ghost t0 = table@;
        let id = match table.insert_bdd(bdd) {
            Ok(id) => id,
            Err(e) => {
                return Err(e);
            },
        };
        proof {
            self.lemma_wf_grows(t0, table@, table.width());
        }
        prefix_memo_insert(&mut self.memos.l3_make, ip, prefix_len, id);
        Ok(id)
    }

    /// The id of the conjunction of the diagrams `a_id` and `b_id`.
    pub fn l3_and(&mut self, table: &mut BDDTable, a_id: u32, b_id: u32) -> (r: Result<
        u32,
        EngineError,
    >)
        requires
            old(table).wf(),
            old(self).wf(old(table)@, old(table).width()),
        ensures
            LayerCache::step(old(self), old(table), final(self), final(table)),
            final(table)@.len() <= old(table)@.len() + 1,
            (memo_step(
                old(self).and_memo(),
                final(self).and_memo(),
                seq![a_id, b_id],
                match r {
                    Ok(out) => Some(seq![out]),
                    Err(_) => None,
                },
            )),
            old(self).and_memo().contains_key(seq![a_id, b_id]) ==> final(table)@ == old(table)@,
            match r {
                Ok(id) => valid_id(old(table)@, a_id) && valid_id(old(table)@, b_id) && valid_id(
                    final(table)@,
                    id,
                ) && space(final(table)@, id) == space(old(table)@, a_id).intersect(
                    space(old(table)@, b_id),
                ),
                Err(e) => final(table)@ == old(table)@ && if valid_id(old(table)@, a_id)
                    && valid_id(old(table)@, b_id) {
                    e == EngineError::TableFull && old(table)@.len() == u32::MAX
                } else {
                    e == EngineError::UnknownId
                },
            },
            final(self).merge_memo() == old(self).merge_memo(),
            final(self).hit_memo() == old(self).hit_memo(),
            final(self).stats().0 == old(self).stats().0,
            final(self).stats().1 == old(self).stats().1,
            final(self).stats().2 == if old(self).and_memo().contains_key(seq![a_id, b_id]) {
                bumped(old(self).stats().2)
            } else {
                old(self).stats().2
            },
    {
        let key: Vec<u32> = vec![a_id, b_id];
        assert(key@ =~= seq![a_id, b_id]);
        match id_memo_get(&self.memos.l3_and, &key) {
            Some(v) => {
                self.l3_hit_cnt = bump(self.l3_hit_cnt);
                let id = v[0];
                assert(seq![id] =~= v@);
                return Ok(id);
            },
            None => {},
        }
        if !table.has_id(a_id) || !table.has_id(b_id) {
            return Err(EngineError::UnknownId);
        }
        self.miss_cnt = bump(self.miss_cnt);
        proof {
            table.lemma_table_ok();
        }
        let result_bdd = table.bdd_ref(a_id).and(table.bdd_ref(b_id));
        let ghost t0 = table@;
        let id = match table.insert_bdd(result_bdd) {
            Ok(id) => id,
            Err(e) => {
                return Err(e);
            },
        };
        proof {
            self.lemma_wf_grows(t0, table@, table.width());
        }
        let value: Vec<u32> = vec![id];
        assert(value@ =~= seq![id]);
        id_memo_insert(&mut self.memos.l3_and, key, value);
        Ok(id)
    }

    /// The id of the disjunction of the diagrams `a_id` and `b_id`.
    pub fn l3_or(&mut self, table: &mut BDDTable, a_id: u32, b_id: u32) -> (r: Result<
        u32,
        EngineError,
    >)
        requires
            old(table).wf(),
            old(self).wf(old(table)@, old(table).width()),
        ensures
            LayerCache::step(old(self), old(table), final(self), final(table)),
            final(table)@.len() <= old(table)@.len() + 1,
            (memo_step(
                old(self).or_memo(),
                final(self).or_memo(),
                seq![a_id, b_id],
                match r {
                    Ok(out) => Some(seq![out]),
                    Err(_) => None,
                },
            )),
            old(self).or_memo().contains_key(seq![a_id, b_id]) ==> final(table)@ == old(table)@,
            match r {
                Ok(id) => valid_id(old(table)@, a_id) && valid_id(old(table)@, b_id) && valid_id(
                    final(table)@,
                    id,
                ) && space(final(table)@, id) == space(old(table)@, a_id).union(
                    space(old(table)@, b_id),
                ),
                Err(e) => final(table)@ == old(table)@ && if valid_id(old(table)@, a_id)
                    && valid_id(old(table)@, b_id) {
                    e == EngineError::TableFull && old(table)@.len() == u32::MAX
                } else {
                    e == EngineError::UnknownId
                },
            },
            final(self).stats().0 == old(self).stats().0,
            final(self).stats().1 == old(self).stats().1,
            final(self).merge_memo() == old(self).merge_memo(),
            final(self).hit_memo() == old(self).hit_memo(),
            final(self).stats().2 == if old(self).or_memo().contains_key(seq![a_id, b_id]) {
                bumped(old(self).stats().2)
            } else {
                old(self).stats().2
            },
    {
        let key: Vec<u32> = vec![a_id, b_id];
        assert(key@ =~= seq![a_id, b_id]);
        match id_memo_get(&self.memos.l3_or, &key) {
            Some(v) => {
                self.l3_hit_cnt = bump(self.l3_hit_cnt);
                let id = v[0];
                assert(seq![id] =~= v@);
                return Ok(id);
            },
            None => {},
        }
        if !table.has_id(a_id) || !table.has_id(b_id) {
            return Err(EngineError::UnknownId);
        }
        self.miss_cnt = bump(self.miss_cnt);
        proof {
            table.lemma_table_ok();
        }
        let result_bdd = table.bdd_ref(a_id).or(table.bdd_ref(b_id));
        let ghost t0 = table@;
        let id = match table.insert_bdd(result_bdd) {
            Ok(id) => id,
            Err(e) => {
                return Err(e);
            },
        };
        proof {
            self.lemma_wf_grows(t0, table@, table.width());
        }
        let value: Vec<u32> = vec![id];
        assert(value@ =~= seq![id]);
        id_memo_insert(&mut self.memos.l3_or, key, value);
        Ok(id)
    }

    /// The id of the negation of the diagram `id`.
    pub fn l3_not(&mut self, table: &mut BDDTable, id: u32) -> (r: Result<u32, EngineError>)
        requires
            old(table).wf(),
            old(self).wf(old(table)@, old(table).width()),
        ensures
            LayerCache::step(old(self), old(table), final(self), final(table)),
            final(table)@.len() <= old(table)@.len() + 1,
            (memo_step(
                old(self).not_memo(),
                final(self).not_memo(),
                seq![id],
                match r {
                    Ok(out) => Some(seq![out]),
                    Err(_) => None,
                },
            )),
            old(self).not_memo().contains_key(seq![id]) ==> final(table)@ == old(table)@,
            match r {
                Ok(out) => valid_id(old(table)@, id) && valid_id(final(table)@, out) && space(
                    final(table)@,
                    out,
                ) == all_valuations(old(table).width()).difference(space(old(table)@, id)),
                Err(e) => final(table)@ == old(table)@ && if valid_id(old(table)@, id) {
                    e == EngineError::TableFull && old(table)@.len() == u32::MAX
                } else {
                    e == EngineError::UnknownId
                },
            },
            final(self).merge_memo() == old(self).merge_memo(),
            final(self).hit_memo() == old(self).hit_memo(),
            final(self).stats().0 == old(self).stats().0,
            final(self).stats().1 == old(self).stats().1,
            final(self).stats().2 == if old(self).not_memo().contains_key(seq![id]) {
                bumped(old(self).stats().2)
            } else {
                old(self).stats().2
            },
    {
        let key: Vec<u32> = vec![id];
        assert(key@ =~= seq![id]);
        match id_memo_get(&self.memos.l3_not, &key) {
            Some(v) => {
                self.l3_hit_cnt = bump(self.l3_hit_cnt);
                let out = v[0];
                assert(seq![out] =~= v@);
                return Ok(out);
            },
            None => {},
        }
        if !table.has_id(id) {
            return Err(EngineError::UnknownId);
        }
        self.miss_cnt = bump(self.miss_cnt);
        proof {
            table.lemma_table_ok();
        }
        let result_bdd = table.bdd_ref(id).not();
        let ghost t0 = table@;
        let out = match table.insert_bdd(result_bdd) {
            Ok(out) => out,
            Err(e) => {
                return Err(e);
            },
        };
        proof {
            self.lemma_wf_grows(t0, table@, table.width());
        }
        let value: Vec<u32> = vec![out];
        assert(value@ =~= seq![out]);
        id_memo_insert(&mut self.memos.l3_not, key, value);
        Ok(out)
    }

    /// The id of the diagram that the rule prefix `ip/prefix_len` matches.
    pub fn l2_encode_rule(
        &mut self,
        engine: &Engine,
        table: &mut BDDTable,
        ip: &str,
        prefix_len: usize,
    ) -> (r: Result<u32, EngineError>)
        requires
            engine.wf(),
            old(table).wf(),
            old(table).width() == engine.width(),
            old(self).wf(old(table)@, old(table).width()),
        ensures
            LayerCache::step(old(self), old(table), final(self), final(table)),
            final(table)@.len() <= old(table)@.len() + 1,
            match r {
                Ok(id) => prefix_entry(
                    final(table)@,
                    engine.width(),
                    (ip@, prefix_len),
                    id,
                ),
                Err(e) => final(table)@ == old(table)@ && if prefix_ok(
                    engine.width(),
                    ip@,
                    prefix_len as nat,
                ) {
                    e == EngineError::TableFull && old(table)@.len() == u32::MAX
                } else {
                    e == EngineError::BadPrefix
                },
            },
            final(self).stats().1 == if old(self).rule_memo().contains_key((ip@, prefix_len)) {
                bumped(old(self).stats().1)
            } else {
                old(self).stats().1
            },
    {
        match prefix_memo_get(&self.memos.l2_encode_rule, ip, prefix_len) {
            Some(id) => {
                self.l2_hit_cnt = bump(self.l2_hit_cnt);
                return Ok(id);
            },
            None => {},
        }
        let id = match self.l3_make(engine, table, ip, prefix_len) {
            Ok(id) => id,
            Err(e) => {
                return Err(e);
            },
        };
        prefix_memo_insert(&mut self.memos.l2_encode_rule, ip, prefix_len, id);
        Ok(id)
    }

    /// The hit of a rule and the space used after it: for the prefix
    /// `prefix_bdd_id` and the space `used_space_id` taken by earlier rules,
    /// returns the ids of `prefix & !used` and of `used | hit`.
    pub fn l2_cal_hit(&mut self, table: &mut BDDTable, prefix_bdd_id: u32, used_space_id: u32) -> (r:
        Result<(u32, u32), EngineError>)
        requires
            old(table).wf(),
            old(self).wf(old(table)@, old(table).width()),
        ensures
            LayerCache::step(old(self), old(table), final(self), final(table)),
            final(table)@.len() <= old(table)@.len() + 3,
            (memo_step(
                old(self).hit_memo(),
                final(self).hit_memo(),
                seq![prefix_bdd_id, used_space_id],
                match r {
                    Ok(out) => Some(seq![out.0, out.1]),
                    Err(_) => None,
                },
            )),
            old(self).hit_memo().contains_key(seq![prefix_bdd_id, used_space_id]) ==> final(table)@ == old(table)@,
            match r {
                Ok(p) => valid_id(old(table)@, prefix_bdd_id) && valid_id(
                    old(table)@,
                    used_space_id,
                ) && valid_id(final(table)@, p.0) && valid_id(final(table)@, p.1) && space(
                    final(table)@,
                    p.0,
                ) == space(old(table)@, prefix_bdd_id).difference(
                    space(old(table)@, used_space_id),
                ) && space(final(table)@, p.1) == space(old(table)@, used_space_id).union(
                    space(old(table)@, prefix_bdd_id),
                ),
                Err(e) => if valid_id(old(table)@, prefix_bdd_id) && valid_id(
                    old(table)@,
                    used_space_id,
                ) {
                    e == EngineError::TableFull && final(table)@.len() == u32::MAX
                } else {
                    e == EngineError::UnknownId && final(table)@ == old(table)@
                },
            },
            final(self).stats().1 == if old(self).hit_memo().contains_key(
                seq![prefix_bdd_id, used_space_id],
            ) {
                bumped(old(self).stats().1)
            } else {
                old(self).stats().1
            },
    {
        let key: Vec<u32> = vec![prefix_bdd_id, used_space_id];
        assert(key@ =~= seq![prefix_bdd_id, used_space_id]);
        match id_memo_get(&self.memos.l2_cal_hit, &key) {
            Some(v) => {
                self.l2_hit_cnt = bump(self.l2_hit_cnt);
                let p = (v[0], v[1]);
                assert(seq![p.0, p.1] =~= v@);
                return Ok(p);
            },
            None => {},
        }
        if !table.has_id(prefix_bdd_id) || !table.has_id(used_space_id) {
            return Err(EngineError::UnknownId);
        }
        let ghost n = table.width();
        let ghost t0 = table@;
        proof {
            table.lemma_table_ok();
        }
        let not_used_space_id = match self.l3_not(table, used_space_id) {
            Ok(id) => id,
            Err(e) => {
                return Err(e);
            },
        };
        let ghost t1 = table@;
        let hit_id = match self.l3_and(table, prefix_bdd_id, not_used_space_id) {
            Ok(id) => id,
            Err(e) => {
                return Err(e);
            },
        };
        let ghost t2 = table@;
        let new_used_space_id = match self.l3_or(table, used_space_id, hit_id) {
            Ok(id) => id,
            Err(e) => {
                return Err(e);
            },
        };
        proof {
            let t3 = table@;
            let p = space(t0, prefix_bdd_id);
            let u = space(t0, used_space_id);
            assert(space(t1, not_used_space_id) == all_valuations(n).difference(u));
            assert(space(t2, hit_id) == p.intersect(all_valuations(n).difference(u)));
            assert(p.subset_of(all_valuations(n)));
            assert(space(t3, hit_id) =~= p.difference(u));
            assert(space(t3, new_used_space_id) =~= u.union(p));
        }
        let value: Vec<u32> = vec![hit_id, new_used_space_id];
        assert(value@ =~= seq![hit_id, new_used_space_id]);
        id_memo_insert(&mut self.memos.l2_cal_hit, key, value);
        Ok((hit_id, new_used_space_id))
    }

    /// Merges a hit into a list of port spaces: returns, for each old id in
    /// order, the id of its union with the hit.
    pub fn l2_merge_port_space(&mut self, table: &mut BDDTable, hit_id: u32, old_port_space_ids: &Vec<u32>) -> (r:
        Result<Vec<u32>, EngineError>)
        requires
            old(table).wf(),
            old(self).wf(old(table)@, old(table).width()),
        ensures
            LayerCache::step(old(self), old(table), final(self), final(table)),
            final(table)@.len() <= old(table)@.len() + old_port_space_ids.len(),
            (memo_step(
                old(self).merge_memo(),
                final(self).merge_memo(),
                seq![hit_id] + old_port_space_ids@,
                match r {
                    Ok(out) => Some(out@),
                    Err(_) => None,
                },
            )),
            old(self).merge_memo().contains_key(seq![hit_id] + old_port_space_ids@) ==> final(table)@ == old(table)@,
            match r {
                Ok(news) => merge_ids_ok(old(table)@, hit_id, old_port_space_ids@) && merged(
                    final(table)@,
                    hit_id,
                    old_port_space_ids@,
                    news@,
                ),
                Err(e) => if merge_ids_ok(old(table)@, hit_id, old_port_space_ids@) {
                    e == EngineError::TableFull && final(table)@.len() == u32::MAX
                } else {
                    e == EngineError::UnknownId
                },
            },
            final(self).stats().1 == if old(self).merge_memo().contains_key(
                seq![hit_id] + old_port_space_ids@,
            ) {
                bumped(old(self).stats().1)
            } else {
                old(self).stats().1
            },
    {
        let mut key: Vec<u32> = Vec::new();
        key.push(hit_id);
        let mut c: usize = 0;
        while c < old_port_space_ids.len()
            invariant
                c <= old_port_space_ids.len(),
                key@ == seq![hit_id] + old_port_space_ids@.take(c as int),
            decreases old_port_space_ids.len() - c,
        {
            key.push(old_port_space_ids[c]);
            c += 1;
            assert(key@ =~= seq![hit_id] + old_port_space_ids@.take(c as int));
        }
        assert(old_port_space_ids@.take(c as int) =~= old_port_space_ids@);
        assert(key@.subrange(1, key@.len() as int) =~= old_port_space_ids@);
        assert(key@[0] == hit_id);
        match id_memo_get(&self.memos.l2_merge_port_space, &key) {
            Some(v) => {
                self.l2_hit_cnt = bump(self.l2_hit_cnt);
                return Ok(v);
            },
            None => {},
        }
        let ghost t0 = table@;
        let ghost olds = old_port_space_ids@;
        if old_port_space_ids.len() > 0 && !(table.has_id(hit_id) && all_ids_known(
            table,
            old_port_space_ids,
        )) {
            return Err(EngineError::UnknownId);
        }
        assert(merge_ids_ok(t0, hit_id, olds));
        let mut news: Vec<u32> = Vec::new();
        let mut i: usize = 0;
        while i < old_port_space_ids.len()
            invariant
                i <= old_port_space_ids.len(),
                olds == old_port_space_ids@,
                t0 == old(table)@,
                merge_ids_ok(t0, hit_id, olds),
                !old(self).merge_memo().contains_key(seq![hit_id] + old_port_space_ids@),
                LayerCache::step(old(self), old(table), self, table),
                self.stats().1 == old(self).stats().1,
                self.merge_memo() == old(self).merge_memo(),
                table@.len() <= t0.len() + i,
                news.len() == i,
                forall|j: int|
                    0 <= j < i ==> valid_id(table@, #[trigger] news[j]) && space(table@, news[j])
                        == space(t0, olds[j]).union(space(t0, hit_id)),
            decreases old_port_space_ids.len() - i,
        {
            let ghost t1 = table@;
            let ghost news1 = news@;
            assert(valid_id(t0, olds[i as int]));
            let id = match self.l3_or(table, old_port_space_ids[i], hit_id) {
                Ok(id) => id,
                Err(e) => {
                    return Err(e);
                },
            };
            news.push(id);
            proof {
                assert(forall|j: int| 0 <= j < i ==> news[j] == news1[j]);
                assert forall|j: int| 0 <= j < i + 1 implies valid_id(table@, #[trigger] news[j])
                    && space(table@, news[j]) == space(t0, olds[j]).union(space(t0, hit_id)) by {
                    if j < i {
                        assert(valid_id(t1, news1[j]));
                    }
                }
            }
            i += 1;
        }
        proof {
            assert(merged(table@, hit_id, olds, news@)) by {
                assert forall|j: int| 0 <= j < olds.len() implies valid_id(table@, #[trigger] news[j])
                    && space(table@, news[j]) == space(table@, olds[j]).union(
                    space(table@, hit_id),
                ) by {
                    assert(valid_id(t0, olds[j]));
                }
            }
        }
        let value = clone_ids(&news);
        id_memo_insert(&mut self.memos.l2_merge_port_space, key, value);
        Ok(news)
    }

    /// Looks up a rule application that was registered as a whole: for the
    /// rule, the space used before it and the ids of its ports, in their
    /// order, the space used after it and the new ids of the ports. Nothing
    /// is computed; a rule application that was not registered is not
    /// found.
    pub fn l1_complete_rule(&mut self, rule: &Rule, used_space_id: u32, port_space_ids: &[u32]) -> (r:
        Option<(u32, Vec<u32>)>)
        ensures
            final(self).complete_memo() == old(self).complete_memo(),
            forall|t: Seq<Bdd>, n: nat| old(self).wf(t, n) ==> final(self).wf(t, n),
            ({
                let key = (rule_text(*rule), used_space_id, port_space_ids@);
                match r {
                    Some(v) => old(self).complete_memo().contains_key(key) && (v.0, v.1@) == old(
                        self,
                    ).complete_memo()[key] && final(self).stats().0 == bumped(old(self).stats().0),
                    None => !old(self).complete_memo().contains_key(key) && final(self).stats().0
                        == old(self).stats().0,
                }
            }),
            final(self).stats().1 == old(self).stats().1,
            final(self).stats().2 == old(self).stats().2,
            final(self).stats().3 == old(self).stats().3,
    {
        let rule_descriptor = rule.get_name();
        match whole_memo_get(
            &self.l1_complete_rule,
            rule_descriptor.as_str(),
            used_space_id,
            port_space_ids,
        ) {
            Some(v) => {
                self.l1_hit_cnt = bump(self.l1_hit_cnt);
                Some(v)
            },
            None => None,
        }
    }

    /// Registers a rule application as a whole, in place of what was
    /// registered for the same rule, used space and port ids before.
    pub fn l1_cache_result(
        &mut self,
        rule: &Rule,
        used_space_id: u32,
        port_space_ids: &[u32],
        new_used_space_id: u32,
        new_port_space_ids: &[u32],
    )
        ensures
            final(self).complete_memo() == old(self).complete_memo().insert(
                (rule_text(*rule), used_space_id, port_space_ids@),
                (new_used_space_id, new_port_space_ids@),
            ),
            final(self).stats() == old(self).stats(),
            forall|t: Seq<Bdd>, n: nat| old(self).wf(t, n) ==> final(self).wf(t, n),
    {
        let rule_descriptor = rule.get_name();
        whole_memo_insert(
            &mut self.l1_complete_rule,
            rule_descriptor.as_str(),
            used_space_id,
            port_space_ids,
            new_used_space_id,
            new_port_space_ids,
        );
    }

    /// The id of the disjunction of two diagrams.
    pub fn cached_or(&mut self, table: &mut BDDTable, a_id: u32, b_id: u32) -> (r: Result<
        u32,
        EngineError,
    >)
        requires
            old(table).wf(),
            old(self).wf(old(table)@, old(table).width()),
        ensures
            LayerCache::step(old(self), old(table), final(self), final(table)),
            final(table)@.len() <= old(table)@.len() + 1,
            match r {
                Ok(id) => valid_id(old(table)@, a_id) && valid_id(old(table)@, b_id) && valid_id(
                    final(table)@,
                    id,
                ) && space(final(table)@, id) == space(old(table)@, a_id).union(
                    space(old(table)@, b_id),
                ),
                Err(e) => final(table)@ == old(table)@ && if valid_id(old(table)@, a_id)
                    && valid_id(old(table)@, b_id) {
                    e == EngineError::TableFull && old(table)@.len() == u32::MAX
                } else {
                    e == EngineError::UnknownId
                },
            },
    {
        self.l3_or(table, a_id, b_id)
    }

    /// The part of `bdd_hit_id` that `all_bdd_id` does not hold yet, and
    /// `all_bdd_id` with that part added: returns the ids of `all | hit` and
    /// of `hit & !all`, in that order.
    pub fn cached_prefix_match(&mut self, table: &mut BDDTable, all_bdd_id: u32, bdd_hit_id: u32) -> (r:
        Result<(u32, u32), EngineError>)
        requires
            old(table).wf(),
            old(self).wf(old(table)@, old(table).width()),
        ensures
            LayerCache::step(old(self), old(table), final(self), final(table)),
            final(table)@.len() <= old(table)@.len() + 3,
            match r {
                Ok(p) => valid_id(old(table)@, bdd_hit_id) && valid_id(old(table)@, all_bdd_id)
                    && valid_id(final(table)@, p.0) && valid_id(final(table)@, p.1) && space(
                    final(table)@,
                    p.1,
                ) == space(old(table)@, bdd_hit_id).difference(space(old(table)@, all_bdd_id))
                    && space(final(table)@, p.0) == space(old(table)@, all_bdd_id).union(
                    space(old(table)@, bdd_hit_id),
                ),
                Err(e) => if valid_id(old(table)@, bdd_hit_id) && valid_id(
                    old(table)@,
                    all_bdd_id,
                ) {
                    e == EngineError::TableFull && final(table)@.len() == u32::MAX
                } else {
                    e == EngineError::UnknownId && final(table)@ == old(table)@
                },
            },
    {
        match self.l2_cal_hit(table, bdd_hit_id, all_bdd_id) {
            Ok(p) => Ok((p.1, p.0)),
            Err(e) => Err(e),
        }
    }

    /// Whether the two diagrams have a header in common.
    pub fn cached_relevance(&mut self, table: &mut BDDTable, all_space_id: u32, bdd_match_id: u32) -> (r:
        Result<bool, EngineError>)
        requires
            old(table).wf(),
            old(self).wf(old(table)@, old(table).width()),
        ensures
            LayerCache::step(old(self), old(table), final(self), final(table)),
            final(table)@.len() <= old(table)@.len() + 1,
            match r {
                Ok(relevant) => valid_id(old(table)@, all_space_id) && valid_id(
                    old(table)@,
                    bdd_match_id,
                ) && relevant == !(space(old(table)@, all_space_id).intersect(
                    space(old(table)@, bdd_match_id),
                ) == Set::<Seq<bool>>::empty()),
                Err(e) => final(table)@ == old(table)@ && if valid_id(old(table)@, all_space_id)
                    && valid_id(old(table)@, bdd_match_id) {
                    e == EngineError::TableFull && old(table)@.len() == u32::MAX
                } else {
                    e == EngineError::UnknownId
                },
            },
    {
        let ghost t0 = table@;
        let intersection_id = match self.l3_and(table, all_space_id, bdd_match_id) {
            Ok(id) => id,
            Err(e) => {
                return Err(e);
            },
        };
        Ok(!table.bdd_ref(intersection_id).is_false())
    }

    /// The counters: hits of the holistic, compositional and primitive tier,
    /// then misses.
    pub fn get_cache_stats(&self) -> (r: (usize, usize, usize, usize))
        ensures
            r == self.stats(),
    {
        (self.l1_hit_cnt, self.l2_hit_cnt, self.l3_hit_cnt, self.miss_cnt)
    }
}

} // verus!
