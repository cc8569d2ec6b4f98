//! The canonical table: every diagram the engine has seen, each under one id.
//!
//! Ids start at 1 and are handed out in order, so the table is the sequence
//! of its diagrams and the diagram with id `k` stands at position `k - 1`.
//! Nothing is ever removed or renumbered.
use crate::kernel::{bdd_reduced, bdd_sat, is_space};
use crate::memo::{
    bdd_index_entries, bdd_index_get, bdd_index_insert, bdd_index_new, prefix_memo_entries,
    prefix_memo_get, prefix_memo_insert, prefix_memo_new, BddIndex, PrefixMemo,
};
use crate::util::npbdd::EngineError;
use biodivine_lib_bdd::Bdd;
use vstd::prelude::*;

verus! {

/// Whether `id` was handed out by a table that holds `t`.
pub open spec fn valid_id(t: Seq<Bdd>, id: u32) -> bool {
    1 <= id <= t.len()
}

/// The header set of the diagram with the given id.
pub open spec fn space(t: Seq<Bdd>, id: u32) -> Set<Seq<bool>> {
    bdd_sat(t[id - 1])
}

/// What holds of the diagrams of a table over `n` variables: they can all be
/// numbered, none occurs twice, and each is a reduced space of width `n`.
pub open spec fn table_ok(t: Seq<Bdd>, n: nat) -> bool {
    &&& t.len() <= u32::MAX
    &&& t.no_duplicates()
    &&& forall|i: int| 0 <= i < t.len() ==> is_space(#[trigger] t[i], n) && bdd_reduced(t[i])
}

/// The table after `b` is inserted: unchanged when `b` is there already or
/// no id is left, else with `b` at the end.
pub open spec fn table_insert(t: Seq<Bdd>, b: Bdd) -> Seq<Bdd> {
    if t.contains(b) || t.len() >= u32::MAX {
        t
    } else {
        t.push(b)
    }
}

/// The id under which the table holds `b`, if it does.
pub open spec fn table_id(t: Seq<Bdd>, b: Bdd) -> Option<u32> {
    if t.contains(b) {
        Some((t.index_of(b) + 1) as u32)
    } else {
        None
    }
}

/// The diagram that the table holds under `id`, if any.
pub open spec fn table_get(t: Seq<Bdd>, id: u32) -> Option<Bdd> {
    if valid_id(t, id) {
        Some(t[id - 1])
    } else {
        None
    }
}

pub struct BDDTable {
    bdds: Vec<Bdd>,
    index: BddIndex,
    prefix_ids: PrefixMemo,
    num_vars: usize,
}

impl View for BDDTable {
    type V = Seq<Bdd>;

    /// The diagrams in id order.
    closed spec fn view(&self) -> Seq<Bdd> {
        self.bdds@
    }
}

impl BDDTable {
    /// The number of variables of every diagram in the table.
    pub closed spec fn width(&self) -> nat {
        self.num_vars as nat
    }

    /// The ids interned under textual prefixes.
    pub closed spec fn prefix_ids(&self) -> Map<(Seq<char>, usize), u32> {
        prefix_memo_entries(self.prefix_ids)
    }

    /// The table's diagrams are as `table_ok` says and the index from
    /// diagrams to ids agrees with their positions.
    pub closed spec fn wf(&self) -> bool {
        &&& table_ok(self.bdds@, self.num_vars as nat)
        &&& forall|i: int|
            0 <= i < self.bdds.len() ==> bdd_index_entries(self.index).contains_key(
                #[trigger] self.bdds[i],
            ) && bdd_index_entries(self.index)[self.bdds[i]] == i + 1
        &&& forall|b: Bdd| #[trigger]
            bdd_index_entries(self.index).contains_key(b) ==> 1 <= bdd_index_entries(
                self.index,
            )[b] <= self.bdds.len() && self.bdds[bdd_index_entries(self.index)[b] - 1] == b
    }

    /// A well-formed table satisfies `table_ok`.
    pub proof fn lemma_table_ok(&self)
        requires
            self.wf(),
        ensures
            table_ok(self@, self.width()),
    {
    }

    /// An empty table for diagrams over `num_vars` variables.
    pub fn init(num_vars: usize) -> (r: BDDTable)
        ensures
            r.wf(),
            r@ == Seq::<Bdd>::empty(),
            r.width() == num_vars,
            r.prefix_ids() == Map::<(Seq<char>, usize), u32>::empty(),
    {
        BDDTable {
            bdds: Vec::new(),
            index: bdd_index_new(),
            prefix_ids: prefix_memo_new(),
            num_vars,
        }
    }

    /// The id that the next new diagram will get.
    pub fn get_next_id(&self) -> (r: u64)
        requires
            self.wf(),
        ensures
            r == self@.len() + 1,
    {
        self.bdds.len() as u64 + 1
    }

    /// The number of ids handed out.
    pub fn get_id_num(&self) -> (r: usize)
        ensures
            r == self@.len(),
    {
        self.bdds.len()
    }

    /// The number of diagrams held, which is the number of ids.
    pub fn get_bdd_num(&self) -> (r: usize)
        ensures
            r == self@.len(),
    {
        self.bdds.len()
    }

    /// Returns the id of `bdd`, giving it the next id if the table does not
    /// hold it yet. Fails only when a new id is needed and none is left.
    pub fn insert_bdd(&mut self, bdd: Bdd) -> (r: Result<u32, EngineError>)
        requires
            old(self).wf(),
            is_space(bdd, old(self).width()),
            bdd_reduced(bdd),
        ensures
            final(self).wf(),
            final(self).width() == old(self).width(),
            final(self).prefix_ids() == old(self).prefix_ids(),
            final(self)@ == table_insert(old(self)@, bdd),
            match r {
                Ok(id) => table_id(final(self)@, bdd) == Some(id) && valid_id(final(self)@, id)
                    && final(self)@[id - 1] == bdd,
                Err(e) => e == EngineError::TableFull && table_id(final(self)@, bdd).is_none()
                    && final(self)@ == old(self)@ && old(self)@.len() == u32::MAX,
            },
    {
        match bdd_index_get(&self.index, &bdd) {
            Some(id) => {
                proof {
                    assert(self.bdds@[id - 1] == bdd);
                    assert(self.bdds@.contains(bdd));
                }
                Ok(id)
            },
            None => {
                proof {
                    if self.bdds@.contains(bdd) {
                        let i = self.bdds@.index_of(bdd);
                        assert(bdd_index_entries(self.index).contains_key(self.bdds[i]));
                    }
                }
                if self.bdds.len() >= u32::MAX as usize {
                    return Err(EngineError::TableFull);
                }
                let id: u32 = (self.bdds.len() + 1) as u32;
                let ghost before = self.bdds@;
                let ghost entries = bdd_index_entries(self.index);
                self.bdds.push(bdd.clone());
                bdd_index_insert(&mut self.index, bdd, id);
                proof {
                    let after = self.bdds@;
                    assert(after == before.push(bdd));
                    assert(after[id - 1] == bdd);
                    assert(after.contains(bdd));
                    assert forall|i: int, j: int|
                        0 <= i < after.len() && 0 <= j < after.len() && i != j implies after[i]
                        != after[j] by {
                        if i < before.len() {
                            assert(before.contains(before[i]));
                        }
                        if j < before.len() {
                            assert(before.contains(before[j]));
                        }
                    }
                    assert forall|i: int| 0 <= i < after.len() implies bdd_index_entries(
                        self.index,
                    ).contains_key(#[trigger] after[i]) && bdd_index_entries(self.index)[after[i]]
                        == i + 1 by {
                        if i < before.len() {
                            assert(before.contains(before[i]));
                            assert(entries.contains_key(before[i]));
                        }
                    }
                    assert forall|b: Bdd| #[trigger]
                        bdd_index_entries(self.index).contains_key(b) implies 1
                        <= bdd_index_entries(self.index)[b] <= after.len() && after[bdd_index_entries(
                        self.index,
                    )[b] - 1] == b by {
                        if b != bdd {
                            assert(entries.contains_key(b));
                        }
                    }
                }
                Ok(id)
            },
        }
    }

    /// A copy of the diagram held under `id`.
    pub fn get_bdd_by_id(&self, id: u32) -> (r: Option<Bdd>)
        ensures
            r == table_get(self@, id),
    {
        if 1 <= id && id as usize <= self.bdds.len() {
            Some(self.bdds[id as usize - 1].clone())
        } else {
            None
        }
    }

    /// The diagram held under `id`.
    pub fn bdd_ref(&self, id: u32) -> (r: &Bdd)
        requires
            valid_id(self@, id),
        ensures
            *r == self@[id - 1],
            self.wf() ==> is_space(*r, self.width()) && bdd_reduced(*r),
    {
        &self.bdds[id as usize - 1]
    }

    /// Whether the table holds a diagram under `id`.
    pub fn has_id(&self, id: u32) -> (r: bool)
        ensures
            r == valid_id(self@, id),
    {
        1 <= id && id as usize <= self.bdds.len()
    }

    /// The id interned under the textual prefix `ip/prefix_len`, if any.
    pub fn prefix_id(&self, ip: &str, prefix_len: usize) -> (r: Option<u32>)
        ensures
            r == if self.prefix_ids().contains_key((ip@, prefix_len)) {
                Some(self.prefix_ids()[(ip@, prefix_len)])
            } else {
                None
            },
    {
        prefix_memo_get(&self.prefix_ids, ip, prefix_len)
    }

    /// Interns `id` under the textual prefix `ip/prefix_len`.
    pub fn intern_prefix(&mut self, ip: &str, prefix_len: usize, id: u32)
        requires
            old(self).wf(),
        ensures
            final(self).wf(),
            final(self)@ == old(self)@,
            final(self).width() == old(self).width(),
            final(self).prefix_ids() == old(self).prefix_ids().insert((ip@, prefix_len), id),
    {
        prefix_memo_insert(&mut self.prefix_ids, ip, prefix_len, id);
    }
}

/// Inserting a diagram a second time changes nothing and gives the same id,
/// and the diagram looked up under that id is the one inserted.
pub proof fn lemma_insert_is_canonical(t: Seq<Bdd>, b: Bdd, n: nat)
    requires
        table_ok(t, n),
    ensures
        table_insert(table_insert(t, b), b) == table_insert(t, b),
        table_id(table_insert(table_insert(t, b), b), b) == table_id(table_insert(t, b), b),
        table_id(table_insert(t, b), b) matches Some(id) ==> table_get(table_insert(t, b), id)
            == Some(b),
{
    let t1 = table_insert(t, b);
    if t1.contains(b) {
        let i = t1.index_of(b);
        assert(t1[i] == b);
    } else {
        assert(t.len() >= u32::MAX) by {
            if t.len() < u32::MAX {
                assert(t.push(b)[t.len() as int] == b);
            }
        }
    }
}

/// Two ids of one table are equal exactly when their diagrams are.
pub proof fn lemma_ids_are_canonical(t: Seq<Bdd>, n: nat, a: u32, b: u32)
    requires
        table_ok(t, n),
        valid_id(t, a),
        valid_id(t, b),
    ensures
        (a == b) == (t[a - 1] == t[b - 1]),
{
}

/// Inserting keeps what the table holds: the old diagrams keep their places.
pub proof fn lemma_insert_extends(t: Seq<Bdd>, b: Bdd)
    ensures
        t.is_prefix_of(table_insert(t, b)),
{
}

} // verus!
