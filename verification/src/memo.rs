//! The concurrent maps behind the canonical table and the caches.
//!
//! The maps are `dashmap::DashMap`s. The library holds each one exclusively,
//! so what a map holds is a plain finite map; the kinds of map that the
//! library keeps each get a name for their contents and contracts, taken
//! without proof, for the `DashMap` methods called on them.
use biodivine_lib_bdd::Bdd;
use dashmap::DashMap;
use vstd::prelude::*;

verus! {

#[verifier::external_type_specification]
#[verifier::external_body]
#[verifier::reject_recursive_types(K)]
#[verifier::reject_recursive_types(V)]
#[verifier::reject_recursive_types(S)]
pub struct ExDashMap<K, V, S>(DashMap<K, V, S>);

/// Diagram to id.
pub type BddIndex = DashMap<Bdd, u32>;

/// `(address text, prefix length)` to id.
pub type PrefixMemo = DashMap<(String, usize), u32>;

/// Id list to id list.
pub type IdMemo = DashMap<Vec<u32>, Vec<u32>>;

/// `(rule, used id, port ids)` to `(used id, port ids)`.
pub type WholeMemo = DashMap<(String, u32, Vec<u32>), (u32, Vec<u32>)>;

/// The entries of a map from diagrams to ids.
pub uninterp spec fn bdd_index_entries(m: BddIndex) -> Map<Bdd, u32>;

/// The entries of a map from `(address text, prefix length)` to ids.
pub uninterp spec fn prefix_memo_entries(m: PrefixMemo) -> Map<
    (Seq<char>, usize),
    u32,
>;

/// The entries of a map from id lists to id lists.
pub uninterp spec fn id_memo_entries(m: IdMemo) -> Map<Seq<u32>, Seq<u32>>;

/// `DashMap::new`: an empty map.
#[verifier::external_body]
pub(crate) fn bdd_index_new() -> (m: BddIndex)
    ensures
        (bdd_index_entries(m) == Map::<Bdd, u32>::empty()),
{
    DashMap::new()
}

/// `DashMap::get`: the value stored under `key`, if there is one.
#[verifier::external_body]
pub(crate) fn bdd_index_get(m: &BddIndex, key: &Bdd) -> (r: Option<u32>)
    ensures
        r == if bdd_index_entries(*m).contains_key(*key) {
            Some(bdd_index_entries(*m)[*key])
        } else {
            None
        },
{
    m.get(key).map(|e| *e.value())
}

/// `DashMap::insert`: stores `value` under `key`, replacing what was there.
#[verifier::external_body]
pub(crate) fn bdd_index_insert(m: &mut BddIndex, key: Bdd, value: u32)
    ensures
        bdd_index_entries(*final(m)) == bdd_index_entries(*old(m)).insert(key, value),
{
    m.insert(key, value);
}

/// `DashMap::new`: an empty map.
#[verifier::external_body]
pub(crate) fn prefix_memo_new() -> (m: PrefixMemo)
    ensures
        (prefix_memo_entries(m) == Map::<(Seq<char>, usize), u32>::empty()),
{
    DashMap::new()
}

/// `DashMap::get`: the value stored under `(ip, prefix_len)`, if there is one.
#[verifier::external_body]
pub(crate) fn prefix_memo_get(m: &PrefixMemo, ip: &str, prefix_len: usize) -> (r:
    Option<u32>)
    ensures
        r == if prefix_memo_entries(*m).contains_key((ip@, prefix_len)) {
            Some(prefix_memo_entries(*m)[(ip@, prefix_len)])
        } else {
            None
        },
{
    m.get(&(ip.to_string(), prefix_len)).map(|e| *e.value())
}

/// `DashMap::insert`: stores `value` under `(ip, prefix_len)`, replacing what was there.
#[verifier::external_body]
pub(crate) fn prefix_memo_insert(
    m: &mut PrefixMemo,
    ip: &str,
    prefix_len: usize,
    value: u32,
)
    ensures
        prefix_memo_entries(*final(m)) == prefix_memo_entries(*old(m)).insert(
            (ip@, prefix_len),
            value,
        ),
{
    m.insert((ip.to_string(), prefix_len), value);
}

/// `DashMap::new`: an empty map.
#[verifier::external_body]
pub(crate) fn id_memo_new() -> (m: IdMemo)
    ensures
        (id_memo_entries(m) == Map::<Seq<u32>, Seq<u32>>::empty()),
{
    DashMap::new()
}

/// `DashMap::get`: a copy of the value stored under `key`, if there is one.
#[verifier::external_body]
pub(crate) fn id_memo_get(m: &IdMemo, key: &Vec<u32>) -> (r: Option<Vec<u32>>)
    ensures
        match r {
            Some(v) => id_memo_entries(*m).contains_key(key@) && v@ == id_memo_entries(*m)[key@],
            None => !id_memo_entries(*m).contains_key(key@),
        },
{
    m.get(key).map(|e| e.value().clone())
}

/// `DashMap::insert`: stores `value` under `key`, replacing what was there.
#[verifier::external_body]
pub(crate) fn id_memo_insert(m: &mut IdMemo, key: Vec<u32>, value: Vec<u32>)
    ensures
        id_memo_entries(*final(m)) == id_memo_entries(*old(m)).insert(key@, value@),
{
    m.insert(key, value);
}

/// The entries of a map from `(rule, used id, port ids)` to `(used id,
/// port ids)`.
pub uninterp spec fn whole_memo_entries(m: WholeMemo) -> Map<
    (Seq<char>, u32, Seq<u32>),
    (u32, Seq<u32>),
>;

/// `DashMap::new`: an empty map.
#[verifier::external_body]
pub(crate) fn whole_memo_new() -> (m: WholeMemo)
    ensures
        (whole_memo_entries(m) == Map::<(Seq<char>, u32, Seq<u32>), (u32, Seq<u32>)>::empty()),
{
    DashMap::new()
}

/// `DashMap::get`: a copy of the value stored under `(rule, used, ids)`, if
/// there is one.
#[verifier::external_body]
pub(crate) fn whole_memo_get(m: &WholeMemo, rule: &str, used: u32, ids: &[u32]) -> (r: Option<
    (u32, Vec<u32>),
>)
    ensures
        match r {
            Some(v) => whole_memo_entries(*m).contains_key((rule@, used, ids@)) && (v.0, v.1@)
                == whole_memo_entries(*m)[(rule@, used, ids@)],
            None => !whole_memo_entries(*m).contains_key((rule@, used, ids@)),
        },
{
    m.get(&(rule.to_string(), used, ids.to_vec())).map(|e| e.value().clone())
}

/// `DashMap::insert`: stores `(new_used, new_ids)` under `(rule, used, ids)`,
/// replacing what was there.
#[verifier::external_body]
pub(crate) fn whole_memo_insert(
    m: &mut WholeMemo,
    rule: &str,
    used: u32,
    ids: &[u32],
    new_used: u32,
    new_ids: &[u32],
)
    ensures
        whole_memo_entries(*final(m)) == whole_memo_entries(*old(m)).insert(
            (rule@, used, ids@),
            (new_used, new_ids@),
        ),
{
    m.insert((rule.to_string(), used, ids.to_vec()), (new_used, new_ids.to_vec()));
}

} // verus!
