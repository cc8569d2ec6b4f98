//! A port group of a device: the ports that forward exactly the same headers.
use crate::kernel::is_space;
use biodivine_lib_bdd::Bdd;
use hashbrown::HashSet;
use vstd::prelude::*;

verus! {

/// The arrivals a port group has already dealt with, kept in a
/// `hashbrown::HashSet` that Verus does not look into.
#[verifier::external_body]
pub struct ArrivalCache {
    seen: HashSet<Bdd>,
}

/// The diagrams that the cache holds.
pub uninterp spec fn arrivals_seen(c: ArrivalCache) -> Set<Bdd>;

/// `HashSet::default`: an empty set.
#[verifier::external_body]
fn arrival_cache_new() -> (c: ArrivalCache)
    ensures
        arrivals_seen(c) == Set::<Bdd>::empty(),
{
    ArrivalCache { seen: HashSet::default() }
}

/// `HashSet::contains`: whether the set holds an equal diagram.
#[verifier::external_body]
fn arrival_cache_contains(c: &ArrivalCache, b: &Bdd) -> (r: bool)
    ensures
        r == arrivals_seen(*c).contains(*b),
{
    c.seen.contains(b)
}

/// `HashSet::insert`: adds the diagram to the set.
#[verifier::external_body]
fn arrival_cache_insert(c: &mut ArrivalCache, b: Bdd)
    ensures
        arrivals_seen(*final(c)) == arrivals_seen(*old(c)).insert(b),
{
    c.seen.insert(b);
}

/// `Clone` for `HashSet`: a set with the same elements.
#[verifier::external_body]
fn arrival_cache_clone(c: &ArrivalCache) -> (r: ArrivalCache)
    ensures
        arrivals_seen(r) == arrivals_seen(*c),
{
    ArrivalCache { seen: c.seen.clone() }
}

pub struct SpacePort {
    space_id: i8,
    space: Bdd,
    cache_table: ArrivalCache,
}

impl SpacePort {
    /// The group's number within its device.
    pub closed spec fn id(&self) -> i8 {
        self.space_id
    }

    /// The headers that the group's ports forward.
    pub closed spec fn predicate(&self) -> Bdd {
        self.space
    }

    /// The arrivals already dealt with.
    pub closed spec fn seen(&self) -> Set<Bdd> {
        arrivals_seen(self.cache_table)
    }

    pub fn new(space_id: i8, space: Bdd) -> (r: SpacePort)
        ensures
            r.id() == space_id,
            r.predicate() == space,
            r.seen() == Set::<Bdd>::empty(),
    {
        SpacePort { space_id, space, cache_table: arrival_cache_new() }
    }

    pub fn get_space_id(&self) -> (r: i8)
        ensures
            r == self.id(),
    {
        self.space_id
    }

    pub fn get_space(&self) -> (r: &Bdd)
        ensures
            *r == self.predicate(),
    {
        &self.space
    }

    /// Whether this arrival was dealt with before.
    pub fn check_cache_space(&self, cache_space: &Bdd) -> (r: bool)
        ensures
            r == self.seen().contains(*cache_space),
    {
        arrival_cache_contains(&self.cache_table, cache_space)
    }

    /// Remembers that this arrival was dealt with.
    pub fn insert_cache_space(&mut self, cache_space: &Bdd)
        ensures
            final(self).id() == old(self).id(),
            final(self).predicate() == old(self).predicate(),
            final(self).seen() == old(self).seen().insert(*cache_space),
    {
        arrival_cache_insert(&mut self.cache_table, cache_space.clone());
    }

    /// Whether two groups have the same number and forward the same headers.
    pub fn same_space_port(&self, other: &SpacePort) -> (r: bool)
        ensures
            r == (self.id() == other.id() && self.predicate() == other.predicate()),
    {
        self.space_id == other.space_id && crate::kernel::same_bdd(&self.space, &other.space)
    }
}

impl Clone for SpacePort {
    fn clone(&self) -> (r: Self)
        ensures
            r.id() == self.id(),
            r.predicate() == self.predicate(),
            r.seen() == self.seen(),
    {
        SpacePort {
            space_id: self.space_id,
            space: self.space.clone(),
            cache_table: arrival_cache_clone(&self.cache_table),
        }
    }
}

} // verus!
