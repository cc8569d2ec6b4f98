//! A location equivalence class: the headers that a device sends out of one
//! port.
use crate::util::forward_action::ForwardAction;
use biodivine_lib_bdd::Bdd;
use vstd::prelude::*;

verus! {

pub struct Lec {
    pub forward_action: ForwardAction,
    pub predicate: Bdd,
    pub exhausted: bool,
}

impl Lec {
    pub fn new(forward_action: ForwardAction, predicate: Bdd) -> (r: Self)
        ensures
            r.forward_action == forward_action,
            r.predicate == predicate,
            !r.exhausted,
    {
        Lec { forward_action, predicate, exhausted: false }
    }

    /// Marks the class as used up; the mark is never taken back.
    pub fn set_exhausted(&mut self)
        ensures
            final(self).exhausted,
            final(self).forward_action == old(self).forward_action,
            final(self).predicate == old(self).predicate,
    {
        self.exhausted = true;
    }

    pub fn is_exhausted(&self) -> (r: bool)
        ensures
            r == self.exhausted,
    {
        self.exhausted
    }

    /// Whether two classes have the same action and the same headers.
    pub fn same_lec(&self, other: &Lec) -> (r: bool)
        ensures
            r == (self.forward_action.kind() == other.forward_action.kind()
                && self.forward_action.port_names() == other.forward_action.port_names()
                && self.predicate == other.predicate),
    {
        self.forward_action.same_action(&other.forward_action) && crate::kernel::same_bdd(
            &self.predicate,
            &other.predicate,
        )
    }
}

impl Clone for Lec {
    fn clone(&self) -> (r: Self)
        ensures
            r.forward_action.kind() == self.forward_action.kind(),
            r.forward_action.port_names() == self.forward_action.port_names(),
            r.predicate == self.predicate,
            r.exhausted == self.exhausted,
    {
        Lec {
            forward_action: self.forward_action.clone(),
            predicate: self.predicate.clone(),
            exhausted: self.exhausted,
        }
    }
}

} // verus!
