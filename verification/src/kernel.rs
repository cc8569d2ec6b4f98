//! The decision-diagram kernel as this library sees it.
//!
//! A diagram over `n` Boolean variables stands for a set of valuations, each a
//! sequence of `n` truth values in variable order. Everything the library
//! proves about packet spaces is stated over those sets; the diagrams
//! themselves are built and combined by `biodivine_lib_bdd`, whose operations
//! are given their contracts here without proof.
use biodivine_lib_bdd::{Bdd, BddPartialValuation, BddVariable, BddVariableSet};
use vstd::prelude::*;

verus! {

#[verifier::external_type_specification]
#[verifier::external_body]
pub struct ExBdd(Bdd);

#[verifier::external_type_specification]
#[verifier::external_body]
pub struct ExBddVariableSet(BddVariableSet);

/// The valuations on which the diagram evaluates to true (`Bdd::eval_in`),
/// each listing the value of every variable in variable order.
pub uninterp spec fn bdd_sat(b: Bdd) -> Set<Seq<bool>>;

/// Whether the diagram is reduced: no decision node has two equal links and
/// no two nodes decide alike, so that the false formula has the terminal
/// node alone. The kernel's constructors and operations give reduced
/// diagrams; a diagram put together from raw nodes need not be one.
pub uninterp spec fn bdd_reduced(b: Bdd) -> bool;

/// The number of variables the diagram ranges over (`Bdd::num_vars`).
pub uninterp spec fn bdd_width(b: Bdd) -> nat;

/// The number of variables in a variable set (`BddVariableSet::num_vars`).
pub uninterp spec fn variable_count(vars: BddVariableSet) -> nat;

/// Every valuation of `n` variables.
pub open spec fn all_valuations(n: nat) -> Set<Seq<bool>> {
    Set::new(|v: Seq<bool>| v.len() == n)
}

/// The valuations of `n` variables that agree with every listed
/// `(variable, value)` pair.
pub open spec fn clause_space(n: nat, literals: Seq<(u16, bool)>) -> Set<Seq<bool>> {
    Set::new(
        |v: Seq<bool>|
            v.len() == n && forall|i: int|
                0 <= i < literals.len() ==> v[(#[trigger] literals[i]).0 as int] == literals[i].1,
    )
}

/// The union of the header sets of the first `k` diagrams.
pub open spec fn spaces_union(bdds: Seq<Bdd>, k: int) -> Set<Seq<bool>>
    decreases k,
{
    if k <= 0 {
        Set::<Seq<bool>>::empty()
    } else {
        spaces_union(bdds, k - 1).union(bdd_sat(bdds[k - 1]))
    }
}

/// A set other than the empty set has an element.
pub proof fn lemma_nonempty(s: Set<Seq<bool>>)
    requires
        !(s == Set::<Seq<bool>>::empty()),
    ensures
        exists|v: Seq<bool>| s.contains(v),
{
    if forall|v: Seq<bool>| !s.contains(v) {
        assert(s =~= Set::<Seq<bool>>::empty());
    }
}

/// A diagram is a space of width `n` when it ranges over `n` variables and
/// holds only valuations of that length.
pub open spec fn is_space(b: Bdd, n: nat) -> bool {
    bdd_width(b) == n && bdd_sat(b).subset_of(all_valuations(n))
}

/// `BddVariableSet::new_anonymous`: a variable set of `num_vars` variables.
/// The outside function panics from 65534 variables on.
pub assume_specification[ BddVariableSet::new_anonymous ](num_vars: u16) -> (vars: BddVariableSet)
    requires
        num_vars < 65534,
    ensures
        variable_count(vars) == num_vars,
;

/// `BddVariableSet::num_vars`: the number of variables in the set.
pub assume_specification[ BddVariableSet::num_vars ](vars: &BddVariableSet) -> (n: u16)
    ensures
        n == variable_count(*vars),
;

/// `BddVariableSet::mk_false`: the reduced diagram of the empty set.
pub assume_specification[ BddVariableSet::mk_false ](vars: &BddVariableSet) -> (r: Bdd)
    ensures
        bdd_width(r) == variable_count(*vars),
        bdd_sat(r) == Set::<Seq<bool>>::empty(),
        bdd_reduced(r),
;

/// `BddVariableSet::mk_true`: the reduced diagram of every valuation.
pub assume_specification[ BddVariableSet::mk_true ](vars: &BddVariableSet) -> (r: Bdd)
    ensures
        bdd_width(r) == variable_count(*vars),
        bdd_sat(r) == all_valuations(variable_count(*vars)),
        bdd_reduced(r),
;

/// `Bdd::num_vars`: the number of variables the diagram ranges over. A
/// valuation of the diagram lists exactly that many values.
pub assume_specification[ Bdd::num_vars ](b: &Bdd) -> (n: u16)
    ensures
        n == bdd_width(*b),
        bdd_sat(*b).subset_of(all_valuations(n as nat)),
;

/// `Bdd::and`: conjunction, the intersection of the two sets, built node by
/// node without duplicates and so reduced. The outside function panics when
/// the operands range over different variable counts.
pub assume_specification[ Bdd::and ](left: &Bdd, right: &Bdd) -> (r: Bdd)
    requires
        bdd_width(*left) == bdd_width(*right),
    ensures
        bdd_width(r) == bdd_width(*left),
        bdd_sat(r) == bdd_sat(*left).intersect(bdd_sat(*right)),
        bdd_reduced(r),
;

/// `Bdd::or`: disjunction, the union of the two sets. Panics as `Bdd::and` does.
pub assume_specification[ Bdd::or ](left: &Bdd, right: &Bdd) -> (r: Bdd)
    requires
        bdd_width(*left) == bdd_width(*right),
    ensures
        bdd_width(r) == bdd_width(*left),
        bdd_sat(r) == bdd_sat(*left).union(bdd_sat(*right)),
        bdd_reduced(r),
;

/// `Bdd::and_not`: `left & !right`, the set difference. Panics as `Bdd::and` does.
pub assume_specification[ Bdd::and_not ](left: &Bdd, right: &Bdd) -> (r: Bdd)
    requires
        bdd_width(*left) == bdd_width(*right),
    ensures
        bdd_width(r) == bdd_width(*left),
        bdd_sat(r) == bdd_sat(*left).difference(bdd_sat(*right)),
        bdd_reduced(r),
;

/// `Bdd::not`: negation, the complement among the valuations of its width.
/// Only the terminal links are flipped, so the result is reduced where the
/// operand is.
pub assume_specification[ Bdd::not ](b: &Bdd) -> (r: Bdd)
    ensures
        bdd_width(r) == bdd_width(*b),
        bdd_sat(r) == all_valuations(bdd_width(*b)).difference(bdd_sat(*b)),
        bdd_reduced(*b) ==> bdd_reduced(r),
;

/// `Bdd::is_false`: whether the diagram is the terminal node alone, which
/// for a reduced diagram is to say that no valuation satisfies it.
pub assume_specification[ Bdd::is_false ](b: &Bdd) -> (r: bool)
    requires
        bdd_reduced(*b),
    ensures
        r == (bdd_sat(*b) == Set::<Seq<bool>>::empty()),
;

/// `Clone` for `Bdd`: a diagram with the same nodes.
pub assume_specification[ <Bdd as Clone>::clone ](b: &Bdd) -> (r: Bdd)
    ensures
        r == *b,
;

/// `PartialEq` for `Bdd`, which the outside crate derives: two diagrams are
/// equal exactly when they hold the same nodes in the same order.
#[verifier::external_body]
pub(crate) fn same_bdd(a: &Bdd, b: &Bdd) -> (r: bool)
    ensures
        r == (*a == *b),
{
    a == b
}

/// `BddPartialValuation::from_values` followed by
/// `BddVariableSet::mk_conjunctive_clause`: the conjunction of the listed
/// literals. The clause constructor panics on a variable outside the set;
/// `from_values` keeps the last of two values given for one variable, which the
/// precondition rules out.
#[verifier::external_body]
pub(crate) fn conjunctive_clause(vars: &BddVariableSet, literals: &Vec<(u16, bool)>) -> (r: Bdd)
    requires
        forall|i: int| 0 <= i < literals.len() ==> (#[trigger] literals[i]).0 < variable_count(*vars),
        forall|i: int, j: int|
            0 <= i < j < literals.len() ==> (#[trigger] literals[i]).0 != (#[trigger] literals[j]).0,
    ensures
        bdd_width(r) == variable_count(*vars),
        bdd_sat(r) == clause_space(variable_count(*vars), literals@),
        bdd_reduced(r),
{
    let values: Vec<(BddVariable, bool)> = literals
        .iter()
        .map(|l| (BddVariable::from_index(l.0 as usize), l.1))
        .collect();
    vars.mk_conjunctive_clause(&BddPartialValuation::from_values(&values))
}

} // verus!
