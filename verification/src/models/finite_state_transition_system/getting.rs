//! What a finite state transition system tells.

use super::construction::not;
use super::{FiniteStateTransitionSystem, FstsView};
use crate::formulas::semantics::{clause_holds, cnf_holds, literal_holds, satisfiable, Valuation};
use crate::formulas::literal::{Literal, VariableType};
use crate::formulas::{Cube, CNF};
use vstd::prelude::*;

verus! {

broadcast use Literal::lemma_negate;

/// The clauses of the safe states: a unit clause with the negation of each literal of the
/// unsafety clause.
pub open spec fn safety_clauses(v: FstsView) -> Set<Seq<Literal>> {
    Set::new(|c: Seq<Literal>| exists|i: int| 0 <= i < v.unsafety.len() && c == seq![not(v.unsafety[i])])
}

/// No state is both safe and unsafe: the safety property and the unsafety property never hold
/// together.
pub proof fn law_safe_and_unsafe_exclusive(v: FstsView)
    ensures
        !satisfiable(safety_clauses(v).union(set![v.unsafety])),
{
    if satisfiable(safety_clauses(v).union(set![v.unsafety])) {
        let q = safety_clauses(v).union(set![v.unsafety]);
        let s = choose|s: Valuation| cnf_holds(q, s);
        assert(q.contains(v.unsafety));
        assert(clause_holds(v.unsafety, s));
        let i = choose|i: int| 0 <= i < v.unsafety.len() && literal_holds(#[trigger] v.unsafety[i], s);
        assert(safety_clauses(v).contains(seq![not(v.unsafety[i])]));
        assert(q.contains(seq![not(v.unsafety[i])]));
        assert(clause_holds(seq![not(v.unsafety[i])], s));
        let k = choose|k: int| 0 <= k < 1 && literal_holds(#[trigger] seq![not(v.unsafety[i])][k], s);
        v.unsafety[i].lemma_negate();
    }
}

impl FiniteStateTransitionSystem {
    /// The largest variable number of a state.
    pub fn get_max_literal_number(&self) -> (r: VariableType)
        ensures
            r == self.view().max_var,
    {
        self.max_literal_number
    }

    /// The variable numbers of the latches.
    pub fn get_state_literal_numbers(&self) -> (r: Vec<VariableType>)
        ensures
            r@ == self.view().state_vars,
    {
        self.state_literals.clone()
    }

    /// The variable numbers of the inputs.
    pub fn get_input_literal_numbers(&self) -> (r: Vec<VariableType>)
        ensures
            r@ == self.view().input_vars,
    {
        self.input_literals.clone()
    }

    /// The CNF of the initial states.
    pub fn get_initial_relation(&self) -> (r: CNF)
        ensures
            r@ == self.view().initial,
    {
        self.initial_states.clone()
    }

    /// The CNF of the transition relation.
    pub fn get_transition_relation(&self) -> (r: CNF)
        ensures
            r@ == self.view().transition,
    {
        self.transition.clone()
    }

    /// The CNF that gives the wires of the properties their values in a state.
    pub fn get_state_to_safety_translation(&self) -> (r: CNF)
        ensures
            r@ == self.view().translation,
    {
        self.state_and_property_connection.clone()
    }

    /// The CNF that connects a state to the values of its properties (the same CNF as
    /// `get_state_to_safety_translation`).
    pub fn get_state_and_property_connection_relation(&self) -> (r: CNF)
        ensures
            r@ == self.view().translation,
    {
        self.state_and_property_connection.clone()
    }

    /// The CNF of the safe states: one unit clause with the negation of each literal of the
    /// unsafety clause.
    pub fn get_safety_property(&self) -> (r: CNF)
        ensures
            r@ == safety_clauses(self.view()),
    {
        let cube: Cube = self.unsafety_property.negate();
        let r = cube.to_cnf();
        proof {
            let u = self.view().unsafety;
            crate::formulas::semantics::lemma_same_literals_hold(cube.view(), crate::formulas::semantics::negate_all(u), |v: nat| true);
            assert forall|c: Seq<Literal>| #[trigger] r@.contains(c) implies exists|i: int|
                0 <= i < u.len() && c == seq![not(u[i])] by {
                let k = choose|k: int| 0 <= k < cube.view().len() && c == seq![cube.view()[k]];
                assert(cube.view().contains(cube.view()[k]));
                let i = choose|i: int| 0 <= i < u.len() && crate::formulas::semantics::negate_all(u)[i] == cube.view()[k];
            }
            assert forall|c: Seq<Literal>| (exists|i: int| 0 <= i < u.len() && c == seq![not(u[i])]) implies #[trigger] r@.contains(c) by {
                let i = choose|i: int| 0 <= i < u.len() && c == seq![not(u[i])];
                assert(crate::formulas::semantics::negate_all(u)[i] == not(u[i]));
                assert(crate::formulas::semantics::negate_all(u).contains(not(u[i])));
                let k = choose|k: int| 0 <= k < cube.view().len() && cube.view()[k] == not(u[i]);
            }
            assert(r@ =~= safety_clauses(self.view()));
        }
        r
    }

    /// The CNF of the unsafe states: the unsafety clause alone.
    pub fn get_unsafety_property(&self) -> (r: CNF)
        ensures
            r@ == set![self.view().unsafety],
    {
        self.unsafety_property.to_cnf()
    }
}

} // verus!
