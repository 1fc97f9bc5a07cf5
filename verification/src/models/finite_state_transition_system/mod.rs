//! Finite state transition systems: the initial states, transition relation and safety
//! property of an And-Inverter Graph, as CNF formulas.

use crate::formulas::literal::{Literal, VariableType};
use crate::formulas::semantics::{same_literals, sorted_by_code};
use crate::formulas::{Clause, CNF};
use vstd::prelude::*;

pub mod construction;
pub mod features;
pub mod getting;
pub mod wires;

verus! {

/// The clauses that the literal lists give once each is sorted: each clause is sorted and
/// holds the literals of one of the lists.
pub open spec fn clause_forms(lists: Set<Seq<Literal>>) -> Set<Seq<Literal>> {
    Set::new(
        |c: Seq<Literal>|
            sorted_by_code(c) && exists|l: Seq<Literal>| #[trigger] lists.contains(l) && same_literals(c, l),
    )
}

/// Adding a list adds its sorted clause.
pub proof fn lemma_clause_forms_insert(done: Set<Seq<Literal>>, l: Seq<Literal>, c: Seq<Literal>)
    requires
        sorted_by_code(c),
        same_literals(c, l),
    ensures
        clause_forms(done.insert(l)) == clause_forms(done).insert(c),
{
    assert forall|x: Seq<Literal>| #[trigger] clause_forms(done.insert(l)).contains(x) implies clause_forms(done).insert(c).contains(x) by {
        let m = choose|m: Seq<Literal>| #[trigger] done.insert(l).contains(m) && same_literals(x, m);
        if m == l {
            crate::formulas::semantics::lemma_sorted_same_unique(x, c);
        } else {
            assert(done.contains(m));
        }
    }
    assert forall|x: Seq<Literal>| #[trigger] clause_forms(done).insert(c).contains(x) implies clause_forms(done.insert(l)).contains(x) by {
        if x == c {
            assert(done.insert(l).contains(l));
        } else {
            let m = choose|m: Seq<Literal>| #[trigger] done.contains(m) && same_literals(x, m);
            assert(done.insert(l).contains(m));
        }
    }
    assert(clause_forms(done.insert(l)) =~= clause_forms(done).insert(c));
}

/// Adds the clause with the literals given to `cnf`, whose clauses are the forms of `done`.
pub fn add_literal_list(cnf: &mut CNF, literals: &[Literal], Ghost(done): Ghost<Set<Seq<Literal>>>)
    requires
        old(cnf)@ == clause_forms(done),
    ensures
        final(cnf)@ == clause_forms(done.insert(literals@)),
{
    let c = Clause::new(literals);
    cnf.add_clause(&c);
    proof {
        lemma_clause_forms_insert(done, literals@, c.view());
    }
}

/// Struct that describes memory layout of the finite state transition system.
pub struct FiniteStateTransitionSystem {
    initial_states: CNF,
    transition: CNF,
    state_and_property_connection: CNF,
    unsafety_property: Clause,
    max_literal_number: VariableType,
    state_literals: Vec<VariableType>,
    input_literals: Vec<VariableType>,
}

/// What a finite state transition system holds, as plain values.
pub struct FstsView {
    /// The clauses that the initial states satisfy.
    pub initial: Set<Seq<Literal>>,
    /// The clauses that relate a state (variables up to `max_var`) to the next one (the same
    /// variables moved up by `max_var`).
    pub transition: Set<Seq<Literal>>,
    /// The clauses that give the wires of the properties their values in a state.
    pub translation: Set<Seq<Literal>>,
    /// The clause that holds in the unsafe states.
    pub unsafety: Seq<Literal>,
    pub max_var: nat,
    pub state_vars: Seq<VariableType>,
    pub input_vars: Seq<VariableType>,
}

impl FiniteStateTransitionSystem {
    /// The largest variable number fits in a literal with room to spare, and every state and
    /// input variable is a variable of the system.
    #[verifier::type_invariant]
    spec fn consistent(&self) -> bool {
        &&& self.max_literal_number < crate::formulas::literal::max_variable_number()
        &&& forall|j: int| 0 <= j < self.state_literals@.len() ==> 1 <= #[trigger] self.state_literals@[j] <= self.max_literal_number
        &&& forall|i: int| 0 <= i < self.input_literals@.len() ==> 1 <= #[trigger] self.input_literals@[i] <= self.max_literal_number
    }

    /// What every system keeps: see `consistent`.
    pub fn check_wf(&self)
        ensures
            self.view().max_var < crate::formulas::literal::max_variable_number(),
            forall|j: int| 0 <= j < self.view().state_vars.len() ==> 1 <= #[trigger] self.view().state_vars[j] <= self.view().max_var,
            forall|i: int| 0 <= i < self.view().input_vars.len() ==> 1 <= #[trigger] self.view().input_vars[i] <= self.view().max_var,
    {
        proof {
            use_type_invariant(self);
        }
    }

    /// What the system holds.
    pub closed spec fn view(&self) -> FstsView {
        FstsView {
            initial: self.initial_states@,
            transition: self.transition@,
            translation: self.state_and_property_connection@,
            unsafety: self.unsafety_property@,
            max_var: self.max_literal_number as nat,
            state_vars: self.state_literals@,
            input_vars: self.input_literals@,
        }
    }
}

impl Clone for FiniteStateTransitionSystem {
    fn clone(&self) -> (r: Self)
        ensures
            r.view() == self.view(),
    {
        proof {
            use_type_invariant(self);
        }
        FiniteStateTransitionSystem {
            initial_states: self.initial_states.clone(),
            transition: self.transition.clone(),
            state_and_property_connection: self.state_and_property_connection.clone(),
            unsafety_property: self.unsafety_property.clone(),
            max_literal_number: self.max_literal_number,
            state_literals: self.state_literals.clone(),
            input_literals: self.input_literals.clone(),
        }
    }
}

} // verus!
