use rust_formal_verification::formulas::{Clause, Literal, Variable};

#[test]
fn making_formulas_and_sat_solving_them() {}

#[test]
fn variables_are_named_by_their_numbers() {
    for n in 1..7 {
        let v = Variable::new(n);
        assert_eq!(v.to_string(), format!("x{n}"));
        assert_eq!(v.get_number(), n);
    }
}

#[test]
fn highest_variable_number_of_clauses() {
    assert_eq!(Clause::new(&[]).get_highest_variable_number(), 0);
    let l1 = Literal::new(1);
    let l2 = !Literal::new(2);
    let l3 = Literal::new(3);
    assert_eq!(Clause::new(&[l1, l2]).get_highest_variable_number(), 2);
    assert_eq!(Clause::new(&[l2, l3, l1]).get_highest_variable_number(), 3);
}
