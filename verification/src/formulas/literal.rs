use vstd::prelude::*;

verus! {

/// The type of the numbers that name variables.
pub type VariableType = u32;

/// The largest number a variable may carry.
pub open spec fn max_variable_number() -> nat {
    0x7fff_ffff
}

/// A variable or its negation.
///
/// The literal is stored as `2 * variable + (1 if negated)`, so that literals order first by
/// variable number and then with the positive literal before the negative one.
#[derive(Clone, PartialEq, Eq, Hash, PartialOrd, Ord, Copy, Structural)]
pub struct Literal {
    literal_number: u32,
}

impl Literal {
    #[verifier::type_invariant]
    spec fn inv(self) -> bool {
        self.literal_number >= 2
    }

    /// The number of the literal's variable.
    pub closed spec fn var(self) -> nat {
        (self.literal_number / 2) as nat
    }

    /// Whether the literal is the negation of its variable.
    pub closed spec fn neg(self) -> bool {
        self.literal_number % 2 == 1
    }

    /// The order key of the literal: `2 * var + (1 if negated)`.
    pub closed spec fn code(self) -> nat {
        self.literal_number as nat
    }

    /// A literal names a variable with a positive number.
    pub open spec fn is_valid(self) -> bool {
        1 <= self.var() <= max_variable_number()
    }

    /// What the code of a literal is made of, and that the code names the literal.
    pub broadcast proof fn lemma_code(self)
        ensures
            #[trigger] self.code() == 2 * self.var() + (if self.neg() { 1nat } else { 0nat }),
            self.var() <= max_variable_number(),
    {
    }

    /// Two literals with the same code are the same literal.
    pub broadcast proof fn lemma_code_injective(a: Literal, b: Literal)
        ensures
            (#[trigger] a.code() == #[trigger] b.code()) <==> a == b,
    {
    }

    /// The literal of a variable, optionally negated, as a spec value.
    pub closed spec fn spec_make(var: nat, neg: bool) -> Literal {
        Literal { literal_number: (2 * var + if neg { 1int } else { 0int }) as u32 }
    }

    /// What a literal made from a variable number and a sign holds.
    pub broadcast proof fn lemma_make(var: nat, neg: bool)
        requires
            var <= max_variable_number(),
        ensures
            #[trigger] Literal::spec_make(var, neg).var() == var,
            Literal::spec_make(var, neg).neg() == neg,
            Literal::spec_make(var, neg).code() == 2 * var + (if neg { 1nat } else { 0nat }),
    {
    }

    /// The literal with the same variable and the opposite sign.
    pub closed spec fn spec_negate(self) -> Literal {
        Literal { literal_number: self.literal_number ^ 1 }
    }

    /// What negation does to a literal.
    pub broadcast proof fn lemma_negate(self)
        ensures
            #[trigger] Literal::spec_negate(self).var() == self.var(),
            Literal::spec_negate(self).neg() == !self.neg(),
            Literal::spec_negate(Literal::spec_negate(self)) == self,
    {
        let n = self.literal_number;
        assert((n ^ 1) / 2 == n / 2 && ((n ^ 1) % 2 == 1) == !(n % 2 == 1) && ((n ^ 1) ^ 1) == n)
            by (bit_vector);
    }

    /// Returns the positive literal of the variable with the number given.
    pub fn new(number: u32) -> (r: Self)
        requires
            0 < number <= 0x7fff_ffff,
        ensures
            r.var() == number,
            !r.neg(),
    {
        assert(number << 1 == 2 * number) by (bit_vector)
            requires
                0 < number <= 0x7fff_ffff,
        ;
        Self { literal_number: number << 1 }
    }

    /// Returns the literal itself, or its negation when `is_negated` is true.
    pub fn negate_if_true(&self, is_negated: bool) -> (r: Self)
        ensures
            r.var() == self.var(),
            r.neg() == (self.neg() != is_negated),
    {
        if is_negated {
            self.negated()
        } else {
            *self
        }
    }

    /// The number of the literal's variable.
    pub fn get_number(&self) -> (r: u32)
        ensures
            r == self.var(),
            self.is_valid(),
            0 < r <= 0x7fff_ffff,
    {
        proof {
            use_type_invariant(self);
        }
        let n = self.literal_number;
        assert(n >> 1 == n / 2) by (bit_vector);
        n >> 1
    }

    /// Whether the literal is negated.
    pub fn is_negated(&self) -> (r: bool)
        ensures
            r == self.neg(),
    {
        (self.literal_number % 2) == 1
    }

    /// The negation of the literal.
    pub fn negated(&self) -> (r: Self)
        ensures
            r == Literal::spec_negate(*self),
            r.var() == self.var(),
            r.neg() == !self.neg(),
    {
        proof {
            use_type_invariant(self);
            self.lemma_negate();
        }
        let n = self.literal_number;
        assert(n >= 2 ==> (n ^ 1) >= 2) by (bit_vector);
        Self { literal_number: n ^ 1 }
    }

    /// The literal in DIMACS notation: the variable number, with a leading `-` when negated.
    pub fn to_string(&self) -> (r: String)
        ensures
            r@ == super::clause::literal_text(*self),
    {
        let mut s = String::new();
        super::clause::append_literal_text(&mut s, self);
        assert(s@ =~= super::clause::literal_text(*self));
        s
    }

    /// The order key of the literal (see [`Literal::code`]).
    pub fn get_code(&self) -> (r: u32)
        ensures
            r == self.code(),
    {
        self.literal_number
    }
}

impl core::ops::Not for Literal {
    type Output = Self;

    fn not(self) -> (r: Self::Output) {
        self.negated()
    }
}

impl vstd::std_specs::ops::NotSpecImpl for Literal {
    open spec fn obeys_not_spec() -> bool {
        true
    }

    open spec fn not_req(self) -> bool {
        true
    }

    open spec fn not_spec(self) -> Literal {
        Literal::spec_negate(self)
    }
}

} // verus!
