use vstd::prelude::*;
use vstd::string::StringExecFns;

verus! {

/// Variable representation
#[derive(Hash, PartialEq, Eq, Clone, PartialOrd, Ord)]
pub struct Variable {
    variable_number: u32,
}

impl Variable {
    /// The number carried by the variable.
    pub closed spec fn number(self) -> u32 {
        self.variable_number
    }

    /// Returns a variable with the number given.
    pub fn new(variable_number: u32) -> (r: Self)
        requires
            variable_number <= 0x7fff_ffff,
        ensures
            r.number() == variable_number,
    {
        Self { variable_number }
    }

    /// The variable's name: `x` followed by its number.
    pub fn to_string(&self) -> (r: String)
        ensures
            r@ == seq!['x'] + crate::text::decimal(self.number() as nat),
    {
        let mut s = String::new();
        proof {
            reveal_strlit("x");
        }
        s.append("x");
        crate::text::append_decimal(&mut s, self.variable_number as u64);
        assert(s@ =~= seq!['x'] + crate::text::decimal(self.number() as nat));
        s
    }

    /// Returns the number of the variable.
    pub fn get_number(&self) -> (r: u32)
        ensures
            r == self.number(),
    {
        self.variable_number
    }
}

} // verus!
