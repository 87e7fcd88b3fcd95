use vstd::prelude::*;

use crate::literal::{lit_wf, LitV, Literal};

verus! {

/// The mathematical value of a variable slot.
#[verifier::ext_equal]
pub struct VarV {
    pub name: Seq<char>,
    pub value: Option<LitV>,
}

/// Well-formedness of a variable slot: its value, when present, is a
/// well-formed literal.
pub open spec fn var_wf(v: VarV) -> bool {
    match v.value {
        Some(l) => lit_wf(l),
        None => true,
    }
}

/// One slot of the variable store: a name and an optional current
/// value, absent until the first assignment.
#[derive(Debug)]
pub struct Variable {
    pub name: String,
    pub value: Option<Literal>,
}

impl Variable {
    /// Mutable access to the current value, when one is set.
    pub fn get_mut(&mut self) -> (r: Option<&mut Literal>)
        ensures
            r is Some <==> old(self).value is Some,
            final(self).name == old(self).name,
    {
        self.value.as_mut()
    }
}

impl View for Variable {
    type V = VarV;

    open spec fn view(&self) -> VarV {
        VarV {
            name: self.name@,
            value: match self.value {
                Some(l) => Some(l@),
                None => None,
            },
        }
    }
}

} // verus!
