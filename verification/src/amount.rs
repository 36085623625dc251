//! Decimal amounts as the providers send them.
use crate::double::Double;
use vstd::prelude::*;

verus! {

/// An amount kept as its text, beside the double that the text reads as
/// (`None` when it is no number).
#[derive(Debug)]
pub struct Amount {
    pub text: String,
    pub parsed: Option<Double>,
}

impl Clone for Amount {
    fn clone(&self) -> (r: Self)
        ensures
            r == *self,
    {
        Amount { text: self.text.clone(), parsed: self.parsed }
    }
}

} // verus!
