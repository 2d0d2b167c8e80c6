use vstd::prelude::*;

verus! {

/// What a blocking operation does next, given the shared state it sees:
/// keep waiting for the state to change, or return a value.
#[derive(Debug, PartialEq, Eq, Structural)]
pub enum Step<T> {
    Block,
    Return(T),
}

impl<T> Step<T> {
    /// Whether the caller has to keep waiting.
    pub fn is_block(&self) -> (b: bool)
        ensures
            b == (*self is Block),
    {
        match self {
            Step::Block => true,
            Step::Return(_) => false,
        }
    }
}

} // verus!
