//! Hint generation.
use vstd::prelude::*;

pub mod pool_generator;

pub use pool_generator::HintPoolGenerator;

verus! {

/// No hint begins another one: while the user types, the keys so far can
/// only ever complete one hint. In particular no hint occurs twice.
pub open spec fn prefix_free(hints: Seq<Seq<char>>) -> bool {
    forall|i: int, j: int|
        0 <= i < hints.len() && 0 <= j < hints.len() && i != j ==> !(
        #[trigger] hints[i]).is_prefix_of(#[trigger] hints[j])
}

/// Hints that can be typed and tell apart what they stand for: none is
/// empty and none begins another one.
pub open spec fn usable(hints: Seq<Seq<char>>) -> bool {
    &&& prefix_free(hints)
    &&& forall|i: int| 0 <= i < hints.len() ==> (#[trigger] hints[i]).len() > 0
}

/// The trait that defines structs that can generate hints.
pub trait HintGenerator {
    /// The hints that the generator hands out when it is asked for
    /// `hint_count` of them.
    spec fn hints(&self, hint_count: nat) -> Seq<Seq<char>>;

    /// Ask the generator to create the requested number of hints.
    ///
    /// Note that the generator is allowed to return a different
    /// number of hints than requested.
    fn create_hints(&self, hint_count: usize) -> (hints: Vec<String>)
        ensures
            hints.deep_view() == self.hints(hint_count as nat),
    ;
}

} // verus!
