use vstd::prelude::*;

verus! {

/// Implemented by event types to say which emissions commute.
///
/// Each event is associated with a consumer run on an `Aux` argument; for an
/// emission `f(my_aux)` and another `g(others_aux)`, `do_interleave` says whether
/// all their steps may interleave: they do not read and write the same
/// locations. An emission may interleave with everything, for instance one that
/// only reads what no consumer ever writes, or needs nothing beyond its argument.
///
/// The two spec functions state the answers: an implementation answers as its
/// spec function says, so the answer depends on the arguments alone.
pub trait Interleaves<Aux> {
    /// Whether this emission (with `my_aux`) and `other` (with `others_aux`) may interleave.
    spec fn interleave_spec(&self, my_aux: &Aux, other: &Self, others_aux: &Aux) -> bool;

    /// Whether this emission (with `my_aux`) may interleave with any other.
    spec fn interleaves_with_everything_spec(&self, my_aux: &Aux) -> bool;

    fn do_interleave(&self, my_aux: &Aux, other: &Self, others_aux: &Aux) -> (r: bool)
        ensures
            r == self.interleave_spec(my_aux, other, others_aux),
    ;

    fn interleaves_with_everything(&self, my_aux: &Aux) -> (r: bool)
        ensures
            r == self.interleaves_with_everything_spec(my_aux),
    ;
}

} // verus!
