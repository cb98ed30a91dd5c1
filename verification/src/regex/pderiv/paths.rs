use vstd::prelude::*;
use crate::regex::re::{RE, nullable_spec, nub_fst};
use crate::regex::pderiv::bits::pd_bc;
use crate::regex::pderiv::parsetree::emp_code_spec;

verus! {

/// A path through a transducer: the state it has reached and the bits of the way.
pub type Path = (RE, Seq<bool>);

/// The paths that continue `(p, b)` by a partial derivative of `p`, in the order of
/// the derivatives: each derivative `(q, b2)` of `ds` gives `(q, b + b2)`.
pub open spec fn continue_path(ds: Seq<(RE, Seq<bool>)>, b: Seq<bool>) -> Seq<Path>
    decreases ds.len(),
{
    if ds.len() == 0 {
        Seq::empty()
    } else {
        continue_path(ds.drop_last(), b).push((ds.last().0, b + ds.last().1))
    }
}

/// One letter more: each path, in order, continued by the partial derivatives of its
/// state by `c`, in order.
pub open spec fn step_paths(v: Seq<Path>, c: char) -> Seq<Path>
    decreases v.len(),
{
    if v.len() == 0 {
        Seq::empty()
    } else {
        step_paths(v.drop_last(), c) + continue_path(pd_bc(v.last().0, c), v.last().1)
    }
}

/// All paths from `init` through the word `w`, in the order in which they are followed.
pub open spec fn all_paths(init: RE, w: Seq<char>) -> Seq<Path>
    decreases w.len(),
{
    if w.len() == 0 {
        seq![(init, Seq::<bool>::empty())]
    } else {
        step_paths(all_paths(init, w.drop_last()), w.last())
    }
}

/// The paths from `init` through `w` when, after each letter, only the first path to
/// each state is kept.
pub open spec fn first_paths(init: RE, w: Seq<char>) -> Seq<Path>
    decreases w.len(),
{
    if w.len() == 0 {
        seq![(init, Seq::<bool>::empty())]
    } else {
        nub_fst(step_paths(first_paths(init, w.drop_last()), w.last()))
    }
}

/// The codes of the paths that end in a nullable state, in order: each path's bits
/// followed by the empty-word code of its state.
pub open spec fn final_codes(v: Seq<Path>) -> Seq<Seq<bool>>
    decreases v.len(),
{
    if v.len() == 0 {
        Seq::empty()
    } else if nullable_spec(v.last().0) {
        final_codes(v.drop_last()).push(v.last().1 + emp_code_spec(v.last().0))
    } else {
        final_codes(v.drop_last())
    }
}

} // verus!
