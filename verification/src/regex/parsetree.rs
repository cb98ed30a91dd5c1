use vstd::prelude::*;
use crate::regex::pderiv::parsetree::Tree;

verus! {

/// Parse trees under a second set of constructor names.
/// Each constructor stands for the same tree as its counterpart in
/// `pderiv::parsetree::U` (`EpsU` for `NilU`, `Pair` for `PairU`, and so on).
#[derive(Debug)]
pub enum U {
    EpsU,
    LitU(char),
    Pair(Box<U>, Box<U>),
    Left(Box<U>),
    Right(Box<U>),
    ListU(Vec<U>),
}

pub open spec fn tree_of(u: U) -> Tree
    decreases u,
{
    match u {
        U::EpsU => Tree::Nil,
        U::LitU(c) => Tree::Chr(c),
        U::Pair(a, b) => Tree::Pair(Box::new(tree_of(*a)), Box::new(tree_of(*b))),
        U::Left(a) => Tree::Left(Box::new(tree_of(*a))),
        U::Right(b) => Tree::Right(Box::new(tree_of(*b))),
        U::ListU(us) => Tree::List(trees_of(us@)),
    }
}

pub open spec fn trees_of(us: Seq<U>) -> Seq<Tree>
    decreases us,
{
    if us.len() == 0 {
        Seq::empty()
    } else {
        seq![tree_of(us[0])] + trees_of(us.subrange(1, us.len() as int))
    }
}

impl View for U {
    type V = Tree;

    open spec fn view(&self) -> Tree {
        tree_of(*self)
    }
}

} // verus!
