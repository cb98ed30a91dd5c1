use vstd::prelude::*;
use std::rc::Rc;

verus! {

/// The external syntax tree of a regular expression, as written.
///
/// The character sets of `Any` and `NoneOf` are kept in ascending order without
/// repetitions (see `sets_sorted`); the parser produces them so.
#[derive(Debug, PartialEq)]
pub enum Ext {
    Empty,
    GrpNonMarking(Rc<Ext>),
    Grp(Rc<Ext>),
    Or(Vec<Ext>),
    Concat(Vec<Ext>),
    Opt(Rc<Ext>, bool),
    Plus(Rc<Ext>, bool),
    Star(Rc<Ext>, bool),
    /// inner expression, lower bound, upper bound, greedy flag
    Bound(Rc<Ext>, u64, Option<u64>, bool),
    Carat,
    Dollar,
    Dot,
    Any(Vec<char>),
    NoneOf(Vec<char>),
    /// an escaped character
    Escape(char),
    /// a character that stands for itself
    Char(char),
}

/// A copy of `e`.
fn clone_ext(e: &Ext) -> (res: Ext)
    ensures
        res@ == e@,
    decreases e,
{
    match e {
        Ext::Empty => Ext::Empty,
        Ext::GrpNonMarking(d) => Ext::GrpNonMarking(Rc::new(clone_ext(d))),
        Ext::Grp(d) => Ext::Grp(Rc::new(clone_ext(d))),
        Ext::Or(es) => Ext::Or(clone_exts(e, es)),
        Ext::Concat(es) => Ext::Concat(clone_exts(e, es)),
        Ext::Opt(d, g) => Ext::Opt(Rc::new(clone_ext(d)), *g),
        Ext::Plus(d, g) => Ext::Plus(Rc::new(clone_ext(d)), *g),
        Ext::Star(d, g) => Ext::Star(Rc::new(clone_ext(d)), *g),
        Ext::Bound(d, lb, ub, g) => Ext::Bound(Rc::new(clone_ext(d)), *lb, *ub, *g),
        Ext::Carat => Ext::Carat,
        Ext::Dollar => Ext::Dollar,
        Ext::Dot => Ext::Dot,
        Ext::Any(cs) => {
            let ds = cs.clone();
            assert(ds@ =~= cs@);
            Ext::Any(ds)
        },
        Ext::NoneOf(cs) => {
            let ds = cs.clone();
            assert(ds@ =~= cs@);
            Ext::NoneOf(ds)
        },
        Ext::Escape(c) => Ext::Escape(*c),
        Ext::Char(c) => Ext::Char(*c),
    }
}

/// A copy of the children `es` of `parent`.
fn clone_exts(parent: &Ext, es: &Vec<Ext>) -> (res: Vec<Ext>)
    requires
        (parent matches Ext::Or(xs) && xs == es) || (parent matches Ext::Concat(xs) && xs == es),
    ensures
        syns_of(res@) == syns_of(es@),
    decreases parent, 0nat,
{
    let mut ds: Vec<Ext> = Vec::new();
    let mut i: usize = 0;
    while i < es.len()
        invariant
            i <= es.len(),
            (parent matches Ext::Or(xs) && xs == es) || (parent matches Ext::Concat(xs) && xs == es),
            ds@.len() == i,
            forall|j: int| 0 <= j < i ==> #[trigger] syn_of(ds@[j]) == syn_of(es@[j]),
        decreases es.len() - i,
    {
        proof {
            assert(decreases_to!(*parent => es@[i as int]));
        }
        let d = clone_ext(&es[i]);
        ds.push(d);
        i = i + 1;
    }
    proof {
        lemma_syns_of(ds@);
        lemma_syns_of(es@);
        assert(syns_of(ds@) =~= syns_of(es@));
    }
    ds
}

impl Clone for Ext {
    /// A copy; shared subtrees are copied too.
    fn clone(&self) -> (res: Self)
        ensures
            res@ == self@,
    {
        clone_ext(self)
    }
}

/// The mathematical value of an `Ext`: the same tree, with sequences in place of vectors.
pub ghost enum Syn {
    Empty,
    GrpNonMarking(Box<Syn>),
    Grp(Box<Syn>),
    Or(Seq<Syn>),
    Concat(Seq<Syn>),
    Opt(Box<Syn>, bool),
    Plus(Box<Syn>, bool),
    Star(Box<Syn>, bool),
    Bound(Box<Syn>, u64, Option<u64>, bool),
    Carat,
    Dollar,
    Dot,
    Any(Seq<char>),
    NoneOf(Seq<char>),
    Escape(char),
    Char(char),
}

pub open spec fn syn_of(e: Ext) -> Syn
    decreases e,
{
    match e {
        Ext::Empty => Syn::Empty,
        Ext::GrpNonMarking(d) => Syn::GrpNonMarking(Box::new(syn_of(*d))),
        Ext::Grp(d) => Syn::Grp(Box::new(syn_of(*d))),
        Ext::Or(es) => Syn::Or(syns_of(es@)),
        Ext::Concat(es) => Syn::Concat(syns_of(es@)),
        Ext::Opt(d, g) => Syn::Opt(Box::new(syn_of(*d)), g),
        Ext::Plus(d, g) => Syn::Plus(Box::new(syn_of(*d)), g),
        Ext::Star(d, g) => Syn::Star(Box::new(syn_of(*d)), g),
        Ext::Bound(d, lb, ub, g) => Syn::Bound(Box::new(syn_of(*d)), lb, ub, g),
        Ext::Carat => Syn::Carat,
        Ext::Dollar => Syn::Dollar,
        Ext::Dot => Syn::Dot,
        Ext::Any(cs) => Syn::Any(cs@),
        Ext::NoneOf(cs) => Syn::NoneOf(cs@),
        Ext::Escape(c) => Syn::Escape(c),
        Ext::Char(c) => Syn::Char(c),
    }
}

pub open spec fn syns_of(es: Seq<Ext>) -> Seq<Syn>
    decreases es,
{
    if es.len() == 0 {
        Seq::empty()
    } else {
        seq![syn_of(es[0])] + syns_of(es.subrange(1, es.len() as int))
    }
}

impl View for Ext {
    type V = Syn;

    open spec fn view(&self) -> Syn {
        syn_of(*self)
    }
}

/// `syns_of` maps each element.
pub proof fn lemma_syns_of(es: Seq<Ext>)
    ensures
        syns_of(es).len() == es.len(),
        forall|i: int| 0 <= i < es.len() ==> #[trigger] syns_of(es)[i] == syn_of(es[i]),
    decreases es.len(),
{
    if es.len() > 0 {
        lemma_syns_of(es.subrange(1, es.len() as int));
        assert forall|i: int| 0 <= i < es.len() implies #[trigger] syns_of(es)[i] == syn_of(es[i]) by {
            if i > 0 {
                assert(es.subrange(1, es.len() as int)[i - 1] == es[i]);
            }
        }
    }
}

/// Whether a character sequence is in strictly ascending order.
pub open spec fn ascending(cs: Seq<char>) -> bool {
    forall|i: int, j: int| 0 <= i < j < cs.len() ==> cs[i] < cs[j]
}

/// Whether every character set in the tree is in strictly ascending order.
pub open spec fn sets_sorted(e: Syn) -> bool
    decreases e,
{
    match e {
        Syn::GrpNonMarking(d) => sets_sorted(*d),
        Syn::Grp(d) => sets_sorted(*d),
        Syn::Or(ds) => all_sets_sorted(ds),
        Syn::Concat(ds) => all_sets_sorted(ds),
        Syn::Opt(d, _) => sets_sorted(*d),
        Syn::Plus(d, _) => sets_sorted(*d),
        Syn::Star(d, _) => sets_sorted(*d),
        Syn::Bound(d, _, _, _) => sets_sorted(*d),
        Syn::Any(cs) => ascending(cs),
        Syn::NoneOf(cs) => ascending(cs),
        _ => true,
    }
}

pub open spec fn all_sets_sorted(ds: Seq<Syn>) -> bool
    decreases ds,
{
    ds.len() > 0 ==> sets_sorted(ds[0]) && all_sets_sorted(ds.subrange(1, ds.len() as int))
}


/// `all_sets_sorted` of a sequence with one more element.
pub proof fn lemma_all_sets_sorted_push(ds: Seq<Syn>, x: Syn)
    requires
        all_sets_sorted(ds),
        sets_sorted(x),
    ensures
        all_sets_sorted(ds.push(x)),
    decreases ds.len(),
{
    let e = ds.push(x);
    if ds.len() == 0 {
        assert(e.subrange(1, 1) =~= Seq::<Syn>::empty());
        assert(e[0] == x);
        assert(all_sets_sorted(e.subrange(1, 1)));
    } else {
        let t = ds.subrange(1, ds.len() as int);
        lemma_all_sets_sorted_push(t, x);
        assert(e.subrange(1, e.len() as int) =~= t.push(x));
        assert(e[0] == ds[0]);
        assert(all_sets_sorted(e.subrange(1, e.len() as int)));
    }
}

} // verus!
