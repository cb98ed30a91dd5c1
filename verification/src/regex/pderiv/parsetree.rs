use vstd::prelude::*;
use crate::regex::re::{RE, nullable_spec};

verus! {

/// Parse trees produced by matching a regular expression against a word.
#[derive(Debug, PartialEq)]
pub enum U {
    NilU,
    LitU(char),
    PairU(Box<U>, Box<U>),
    LeftU(Box<U>),
    RightU(Box<U>),
    ListU(Vec<U>),
}

/// The mathematical shape of a parse tree.
pub ghost enum Tree {
    Nil,
    Chr(char),
    Pair(Box<Tree>, Box<Tree>),
    Left(Box<Tree>),
    Right(Box<Tree>),
    List(Seq<Tree>),
}

pub open spec fn tree_of(u: U) -> Tree
    decreases u,
{
    match u {
        U::NilU => Tree::Nil,
        U::LitU(c) => Tree::Chr(c),
        U::PairU(a, b) => Tree::Pair(Box::new(tree_of(*a)), Box::new(tree_of(*b))),
        U::LeftU(a) => Tree::Left(Box::new(tree_of(*a))),
        U::RightU(b) => Tree::Right(Box::new(tree_of(*b))),
        U::ListU(us) => Tree::List(trees_of(us@)),
    }
}

pub open spec fn trees_of(us: Seq<U>) -> Seq<Tree>
    decreases us,
{
    if us.len() == 0 {
        Seq::empty()
    } else {
        seq![tree_of(us[0])] + trees_of(us.subrange(1, us.len() as int))
    }
}

impl View for U {
    type V = Tree;

    open spec fn view(&self) -> Tree {
        tree_of(*self)
    }
}

/// The word that a parse tree spells out.
pub open spec fn flat(t: Tree) -> Seq<char>
    decreases t,
{
    match t {
        Tree::Nil => Seq::empty(),
        Tree::Chr(c) => seq![c],
        Tree::Pair(a, b) => flat(*a) + flat(*b),
        Tree::Left(a) => flat(*a),
        Tree::Right(b) => flat(*b),
        Tree::List(ts) => flat_list(ts),
    }
}

pub open spec fn flat_list(ts: Seq<Tree>) -> Seq<char>
    decreases ts,
{
    if ts.len() == 0 {
        Seq::empty()
    } else {
        flat(ts[0]) + flat_list(ts.subrange(1, ts.len() as int))
    }
}

/// Whether `t` is a parse tree of `r`.
pub open spec fn valid(t: Tree, r: RE) -> bool
    decreases t,
{
    match t {
        Tree::Nil => r is Eps,
        Tree::Chr(c) => r == RE::Lit(c),
        Tree::Pair(a, b) => match r {
            RE::Sequence(r1, r2) => valid(*a, *r1) && valid(*b, *r2),
            _ => false,
        },
        Tree::Left(a) => match r {
            RE::Choice(r1, _) => valid(*a, *r1),
            _ => false,
        },
        Tree::Right(b) => match r {
            RE::Choice(_, r2) => valid(*b, *r2),
            _ => false,
        },
        Tree::List(ts) => match r {
            RE::Star(r1) => valid_list(ts, *r1),
            _ => false,
        },
    }
}

/// Whether every tree in `ts` is a parse tree of `r`.
pub open spec fn valid_list(ts: Seq<Tree>, r: RE) -> bool
    decreases ts,
{
    if ts.len() == 0 {
        true
    } else {
        valid(ts[0], r) && valid_list(ts.subrange(1, ts.len() as int), r)
    }
}

/// The bit code of a parse tree: one bit per choice (`false` for the left
/// alternative) and one bit per star iteration (`false` to go on, `true` to stop).
pub open spec fn encode(t: Tree, r: RE) -> Seq<bool>
    decreases t,
{
    match t {
        Tree::Pair(a, b) => match r {
            RE::Sequence(r1, r2) => encode(*a, *r1) + encode(*b, *r2),
            _ => Seq::empty(),
        },
        Tree::Left(a) => match r {
            RE::Choice(r1, _) => seq![false] + encode(*a, *r1),
            _ => Seq::empty(),
        },
        Tree::Right(b) => match r {
            RE::Choice(_, r2) => seq![true] + encode(*b, *r2),
            _ => Seq::empty(),
        },
        Tree::List(ts) => match r {
            RE::Star(r1) => encode_list(ts, *r1),
            _ => Seq::empty(),
        },
        _ => Seq::empty(),
    }
}

/// The bit code of the iterations of a star.
pub open spec fn encode_list(ts: Seq<Tree>, r: RE) -> Seq<bool>
    decreases ts,
{
    if ts.len() == 0 {
        seq![true]
    } else {
        seq![false] + encode(ts[0], r) + encode_list(ts.subrange(1, ts.len() as int), r)
    }
}

/// Whether the word `w` belongs to the language of `r`.
pub open spec fn accepts(r: RE, w: Seq<char>) -> bool {
    exists|t: Tree| valid(t, r) && flat(t) == w
}

/// The leftmost parse tree of the empty word, for a nullable `r`.
pub open spec fn emp_tree(r: RE) -> Tree
    decreases r,
{
    match r {
        RE::Choice(r1, r2) => if nullable_spec(*r1) {
            Tree::Left(Box::new(emp_tree(*r1)))
        } else {
            Tree::Right(Box::new(emp_tree(*r2)))
        },
        RE::Sequence(r1, r2) => Tree::Pair(Box::new(emp_tree(*r1)), Box::new(emp_tree(*r2))),
        RE::Star(_) => Tree::List(Seq::empty()),
        _ => Tree::Nil,
    }
}

/// The bit code of the leftmost parse tree of the empty word.
pub open spec fn emp_code_spec(r: RE) -> Seq<bool>
    decreases r,
{
    match r {
        RE::Choice(r1, r2) => if nullable_spec(*r1) {
            seq![false] + emp_code_spec(*r1)
        } else {
            seq![true] + emp_code_spec(*r2)
        },
        RE::Sequence(r1, r2) => emp_code_spec(*r1) + emp_code_spec(*r2),
        RE::Star(_) => seq![true],
        _ => Seq::empty(),
    }
}

/// The leftmost empty parse tree of a nullable expression is a parse tree of
/// the empty word, and its code is `emp_code_spec`.
pub proof fn lemma_emp_tree(r: RE)
    requires
        nullable_spec(r),
    ensures
        valid(emp_tree(r), r),
        flat(emp_tree(r)) == Seq::<char>::empty(),
        encode(emp_tree(r), r) == emp_code_spec(r),
    decreases r,
{
    match r {
        RE::Choice(r1, r2) => {
            if nullable_spec(*r1) {
                lemma_emp_tree(*r1);
            } else {
                lemma_emp_tree(*r2);
            }
        },
        RE::Sequence(r1, r2) => {
            lemma_emp_tree(*r1);
            lemma_emp_tree(*r2);
            assert(flat(emp_tree(r)) =~= Seq::<char>::empty());
        },
        RE::Star(r1) => {
            let ts = Seq::<Tree>::empty();
            assert(emp_tree(r) == Tree::List(ts));
            assert(encode_list(ts, *r1) == seq![true]);
            assert(valid_list(ts, *r1));
            assert(flat_list(ts) == Seq::<char>::empty());
        },
        _ => {},
    }
}

/// Whether `c` stands in `bs` at position `pos`.
pub open spec fn code_at(bs: Seq<bool>, pos: int, c: Seq<bool>) -> bool {
    0 <= pos && pos + c.len() <= bs.len() && bs.subrange(pos, pos + c.len()) == c
}

pub proof fn lemma_code_at_split(bs: Seq<bool>, pos: int, c1: Seq<bool>, c2: Seq<bool>)
    requires
        code_at(bs, pos, c1 + c2),
    ensures
        code_at(bs, pos, c1),
        code_at(bs, pos + c1.len(), c2),
{
    let whole = bs.subrange(pos, pos + c1.len() + c2.len());
    assert(whole == c1 + c2);
    assert(bs.subrange(pos, pos + c1.len()) =~= whole.subrange(0, c1.len() as int));
    assert(bs.subrange(pos + c1.len(), pos + c1.len() + c2.len()) =~= whole.subrange(
        c1.len() as int,
        whole.len() as int,
    ));
    assert((c1 + c2).subrange(0, c1.len() as int) =~= c1);
    assert((c1 + c2).subrange(c1.len() as int, (c1 + c2).len() as int) =~= c2);
}

pub proof fn lemma_code_at_join(bs: Seq<bool>, pos: int, c1: Seq<bool>, c2: Seq<bool>)
    requires
        code_at(bs, pos, c1),
        code_at(bs, pos + c1.len(), c2),
    ensures
        code_at(bs, pos, c1 + c2),
{
    assert(bs.subrange(pos, pos + c1.len() + c2.len()) =~= bs.subrange(pos, pos + c1.len())
        + bs.subrange(pos + c1.len(), pos + c1.len() + c2.len()));
}

pub proof fn lemma_trees_of_cons(u: U, us: Seq<U>)
    ensures
        trees_of(seq![u] + us) == seq![tree_of(u)] + trees_of(us),
{
    assert((seq![u] + us).subrange(1, (seq![u] + us).len() as int) =~= us);
}

/// Two parse trees of the same expression whose codes stand at the same place
/// are the same tree: the code is prefix-free.
pub proof fn lemma_code_unique(t1: Tree, t2: Tree, r: RE, bs: Seq<bool>, pos: int)
    requires
        valid(t1, r),
        valid(t2, r),
        code_at(bs, pos, encode(t1, r)),
        code_at(bs, pos, encode(t2, r)),
    ensures
        t1 == t2,
    decreases t1,
{
    match r {
        RE::Sequence(r1, r2) => {
            let (a1, b1) = match t1 {
                Tree::Pair(a, b) => (*a, *b),
                _ => (t1, t1),
            };
            let (a2, b2) = match t2 {
                Tree::Pair(a, b) => (*a, *b),
                _ => (t2, t2),
            };
            lemma_code_at_split(bs, pos, encode(a1, *r1), encode(b1, *r2));
            lemma_code_at_split(bs, pos, encode(a2, *r1), encode(b2, *r2));
            lemma_code_unique(a1, a2, *r1, bs, pos);
            lemma_code_unique(b1, b2, *r2, bs, pos + encode(a1, *r1).len());
        },
        RE::Choice(r1, r2) => {
            match (t1, t2) {
                (Tree::Left(a1), Tree::Left(a2)) => {
                    lemma_code_at_split(bs, pos, seq![false], encode(*a1, *r1));
                    lemma_code_at_split(bs, pos, seq![false], encode(*a2, *r1));
                    lemma_code_unique(*a1, *a2, *r1, bs, pos + 1);
                },
                (Tree::Right(b1), Tree::Right(b2)) => {
                    lemma_code_at_split(bs, pos, seq![true], encode(*b1, *r2));
                    lemma_code_at_split(bs, pos, seq![true], encode(*b2, *r2));
                    lemma_code_unique(*b1, *b2, *r2, bs, pos + 1);
                },
                (Tree::Left(a1), Tree::Right(b2)) => {
                    assert(bs[pos] == encode(t1, r)[0]);
                    assert(bs[pos] == encode(t2, r)[0]);
                },
                (Tree::Right(b1), Tree::Left(a2)) => {
                    assert(bs[pos] == encode(t1, r)[0]);
                    assert(bs[pos] == encode(t2, r)[0]);
                },
                _ => {},
            }
        },
        RE::Star(r1) => {
            match (t1, t2) {
                (Tree::List(ts1), Tree::List(ts2)) => {
                    lemma_code_unique_list(ts1, ts2, *r1, bs, pos);
                },
                _ => {},
            }
        },
        _ => {},
    }
}

/// A code determines its tree: two parse trees of `r` with the same code are equal,
/// so decoding the code of a tree gives back that tree.
pub proof fn lemma_code_determines_tree(t1: Tree, t2: Tree, r: RE)
    requires
        valid(t1, r),
        valid(t2, r),
        encode(t1, r) == encode(t2, r),
    ensures
        t1 == t2,
{
    let bs = encode(t1, r);
    assert(bs.subrange(0, bs.len() as int) =~= bs);
    lemma_code_unique(t1, t2, r, bs, 0);
}

/// The list version of `lemma_code_unique`.
pub proof fn lemma_code_unique_list(ts1: Seq<Tree>, ts2: Seq<Tree>, r: RE, bs: Seq<bool>, pos: int)
    requires
        valid_list(ts1, r),
        valid_list(ts2, r),
        code_at(bs, pos, encode_list(ts1, r)),
        code_at(bs, pos, encode_list(ts2, r)),
    ensures
        ts1 == ts2,
    decreases ts1,
{
    if ts1.len() == 0 && ts2.len() == 0 {
        assert(ts1 =~= ts2);
    } else if ts1.len() == 0 || ts2.len() == 0 {
        assert(bs[pos] == encode_list(ts1, r)[0]);
        assert(bs[pos] == encode_list(ts2, r)[0]);
    } else {
        let rest1 = ts1.subrange(1, ts1.len() as int);
        let rest2 = ts2.subrange(1, ts2.len() as int);
        lemma_code_at_split(bs, pos, seq![false] + encode(ts1[0], r), encode_list(rest1, r));
        lemma_code_at_split(bs, pos, seq![false] + encode(ts2[0], r), encode_list(rest2, r));
        lemma_code_at_split(bs, pos, seq![false], encode(ts1[0], r));
        lemma_code_at_split(bs, pos, seq![false], encode(ts2[0], r));
        lemma_code_unique(ts1[0], ts2[0], r, bs, pos + 1);
        lemma_code_unique_list(rest1, rest2, r, bs, pos + 1 + encode(ts1[0], r).len());
        assert(ts1 =~= seq![ts1[0]] + rest1);
        assert(ts2 =~= seq![ts2[0]] + rest2);
    }
}

} // verus!
