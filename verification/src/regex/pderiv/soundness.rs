use vstd::prelude::*;
use crate::regex::re::{RE, nullable_spec, occurs_fst, lemma_nub_fst_subset, lemma_nub_fst_covers};
use crate::regex::pderiv::parsetree::{
    Tree, valid, valid_list, flat, flat_list, encode, encode_list, emp_tree, emp_code_spec,
    lemma_emp_tree,
};
use crate::regex::pderiv::bits::pd_bc;

verus! {

/// A parse tree of the empty word only exists for a nullable expression.
pub proof fn lemma_empty_tree_nullable(t: Tree, r: RE)
    requires
        valid(t, r),
        flat(t).len() == 0,
    ensures
        nullable_spec(r),
    decreases t,
{
    match t {
        Tree::Pair(a, b) => {
            match r {
                RE::Sequence(r1, r2) => {
                    lemma_empty_tree_nullable(*a, *r1);
                    lemma_empty_tree_nullable(*b, *r2);
                },
                _ => {},
            }
        },
        Tree::Left(a) => {
            match r {
                RE::Choice(r1, _) => {
                    lemma_empty_tree_nullable(*a, *r1);
                },
                _ => {},
            }
        },
        Tree::Right(b) => {
            match r {
                RE::Choice(_, r2) => {
                    lemma_empty_tree_nullable(*b, *r2);
                },
                _ => {},
            }
        },
        _ => {},
    }
}

proof fn lemma_drop_letter(l: char, w: Seq<char>, w1: Seq<char>, y: Seq<char>)
    requires
        seq![l] + w == (seq![l] + w1) + y,
    ensures
        w == w1 + y,
{
    assert(w =~= (seq![l] + w).subrange(1, (seq![l] + w).len() as int));
    assert(w1 + y =~= ((seq![l] + w1) + y).subrange(1, ((seq![l] + w1) + y).len() as int));
}

proof fn lemma_list_cons(t: Tree, ts: Seq<Tree>, r: RE)
    ensures
        (seq![t] + ts)[0] == t,
        (seq![t] + ts).subrange(1, (seq![t] + ts).len() as int) == ts,
        valid_list(seq![t] + ts, r) == (valid(t, r) && valid_list(ts, r)),
        flat_list(seq![t] + ts) == flat(t) + flat_list(ts),
        encode_list(seq![t] + ts, r) == seq![false] + encode(t, r) + encode_list(ts, r),
{
    assert((seq![t] + ts).subrange(1, (seq![t] + ts).len() as int) =~= ts);
}

/// Soundness of the partial derivatives with bit codes: every parse tree of a
/// derivative extends, by the letter, to a parse tree of the expression, and
/// the code of that tree is the derivative's bits followed by the code of the
/// tree of the derivative.
pub proof fn lemma_pd_bc_sound(r: RE, l: char, i: int, t2: Tree) -> (t: Tree)
    requires
        0 <= i < pd_bc(r, l).len(),
        valid(t2, pd_bc(r, l)[i].0),
    ensures
        valid(t, r),
        flat(t) == seq![l] + flat(t2),
        encode(t, r) == pd_bc(r, l)[i].1 + encode(t2, pd_bc(r, l)[i].0),
    decreases r,
{
    match r {
        RE::Lit(m) => {
            assert(flat(Tree::Chr(l)) =~= seq![l] + flat(t2));
            assert(encode(Tree::Chr(l), r) =~= pd_bc(r, l)[i].1 + encode(t2, pd_bc(r, l)[i].0));
            Tree::Chr(l)
        },
        RE::Sequence(r1, r2) => {
            let ts = pd_bc(*r1, l).map_values(
                |p: (RE, Seq<bool>)| (RE::Sequence(Box::new(p.0), r2), p.1),
            );
            let vs = pd_bc(*r2, l).map_values(
                |p: (RE, Seq<bool>)| (p.0, emp_code_spec(*r1) + p.1),
            );
            let all = if nullable_spec(*r1) { ts + vs } else { ts };
            lemma_nub_fst_subset(all);
            let j = choose|j: int| 0 <= j < all.len() && pd_bc(r, l)[i] == all[j];
            if j < ts.len() {
                assert(all[j] == ts[j]);
                let (a, c) = match t2 {
                    Tree::Pair(a, c) => (*a, *c),
                    _ => (t2, t2),
                };
                let ta = lemma_pd_bc_sound(*r1, l, j, a);
                let t = Tree::Pair(Box::new(ta), Box::new(c));
                assert(flat(t) =~= seq![l] + flat(t2));
                assert(encode(t, r) =~= pd_bc(r, l)[i].1 + encode(t2, pd_bc(r, l)[i].0));
                t
            } else {
                let k = j - ts.len();
                assert(all[j] == vs[k]);
                let tc = lemma_pd_bc_sound(*r2, l, k, t2);
                lemma_emp_tree(*r1);
                let t = Tree::Pair(Box::new(emp_tree(*r1)), Box::new(tc));
                assert(flat(t) =~= seq![l] + flat(t2));
                assert(encode(t, r) =~= pd_bc(r, l)[i].1 + encode(t2, pd_bc(r, l)[i].0));
                t
            }
        },
        RE::Choice(r1, r2) => {
            let ts = pd_bc(*r1, l).map_values(|p: (RE, Seq<bool>)| (p.0, seq![false] + p.1));
            let vs = pd_bc(*r2, l).map_values(|p: (RE, Seq<bool>)| (p.0, seq![true] + p.1));
            lemma_nub_fst_subset(ts + vs);
            let j = choose|j: int| 0 <= j < (ts + vs).len() && pd_bc(r, l)[i] == (ts + vs)[j];
            if j < ts.len() {
                assert((ts + vs)[j] == ts[j]);
                let ta = lemma_pd_bc_sound(*r1, l, j, t2);
                let t = Tree::Left(Box::new(ta));
                assert(encode(t, r) =~= pd_bc(r, l)[i].1 + encode(t2, pd_bc(r, l)[i].0));
                t
            } else {
                let k = j - ts.len();
                assert((ts + vs)[j] == vs[k]);
                let tb = lemma_pd_bc_sound(*r2, l, k, t2);
                let t = Tree::Right(Box::new(tb));
                assert(encode(t, r) =~= pd_bc(r, l)[i].1 + encode(t2, pd_bc(r, l)[i].0));
                t
            }
        },
        RE::Star(r1) => {
            let ts = pd_bc(*r1, l).map_values(
                |p: (RE, Seq<bool>)|
                    (RE::Sequence(Box::new(p.0), Box::new(RE::Star(r1))), seq![false] + p.1),
            );
            lemma_nub_fst_subset(ts);
            let j = choose|j: int| 0 <= j < ts.len() && pd_bc(r, l)[i] == ts[j];
            let (a, c) = match t2 {
                Tree::Pair(a, c) => (*a, *c),
                _ => (t2, t2),
            };
            let cs = match c {
                Tree::List(cs) => cs,
                _ => Seq::empty(),
            };
            assert(ts[j].0 == RE::Sequence(Box::new(pd_bc(*r1, l)[j].0), Box::new(RE::Star(r1))));
            assert(t2 == Tree::Pair(Box::new(a), Box::new(c)));
            assert(valid(c, RE::Star(r1)));
            assert(c == Tree::List(cs));
            let ta = lemma_pd_bc_sound(*r1, l, j, a);
            lemma_list_cons(ta, cs, *r1);
            let t = Tree::List(seq![ta] + cs);
            let p = pd_bc(*r1, l)[j].0;
            assert(flat(c) == flat_list(cs));
            assert(flat(t2) == flat(a) + flat(c));
            assert(flat(t) == flat_list(seq![ta] + cs));
            assert(encode(c, RE::Star(r1)) == encode_list(cs, *r1));
            assert(encode(t2, pd_bc(r, l)[i].0) == encode(a, p) + encode(c, RE::Star(r1)));
            assert(encode(t, r) == encode_list(seq![ta] + cs, *r1));
            assert(pd_bc(r, l)[i].1 == seq![false] + pd_bc(*r1, l)[j].1);
            assert(flat(t) =~= seq![l] + flat(t2));
            assert(encode(t, r) =~= pd_bc(r, l)[i].1 + encode(t2, pd_bc(r, l)[i].0));
            t
        },
        _ => {
            t2
        },
    }
}

/// Completeness of the partial derivatives: a parse tree of a word that starts
/// with the letter gives a parse tree of the rest of the word for one of the
/// partial derivatives.
pub proof fn lemma_pd_bc_complete(r: RE, l: char, t: Tree, w: Seq<char>) -> (res: (int, Tree))
    requires
        valid(t, r),
        flat(t) == seq![l] + w,
    ensures
        0 <= res.0 < pd_bc(r, l).len(),
        valid(res.1, pd_bc(r, l)[res.0].0),
        flat(res.1) == w,
    decreases r, 0int, 0int,
{
    match r {
        RE::Lit(m) => {
            assert(flat(t)[0] == l);
            assert(w =~= Seq::<char>::empty());
            (0, Tree::Nil)
        },
        RE::Eps => {
            assert(flat(t).len() == 0);
            (0, t)
        },
        RE::Sequence(r1, r2) => {
            let ts = pd_bc(*r1, l).map_values(
                |p: (RE, Seq<bool>)| (RE::Sequence(Box::new(p.0), r2), p.1),
            );
            let vs = pd_bc(*r2, l).map_values(
                |p: (RE, Seq<bool>)| (p.0, emp_code_spec(*r1) + p.1),
            );
            let all = if nullable_spec(*r1) { ts + vs } else { ts };
            let (a, c) = match t {
                Tree::Pair(a, c) => (*a, *c),
                _ => (t, t),
            };
            lemma_nub_fst_covers(all);
            assert(t == Tree::Pair(Box::new(a), Box::new(c)));
            if flat(a).len() > 0 {
                let w1 = flat(a).subrange(1, flat(a).len() as int);
                assert(flat(a)[0] == (flat(a) + flat(c))[0]);
                assert(flat(a) =~= seq![l] + w1);
                lemma_drop_letter(l, w, w1, flat(c));
                let (j, ta) = lemma_pd_bc_complete(*r1, l, a, w1);
                assert(all[j] == ts[j]);
                assert(occurs_fst(pd_bc(r, l), all[j].0));
                let i = choose|i: int| 0 <= i < pd_bc(r, l).len() && pd_bc(r, l)[i].0 == all[j].0;
                let tree = Tree::Pair(Box::new(ta), Box::new(c));
                assert(flat(tree) == w);
                (i, tree)
            } else {
                lemma_empty_tree_nullable(a, *r1);
                assert(flat(c) =~= flat(t));
                let (j, tc) = lemma_pd_bc_complete(*r2, l, c, w);
                assert(all[ts.len() + j] == vs[j]);
                assert(occurs_fst(pd_bc(r, l), all[ts.len() + j].0));
                let i = choose|i: int| 0 <= i < pd_bc(r, l).len() && pd_bc(r, l)[i].0 == all[ts.len() + j].0;
                (i, tc)
            }
        },
        RE::Choice(r1, r2) => {
            let ts = pd_bc(*r1, l).map_values(|p: (RE, Seq<bool>)| (p.0, seq![false] + p.1));
            let vs = pd_bc(*r2, l).map_values(|p: (RE, Seq<bool>)| (p.0, seq![true] + p.1));
            lemma_nub_fst_covers(ts + vs);
            match t {
                Tree::Left(a) => {
                    let (j, ta) = lemma_pd_bc_complete(*r1, l, *a, w);
                    assert((ts + vs)[j] == ts[j]);
                    assert(occurs_fst(pd_bc(r, l), (ts + vs)[j].0));
                    let i = choose|i: int| 0 <= i < pd_bc(r, l).len() && pd_bc(r, l)[i].0 == (ts + vs)[j].0;
                    (i, ta)
                },
                Tree::Right(b) => {
                    let (j, tb) = lemma_pd_bc_complete(*r2, l, *b, w);
                    assert((ts + vs)[ts.len() + j] == vs[j]);
                    assert(occurs_fst(pd_bc(r, l), (ts + vs)[ts.len() + j].0));
                    let i = choose|i: int| 0 <= i < pd_bc(r, l).len() && pd_bc(r, l)[i].0 == (ts + vs)[ts.len() + j].0;
                    (i, tb)
                },
                _ => (0, t),
            }
        },
        RE::Star(r1) => {
            let ts = pd_bc(*r1, l).map_values(
                |p: (RE, Seq<bool>)|
                    (RE::Sequence(Box::new(p.0), Box::new(RE::Star(r1))), seq![false] + p.1),
            );
            let us = match t {
                Tree::List(us) => us,
                _ => Seq::empty(),
            };
            let (j, tree) = lemma_star_complete(*r1, l, us, w);
            lemma_nub_fst_covers(ts);
            assert(occurs_fst(pd_bc(r, l), ts[j].0));
            let i = choose|i: int| 0 <= i < pd_bc(r, l).len() && pd_bc(r, l)[i].0 == ts[j].0;
            (i, tree)
        },
        RE::Phi => (0, t),
    }
}

/// The iterations of a star: the first iteration that spells a letter gives
/// the derivative.
proof fn lemma_star_complete(r1: RE, l: char, us: Seq<Tree>, w: Seq<char>) -> (res: (int, Tree))
    requires
        valid_list(us, r1),
        flat_list(us) == seq![l] + w,
    ensures
        0 <= res.0 < pd_bc(r1, l).len(),
        valid(res.1, RE::Sequence(Box::new(pd_bc(r1, l)[res.0].0), Box::new(RE::Star(Box::new(r1))))),
        flat(res.1) == w,
    decreases r1, 1int, us.len(),
{
    if us.len() == 0 {
        assert(flat_list(us).len() == 0);
        (0, Tree::Nil)
    } else {
        let rest = us.subrange(1, us.len() as int);
        let a = us[0];
        if flat(a).len() > 0 {
            let w1 = flat(a).subrange(1, flat(a).len() as int);
            assert(flat(a)[0] == (flat(a) + flat_list(rest))[0]);
            assert(flat(a) =~= seq![l] + w1);
            lemma_drop_letter(l, w, w1, flat_list(rest));
            let (j, ta) = lemma_pd_bc_complete(r1, l, a, w1);
            let tree = Tree::Pair(Box::new(ta), Box::new(Tree::List(rest)));
            assert(valid_list(rest, r1));
            assert(valid(Tree::List(rest), RE::Star(Box::new(r1))));
            assert(flat(Tree::List(rest)) == flat_list(rest));
            assert(flat(tree) == flat(ta) + flat(Tree::List(rest)));
            (j, tree)
        } else {
            assert(flat_list(rest) =~= flat_list(us));
            lemma_star_complete(r1, l, rest, w)
        }
    }
}

} // verus!
