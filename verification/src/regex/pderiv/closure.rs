use vstd::prelude::*;
use vstd::set_lib::lemma_set_union_finite_iff;
use crate::regex::re::{RE, re_size, chars_of, lemma_nub_fst_subset};
use crate::regex::pderiv::bits::pd_bc;
use crate::regex::pderiv::parsetree::emp_code_spec;

verus! {

/// Antimirov's set of partial derivatives of `r`, built from the structure of
/// `r`: a finite set that holds every expression that repeated partial
/// derivatives of `r` reach (apart from `r` itself), and may hold more.
pub open spec fn pds(r: RE) -> Set<RE>
    decreases r,
{
    match r {
        RE::Phi => Set::empty(),
        RE::Eps => Set::empty(),
        RE::Lit(_) => set![RE::Eps],
        RE::Sequence(r1, r2) => pds(*r1).map(|x: RE| RE::Sequence(Box::new(x), r2)).union(pds(*r2)),
        RE::Choice(r1, r2) => pds(*r1).union(pds(*r2)),
        RE::Star(r1) => pds(*r1).map(|x: RE| RE::Sequence(Box::new(x), Box::new(RE::Star(r1)))),
    }
}

/// `r` together with its Antimirov set: a finite bound on the expressions that
/// partial derivatives reach from `r`, which may hold some that they never reach.
pub open spec fn closure(r: RE) -> Set<RE> {
    pds(r).insert(r)
}

/// The set of partial derivatives is finite.
pub proof fn lemma_pds_finite(r: RE)
    ensures
        pds(r).finite(),
        closure(r).finite(),
    decreases r,
{
    match r {
        RE::Sequence(r1, r2) => {
            lemma_pds_finite(*r1);
            lemma_pds_finite(*r2);
            pds(*r1).lemma_map_finite(|x: RE| RE::Sequence(Box::new(x), r2));
            lemma_set_union_finite_iff(
                pds(*r1).map(|x: RE| RE::Sequence(Box::new(x), r2)),
                pds(*r2),
            );
        },
        RE::Choice(r1, r2) => {
            lemma_pds_finite(*r1);
            lemma_pds_finite(*r2);
            lemma_set_union_finite_iff(pds(*r1), pds(*r2));
        },
        RE::Star(r1) => {
            lemma_pds_finite(*r1);
            pds(*r1).lemma_map_finite(|x: RE| RE::Sequence(Box::new(x), Box::new(RE::Star(r1))));
        },
        _ => {},
    }
}

/// The partial derivatives of `r` by any letter belong to `pds(r)`.
pub proof fn lemma_pd_bc_in_pds(r: RE, l: char)
    ensures
        forall|i: int| 0 <= i < pd_bc(r, l).len() ==> pds(r).contains(#[trigger] pd_bc(r, l)[i].0),
    decreases r,
{
    match r {
        RE::Sequence(r1, r2) => {
            lemma_pd_bc_in_pds(*r1, l);
            lemma_pd_bc_in_pds(*r2, l);
            let ts = pd_bc(*r1, l).map_values(
                |p: (RE, Seq<bool>)| (RE::Sequence(Box::new(p.0), r2), p.1),
            );
            let vs = pd_bc(*r2, l).map_values(
                |p: (RE, Seq<bool>)| (p.0, emp_code_spec(*r1) + p.1),
            );
            let all = if crate::regex::re::nullable_spec(*r1) { ts + vs } else { ts };
            lemma_nub_fst_subset(all);
            let f = |x: RE| RE::Sequence(Box::new(x), r2);
            assert forall|i: int| 0 <= i < pd_bc(r, l).len() implies pds(r).contains(
                #[trigger] pd_bc(r, l)[i].0,
            ) by {
                let j = choose|j: int| 0 <= j < all.len() && pd_bc(r, l)[i] == all[j];
                if j < ts.len() {
                    assert(all[j] == ts[j]);
                    assert(pds(*r1).contains(pd_bc(*r1, l)[j].0));
                    assert(pds(*r1).map(f).contains(f(pd_bc(*r1, l)[j].0)));
                } else {
                    assert(all[j] == vs[j - ts.len()]);
                    assert(pds(*r2).contains(pd_bc(*r2, l)[j - ts.len()].0));
                }
            }
        },
        RE::Choice(r1, r2) => {
            lemma_pd_bc_in_pds(*r1, l);
            lemma_pd_bc_in_pds(*r2, l);
            let ts = pd_bc(*r1, l).map_values(|p: (RE, Seq<bool>)| (p.0, seq![false] + p.1));
            let vs = pd_bc(*r2, l).map_values(|p: (RE, Seq<bool>)| (p.0, seq![true] + p.1));
            lemma_nub_fst_subset(ts + vs);
            assert forall|i: int| 0 <= i < pd_bc(r, l).len() implies pds(r).contains(
                #[trigger] pd_bc(r, l)[i].0,
            ) by {
                let j = choose|j: int| 0 <= j < (ts + vs).len() && pd_bc(r, l)[i] == (ts + vs)[j];
                if j < ts.len() {
                    assert((ts + vs)[j] == ts[j]);
                    assert(pds(*r1).contains(pd_bc(*r1, l)[j].0));
                } else {
                    assert((ts + vs)[j] == vs[j - ts.len()]);
                    assert(pds(*r2).contains(pd_bc(*r2, l)[j - ts.len()].0));
                }
            }
        },
        RE::Star(r1) => {
            lemma_pd_bc_in_pds(*r1, l);
            let ts = pd_bc(*r1, l).map_values(
                |p: (RE, Seq<bool>)|
                    (RE::Sequence(Box::new(p.0), Box::new(RE::Star(r1))), seq![false] + p.1),
            );
            lemma_nub_fst_subset(ts);
            let f = |x: RE| RE::Sequence(Box::new(x), Box::new(RE::Star(r1)));
            assert forall|i: int| 0 <= i < pd_bc(r, l).len() implies pds(r).contains(
                #[trigger] pd_bc(r, l)[i].0,
            ) by {
                let j = choose|j: int| 0 <= j < ts.len() && pd_bc(r, l)[i] == ts[j];
                assert(pds(*r1).contains(pd_bc(*r1, l)[j].0));
                assert(pds(*r1).map(f).contains(f(pd_bc(*r1, l)[j].0)));
            }
        },
        RE::Lit(m) => {
            if l == m {
                assert(pd_bc(r, l)[0].0 == RE::Eps);
            }
        },
        _ => {},
    }
}

/// Partial derivatives of a partial derivative are partial derivatives.
pub proof fn lemma_pds_trans(r: RE, q: RE)
    requires
        pds(r).contains(q),
    ensures
        pds(q).subset_of(pds(r)),
    decreases r,
{
    match r {
        RE::Lit(_) => {
            assert(q == RE::Eps);
            assert(pds(q) =~= Set::<RE>::empty());
        },
        RE::Sequence(r1, r2) => {
            let f = |x: RE| RE::Sequence(Box::new(x), r2);
            if pds(*r2).contains(q) {
                lemma_pds_trans(*r2, q);
            } else {
                let x = choose|x: RE| pds(*r1).contains(x) && f(x) == q;
                lemma_pds_trans(*r1, x);
                assert forall|y: RE| pds(q).contains(y) implies pds(r).contains(y) by {
                    if !pds(*r2).contains(y) {
                        let z = choose|z: RE| pds(x).contains(z) && f(z) == y;
                        assert(pds(*r1).contains(z));
                        assert(pds(*r1).map(f).contains(f(z)));
                    }
                }
            }
        },
        RE::Choice(r1, r2) => {
            if pds(*r1).contains(q) {
                lemma_pds_trans(*r1, q);
            } else {
                lemma_pds_trans(*r2, q);
            }
        },
        RE::Star(r1) => {
            let f = |x: RE| RE::Sequence(Box::new(x), Box::new(RE::Star(r1)));
            let x = choose|x: RE| pds(*r1).contains(x) && f(x) == q;
            lemma_pds_trans(*r1, x);
            assert forall|y: RE| pds(q).contains(y) implies pds(r).contains(y) by {
                if !pds(RE::Star(r1)).contains(y) {
                    let z = choose|z: RE| pds(x).contains(z) && f(z) == y;
                    assert(pds(*r1).contains(z));
                    assert(pds(*r1).map(f).contains(f(z)));
                }
            }
        },
        _ => {},
    }
}

/// The closure of `r` is closed under partial derivatives.
pub proof fn lemma_closure_closed(r: RE, p: RE, l: char)
    requires
        closure(r).contains(p),
    ensures
        forall|i: int| 0 <= i < pd_bc(p, l).len() ==> closure(r).contains(#[trigger] pd_bc(p, l)[i].0),
{
    lemma_pd_bc_in_pds(p, l);
    if p != r {
        lemma_pds_trans(r, p);
    }
}

/// Partial derivatives are at most quadratically larger than the expression.
pub proof fn lemma_pds_size(r: RE, q: RE)
    requires
        pds(r).contains(q),
    ensures
        re_size(q) <= re_size(r) * re_size(r),
    decreases r,
{
    match r {
        RE::Lit(_) => {
            assert(q == RE::Eps);
        },
        RE::Sequence(r1, r2) => {
            let f = |x: RE| RE::Sequence(Box::new(x), r2);
            let s1 = re_size(*r1);
            let s2 = re_size(*r2);
            assert(re_size(r) == 1 + s1 + s2);
            if pds(*r2).contains(q) {
                lemma_pds_size(*r2, q);
                assert(s2 * s2 <= (1 + s1 + s2) * (1 + s1 + s2)) by (nonlinear_arith)
                    requires s1 >= 0, s2 >= 0;
            } else {
                let x = choose|x: RE| pds(*r1).contains(x) && f(x) == q;
                lemma_pds_size(*r1, x);
                let sx = re_size(x);
                assert(re_size(q) == 1 + sx + s2);
                assert(1 + sx + s2 <= (1 + s1 + s2) * (1 + s1 + s2)) by (nonlinear_arith)
                    requires sx <= s1 * s1, s1 >= 0, s2 >= 0;
            }
        },
        RE::Choice(r1, r2) => {
            let s1 = re_size(*r1);
            let s2 = re_size(*r2);
            assert(re_size(r) == 1 + s1 + s2);
            if pds(*r1).contains(q) {
                lemma_pds_size(*r1, q);
            } else {
                lemma_pds_size(*r2, q);
            }
            assert(s1 * s1 <= (1 + s1 + s2) * (1 + s1 + s2)) by (nonlinear_arith)
                requires s1 >= 0, s2 >= 0;
            assert(s2 * s2 <= (1 + s1 + s2) * (1 + s1 + s2)) by (nonlinear_arith)
                requires s1 >= 0, s2 >= 0;
        },
        RE::Star(r1) => {
            let f = |x: RE| RE::Sequence(Box::new(x), Box::new(RE::Star(r1)));
            let x = choose|x: RE| pds(*r1).contains(x) && f(x) == q;
            lemma_pds_size(*r1, x);
            let s1 = re_size(*r1);
            let sx = re_size(x);
            assert(re_size(r) == 1 + s1);
            lemma_re_size_pos(*r1);
            assert(re_size(RE::Star(r1)) == 1 + s1);
            assert(re_size(q) == 1 + sx + (1 + s1));
            assert(1 + sx + (1 + s1) <= (1 + s1) * (1 + s1)) by (nonlinear_arith)
                requires sx <= s1 * s1, s1 >= 1;
        },
        _ => {},
    }
}

pub proof fn lemma_re_size_pos(r: RE)
    ensures
        re_size(r) >= 1,
{
}

/// Every expression of the closure is at most quadratically larger.
pub proof fn lemma_closure_size(r: RE, q: RE)
    requires
        closure(r).contains(q),
    ensures
        re_size(q) <= re_size(r) * re_size(r),
{
    if q == r {
        let s = re_size(r);
        lemma_re_size_pos(r);
        assert(s <= s * s) by (nonlinear_arith)
            requires s >= 1;
    } else {
        lemma_pds_size(r, q);
    }
}

/// Partial derivatives only exist for letters of the expression.
pub proof fn lemma_pd_bc_letter(r: RE, l: char)
    requires
        !chars_of(r).contains(l),
    ensures
        pd_bc(r, l).len() == 0,
    decreases r,
{
    match r {
        RE::Sequence(r1, r2) => {
            lemma_pd_bc_letter(*r1, l);
            lemma_pd_bc_letter(*r2, l);
            let ts = pd_bc(*r1, l).map_values(
                |p: (RE, Seq<bool>)| (RE::Sequence(Box::new(p.0), r2), p.1),
            );
            let vs = pd_bc(*r2, l).map_values(
                |p: (RE, Seq<bool>)| (p.0, emp_code_spec(*r1) + p.1),
            );
            assert(ts + vs =~= Seq::<(RE, Seq<bool>)>::empty());
            assert(ts =~= Seq::<(RE, Seq<bool>)>::empty());
        },
        RE::Choice(r1, r2) => {
            lemma_pd_bc_letter(*r1, l);
            lemma_pd_bc_letter(*r2, l);
            let ts = pd_bc(*r1, l).map_values(|p: (RE, Seq<bool>)| (p.0, seq![false] + p.1));
            let vs = pd_bc(*r2, l).map_values(|p: (RE, Seq<bool>)| (p.0, seq![true] + p.1));
            assert(ts + vs =~= Seq::<(RE, Seq<bool>)>::empty());
        },
        RE::Star(r1) => {
            lemma_pd_bc_letter(*r1, l);
            let ts = pd_bc(*r1, l).map_values(
                |p: (RE, Seq<bool>)|
                    (RE::Sequence(Box::new(p.0), Box::new(RE::Star(r1))), seq![false] + p.1),
            );
            assert(ts =~= Seq::<(RE, Seq<bool>)>::empty());
        },
        _ => {},
    }
}

/// The partial derivatives use no letter that the expression does not use.
pub proof fn lemma_pds_letters(r: RE, q: RE)
    requires
        pds(r).contains(q),
    ensures
        chars_of(q).subset_of(chars_of(r)),
    decreases r,
{
    match r {
        RE::Lit(_) => {
            assert(chars_of(q) =~= Set::<char>::empty());
        },
        RE::Sequence(r1, r2) => {
            let f = |x: RE| RE::Sequence(Box::new(x), r2);
            if pds(*r2).contains(q) {
                lemma_pds_letters(*r2, q);
            } else {
                let x = choose|x: RE| pds(*r1).contains(x) && f(x) == q;
                lemma_pds_letters(*r1, x);
            }
        },
        RE::Choice(r1, r2) => {
            if pds(*r1).contains(q) {
                lemma_pds_letters(*r1, q);
            } else {
                lemma_pds_letters(*r2, q);
            }
        },
        RE::Star(r1) => {
            let f = |x: RE| RE::Sequence(Box::new(x), Box::new(RE::Star(r1)));
            let x = choose|x: RE| pds(*r1).contains(x) && f(x) == q;
            lemma_pds_letters(*r1, x);
        },
        _ => {},
    }
}

} // verus!
