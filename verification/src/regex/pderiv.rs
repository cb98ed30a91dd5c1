pub mod bitseq;
pub mod parsetree;
pub mod bits;
pub mod soundness;
pub mod closure;
pub mod table;
pub mod parse;
pub mod transduce;
pub mod parse_lazy;
pub mod paths;

use vstd::prelude::*;
use std::rc::Rc;
use crate::regex::re::{
    RE, nullable_spec, nub, nub_vec, lemma_re_concrete_eq, lemma_re_clone_is_copy,
    lemma_nub_fst_firsts,
};
use crate::regex::pderiv::bits::pd_bc;

verus! {

/// The partial derivatives of `r` by the letter `l` (Antimirov), each listed once.
pub open spec fn pd(r: RE, l: char) -> Seq<RE>
    decreases r,
{
    match r {
        RE::Phi => Seq::empty(),
        RE::Eps => Seq::empty(),
        RE::Lit(m) => if l == m {
            seq![RE::Eps]
        } else {
            Seq::empty()
        },
        RE::Sequence(r1, r2) => {
            let ts = pd(*r1, l).map_values(|t: RE| RE::Sequence(Box::new(t), r2));
            if nullable_spec(*r1) {
                nub(ts + pd(*r2, l))
            } else {
                nub(ts)
            }
        },
        RE::Choice(r1, r2) => nub(pd(*r1, l) + pd(*r2, l)),
        RE::Star(r1) => nub(
            pd(*r1, l).map_values(|t: RE| RE::Sequence(Box::new(t), Box::new(RE::Star(r1)))),
        ),
    }
}

/// The derivatives that `pderiv_bc` returns, in their order, are the partial
/// derivatives that `pderiv` returns.
pub proof fn lemma_pd_bc_firsts(r: RE, l: char)
    ensures
        pd_bc(r, l).map_values(|p: (RE, Seq<bool>)| p.0) == pd(r, l),
    decreases r,
{
    let g = |p: (RE, Seq<bool>)| p.0;
    match r {
        RE::Lit(m) => {
            assert(pd_bc(r, l).map_values(g) =~= pd(r, l));
        },
        RE::Sequence(r1, r2) => {
            lemma_pd_bc_firsts(*r1, l);
            lemma_pd_bc_firsts(*r2, l);
            let ts = pd_bc(*r1, l).map_values(
                |p: (RE, Seq<bool>)| (RE::Sequence(Box::new(p.0), r2), p.1),
            );
            let vs = pd_bc(*r2, l).map_values(
                |p: (RE, Seq<bool>)| (p.0, crate::regex::pderiv::parsetree::emp_code_spec(*r1) + p.1),
            );
            let pts = pd(*r1, l).map_values(|t: RE| RE::Sequence(Box::new(t), r2));
            assert(ts.map_values(g) =~= pts);
            assert(vs.map_values(g) =~= pd(*r2, l));
            if nullable_spec(*r1) {
                lemma_nub_fst_firsts(ts + vs);
                assert((ts + vs).map_values(g) =~= pts + pd(*r2, l));
            } else {
                lemma_nub_fst_firsts(ts);
            }
        },
        RE::Choice(r1, r2) => {
            lemma_pd_bc_firsts(*r1, l);
            lemma_pd_bc_firsts(*r2, l);
            let ts = pd_bc(*r1, l).map_values(|p: (RE, Seq<bool>)| (p.0, seq![false] + p.1));
            let vs = pd_bc(*r2, l).map_values(|p: (RE, Seq<bool>)| (p.0, seq![true] + p.1));
            lemma_nub_fst_firsts(ts + vs);
            assert((ts + vs).map_values(g) =~= pd(*r1, l) + pd(*r2, l));
        },
        RE::Star(r1) => {
            lemma_pd_bc_firsts(*r1, l);
            let ts = pd_bc(*r1, l).map_values(
                |p: (RE, Seq<bool>)|
                    (RE::Sequence(Box::new(p.0), Box::new(RE::Star(r1))), seq![false] + p.1),
            );
            lemma_nub_fst_firsts(ts);
            assert(ts.map_values(g) =~= pd(*r1, l).map_values(
                |t: RE| RE::Sequence(Box::new(t), Box::new(RE::Star(r1))),
            ));
        },
        _ => {
            assert(pd_bc(r, l).map_values(g) =~= pd(r, l));
        },
    }
}

/// The expressions that a vector of shared expressions holds.
pub open spec fn rc_view(v: Seq<Rc<RE>>) -> Seq<RE> {
    v.map_values(|x: Rc<RE>| *x)
}

/// Removes repeated derivatives and shares each of the others.
fn nub_share(v: Vec<RE>) -> (res: Vec<Rc<RE>>)
    ensures
        rc_view(res@) == nub(v@),
{
    proof {
        lemma_re_concrete_eq();
        lemma_re_clone_is_copy();
    }
    let n = nub_vec(&v);
    let mut res: Vec<Rc<RE>> = Vec::new();
    let mut i: usize = 0;
    while i < n.len()
        invariant
            0 <= i <= n.len(),
            res@.len() == i,
            rc_view(res@) == n@.subrange(0, i as int),
        decreases n.len() - i,
    {
        let x = Rc::new(n[i].clone());
        assert(*x == n@[i as int]);
        let ghost before = res@;
        res.push(x);
        proof {
            assert(res@ == before.push(x));
            assert(res@[i as int] == x);
            assert(rc_view(res@)[i as int] == *x);
            assert(rc_view(res@).len() == i + 1);
            assert forall|k: int| 0 <= k < i + 1 implies rc_view(res@)[k] == n@[k] by {
                if k < i {
                    assert(rc_view(before)[k] == n@.subrange(0, i as int)[k]);
                }
            }
            assert(rc_view(res@) =~= n@.subrange(0, i + 1));
        }
        i = i + 1;
    }
    proof {
        assert(n@.subrange(0, n@.len() as int) =~= n@);
    }
    res
}

/// The partial derivative operation of a regular expression by the letter `l`.
pub fn pderiv(r: &RE, l: &char) -> (res: Vec<Rc<RE>>)
    ensures
        rc_view(res@) == pd(*r, *l),
    decreases r,
{
    match r {
        RE::Phi => Vec::new(),
        RE::Eps => Vec::new(),
        RE::Lit(m) => {
            if *l == *m {
                let mut v = Vec::new();
                v.push(Rc::new(RE::Eps));
                proof {
                    assert(rc_view(v@) =~= pd(*r, *l));
                }
                v
            } else {
                Vec::new()
            }
        },
        RE::Sequence(r1, r2) => {
            let ts = pderiv(r1, l);
            let mut res: Vec<RE> = Vec::new();
            let mut i: usize = 0;
            while i < ts.len()
                invariant
                    0 <= i <= ts.len(),
                    res@ == rc_view(ts@).subrange(0, i as int).map_values(
                        |t: RE| RE::Sequence(Box::new(t), *r2),
                    ),
                decreases ts.len() - i,
            {
                let t: &RE = &ts[i];
                res.push(RE::Sequence(Box::new(t.clone()), Box::new((**r2).clone())));
                proof {
                    assert(res@ =~= rc_view(ts@).subrange(0, i + 1).map_values(
                        |t: RE| RE::Sequence(Box::new(t), *r2),
                    ));
                }
                i = i + 1;
            }
            proof {
                assert(rc_view(ts@).subrange(0, ts@.len() as int) =~= rc_view(ts@));
            }
            if r1.nullable() {
                let vs = pderiv(r2, l);
                let ghost firsts = res@;
                let mut j: usize = 0;
                while j < vs.len()
                    invariant
                        0 <= j <= vs.len(),
                        res@ == firsts + rc_view(vs@).subrange(0, j as int),
                    decreases vs.len() - j,
                {
                    let v: &RE = &vs[j];
                    res.push(v.clone());
                    proof {
                        assert(res@ =~= firsts + rc_view(vs@).subrange(0, j + 1));
                    }
                    j = j + 1;
                }
                proof {
                    assert(rc_view(vs@).subrange(0, vs@.len() as int) =~= rc_view(vs@));
                }
                nub_share(res)
            } else {
                nub_share(res)
            }
        },
        RE::Choice(r1, r2) => {
            let ts = pderiv(r1, l);
            let vs = pderiv(r2, l);
            let mut res: Vec<RE> = Vec::new();
            let mut i: usize = 0;
            while i < ts.len()
                invariant
                    0 <= i <= ts.len(),
                    res@ == rc_view(ts@).subrange(0, i as int),
                decreases ts.len() - i,
            {
                let t: &RE = &ts[i];
                res.push(t.clone());
                proof {
                    assert(res@ =~= rc_view(ts@).subrange(0, i + 1));
                }
                i = i + 1;
            }
            let mut j: usize = 0;
            while j < vs.len()
                invariant
                    0 <= j <= vs.len(),
                    res@ == rc_view(ts@) + rc_view(vs@).subrange(0, j as int),
                decreases vs.len() - j,
            {
                proof {
                    assert(rc_view(ts@).subrange(0, ts@.len() as int) =~= rc_view(ts@));
                }
                let v: &RE = &vs[j];
                res.push(v.clone());
                proof {
                    assert(res@ =~= rc_view(ts@) + rc_view(vs@).subrange(0, j + 1));
                }
                j = j + 1;
            }
            proof {
                assert(rc_view(ts@).subrange(0, ts@.len() as int) =~= rc_view(ts@));
                assert(rc_view(vs@).subrange(0, vs@.len() as int) =~= rc_view(vs@));
            }
            nub_share(res)
        },
        RE::Star(r1) => {
            let ts = pderiv(r1, l);
            let mut res: Vec<RE> = Vec::new();
            let mut i: usize = 0;
            while i < ts.len()
                invariant
                    0 <= i <= ts.len(),
                    res@ == rc_view(ts@).subrange(0, i as int).map_values(
                        |t: RE| RE::Sequence(Box::new(t), Box::new(RE::Star(*r1))),
                    ),
                decreases ts.len() - i,
            {
                let t: &RE = &ts[i];
                let whole = RE::Star(Box::new((**r1).clone()));
                res.push(RE::Sequence(Box::new(t.clone()), Box::new(whole)));
                proof {
                    assert(res@ =~= rc_view(ts@).subrange(0, i + 1).map_values(
                        |t: RE| RE::Sequence(Box::new(t), Box::new(RE::Star(*r1))),
                    ));
                }
                i = i + 1;
            }
            proof {
                assert(rc_view(ts@).subrange(0, ts@.len() as int) =~= rc_view(ts@));
            }
            nub_share(res)
        },
    }
}

} // verus!
