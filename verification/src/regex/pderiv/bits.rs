use vstd::prelude::*;
use crate::regex::re::{RE, nullable_spec, re_size, nub_fst, nub_vec_fst, lemma_nub_fst_subset, lemma_nub_fst_map_snd, lemma_re_concrete_eq};
use crate::regex::pderiv::bitseq::{Bits, max_bits};
use crate::regex::pderiv::parsetree::{
    U, Tree, valid, valid_list, encode, encode_list, flat, emp_code_spec, code_at,
    lemma_code_at_split, lemma_code_at_join, lemma_code_unique, lemma_trees_of_cons, trees_of,
};

verus! {

/// The length of the empty-word code is bounded by the size of the expression.
pub proof fn lemma_emp_code_len(r: RE)
    ensures
        emp_code_spec(r).len() <= re_size(r),
    decreases r,
{
    match r {
        RE::Choice(r1, r2) => {
            lemma_emp_code_len(*r1);
            lemma_emp_code_len(*r2);
        },
        RE::Sequence(r1, r2) => {
            lemma_emp_code_len(*r1);
            lemma_emp_code_len(*r2);
        },
        _ => {},
    }
}

/// The bit code of the leftmost parse tree of the empty word.
/// Precondition: `r` is nullable.
pub fn emp_code(r: &RE) -> (res: Bits)
    requires
        nullable_spec(*r),
        re_size(*r) <= max_bits(),
    ensures
        res@ == emp_code_spec(*r),
    decreases r,
{
    proof {
        lemma_emp_code_len(*r);
    }
    match r {
        RE::Eps => Bits::new(),
        RE::Choice(r1, r2) => {
            if r1.nullable() {
                let mut bv = emp_code(r1);
                bv.insert(0, false);
                bv
            } else {
                let mut bv = emp_code(r2);
                bv.insert(0, true);
                bv
            }
        },
        RE::Sequence(r1, r2) => {
            proof {
                lemma_emp_code_len(**r1);
                lemma_emp_code_len(**r2);
            }
            let mut bv1 = emp_code(r1);
            let mut bv2 = emp_code(r2);
            bv1.append(&mut bv2);
            bv1
        },
        RE::Star(_r1) => {
            let mut bv = Bits::new();
            bv.push(true);
            bv
        },
        _ => {
            proof {
                assert(false);
            }
            Bits::new()
        },
    }
}

/// Each pair holds a partial derivative and the bits that lead to it.
pub open spec fn pairs_view(v: Seq<(RE, Bits)>) -> Seq<(RE, Seq<bool>)> {
    v.map_values(|p: (RE, Bits)| (p.0, p.1@))
}

/// The partial derivatives of `r` by the letter `l`, each with the bits that
/// record which way the derivative was taken.
pub open spec fn pd_bc(r: RE, l: char) -> Seq<(RE, Seq<bool>)>
    decreases r,
{
    match r {
        RE::Phi => Seq::empty(),
        RE::Eps => Seq::empty(),
        RE::Lit(m) => if l == m {
            seq![(RE::Eps, Seq::<bool>::empty())]
        } else {
            Seq::empty()
        },
        RE::Sequence(r1, r2) => {
            let ts = pd_bc(*r1, l).map_values(
                |p: (RE, Seq<bool>)| (RE::Sequence(Box::new(p.0), r2), p.1),
            );
            if nullable_spec(*r1) {
                let vs = pd_bc(*r2, l).map_values(
                    |p: (RE, Seq<bool>)| (p.0, emp_code_spec(*r1) + p.1),
                );
                nub_fst(ts + vs)
            } else {
                nub_fst(ts)
            }
        },
        RE::Choice(r1, r2) => {
            let ts = pd_bc(*r1, l).map_values(|p: (RE, Seq<bool>)| (p.0, seq![false] + p.1));
            let vs = pd_bc(*r2, l).map_values(|p: (RE, Seq<bool>)| (p.0, seq![true] + p.1));
            nub_fst(ts + vs)
        },
        RE::Star(r1) => {
            let ts = pd_bc(*r1, l).map_values(
                |p: (RE, Seq<bool>)|
                    (RE::Sequence(Box::new(p.0), Box::new(RE::Star(r1))), seq![false] + p.1),
            );
            nub_fst(ts)
        },
    }
}

/// The bits of every partial derivative are no longer than the expression.
pub proof fn lemma_pd_bc_len(r: RE, l: char)
    ensures
        forall|i: int| 0 <= i < pd_bc(r, l).len() ==> (#[trigger] pd_bc(r, l)[i]).1.len() <= re_size(r),
    decreases r,
{
    match r {
        RE::Sequence(r1, r2) => {
            lemma_pd_bc_len(*r1, l);
            lemma_pd_bc_len(*r2, l);
            lemma_emp_code_len(*r1);
            let ts = pd_bc(*r1, l).map_values(
                |p: (RE, Seq<bool>)| (RE::Sequence(Box::new(p.0), r2), p.1),
            );
            let vs = pd_bc(*r2, l).map_values(
                |p: (RE, Seq<bool>)| (p.0, emp_code_spec(*r1) + p.1),
            );
            if nullable_spec(*r1) {
                lemma_nub_fst_subset(ts + vs);
                assert forall|i: int| 0 <= i < pd_bc(r, l).len() implies (
                #[trigger] pd_bc(r, l)[i]).1.len() <= re_size(r) by {
                    let j = choose|j: int| 0 <= j < (ts + vs).len() && pd_bc(r, l)[i] == (ts + vs)[j];
                    if j >= ts.len() {
                        assert(vs[j - ts.len()] == (ts + vs)[j]);
                    }
                }
            } else {
                lemma_nub_fst_subset(ts);
                assert forall|i: int| 0 <= i < pd_bc(r, l).len() implies (
                #[trigger] pd_bc(r, l)[i]).1.len() <= re_size(r) by {
                    let j = choose|j: int| 0 <= j < ts.len() && pd_bc(r, l)[i] == ts[j];
                }
            }
        },
        RE::Choice(r1, r2) => {
            lemma_pd_bc_len(*r1, l);
            lemma_pd_bc_len(*r2, l);
            let ts = pd_bc(*r1, l).map_values(|p: (RE, Seq<bool>)| (p.0, seq![false] + p.1));
            let vs = pd_bc(*r2, l).map_values(|p: (RE, Seq<bool>)| (p.0, seq![true] + p.1));
            lemma_nub_fst_subset(ts + vs);
            assert forall|i: int| 0 <= i < pd_bc(r, l).len() implies (
            #[trigger] pd_bc(r, l)[i]).1.len() <= re_size(r) by {
                let j = choose|j: int| 0 <= j < (ts + vs).len() && pd_bc(r, l)[i] == (ts + vs)[j];
                if j >= ts.len() {
                    assert(vs[j - ts.len()] == (ts + vs)[j]);
                }
            }
        },
        RE::Star(r1) => {
            lemma_pd_bc_len(*r1, l);
            let ts = pd_bc(*r1, l).map_values(
                |p: (RE, Seq<bool>)|
                    (RE::Sequence(Box::new(p.0), Box::new(RE::Star(r1))), seq![false] + p.1),
            );
            lemma_nub_fst_subset(ts);
            assert forall|i: int| 0 <= i < pd_bc(r, l).len() implies (
            #[trigger] pd_bc(r, l)[i]).1.len() <= re_size(r) by {
                let j = choose|j: int| 0 <= j < ts.len() && pd_bc(r, l)[i] == ts[j];
            }
        },
        _ => {},
    }
}

proof fn lemma_pairs_view_push(v: Seq<(RE, Bits)>, x: (RE, Bits))
    ensures
        pairs_view(v.push(x)) == pairs_view(v).push((x.0, x.1@)),
{
    assert(pairs_view(v.push(x)) =~= pairs_view(v).push((x.0, x.1@)));
}

proof fn lemma_prefix_map_step(orig: Seq<(RE, Bits)>, k: int, f: spec_fn((RE, Seq<bool>)) -> (RE, Seq<bool>))
    requires
        0 <= k < orig.len(),
    ensures
        pairs_view(orig.subrange(0, k + 1)).map_values(f) == pairs_view(orig.subrange(0, k)).map_values(
            f,
        ).push(f((orig[k].0, orig[k].1@))),
{
    assert(pairs_view(orig.subrange(0, k + 1)).map_values(f) =~= pairs_view(orig.subrange(0, k)).map_values(
        f,
    ).push(f((orig[k].0, orig[k].1@))));
}

/// Adds `(Sequence(p, tail), bits)` for every pair `(p, bits)` of `ts` to `res`.
fn push_seq_pairs(res: &mut Vec<(RE, Bits)>, ts: Vec<(RE, Bits)>, tail: &RE, lead: Option<bool>)
    requires
        forall|i: int| 0 <= i < ts@.len() ==> (#[trigger] ts@[i]).1@.len() + 1 <= max_bits(),
    ensures
        pairs_view(final(res)@) == pairs_view(old(res)@) + pairs_view(ts@).map_values(
            |p: (RE, Seq<bool>)|
                (
                    RE::Sequence(Box::new(p.0), Box::new(*tail)),
                    match lead {
                        Some(b) => seq![b] + p.1,
                        None => p.1,
                    },
                ),
        ),
{
    let ghost orig = ts@;
    let ghost start = pairs_view(res@);
    let ghost f = |p: (RE, Seq<bool>)|
        (
            RE::Sequence(Box::new(p.0), Box::new(*tail)),
            match lead {
                Some(b) => seq![b] + p.1,
                None => p.1,
            },
        );
    for p in it: ts
        invariant
            it.seq() == orig,
            f == (|p: (RE, Seq<bool>)|
                (
                    RE::Sequence(Box::new(p.0), Box::new(*tail)),
                    match lead {
                        Some(b) => seq![b] + p.1,
                        None => p.1,
                    },
                )),
            forall|i: int| 0 <= i < orig.len() ==> (#[trigger] orig[i]).1@.len() + 1 <= max_bits(),
            pairs_view(res@) == start + pairs_view(orig.subrange(0, it.index() as int)).map_values(
                f,
            ),
    {
        let ghost k = it.index();
        let (t, mut bv) = p;
        assert(orig[k as int] == (t, bv));
        let ghost bv_old = bv@;
        match lead {
            Some(b) => bv.insert(0, b),
            None => {},
        }
        let ghost before = res@;
        let ghost bits0 = orig[k as int].1@;
        let item = (RE::Sequence(Box::new(t), Box::new(tail.clone())), bv);
        proof {
            match lead {
                Some(b) => {
                    assert(bv_old.insert(0, b) =~= seq![b] + bv_old);
                },
                None => {},
            }
        }
        assert(item.1@ == f((orig[k as int].0, bits0)).1);
        res.push(item);
        proof {
            lemma_pairs_view_push(before, item);
            lemma_prefix_map_step(orig, k as int, f);
            assert(pairs_view(res@) =~= start + pairs_view(orig.subrange(0, k + 1)).map_values(f));
        }
    }
    proof {
        assert(orig.subrange(0, orig.len() as int) =~= orig);
    }
}

/// Adds `(p, prefix ++ bits)` for every pair `(p, bits)` of `ts` to `res`,
/// where `prefix` is `emp_code(r1)` when `emp` holds and `[b]` otherwise.
fn push_prefixed_pairs(res: &mut Vec<(RE, Bits)>, ts: Vec<(RE, Bits)>, prefix: &Bits)
    requires
        forall|i: int| 0 <= i < ts@.len() ==> prefix@.len() + (#[trigger] ts@[i]).1@.len() <= max_bits(),
    ensures
        pairs_view(final(res)@) == pairs_view(old(res)@) + pairs_view(ts@).map_values(
            |p: (RE, Seq<bool>)| (p.0, prefix@ + p.1),
        ),
{
    let ghost orig = ts@;
    let ghost start = pairs_view(res@);
    let ghost f = |p: (RE, Seq<bool>)| (p.0, prefix@ + p.1);
    for p in it: ts
        invariant
            it.seq() == orig,
            f == (|p: (RE, Seq<bool>)| (p.0, prefix@ + p.1)),
            forall|i: int| 0 <= i < orig.len() ==> prefix@.len() + (#[trigger] orig[i]).1@.len() <= max_bits(),
            pairs_view(res@) == start + pairs_view(orig.subrange(0, it.index() as int)).map_values(
                f,
            ),
    {
        let ghost k = it.index();
        let (v, mut bu) = p;
        assert(orig[k as int] == (v, bu));
        let ghost bu_old = bu@;
        let mut emp = prefix.copy();
        emp.append(&mut bu);
        assert(emp@ == prefix@ + bu_old);
        assert(orig[k as int].1@ == bu_old);
        assert(f((orig[k as int].0, bu_old)).1 == prefix@ + bu_old);
        let ghost before = res@;
        let item = (v, emp);
        assert(f((orig[k as int].0, orig[k as int].1@)) == (item.0, item.1@));
        res.push(item);
        proof {
            lemma_pairs_view_push(before, item);
            assert(pairs_view(before) == start + pairs_view(orig.subrange(0, k as int)).map_values(f));
            lemma_prefix_map_step(orig, k as int, f);
            assert(pairs_view(res@) =~= start + pairs_view(orig.subrange(0, k + 1)).map_values(f));
        }
    }
    proof {
        assert(orig.subrange(0, orig.len() as int) =~= orig);
    }
}

/// Removes every pair whose derivative occurred earlier.
fn nub_pairs(v: Vec<(RE, Bits)>) -> (res: Vec<(RE, Bits)>)
    ensures
        pairs_view(res@) == nub_fst(pairs_view(v@)),
{
    proof {
        lemma_re_concrete_eq();
    }
    let res = nub_vec_fst(v);
    proof {
        lemma_nub_fst_map_snd(v@, |b: Bits| b@);
        assert(pairs_view(res@) =~= nub_fst(v@).map_values(|p: (RE, Bits)| (p.0, (|b: Bits| b@)(p.1))));
        assert(pairs_view(v@) =~= v@.map_values(|p: (RE, Bits)| (p.0, (|b: Bits| b@)(p.1))));
    }
    res
}

/// The partial derivatives of `r` by `l`, each with the bits that record the
/// way it was taken; derivatives that occurred earlier are left out.
pub fn pderiv_bc(r: &RE, l: &char) -> (res: Vec<(RE, Bits)>)
    requires
        re_size(*r) <= max_bits(),
    ensures
        pairs_view(res@) == pd_bc(*r, *l),
    decreases r,
{
    match r {
        RE::Phi => Vec::new(),
        RE::Eps => Vec::new(),
        RE::Lit(m) => {
            if *l == *m {
                let mut v = Vec::new();
                v.push((RE::Eps, Bits::new()));
                proof {
                    assert(pairs_view(v@) =~= pd_bc(*r, *l));
                }
                v
            } else {
                Vec::new()
            }
        },
        RE::Sequence(r1, r2) => {
            let ts = pderiv_bc(r1, l);
            proof {
                lemma_pd_bc_len(**r1, *l);
                assert forall|i: int| 0 <= i < ts@.len() implies (#[trigger] ts@[i]).1@.len() + 1 <= max_bits() by {
                    assert(pairs_view(ts@)[i] == (ts@[i].0, ts@[i].1@));
                }
            }
            let mut res = Vec::new();
            push_seq_pairs(&mut res, ts, r2, None);
            if r1.nullable() {
                let vs = pderiv_bc(r2, l);
                let emp = emp_code(r1);
                proof {
                    lemma_pd_bc_len(**r2, *l);
                    lemma_emp_code_len(**r1);
                    assert forall|i: int| 0 <= i < vs@.len() implies emp@.len() + (#[trigger] vs@[i]).1@.len() <= max_bits() by {
                        assert(pairs_view(vs@)[i] == (vs@[i].0, vs@[i].1@));
                    }
                }
                push_prefixed_pairs(&mut res, vs, &emp);
                let out = nub_pairs(res);
                proof {
                    assert(pairs_view(res@) =~= pd_bc(**r1, *l).map_values(
                        |p: (RE, Seq<bool>)| (RE::Sequence(Box::new(p.0), *r2), p.1),
                    ) + pd_bc(**r2, *l).map_values(
                        |p: (RE, Seq<bool>)| (p.0, emp_code_spec(**r1) + p.1),
                    ));
                }
                out
            } else {
                let out = nub_pairs(res);
                proof {
                    assert(pairs_view(res@) =~= pd_bc(**r1, *l).map_values(
                        |p: (RE, Seq<bool>)| (RE::Sequence(Box::new(p.0), *r2), p.1),
                    ));
                }
                out
            }
        },
        RE::Choice(r1, r2) => {
            let ts = pderiv_bc(r1, l);
            let vs = pderiv_bc(r2, l);
            let mut left = Bits::new();
            left.push(false);
            let mut right = Bits::new();
            right.push(true);
            proof {
                lemma_pd_bc_len(**r1, *l);
                lemma_pd_bc_len(**r2, *l);
                assert forall|i: int| 0 <= i < ts@.len() implies left@.len() + (#[trigger] ts@[i]).1@.len() <= max_bits() by {
                    assert(pairs_view(ts@)[i] == (ts@[i].0, ts@[i].1@));
                }
                assert forall|i: int| 0 <= i < vs@.len() implies right@.len() + (#[trigger] vs@[i]).1@.len() <= max_bits() by {
                    assert(pairs_view(vs@)[i] == (vs@[i].0, vs@[i].1@));
                }
            }
            let mut res = Vec::new();
            push_prefixed_pairs(&mut res, ts, &left);
            push_prefixed_pairs(&mut res, vs, &right);
            let out = nub_pairs(res);
            proof {
                assert(pairs_view(res@) =~= pd_bc(**r1, *l).map_values(
                    |p: (RE, Seq<bool>)| (p.0, seq![false] + p.1),
                ) + pd_bc(**r2, *l).map_values(|p: (RE, Seq<bool>)| (p.0, seq![true] + p.1)));
            }
            out
        },
        RE::Star(r1) => {
            let ts = pderiv_bc(r1, l);
            proof {
                lemma_pd_bc_len(**r1, *l);
                assert forall|i: int| 0 <= i < ts@.len() implies (#[trigger] ts@[i]).1@.len() + 1 <= max_bits() by {
                    assert(pairs_view(ts@)[i] == (ts@[i].0, ts@[i].1@));
                }
            }
            let mut res = Vec::new();
            push_seq_pairs(&mut res, ts, r, Some(false));
            let out = nub_pairs(res);
            proof {
                assert(pairs_view(res@) =~= pd_bc(**r1, *l).map_values(
                    |p: (RE, Seq<bool>)|
                        (RE::Sequence(Box::new(p.0), Box::new(RE::Star(*r1))), seq![false] + p.1),
                ));
            }
            out
        },
    }
}

/// Decodes the parse tree of `r` whose code starts at position `pos` of `bs`;
/// returns it with the position just past its code.
pub fn decode_p(r: &RE, bs: &Bits, pos: usize) -> (res: (U, usize))
    requires
        exists|t: Tree| #[trigger] valid(t, *r) && code_at(bs@, pos as int, encode(t, *r)),
    ensures
        valid(res.0@, *r),
        code_at(bs@, pos as int, encode(res.0@, *r)),
        res.1 == pos + encode(res.0@, *r).len(),
    decreases bs@.len() - pos, r,
{
    let ghost t = choose|t: Tree| #[trigger] valid(t, *r) && code_at(bs@, pos as int, encode(t, *r));
    let n = bs.len();
    match r {
        RE::Eps => {
            let u = U::NilU;
            proof {
                assert(u@ == Tree::Nil);
                assert(valid(u@, *r));
                assert(encode(u@, *r) =~= Seq::<bool>::empty());
                assert(bs@.subrange(pos as int, pos as int) =~= Seq::<bool>::empty());
            }
            let out = (u, pos);
            assert(valid(out.0@, *r));
            out
        },
        RE::Lit(a) => {
            let res = U::LitU(*a);
            proof {
                assert(res@ == Tree::Chr(*a));
                assert(encode(res@, *r) =~= Seq::<bool>::empty());
                assert(bs@.subrange(pos as int, pos as int) =~= Seq::<bool>::empty());
            }
            (res, pos)
        },
        RE::Choice(r1, r2) => {
            proof {
                assert(encode(t, *r).len() > 0);
                assert(bs@[pos as int] == encode(t, *r)[0]);
            }
            if !bs.get(pos) {
                let ghost a = match t {
                    Tree::Left(a) => *a,
                    _ => t,
                };
                proof {
                    match t {
                        Tree::Right(_) => {
                            assert(encode(t, *r)[0] == true);
                        },
                        _ => {},
                    }
                    assert(t == Tree::Left(Box::new(a)));
                    assert(encode(t, *r) == seq![false] + encode(a, **r1));
                    lemma_code_at_split(bs@, pos as int, seq![false], encode(a, **r1));
                    assert(valid(a, **r1));
                }
                let (u1, p1) = decode_p(r1, bs, pos + 1);
                let res = U::LeftU(Box::new(u1));
                proof {
                    lemma_code_at_join(bs@, pos as int, seq![false], encode(u1@, **r1));
                    assert(encode(res@, *r) == seq![false] + encode(u1@, **r1));
                }
                (res, p1)
            } else {
                let ghost b = match t {
                    Tree::Right(b) => *b,
                    _ => t,
                };
                proof {
                    match t {
                        Tree::Left(_) => {
                            assert(encode(t, *r)[0] == false);
                        },
                        _ => {},
                    }
                    assert(t == Tree::Right(Box::new(b)));
                    assert(encode(t, *r) == seq![true] + encode(b, **r2));
                    lemma_code_at_split(bs@, pos as int, seq![true], encode(b, **r2));
                    assert(valid(b, **r2));
                }
                let (u2, p2) = decode_p(r2, bs, pos + 1);
                let res = U::RightU(Box::new(u2));
                proof {
                    lemma_code_at_join(bs@, pos as int, seq![true], encode(u2@, **r2));
                    assert(encode(res@, *r) == seq![true] + encode(u2@, **r2));
                }
                (res, p2)
            }
        },
        RE::Sequence(r1, r2) => {
            let ghost (a, c) = match t {
                Tree::Pair(a, c) => (*a, *c),
                _ => (t, t),
            };
            proof {
                assert(t == Tree::Pair(Box::new(a), Box::new(c)));
                assert(valid(a, **r1));
                lemma_code_at_split(bs@, pos as int, encode(a, **r1), encode(c, **r2));
            }
            let (u1, p1) = decode_p(r1, bs, pos);
            proof {
                lemma_code_unique(u1@, a, **r1, bs@, pos as int);
                assert(valid(c, **r2));
            }
            let (u2, p2) = decode_p(r2, bs, p1);
            let res = U::PairU(Box::new(u1), Box::new(u2));
            proof {
                lemma_code_at_join(bs@, pos as int, encode(u1@, **r1), encode(u2@, **r2));
            }
            (res, p2)
        },
        RE::Star(r1) => {
            let ghost ts = match t {
                Tree::List(ts) => ts,
                _ => Seq::empty(),
            };
            proof {
                assert(t == Tree::List(ts));
                assert(encode(t, *r) == encode_list(ts, **r1));
                assert(bs@[pos as int] == encode(t, *r)[0]);
            }
            if bs.get(pos) {
                proof {
                    if ts.len() > 0 {
                        assert(encode_list(ts, **r1)[0] == false);
                    }
                    assert(ts.len() == 0);
                }
                let v: Vec<U> = Vec::new();
                let res = U::ListU(v);
                proof {
                    assert(v@ == Seq::<U>::empty());
                    assert(trees_of(v@) =~= Seq::<Tree>::empty());
                    assert(res@ == Tree::List(Seq::empty()));
                    assert(valid_list(Seq::<Tree>::empty(), **r1));
                    assert(valid(res@, *r));
                    assert(encode(res@, *r) == encode_list(Seq::<Tree>::empty(), **r1));
                }
                (res, pos + 1)
            } else {
                let ghost rest = ts.subrange(1, ts.len() as int);
                proof {
                    if ts.len() == 0 {
                        assert(encode_list(ts, **r1)[0] == true);
                    }
                    lemma_code_at_split(bs@, pos as int, seq![false] + encode(ts[0], **r1), encode_list(rest, **r1));
                    lemma_code_at_split(bs@, pos as int, seq![false], encode(ts[0], **r1));
                    assert(valid_list(ts, **r1));
                    assert(valid(ts[0], **r1));
                }
                let (u1, p1) = decode_p(r1, bs, pos + 1);
                proof {
                    lemma_code_unique(u1@, ts[0], **r1, bs@, pos + 1);
                    assert(valid(Tree::List(rest), *r));
                    assert(encode(Tree::List(rest), *r) == encode_list(rest, **r1));
                }
                let (u2, p2) = decode_p(r, bs, p1);
                match u2 {
                    U::ListU(us) => {
                        let ghost us0 = us@;
                        let mut us = us;
                        us.insert(0, u1);
                        let res = U::ListU(us);
                        proof {
                            assert(us@ =~= seq![u1] + us0);
                            lemma_trees_of_cons(u1, us0);
                            let tl = trees_of(us0);
                            assert(res@ == Tree::List(seq![u1@] + tl));
                            assert(u2@ == Tree::List(tl));
                            assert((seq![u1@] + tl).subrange(1, (seq![u1@] + tl).len() as int) =~= tl);
                            assert((seq![u1@] + tl)[0] == u1@);
                            assert(valid_list(tl, **r1));
                            assert(valid_list(seq![u1@] + tl, **r1));
                            assert(valid(res@, *r));
                            assert(encode(res@, *r) == encode_list(seq![u1@] + tl, **r1));
                            assert(encode(res@, *r) == seq![false] + encode(u1@, **r1) + encode_list(tl, **r1));
                            lemma_code_at_join(bs@, pos as int, seq![false], encode(u1@, **r1));
                            lemma_code_at_join(bs@, pos as int, seq![false] + encode(u1@, **r1), encode_list(tl, **r1));
                        }
                        (res, p2)
                    },
                    _ => {
                        proof {
                            assert(false);
                        }
                        (u2, p2)
                    },
                }
            }
        },
        _ => {
            proof {
                assert(false);
            }
            (U::NilU, pos)
        },
    }
}

/// Decodes the parse tree of `r` whose code is `bs`; `s` is the word it spells.
pub fn decode(r: &RE, bs: &Bits, s: &String) -> (res: U)
    requires
        exists|t: Tree| #[trigger] valid(t, *r) && encode(t, *r) == bs@ && flat(t).len() == s@.len(),
    ensures
        valid(res@, *r),
        encode(res@, *r) == bs@,
        flat(res@).len() == s@.len(),
{
    let ghost t = choose|t: Tree| #[trigger] valid(t, *r) && encode(t, *r) == bs@ && flat(t).len() == s@.len();
    proof {
        assert(bs@.subrange(0, bs@.len() as int) =~= bs@);
        assert(code_at(bs@, 0, encode(t, *r)));
    }
    let (u, _p) = decode_p(r, bs, 0);
    proof {
        lemma_code_unique(u@, t, *r, bs@, 0);
    }
    u
}

/// A copy of a list of derivatives with their bits.
fn copy_pairs(v: &Vec<(RE, Bits)>) -> (res: Vec<(RE, Bits)>)
    ensures
        pairs_view(res@) == pairs_view(v@),
{
    let mut res: Vec<(RE, Bits)> = Vec::new();
    let mut i: usize = 0;
    while i < v.len()
        invariant
            i <= v.len(),
            pairs_view(res@) == pairs_view(v@.subrange(0, i as int)),
        decreases v.len() - i,
    {
        let r = v[i].0.clone();
        let b = v[i].1.copy();
        let ghost before = res@;
        res.push((r, b));
        proof {
            assert(pairs_view(res@) =~= pairs_view(before).push((r, b@)));
            assert(pairs_view(v@.subrange(0, i + 1)) =~= pairs_view(v@.subrange(0, i as int)).push(
                (v@[i as int].0, v@[i as int].1@),
            ));
        }
        i = i + 1;
    }
    proof {
        assert(v@.subrange(0, v@.len() as int) =~= v@);
    }
    res
}

/// A memo of `pderiv_bc`: the derivatives computed so far, by expression and letter.
pub struct PDCached {
    entries: Vec<((RE, char), Vec<(RE, Bits)>)>,
}

impl PDCached {
    /// Every remembered entry is the result of `pderiv_bc` for its key.
    pub closed spec fn wf(&self) -> bool {
        forall|i: int|
            0 <= i < self.entries@.len() ==> pairs_view((#[trigger] self.entries@[i]).1@) == pd_bc(
                self.entries@[i].0.0,
                self.entries@[i].0.1,
            )
    }

    /// An empty memo.
    pub fn new() -> (res: PDCached)
        ensures
            res.wf(),
    {
        PDCached { entries: Vec::new() }
    }

    /// `pderiv_bc(r, l)`, taken from the memo when it is there and remembered otherwise.
    pub fn pderiv_bc(&mut self, r: &RE, l: &char) -> (res: Vec<(RE, Bits)>)
        requires
            old(self).wf(),
            re_size(*r) <= max_bits(),
        ensures
            final(self).wf(),
            pairs_view(res@) == pd_bc(*r, *l),
    {
        let mut i: usize = 0;
        while i < self.entries.len()
            invariant
                i <= self.entries.len(),
                self.wf(),
            decreases self.entries.len() - i,
        {
            if self.entries[i].0.1 == *l && self.entries[i].0.0 == *r {
                return copy_pairs(&self.entries[i].1);
            }
            i = i + 1;
        }
        let res = pderiv_bc(r, l);
        let kept = copy_pairs(&res);
        let ghost before = self.entries@;
        self.entries.push(((r.clone(), *l), kept));
        proof {
            assert forall|i: int| 0 <= i < self.entries@.len() implies pairs_view((#[trigger] self.entries@[i]).1@)
                == pd_bc(self.entries@[i].0.0, self.entries@[i].0.1) by {
                if i < before.len() {
                    assert(self.entries@[i] == before[i]);
                }
            }
        }
        res
    }
}

} // verus!
