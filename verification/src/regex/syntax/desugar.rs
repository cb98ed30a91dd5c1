use vstd::prelude::*;
use std::rc::Rc;
use crate::regex::re::{RE, nullable_spec};
use crate::regex::pderiv::parsetree::{Tree, valid, flat, accepts};
use crate::regex::syntax::ext::{Ext, Syn, syn_of, syns_of, lemma_syns_of};

verus! {

/// Simplification of an external syntax tree: groups become non-marking,
/// alternatives and concatenations of one element are replaced by that element,
/// and an empty alternative becomes `Empty`.
pub open spec fn simp(e: Syn) -> Syn
    decreases e,
{
    match e {
        Syn::Empty => Syn::Empty,
        Syn::GrpNonMarking(d) => Syn::GrpNonMarking(Box::new(simp(*d))),
        Syn::Grp(d) => Syn::GrpNonMarking(Box::new(simp(*d))),
        Syn::Or(ds) => if ds.len() == 0 {
            Syn::Empty
        } else if ds.len() == 1 {
            simp(ds[0])
        } else {
            Syn::Or(simps(ds))
        },
        Syn::Concat(ds) => if ds.len() == 0 {
            Syn::Concat(ds)
        } else if ds.len() == 1 {
            simp(ds[0])
        } else {
            Syn::Concat(simps(ds))
        },
        Syn::Opt(d, g) => Syn::Opt(Box::new(simp(*d)), g),
        Syn::Plus(d, g) => Syn::Plus(Box::new(simp(*d)), g),
        Syn::Star(d, g) => Syn::Star(Box::new(simp(*d)), g),
        Syn::Bound(d, lb, ub, g) => Syn::Bound(Box::new(simp(*d)), lb, ub, g),
        _ => e,
    }
}

pub open spec fn simps(ds: Seq<Syn>) -> Seq<Syn>
    decreases ds,
{
    if ds.len() == 0 {
        Seq::empty()
    } else {
        seq![simp(ds[0])] + simps(ds.subrange(1, ds.len() as int))
    }
}

/// `simps` simplifies each element.
pub proof fn lemma_simps(ds: Seq<Syn>)
    ensures
        simps(ds).len() == ds.len(),
        forall|i: int| 0 <= i < ds.len() ==> #[trigger] simps(ds)[i] == simp(ds[i]),
    decreases ds.len(),
{
    if ds.len() > 0 {
        lemma_simps(ds.subrange(1, ds.len() as int));
        assert forall|i: int| 0 <= i < ds.len() implies #[trigger] simps(ds)[i] == simp(ds[i]) by {
            if i > 0 {
                assert(ds.subrange(1, ds.len() as int)[i - 1] == ds[i]);
            }
        }
    }
}

/// Simplifies an external syntax tree (see `simp`).
pub fn simp_ext(e: &Ext) -> (res: Ext)
    ensures
        res@ == simp(e@),
    decreases e,
{
    match e {
        Ext::Empty => Ext::Empty,
        Ext::GrpNonMarking(d) => Ext::GrpNonMarking(Rc::new(simp_ext(d))),
        Ext::Grp(d) => Ext::GrpNonMarking(Rc::new(simp_ext(d))),
        Ext::Or(es) => {
            proof {
                lemma_syns_of(es@);
            }
            if es.len() == 0 {
                Ext::Empty
            } else if es.len() == 1 {
                simp_ext(&es[0])
            } else {
                let ds = simp_each(e, es);
                Ext::Or(ds)
            }
        },
        Ext::Concat(es) => {
            proof {
                lemma_syns_of(es@);
            }
            if es.len() == 0 {
                let ds: Vec<Ext> = Vec::new();
                proof {
                    assert(syns_of(ds@) =~= syns_of(es@));
                }
                Ext::Concat(ds)
            } else if es.len() == 1 {
                simp_ext(&es[0])
            } else {
                let ds = simp_each(e, es);
                Ext::Concat(ds)
            }
        },
        Ext::Opt(d, greedy) => Ext::Opt(Rc::new(simp_ext(d)), *greedy),
        Ext::Plus(d, greedy) => Ext::Plus(Rc::new(simp_ext(d)), *greedy),
        Ext::Star(d, greedy) => Ext::Star(Rc::new(simp_ext(d)), *greedy),
        Ext::Bound(d, lb, ub, greedy) => Ext::Bound(Rc::new(simp_ext(d)), *lb, *ub, *greedy),
        Ext::Carat => Ext::Carat,
        Ext::Dollar => Ext::Dollar,
        Ext::Dot => Ext::Dot,
        Ext::Any(cs) => {
            let ds = cs.clone();
            assert(ds@ =~= cs@);
            Ext::Any(ds)
        },
        Ext::NoneOf(cs) => {
            let ds = cs.clone();
            assert(ds@ =~= cs@);
            Ext::NoneOf(ds)
        },
        Ext::Escape(c) => Ext::Escape(*c),
        Ext::Char(c) => Ext::Char(*c),
    }
}

/// Whether `es` is the list of children of an alternative or a concatenation `parent`.
pub open spec fn children_of(parent: Ext, es: Vec<Ext>) -> bool {
    ||| (parent matches Ext::Or(xs) && xs == es)
    ||| (parent matches Ext::Concat(xs) && xs == es)
}

/// Simplifies each element of `es`, the children of `parent`.
fn simp_each(parent: &Ext, es: &Vec<Ext>) -> (res: Vec<Ext>)
    requires
        children_of(*parent, *es),
    ensures
        syns_of(res@) == simps(syns_of(es@)),
    decreases parent, 0nat,
{
    let mut ds: Vec<Ext> = Vec::new();
    let mut i: usize = 0;
    while i < es.len()
        invariant
            0 <= i <= es.len(),
            ds@.len() == i,
            children_of(*parent, *es),
            forall|j: int| 0 <= j < i ==> #[trigger] syn_of(ds@[j]) == simp(syn_of(es@[j])),
        decreases es.len() - i,
    {
        proof {
            assert(decreases_to!(*parent => es@[i as int]));
        }
        let d = simp_ext(&es[i]);
        ds.push(d);
        i = i + 1;
    }
    proof {
        lemma_syns_of(es@);
        lemma_syns_of(ds@);
        lemma_simps(syns_of(es@));
        assert(syns_of(ds@) =~= simps(syns_of(es@)));
    }
    ds
}


/// The anchor that makes a desugaring fail.
pub enum Anchor {
    Carat,
    Dollar,
}

/// The error message for an anchor.
pub open spec fn anchor_message(a: Anchor) -> Seq<char> {
    match a {
        Anchor::Carat => "ext_to_re:encountered carat."@,
        Anchor::Dollar => "ext_to_re:encountered dollar."@,
    }
}

/// One step of building an alternative from the right: failed parts are skipped,
/// and an accumulated `Phi` is replaced rather than extended.
pub open spec fn step_or(r: Result<RE, Anchor>, acc: RE) -> RE {
    match r {
        Ok(d) => if acc == RE::Phi {
            d
        } else {
            RE::Choice(Box::new(d), Box::new(acc))
        },
        Err(_) => acc,
    }
}

/// The alternative of the desugared parts, built from the right starting at `Phi`.
pub open spec fn join_or(rs: Seq<Result<RE, Anchor>>) -> RE
    decreases rs.len(),
{
    if rs.len() == 0 {
        RE::Phi
    } else {
        step_or(rs[0], join_or(rs.subrange(1, rs.len() as int)))
    }
}

/// One step of building a concatenation from the right: failed parts are skipped,
/// and an accumulated `Eps` is replaced rather than extended.
pub open spec fn step_concat(r: Result<RE, Anchor>, acc: RE) -> RE {
    match r {
        Ok(d) => if acc == RE::Eps {
            d
        } else {
            RE::Sequence(Box::new(d), Box::new(acc))
        },
        Err(_) => acc,
    }
}

/// The concatenation of the desugared parts, built from the right starting at `Eps`.
pub open spec fn join_concat(rs: Seq<Result<RE, Anchor>>) -> RE
    decreases rs.len(),
{
    if rs.len() == 0 {
        RE::Eps
    } else {
        step_concat(rs[0], join_concat(rs.subrange(1, rs.len() as int)))
    }
}

/// `n` copies of `r` in sequence, nested to the right: `Eps` when `n` is zero,
/// and `Phi` whenever `r` is and `n` is not zero.
pub open spec fn rep_seq(r: RE, n: nat) -> RE
    decreases n,
{
    if n == 0 {
        RE::Eps
    } else if n == 1 {
        r
    } else {
        let a = rep_seq(r, (n - 1) as nat);
        if a == RE::Phi {
            r
        } else {
            RE::Sequence(Box::new(r), Box::new(a))
        }
    }
}

/// `n` copies of `r` put in sequence in front of `tail`.
pub open spec fn prefix_seq(r: RE, n: nat, tail: RE) -> RE
    decreases n,
{
    if n == 0 {
        tail
    } else {
        RE::Sequence(Box::new(r), Box::new(prefix_seq(r, (n - 1) as nat, tail)))
    }
}

/// `acc` followed, `n` times, by an optional `r`, nested to the left.
pub open spec fn opt_tail(acc: RE, r: RE, n: nat) -> RE
    decreases n,
{
    if n == 0 {
        acc
    } else {
        RE::Sequence(
            Box::new(opt_tail(acc, r, (n - 1) as nat)),
            Box::new(RE::Choice(Box::new(r), Box::new(RE::Eps))),
        )
    }
}

/// The characters with codes 0 to 126, in order.
pub open spec fn ascii_chars() -> Seq<char> {
    Seq::new(127, |i: int| i as char)
}

/// The alternative of the literals `cs`, built from the right as `join_or` builds it.
pub open spec fn or_chars(cs: Seq<char>) -> RE
    decreases cs.len(),
{
    if cs.len() == 0 {
        RE::Phi
    } else {
        step_or(Ok(RE::Lit(cs[0])), or_chars(cs.subrange(1, cs.len() as int)))
    }
}

/// The desugaring of an external syntax tree into a regular expression.
/// Greedy flags are ignored; anchors make it fail, except inside an alternative or a
/// concatenation, where a failed part is left out.
pub open spec fn desugar(e: Syn) -> Result<RE, Anchor>
    decreases e,
{
    match e {
        Syn::Empty => Ok(RE::Eps),
        Syn::GrpNonMarking(d) => desugar(*d),
        Syn::Grp(d) => desugar(*d),
        Syn::Or(ds) => Ok(join_or(desugar_all(ds))),
        Syn::Concat(ds) => Ok(join_concat(desugar_all(ds))),
        Syn::Opt(d, _) => match desugar(*d) {
            Ok(r) => Ok(RE::Choice(Box::new(r), Box::new(RE::Eps))),
            Err(a) => Err(a),
        },
        Syn::Plus(d, _) => match desugar(*d) {
            Ok(r) => Ok(RE::Sequence(Box::new(r), Box::new(RE::Star(Box::new(r))))),
            Err(a) => Err(a),
        },
        Syn::Star(d, _) => match desugar(*d) {
            Ok(r) => Ok(RE::Star(Box::new(r))),
            Err(a) => Err(a),
        },
        Syn::Bound(d, lb, ub, _) => match ub {
            None => match desugar(*d) {
                Ok(r) => Ok(prefix_seq(r, lb as nat, RE::Star(Box::new(r)))),
                Err(a) => Err(a),
            },
            Some(u) => if lb == 0 && u == 0 {
                Ok(RE::Eps)
            } else {
                match desugar(*d) {
                    Ok(r) => Ok(
                        opt_tail(
                            rep_seq(r, lb as nat),
                            r,
                            if u > lb {
                                (u - lb) as nat
                            } else {
                                0
                            },
                        ),
                    ),
                    Err(a) => Err(a),
                }
            },
        },
        Syn::Carat => Err(Anchor::Carat),
        Syn::Dollar => Err(Anchor::Dollar),
        Syn::Dot => Ok(or_chars(ascii_chars())),
        Syn::Any(cs) => Ok(or_chars(cs)),
        Syn::NoneOf(cs) => Ok(or_chars(ascii_chars().filter(|c: char| !cs.contains(c)))),
        Syn::Escape(c) => Ok(RE::Lit(c)),
        Syn::Char(c) => Ok(RE::Lit(c)),
    }
}

pub open spec fn desugar_all(ds: Seq<Syn>) -> Seq<Result<RE, Anchor>>
    decreases ds,
{
    if ds.len() == 0 {
        Seq::empty()
    } else {
        seq![desugar(ds[0])] + desugar_all(ds.subrange(1, ds.len() as int))
    }
}

/// `desugar_all` desugars each element.
pub proof fn lemma_desugar_all(ds: Seq<Syn>)
    ensures
        desugar_all(ds).len() == ds.len(),
        forall|i: int| 0 <= i < ds.len() ==> #[trigger] desugar_all(ds)[i] == desugar(ds[i]),
    decreases ds.len(),
{
    if ds.len() > 0 {
        lemma_desugar_all(ds.subrange(1, ds.len() as int));
        assert forall|i: int| 0 <= i < ds.len() implies #[trigger] desugar_all(ds)[i] == desugar(ds[i]) by {
            if i > 0 {
                assert(ds.subrange(1, ds.len() as int)[i - 1] == ds[i]);
            }
        }
    }
}

/// What `ext_to_re` returns for a given desugaring.
pub open spec fn desugared_as(spec_res: Result<RE, Anchor>, res: Result<RE, String>) -> bool {
    match res {
        Ok(r) => spec_res == Ok::<RE, Anchor>(r),
        Err(msg) => spec_res is Err && msg@ == anchor_message(spec_res->Err_0),
    }
}

/// The alternative of the literals `cs` (see `or_chars`).
fn or_of_chars(cs: &Vec<char>) -> (res: RE)
    ensures
        res == or_chars(cs@),
{
    let mut re = RE::Phi;
    let mut i: usize = cs.len();
    proof {
        assert(cs@.subrange(i as int, cs@.len() as int) =~= Seq::<char>::empty());
    }
    while i > 0
        invariant
            i <= cs.len(),
            re == or_chars(cs@.subrange(i as int, cs@.len() as int)),
        decreases i,
    {
        i = i - 1;
        proof {
            let t = cs@.subrange(i as int, cs@.len() as int);
            assert(t.subrange(1, t.len() as int) =~= cs@.subrange(i + 1, cs@.len() as int));
            assert(t[0] == cs@[i as int]);
        }
        let d = RE::Lit(cs[i]);
        if re == RE::Phi {
            re = d;
        } else {
            re = RE::Choice(Box::new(d), Box::new(re));
        }
    }
    proof {
        assert(cs@.subrange(0, cs@.len() as int) =~= cs@);
    }
    re
}

/// The characters with codes 0 to 126 that do not occur in `cs`, in order.
fn ascii_outside(cs: &Vec<char>) -> (res: Vec<char>)
    ensures
        res@ == ascii_chars().filter(|c: char| !cs@.contains(c)),
{
    let ghost pred = |c: char| !cs@.contains(c);
    let mut res: Vec<char> = Vec::new();
    let mut i: u8 = 0;
    while i < 127
        invariant
            i <= 127,
            pred == (|c: char| !cs@.contains(c)),
            res@ == ascii_chars().subrange(0, i as int).filter(pred),
        decreases 127 - i,
    {
        let c = i as char;
        let mut seen = false;
        let mut j: usize = 0;
        while j < cs.len()
            invariant
                j <= cs.len(),
                seen == exists|k: int| 0 <= k < j && cs@[k] == c,
            decreases cs.len() - j,
        {
            if cs[j] == c {
                seen = true;
            }
            j = j + 1;
        }
        proof {
            reveal(Seq::filter);
            assert(ascii_chars().subrange(0, i + 1).drop_last() =~= ascii_chars().subrange(0, i as int));
            assert(ascii_chars()[i as int] == c);
            if cs@.contains(c) {
                let k = choose|k: int| 0 <= k < cs@.len() && cs@[k] == c;
                assert(seen);
            }
        }
        if !seen {
            res.push(c);
        }
        i = i + 1;
    }
    proof {
        assert(ascii_chars().subrange(0, 127) =~= ascii_chars());
    }
    res
}

/// The characters with codes 0 to 126, in order.
fn ascii_all() -> (res: Vec<char>)
    ensures
        res@ == ascii_chars(),
{
    let mut res: Vec<char> = Vec::new();
    let mut i: u8 = 0;
    while i < 127
        invariant
            i <= 127,
            res@ =~= ascii_chars().subrange(0, i as int),
        decreases 127 - i,
    {
        res.push(i as char);
        i = i + 1;
    }
    res
}


/// `n` copies of `r` in front of its star (see `prefix_seq`).
fn bound_open(r: &RE, n: u64) -> (res: RE)
    ensures
        res == prefix_seq(*r, n as nat, RE::Star(Box::new(*r))),
{
    let mut re = RE::Star(Box::new(r.clone()));
    let mut i: u64 = 0;
    while i < n
        invariant
            i <= n,
            re == prefix_seq(*r, i as nat, RE::Star(Box::new(*r))),
        decreases n - i,
    {
        re = RE::Sequence(Box::new(r.clone()), Box::new(re));
        i = i + 1;
    }
    re
}

/// `lb` copies of `r`, then an optional `r` for each count from `lb` up to `ub`
/// (see `rep_seq` and `opt_tail`).
fn bound_closed(r: &RE, lb: u64, ub: u64) -> (res: RE)
    ensures
        res == opt_tail(rep_seq(*r, lb as nat), *r, if ub > lb { (ub - lb) as nat } else { 0 }),
{
    let mut re = RE::Eps;
    let mut i: u64 = 0;
    while i < lb
        invariant
            i <= lb,
            re == rep_seq(*r, i as nat),
        decreases lb - i,
    {
        if i == 0 || re == RE::Phi {
            re = r.clone();
        } else {
            re = RE::Sequence(Box::new(r.clone()), Box::new(re));
        }
        i = i + 1;
    }
    let mut j: u64 = lb;
    while j < ub
        invariant
            lb <= j,
            j <= ub || j == lb,
            re == opt_tail(rep_seq(*r, lb as nat), *r, (j - lb) as nat),
        decreases ub - j,
    {
        re = RE::Sequence(Box::new(re), Box::new(RE::Choice(Box::new(r.clone()), Box::new(RE::Eps))));
        j = j + 1;
    }
    re
}

/// Desugars the children `es` of `parent` and joins them into an alternative
/// (`alt`) or a concatenation (otherwise).
fn join_each(parent: &Ext, es: &Vec<Ext>, alt: bool) -> (res: RE)
    requires
        children_of(*parent, *es),
    ensures
        res == (if alt {
            join_or(desugar_all(syns_of(es@)))
        } else {
            join_concat(desugar_all(syns_of(es@)))
        }),
    decreases parent, 0nat,
{
    let ghost rs = desugar_all(syns_of(es@));
    proof {
        lemma_syns_of(es@);
        lemma_desugar_all(syns_of(es@));
    }
    let mut re = if alt {
        RE::Phi
    } else {
        RE::Eps
    };
    let mut i: usize = es.len();
    proof {
        assert(rs.subrange(i as int, rs.len() as int) =~= Seq::<Result<RE, Anchor>>::empty());
    }
    while i > 0
        invariant
            i <= es.len(),
            children_of(*parent, *es),
            rs == desugar_all(syns_of(es@)),
            rs.len() == es@.len(),
            forall|k: int| 0 <= k < es@.len() ==> #[trigger] rs[k] == desugar(syn_of(es@[k])),
            re == (if alt {
                join_or(rs.subrange(i as int, rs.len() as int))
            } else {
                join_concat(rs.subrange(i as int, rs.len() as int))
            }),
        decreases i,
    {
        i = i - 1;
        proof {
            assert(decreases_to!(*parent => es@[i as int]));
            let t = rs.subrange(i as int, rs.len() as int);
            assert(t.subrange(1, t.len() as int) =~= rs.subrange(i + 1, rs.len() as int));
            assert(t[0] == rs[i as int]);
        }
        let d = ext_to_re(&es[i]);
        match d {
            Ok(d) => {
                if alt {
                    if re == RE::Phi {
                        re = d;
                    } else {
                        re = RE::Choice(Box::new(d), Box::new(re));
                    }
                } else {
                    if re == RE::Eps {
                        re = d;
                    } else {
                        re = RE::Sequence(Box::new(d), Box::new(re));
                    }
                }
            },
            Err(_) => {},
        }
    }
    proof {
        assert(rs.subrange(0, rs.len() as int) =~= rs);
    }
    re
}

/// Converts an external syntax tree into a regular expression (see `desugar`).
/// Greedy flags are ignored. An anchor outside an alternative or a concatenation is
/// an error, reported with a message that names it.
pub fn ext_to_re(e: &Ext) -> (res: Result<RE, String>)
    ensures
        desugared_as(desugar(e@), res),
    decreases e,
{
    match e {
        Ext::Empty => Ok(RE::Eps),
        Ext::GrpNonMarking(d) => ext_to_re(d),
        Ext::Grp(d) => ext_to_re(d),
        Ext::Or(es) => Ok(join_each(e, es, true)),
        Ext::Concat(es) => Ok(join_each(e, es, false)),
        Ext::Opt(d, _greedy) => match ext_to_re(d) {
            Ok(r) => Ok(RE::Choice(Box::new(r), Box::new(RE::Eps))),
            Err(m) => Err(m),
        },
        Ext::Plus(d, _greedy) => match ext_to_re(d) {
            Ok(r) => {
                let r2 = r.clone();
                Ok(RE::Sequence(Box::new(r), Box::new(RE::Star(Box::new(r2)))))
            },
            Err(m) => Err(m),
        },
        Ext::Star(d, _greedy) => match ext_to_re(d) {
            Ok(r) => Ok(RE::Star(Box::new(r))),
            Err(m) => Err(m),
        },
        Ext::Bound(d, lb, ub, _greedy) => match ub {
            None => match ext_to_re(d) {
                Ok(r) => Ok(bound_open(&r, *lb)),
                Err(m) => Err(m),
            },
            Some(u) => {
                if *lb == 0 && *u == 0 {
                    Ok(RE::Eps)
                } else {
                    match ext_to_re(d) {
                        Ok(r) => Ok(bound_closed(&r, *lb, *u)),
                        Err(m) => Err(m),
                    }
                }
            },
        },
        Ext::Carat => Err("ext_to_re:encountered carat.".to_owned()),
        Ext::Dollar => Err("ext_to_re:encountered dollar.".to_owned()),
        Ext::Dot => {
            let cs = ascii_all();
            Ok(or_of_chars(&cs))
        },
        Ext::Any(cs) => Ok(or_of_chars(cs)),
        Ext::NoneOf(cs) => {
            let others = ascii_outside(cs);
            Ok(or_of_chars(&others))
        },
        Ext::Escape(c) => Ok(RE::Lit(*c)),
        Ext::Char(c) => Ok(RE::Lit(*c)),
    }
}


/// Simplifying twice gives what simplifying once gives.
pub proof fn lemma_simp_idempotent(e: Syn)
    ensures
        simp(simp(e)) == simp(e),
    decreases e,
{
    match e {
        Syn::GrpNonMarking(d) => lemma_simp_idempotent(*d),
        Syn::Grp(d) => lemma_simp_idempotent(*d),
        Syn::Or(ds) => {
            if ds.len() == 1 {
                lemma_simp_idempotent(ds[0]);
            } else if ds.len() > 1 {
                lemma_simps_idempotent(ds);
                lemma_simps(ds);
            }
        },
        Syn::Concat(ds) => {
            if ds.len() == 1 {
                lemma_simp_idempotent(ds[0]);
            } else if ds.len() > 1 {
                lemma_simps_idempotent(ds);
                lemma_simps(ds);
            }
        },
        Syn::Opt(d, _) => lemma_simp_idempotent(*d),
        Syn::Plus(d, _) => lemma_simp_idempotent(*d),
        Syn::Star(d, _) => lemma_simp_idempotent(*d),
        Syn::Bound(d, _, _, _) => lemma_simp_idempotent(*d),
        _ => {},
    }
}

/// `simps` is idempotent too.
pub proof fn lemma_simps_idempotent(ds: Seq<Syn>)
    ensures
        simps(simps(ds)) == simps(ds),
    decreases ds, 0nat,
{
    lemma_simps(ds);
    lemma_simps(simps(ds));
    assert forall|i: int| 0 <= i < ds.len() implies #[trigger] simps(simps(ds))[i] == simps(ds)[i] by {
        lemma_simp_idempotent(ds[i]);
    }
    assert(simps(simps(ds)) =~= simps(ds));
}

/// Whether a tree has no anchor and no alternative without branches.
pub open spec fn plain(e: Syn) -> bool
    decreases e,
{
    match e {
        Syn::GrpNonMarking(d) => plain(*d),
        Syn::Grp(d) => plain(*d),
        Syn::Or(ds) => ds.len() > 0 && all_plain(ds),
        Syn::Concat(ds) => all_plain(ds),
        Syn::Opt(d, _) => plain(*d),
        Syn::Plus(d, _) => plain(*d),
        Syn::Star(d, _) => plain(*d),
        Syn::Bound(d, _, _, _) => plain(*d),
        Syn::Carat => false,
        Syn::Dollar => false,
        _ => true,
    }
}

pub open spec fn all_plain(ds: Seq<Syn>) -> bool
    decreases ds,
{
    ds.len() > 0 ==> plain(ds[0]) && all_plain(ds.subrange(1, ds.len() as int))
}

/// `all_plain` holds of each element.
pub proof fn lemma_all_plain(ds: Seq<Syn>)
    ensures
        all_plain(ds) <==> forall|i: int| 0 <= i < ds.len() ==> #[trigger] plain(ds[i]),
    decreases ds.len(),
{
    if ds.len() > 0 {
        let t = ds.subrange(1, ds.len() as int);
        lemma_all_plain(t);
        if all_plain(ds) {
            assert forall|i: int| 0 <= i < ds.len() implies #[trigger] plain(ds[i]) by {
                if i > 0 {
                    assert(t[i - 1] == ds[i]);
                    assert(plain(t[i - 1]));
                }
            }
        }
        if forall|i: int| 0 <= i < ds.len() ==> #[trigger] plain(ds[i]) {
            assert forall|i: int| 0 <= i < t.len() implies #[trigger] plain(t[i]) by {
                assert(t[i] == ds[i + 1]);
                assert(plain(ds[i + 1]));
            }
            assert(plain(ds[0]));
        }
    }
}

/// A tree without anchors always desugars.
pub proof fn lemma_plain_desugars(e: Syn)
    requires
        plain(e),
    ensures
        desugar(e) is Ok,
    decreases e,
{
    match e {
        Syn::GrpNonMarking(d) => lemma_plain_desugars(*d),
        Syn::Grp(d) => lemma_plain_desugars(*d),
        Syn::Opt(d, _) => lemma_plain_desugars(*d),
        Syn::Plus(d, _) => lemma_plain_desugars(*d),
        Syn::Star(d, _) => lemma_plain_desugars(*d),
        Syn::Bound(d, _, _, _) => lemma_plain_desugars(*d),
        _ => {},
    }
}

/// Simplification does not change what a tree without anchors and without empty
/// alternatives desugars to.
pub proof fn lemma_simp_keeps_desugaring(e: Syn)
    requires
        plain(e),
    ensures
        desugar(simp(e)) == desugar(e),
    decreases e,
{
    match e {
        Syn::GrpNonMarking(d) => {
            lemma_simp_keeps_desugaring(*d);
            assert(desugar(simp(e)) == desugar(e));
        },
        Syn::Grp(d) => {
            lemma_simp_keeps_desugaring(*d);
            assert(desugar(simp(e)) == desugar(e));
        },
        Syn::Or(ds) => {
            lemma_all_plain(ds);
            lemma_desugar_all(ds);
            if ds.len() == 1 {
                lemma_simp_keeps_desugaring(ds[0]);
                lemma_plain_desugars(ds[0]);
                let rs = desugar_all(ds);
                assert(rs.subrange(1, rs.len() as int) =~= Seq::<Result<RE, Anchor>>::empty());
                assert(join_or(rs.subrange(1, rs.len() as int)) == RE::Phi);
                assert(join_or(rs) == step_or(rs[0], RE::Phi));
            } else {
                lemma_simps_keep_desugaring(ds);
                assert(simp(e) == Syn::Or(simps(ds)));
            }
            assert(desugar(simp(e)) == desugar(e));
        },
        Syn::Concat(ds) => {
            lemma_all_plain(ds);
            lemma_desugar_all(ds);
            if ds.len() == 1 {
                lemma_simp_keeps_desugaring(ds[0]);
                lemma_plain_desugars(ds[0]);
                let rs = desugar_all(ds);
                assert(rs.subrange(1, rs.len() as int) =~= Seq::<Result<RE, Anchor>>::empty());
                assert(join_concat(rs.subrange(1, rs.len() as int)) == RE::Eps);
                assert(join_concat(rs) == step_concat(rs[0], RE::Eps));
            } else if ds.len() > 1 {
                lemma_simps_keep_desugaring(ds);
                assert(simp(e) == Syn::Concat(simps(ds)));
            }
            assert(desugar(simp(e)) == desugar(e));
        },
        Syn::Opt(d, _) => {
            lemma_simp_keeps_desugaring(*d);
            assert(desugar(simp(e)) == desugar(e));
        },
        Syn::Plus(d, _) => {
            lemma_simp_keeps_desugaring(*d);
            assert(desugar(simp(e)) == desugar(e));
        },
        Syn::Star(d, _) => {
            lemma_simp_keeps_desugaring(*d);
            assert(desugar(simp(e)) == desugar(e));
        },
        Syn::Bound(d, _, _, _) => {
            lemma_simp_keeps_desugaring(*d);
            assert(desugar(simp(e)) == desugar(e));
        },
        _ => {
            assert(desugar(simp(e)) == desugar(e));
        },
    }
}

/// Simplifying each element keeps the desugaring of each element.
pub proof fn lemma_simps_keep_desugaring(ds: Seq<Syn>)
    requires
        all_plain(ds),
    ensures
        desugar_all(simps(ds)) == desugar_all(ds),
    decreases ds, 0nat,
{
    lemma_all_plain(ds);
    lemma_simps(ds);
    lemma_desugar_all(ds);
    lemma_desugar_all(simps(ds));
    assert forall|i: int| 0 <= i < ds.len() implies #[trigger] desugar_all(simps(ds))[i] == desugar_all(ds)[i] by {
        lemma_simp_keeps_desugaring(ds[i]);
    }
    assert(desugar_all(simps(ds)) =~= desugar_all(ds));
}

/// The concatenation of the words `ws`, in order.
pub open spec fn concat_words(ws: Seq<Seq<char>>) -> Seq<char>
    decreases ws.len(),
{
    if ws.len() == 0 {
        Seq::empty()
    } else {
        concat_words(ws.drop_last()) + ws.last()
    }
}

/// `Eps` followed by `n` optional copies of `r` is nullable and accepts every
/// concatenation of at most `n` words of `r`.
proof fn lemma_opt_tail_accepts(r: RE, n: nat, ws: Seq<Seq<char>>)
    requires
        ws.len() <= n,
        forall|i: int| 0 <= i < ws.len() ==> accepts(r, #[trigger] ws[i]),
    ensures
        nullable_spec(opt_tail(RE::Eps, r, n)),
        accepts(opt_tail(RE::Eps, r, n), concat_words(ws)),
    decreases n,
{
    if n == 0 {
        let t = Tree::Nil;
        assert(valid(t, RE::Eps));
        assert(flat(t) =~= concat_words(ws));
    } else {
        let prev = opt_tail(RE::Eps, r, (n - 1) as nat);
        let o = RE::Choice(Box::new(r), Box::new(RE::Eps));
        assert(opt_tail(RE::Eps, r, n) == RE::Sequence(Box::new(prev), Box::new(o)));
        assert(nullable_spec(RE::Eps));
        assert(nullable_spec(o));
        if ws.len() == n {
            let ws0 = ws.drop_last();
            assert forall|i: int| 0 <= i < ws0.len() implies accepts(r, #[trigger] ws0[i]) by {
                assert(ws0[i] == ws[i]);
            }
            lemma_opt_tail_accepts(r, (n - 1) as nat, ws0);
            let t1 = choose|t: Tree| valid(t, prev) && flat(t) == concat_words(ws0);
            assert(accepts(r, ws[ws.len() - 1]));
            let t2 = choose|t: Tree| valid(t, r) && flat(t) == ws.last();
            let t = Tree::Pair(Box::new(t1), Box::new(Tree::Left(Box::new(t2))));
            assert(valid(Tree::Left(Box::new(t2)), o));
            assert(valid(t, opt_tail(RE::Eps, r, n)));
            assert(flat(Tree::Left(Box::new(t2))) == flat(t2));
            assert(flat(t) == flat(t1) + flat(t2));
            assert(flat(t) == concat_words(ws));
        } else {
            lemma_opt_tail_accepts(r, (n - 1) as nat, ws);
            let t1 = choose|t: Tree| valid(t, prev) && flat(t) == concat_words(ws);
            let t2 = Tree::Right(Box::new(Tree::Nil));
            assert(valid(Tree::Nil, RE::Eps));
            assert(valid(t2, o));
            assert(flat(Tree::Nil) == Seq::<char>::empty());
            assert(flat(t2) == Seq::<char>::empty());
            let t = Tree::Pair(Box::new(t1), Box::new(t2));
            assert(valid(t, opt_tail(RE::Eps, r, n)));
            assert(flat(t) =~= concat_words(ws));
        }
    }
}

/// A bound with lower bound zero, `x{0,ub}`, accepts the empty word and every
/// concatenation of at most `ub` words of `x`.
pub proof fn lemma_bound_from_zero(x: Syn, ub: u64, g: bool, ws: Seq<Seq<char>>)
    requires
        desugar(x) is Ok,
        ws.len() <= ub,
        forall|i: int| 0 <= i < ws.len() ==> accepts(desugar(x)->Ok_0, #[trigger] ws[i]),
    ensures
        desugar(Syn::Bound(Box::new(x), 0, Some(ub), g)) is Ok,
        nullable_spec(desugar(Syn::Bound(Box::new(x), 0, Some(ub), g))->Ok_0),
        accepts(desugar(Syn::Bound(Box::new(x), 0, Some(ub), g))->Ok_0, concat_words(ws)),
{
    let r = desugar(x)->Ok_0;
    lemma_opt_tail_accepts(r, ub as nat, ws);
    if ub == 0 {
        assert(opt_tail(RE::Eps, r, 0) == RE::Eps);
    } else {
        assert(rep_seq(r, 0) == RE::Eps);
    }
}

/// Filtering by a predicate that holds everywhere keeps every element.
proof fn lemma_filter_all(s: Seq<char>, p: spec_fn(char) -> bool)
    requires
        forall|x: char| #[trigger] p(x),
    ensures
        s.filter(p) == s,
    decreases s.len(),
{
    reveal(Seq::filter);
    if s.len() > 0 {
        lemma_filter_all(s.drop_last(), p);
        assert(s.drop_last().push(s.last()) =~= s);
    }
}

/// `.` and a negated bracket that lists nothing desugar to the same expression:
/// the alternative of the characters with codes 0 to 126.
pub proof fn lemma_dot_is_empty_negated_set()
    ensures
        desugar(Syn::Dot) == desugar(Syn::NoneOf(Seq::empty())),
        desugar(Syn::Dot) == Ok::<RE, Anchor>(or_chars(ascii_chars())),
        ascii_chars().len() == 127,
{
    let e = Seq::<char>::empty();
    let p = |c: char| !e.contains(c);
    assert forall|x: char| #[trigger] p(x) by {
        assert(!e.contains(x));
    }
    lemma_filter_all(ascii_chars(), p);
}

} // verus!
