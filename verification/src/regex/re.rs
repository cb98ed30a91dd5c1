use vstd::prelude::*;
use vstd::laws_eq::obeys_concrete_eq;
use vstd::std_specs::cmp::PartialEqSpec;

verus! {

/// The abstract syntax of regular expressions.
#[derive(Debug, Hash)]
pub enum RE {
    Phi,
    Eps,
    Lit(char),
    Sequence(Box<RE>, Box<RE>),
    Choice(Box<RE>, Box<RE>),
    Star(Box<RE>),
}

/// Whether `r` accepts the empty word.
pub open spec fn nullable_spec(r: RE) -> bool
    decreases r,
{
    match r {
        RE::Phi => false,
        RE::Eps => true,
        RE::Lit(_) => false,
        RE::Sequence(r1, r2) => nullable_spec(*r1) && nullable_spec(*r2),
        RE::Choice(r1, r2) => nullable_spec(*r1) || nullable_spec(*r2),
        RE::Star(_) => true,
    }
}

/// The number of nodes of `r`.
pub open spec fn re_size(r: RE) -> nat
    decreases r,
{
    match r {
        RE::Sequence(r1, r2) => 1 + re_size(*r1) + re_size(*r2),
        RE::Choice(r1, r2) => 1 + re_size(*r1) + re_size(*r2),
        RE::Star(r1) => 1 + re_size(*r1),
        _ => 1,
    }
}

/// The letters that occur in `r`.
pub open spec fn chars_of(r: RE) -> Set<char>
    decreases r,
{
    match r {
        RE::Phi => Set::empty(),
        RE::Eps => Set::empty(),
        RE::Lit(c) => set![c],
        RE::Sequence(r1, r2) => chars_of(*r1).union(chars_of(*r2)),
        RE::Choice(r1, r2) => chars_of(*r1).union(chars_of(*r2)),
        RE::Star(r1) => chars_of(*r1),
    }
}

/// Structural equality of two expressions.
fn re_eq(a: &RE, b: &RE) -> (res: bool)
    ensures
        res == (*a == *b),
    decreases a,
{
    match (a, b) {
        (RE::Phi, RE::Phi) => true,
        (RE::Eps, RE::Eps) => true,
        (RE::Lit(l), RE::Lit(m)) => *l == *m,
        (RE::Sequence(r1, r2), RE::Sequence(r3, r4)) => re_eq(r1, r3) && re_eq(r2, r4),
        (RE::Choice(r1, r2), RE::Choice(r3, r4)) => re_eq(r1, r3) && re_eq(r2, r4),
        (RE::Star(r1), RE::Star(r2)) => re_eq(r1, r2),
        (_, _) => false,
    }
}

impl Clone for RE {
    fn clone(&self) -> (res: Self)
        ensures
            res == *self,
        decreases self,
    {
        match self {
            RE::Phi => RE::Phi,
            RE::Eps => RE::Eps,
            RE::Lit(l) => RE::Lit(*l),
            RE::Sequence(r1, r2) => RE::Sequence(
                Box::new((**r1).clone()),
                Box::new((**r2).clone()),
            ),
            RE::Choice(r1, r2) => RE::Choice(Box::new((**r1).clone()), Box::new((**r2).clone())),
            RE::Star(r) => RE::Star(Box::new((**r).clone())),
        }
    }
}

impl PartialEq for RE {
    fn eq(&self, other: &Self) -> (res: bool) {
        re_eq(self, other)
    }
}

impl Eq for RE {

}

impl vstd::std_specs::cmp::PartialEqSpecImpl for RE {
    open spec fn obeys_eq_spec() -> bool {
        true
    }

    open spec fn eq_spec(&self, other: &Self) -> bool {
        *self == *other
    }
}

/// `==` on expressions is structural equality.
pub proof fn lemma_re_concrete_eq()
    ensures
        obeys_concrete_eq::<RE>(),
{
    reveal(obeys_concrete_eq);
}

/// Adds `c` to `v` unless it is already there.
fn add_char(v: &mut Vec<char>, c: char)
    requires
        old(v)@.no_duplicates(),
    ensures
        final(v)@.no_duplicates(),
        final(v)@.to_set() == old(v)@.to_set().insert(c),
{
    let mut i: usize = 0;
    while i < v.len()
        invariant
            0 <= i <= v.len(),
            v@.no_duplicates(),
            forall|j: int| 0 <= j < i ==> v@[j] != c,
        decreases v.len() - i,
    {
        if v[i] == c {
            proof {
                assert(v@.to_set().insert(c) =~= v@.to_set());
            }
            return;
        }
        i = i + 1;
    }
    proof {
        assert(!v@.contains(c));
    }
    let ghost before = v@;
    v.push(c);
    proof {
        assert(v@.to_set() =~= before.to_set().insert(c)) by {
            assert forall|x: char| v@.to_set().contains(x) implies before.to_set().insert(c).contains(
                x,
            ) by {
                let k = choose|k: int| 0 <= k < v@.len() && v@[k] == x;
                if k < before.len() {
                    assert(before[k] == x);
                }
            }
            assert forall|x: char| before.to_set().insert(c).contains(x) implies v@.to_set().contains(
                x,
            ) by {
                if x != c {
                    let k = choose|k: int| 0 <= k < before.len() && before[k] == x;
                    assert(v@[k] == x);
                } else {
                    assert(v@[before.len() as int] == c);
                }
            }
        }
    }
}

/// Adds the letters of `w` to `v`.
fn add_chars(v: &mut Vec<char>, w: &Vec<char>)
    requires
        old(v)@.no_duplicates(),
    ensures
        final(v)@.no_duplicates(),
        final(v)@.to_set() == old(v)@.to_set().union(w@.to_set()),
{
    let ghost start = v@.to_set();
    let mut i: usize = 0;
    while i < w.len()
        invariant
            0 <= i <= w.len(),
            v@.no_duplicates(),
            v@.to_set() == start.union(w@.subrange(0, i as int).to_set()),
        decreases w.len() - i,
    {
        add_char(v, w[i]);
        proof {
            assert(w@.subrange(0, i + 1) =~= w@.subrange(0, i as int).push(w@[i as int]));
            w@.subrange(0, i as int).lemma_push_to_set_commute(w@[i as int]);
            assert(v@.to_set() =~= start.union(w@.subrange(0, i + 1).to_set()));
        }
        i = i + 1;
    }
    proof {
        assert(w@.subrange(0, w@.len() as int) =~= w@);
    }
}

impl RE {
    /// The number of nodes of the expression, or `usize::MAX` when it has more.
    pub fn size(&self) -> (res: usize)
        ensures
            res == (if re_size(*self) <= usize::MAX {
                re_size(*self)
            } else {
                usize::MAX as nat
            }),
        decreases self,
    {
        match self {
            RE::Sequence(r1, r2) => 1usize.saturating_add(r1.size()).saturating_add(r2.size()),
            RE::Choice(r1, r2) => 1usize.saturating_add(r1.size()).saturating_add(r2.size()),
            RE::Star(r1) => 1usize.saturating_add(r1.size()),
            _ => 1,
        }
    }

    /// Tests whether the expression accepts the empty word.
    pub fn nullable(&self) -> (res: bool)
        ensures
            res == nullable_spec(*self),
        decreases self,
    {
        match self {
            RE::Phi => false,
            RE::Eps => true,
            RE::Star(_) => true,
            RE::Choice(r1, r2) => r1.nullable() || r2.nullable(),
            RE::Sequence(r1, r2) => r1.nullable() && r2.nullable(),
            RE::Lit(_) => false,
        }
    }

    /// The set of letters used in the expression, each listed once.
    pub fn sigma(&self) -> (res: Vec<char>)
        ensures
            res@.no_duplicates(),
            res@.to_set() == chars_of(*self),
        decreases self,
    {
        match self {
            RE::Phi => Vec::new(),
            RE::Eps => Vec::new(),
            RE::Lit(c) => {
                let mut v = Vec::new();
                v.push(*c);
                proof {
                    assert(v@[0] == *c);
                    assert forall|x: char| v@.to_set().contains(x) <==> set![*c].contains(x) by {
                        if x == *c {
                            assert(v@[0] == x);
                        }
                    }
                    assert(v@.to_set() =~= set![*c]);
                }
                v
            },
            RE::Star(r) => r.sigma(),
            RE::Choice(r1, r2) => {
                let mut v1 = r1.sigma();
                let v2 = r2.sigma();
                add_chars(&mut v1, &v2);
                v1
            },
            RE::Sequence(r1, r2) => {
                let mut v1 = r1.sigma();
                let v2 = r2.sigma();
                add_chars(&mut v1, &v2);
                v1
            },
        }
    }
}

/// Whether `a` occurs in `s`.
pub open spec fn occurs<A>(s: Seq<A>, a: A) -> bool {
    exists|i: int| 0 <= i < s.len() && s[i] == a
}

/// `s` with every element that occurred earlier removed.
pub open spec fn nub<A>(s: Seq<A>) -> Seq<A>
    decreases s.len(),
{
    if s.len() == 0 {
        s
    } else {
        let prev = nub(s.drop_last());
        if occurs(prev, s.last()) {
            prev
        } else {
            prev.push(s.last())
        }
    }
}

/// Whether some pair in `s` has `a` as its first component.
pub open spec fn occurs_fst<A, B>(s: Seq<(A, B)>, a: A) -> bool {
    exists|i: int| 0 <= i < s.len() && s[i].0 == a
}

/// `s` with every pair removed whose first component occurred earlier.
pub open spec fn nub_fst<A, B>(s: Seq<(A, B)>) -> Seq<(A, B)>
    decreases s.len(),
{
    if s.len() == 0 {
        s
    } else {
        let prev = nub_fst(s.drop_last());
        if occurs_fst(prev, s.last().0) {
            prev
        } else {
            prev.push(s.last())
        }
    }
}

/// Every pair kept by `nub_fst` comes from the input.
pub proof fn lemma_nub_fst_subset<A, B>(s: Seq<(A, B)>)
    ensures
        forall|i: int|
            0 <= i < nub_fst(s).len() ==> exists|j: int| 0 <= j < s.len() && #[trigger] nub_fst(s)[i] == s[j],
    decreases s.len(),
{
    if s.len() > 0 {
        let prev = nub_fst(s.drop_last());
        lemma_nub_fst_subset(s.drop_last());
        assert forall|i: int| 0 <= i < nub_fst(s).len() implies exists|j: int|
            0 <= j < s.len() && #[trigger] nub_fst(s)[i] == s[j] by {
            if i < prev.len() {
                let j = choose|j: int| 0 <= j < s.drop_last().len() && prev[i] == s.drop_last()[j];
                assert(s[j] == s.drop_last()[j]);
            } else {
                assert(nub_fst(s)[i] == s[s.len() - 1]);
            }
        }
    }
}

/// Every first component of the input is kept by `nub_fst`.
pub proof fn lemma_nub_fst_covers<A, B>(s: Seq<(A, B)>)
    ensures
        forall|j: int|
            0 <= j < s.len() ==> #[trigger] occurs_fst(nub_fst(s), s[j].0),
    decreases s.len(),
{
    if s.len() > 0 {
        let prev = nub_fst(s.drop_last());
        lemma_nub_fst_covers(s.drop_last());
        assert forall|j: int| 0 <= j < s.len() implies #[trigger] occurs_fst(nub_fst(s), s[j].0) by {
            if j < s.len() - 1 {
                assert(s[j] == s.drop_last()[j]);
                assert(occurs_fst(prev, s.drop_last()[j].0));
                let i = choose|i: int| 0 <= i < prev.len() && prev[i].0 == s.drop_last()[j].0;
                assert(nub_fst(s)[i] == prev[i]);
            } else {
                if !occurs_fst(prev, s.last().0) {
                    assert(nub_fst(s)[prev.len() as int] == s.last());
                }
            }
        }
    }
}

/// `nub_fst` commutes with a map on the second components.
pub proof fn lemma_nub_fst_map_snd<A, B, C>(s: Seq<(A, B)>, f: spec_fn(B) -> C)
    ensures
        nub_fst(s).map_values(|p: (A, B)| (p.0, f(p.1))) == nub_fst(
            s.map_values(|p: (A, B)| (p.0, f(p.1))),
        ),
    decreases s.len(),
{
    let g = |p: (A, B)| (p.0, f(p.1));
    if s.len() > 0 {
        lemma_nub_fst_map_snd(s.drop_last(), f);
        let prev = nub_fst(s.drop_last());
        let mprev = nub_fst(s.drop_last().map_values(g));
        assert(s.map_values(g).drop_last() =~= s.drop_last().map_values(g));
        assert(prev.map_values(g) == mprev);
        assert(occurs_fst(prev, s.last().0) == occurs_fst(mprev, s.last().0)) by {
            if occurs_fst(prev, s.last().0) {
                let i = choose|i: int| 0 <= i < prev.len() && prev[i].0 == s.last().0;
                assert(mprev[i] == g(prev[i]));
            }
            if occurs_fst(mprev, s.last().0) {
                let i = choose|i: int| 0 <= i < mprev.len() && mprev[i].0 == s.last().0;
                assert(mprev[i] == g(prev[i]));
            }
        }
        assert(s.map_values(g).last() == g(s.last()));
        if !occurs_fst(prev, s.last().0) {
            assert(prev.push(s.last()).map_values(g) =~= mprev.push(g(s.last())));
        }
    } else {
        assert(nub_fst(s).map_values(g) =~= nub_fst(s.map_values(g)));
    }
}

/// Dropping pairs with a repeated first component, then taking first
/// components, is dropping repeated first components.
pub proof fn lemma_nub_fst_firsts<A, B>(s: Seq<(A, B)>)
    ensures
        nub_fst(s).map_values(|p: (A, B)| p.0) == nub(s.map_values(|p: (A, B)| p.0)),
    decreases s.len(),
{
    let g = |p: (A, B)| p.0;
    if s.len() > 0 {
        lemma_nub_fst_firsts(s.drop_last());
        let prev = nub_fst(s.drop_last());
        let fprev = nub(s.drop_last().map_values(g));
        assert(s.map_values(g).drop_last() =~= s.drop_last().map_values(g));
        assert(prev.map_values(g) == fprev);
        assert(occurs_fst(prev, s.last().0) == occurs(fprev, s.last().0)) by {
            if occurs_fst(prev, s.last().0) {
                let i = choose|i: int| 0 <= i < prev.len() && prev[i].0 == s.last().0;
                assert(fprev[i] == g(prev[i]));
            }
            if occurs(fprev, s.last().0) {
                let i = choose|i: int| 0 <= i < fprev.len() && fprev[i] == s.last().0;
                assert(fprev[i] == g(prev[i]));
            }
        }
        assert(s.map_values(g).last() == s.last().0);
        if !occurs_fst(prev, s.last().0) {
            assert(prev.push(s.last()).map_values(g) =~= fprev.push(s.last().0));
        }
    } else {
        assert(nub_fst(s).map_values(g) =~= nub(s.map_values(g)));
    }
}

/// `clone` of an expression gives back an equal expression.
pub proof fn lemma_re_clone_is_copy()
    ensures
        clone_is_copy::<RE>(),
{
}

/// Whether `clone` of `T` gives back an equal value.
pub open spec fn clone_is_copy<T: Clone>() -> bool {
    forall|x: T, y: T| #[trigger] call_ensures(T::clone, (&x,), y) ==> x == y
}

/// Removes duplicates, keeping the first occurrence of each element.
pub fn nub_vec<T: Clone + Eq>(v: &Vec<T>) -> (res: Vec<T>)
    requires
        obeys_concrete_eq::<T>(),
        clone_is_copy::<T>(),
    ensures
        res@ == nub(v@),
{
    proof {
        reveal(obeys_concrete_eq);
    }
    let mut res: Vec<T> = Vec::new();
    let mut i: usize = 0;
    while i < v.len()
        invariant
            0 <= i <= v.len(),
            obeys_concrete_eq::<T>(),
            clone_is_copy::<T>(),
            T::obeys_eq_spec(),
            forall|x: T, y: T| x.eq_spec(&y) <==> (x == y),
            res@ == nub(v@.subrange(0, i as int)),
        decreases v.len() - i,
    {
        let mut seen = false;
        let mut j: usize = 0;
        while j < res.len()
            invariant
                0 <= j <= res.len(),
                T::obeys_eq_spec(),
                forall|x: T, y: T| x.eq_spec(&y) <==> (x == y),
                seen == exists|k: int| 0 <= k < j && res@[k] == v@[i as int],
                i < v.len(),
            decreases res.len() - j,
        {
            if res[j] == v[i] {
                seen = true;
            }
            j = j + 1;
        }
        proof {
            assert(v@.subrange(0, i + 1).drop_last() =~= v@.subrange(0, i as int));
        }
        if !seen {
            let x = v[i].clone();
            res.push(x);
        }
        i = i + 1;
    }
    proof {
        assert(v@.subrange(0, v@.len() as int) =~= v@);
    }
    res
}

/// Removes every pair whose first component occurred earlier.
pub fn nub_vec_fst<T: Eq, S>(v: Vec<(T, S)>) -> (res: Vec<(T, S)>)
    requires
        obeys_concrete_eq::<T>(),
    ensures
        res@ == nub_fst(v@),
{
    proof {
        reveal(obeys_concrete_eq);
    }
    let ghost orig = v@;
    let mut res: Vec<(T, S)> = Vec::new();
    let mut idx: usize = 0;
    for p in it: v
        invariant
            T::obeys_eq_spec(),
            forall|x: T, y: T| x.eq_spec(&y) <==> (x == y),
            it.seq() == orig,
            res@ == nub_fst(orig.subrange(0, it.index() as int)),
    {
        let mut seen = false;
        let mut j: usize = 0;
        while j < res.len()
            invariant
                0 <= j <= res.len(),
                T::obeys_eq_spec(),
                forall|x: T, y: T| x.eq_spec(&y) <==> (x == y),
                seen == exists|k: int| 0 <= k < j && res@[k].0 == p.0,
            decreases res.len() - j,
        {
            if res[j].0 == p.0 {
                seen = true;
            }
            j = j + 1;
        }
        proof {
            assert(orig.subrange(0, it.index() + 1).drop_last() =~= orig.subrange(0, it.index() as int));
        }
        if !seen {
            res.push(p);
        }
    }
    proof {
        assert(orig.subrange(0, orig.len() as int) =~= orig);
    }
    res
}

/// Combines two hash values: `x * 256 + y`, wrapping around on overflow.
pub fn hash2(x: &u64, y: &u64) -> (res: u64)
    ensures
        res == (*x as int * 256 + *y as int) % 0x1_0000_0000_0000_0000,
{
    let f: u64 = 256;
    let a = x.wrapping_mul(f);
    let b = a.wrapping_add(*y);
    b
}

} // verus!
