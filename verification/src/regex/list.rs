use vstd::prelude::*;
use vstd::laws_eq::obeys_concrete_eq;
use std::rc::Rc;
use crate::regex::re::clone_is_copy;

verus! {

/// An immutable singly linked list whose tails may be shared.
#[derive(Debug, PartialEq, Eq)]
pub enum List<T> {
    Nil,
    Cons(T, Rc<List<T>>),
}

impl<T> List<T> {
    /// The elements of the list, from the head on.
    pub open spec fn elems(self) -> Seq<T>
        decreases self,
    {
        match self {
            List::Nil => Seq::empty(),
            List::Cons(x, xs) => seq![x] + xs.elems(),
        }
    }
}

impl<T> View for List<T> {
    type V = Seq<T>;

    open spec fn view(&self) -> Seq<T> {
        self.elems()
    }
}

/// Whether `t` occurs in `l`.
pub fn member<T: Eq>(t: &T, l: &List<T>) -> (res: bool)
    requires
        obeys_concrete_eq::<T>(),
    ensures
        res == l@.contains(*t),
    decreases l,
{
    proof {
        reveal(obeys_concrete_eq);
    }
    match l {
        List::Nil => false,
        List::Cons(x, xs) => {
            if *t == *x {
                assert(l@[0] == *x);
                true
            } else {
                let r = member(t, xs);
                proof {
                    assert(l@ == seq![*x] + xs@);
                    if r {
                        let k = choose|k: int| 0 <= k < xs@.len() && xs@[k] == *t;
                        assert(l@[k + 1] == *t);
                    }
                    if l@.contains(*t) {
                        let k = choose|k: int| 0 <= k < l@.len() && l@[k] == *t;
                        assert(k != 0);
                        assert(xs@[k - 1] == *t);
                    }
                }
                r
            }
        },
    }
}


/// Removes every element that occurs again later, keeping the last occurrence of each.
pub open spec fn nub_last<A>(s: Seq<A>) -> Seq<A>
    decreases s.len(),
{
    if s.len() == 0 {
        s
    } else if s.drop_first().contains(s[0]) {
        nub_last(s.drop_first())
    } else {
        seq![s[0]] + nub_last(s.drop_first())
    }
}

/// `nub_last` keeps exactly the elements of its argument, each once.
pub proof fn lemma_nub_last<A>(s: Seq<A>)
    ensures
        nub_last(s).no_duplicates(),
        forall|a: A| nub_last(s).contains(a) <==> s.contains(a),
    decreases s.len(),
{
    if s.len() > 0 {
        let t = s.drop_first();
        lemma_nub_last(t);
        assert forall|a: A| s.contains(a) <==> (a == s[0] || t.contains(a)) by {
            if s.contains(a) && a != s[0] {
                let k = choose|k: int| 0 <= k < s.len() && s[k] == a;
                assert(t[k - 1] == a);
            }
            if t.contains(a) {
                let k = choose|k: int| 0 <= k < t.len() && t[k] == a;
                assert(s[k + 1] == a);
            }
            if a == s[0] {
                assert(s[0] == a);
            }
        }
        if !t.contains(s[0]) {
            let r = seq![s[0]] + nub_last(t);
            assert forall|a: A| r.contains(a) <==> (a == s[0] || nub_last(t).contains(a)) by {
                if r.contains(a) && a != s[0] {
                    let k = choose|k: int| 0 <= k < r.len() && r[k] == a;
                    assert(nub_last(t)[k - 1] == a);
                }
                if nub_last(t).contains(a) {
                    let k = choose|k: int| 0 <= k < nub_last(t).len() && nub_last(t)[k] == a;
                    assert(r[k + 1] == a);
                }
                if a == s[0] {
                    assert(r[0] == a);
                }
            }
            assert forall|i: int, j: int| 0 <= i < r.len() && 0 <= j < r.len() && i != j
                implies r[i] != r[j] by {
                if i == 0 {
                    assert(nub_last(t).contains(r[j]));
                } else if j == 0 {
                    assert(nub_last(t).contains(r[i]));
                } else {
                    assert(r[i] == nub_last(t)[i - 1]);
                    assert(r[j] == nub_last(t)[j - 1]);
                }
            }
        }
    }
}

impl<T: Eq> List<T> {
    /// Whether `t` occurs in the list.
    pub fn contains(&self, t: &T) -> (res: bool)
        requires
            obeys_concrete_eq::<T>(),
        ensures
            res == self@.contains(*t),
    {
        member(t, self)
    }
}

impl<T: Eq + Clone> List<T> {
    /// The list without repetitions: an element is dropped when it occurs again later on.
    pub fn nub(&self) -> (res: List<T>)
        requires
            obeys_concrete_eq::<T>(),
            clone_is_copy::<T>(),
        ensures
            res@ == nub_last(self@),
            res@.no_duplicates(),
            forall|a: T| res@.contains(a) <==> self@.contains(a),
        decreases self,
    {
        proof {
            lemma_nub_last(self@);
        }
        match self {
            List::Nil => List::Nil,
            List::Cons(x, xs) => {
                proof {
                    assert(self@.drop_first() == xs@);
                }
                if xs.contains(x) {
                    xs.nub()
                } else {
                    let y = x.clone();
                    let rest = xs.nub();
                    List::Cons(y, Rc::new(rest))
                }
            },
        }
    }
}

impl<A: Clone> List<A> {
    /// The elements of this list followed by those of `s`.
    pub fn append(&self, s: List<A>) -> (res: List<A>)
        requires
            clone_is_copy::<A>(),
        ensures
            res@ == self@ + s@,
        decreases self,
    {
        match self {
            List::Nil => {
                assert(self@ + s@ =~= s@);
                s
            },
            List::Cons(x, xs) => {
                let y = x.clone();
                let rest = xs.append(s);
                let res = List::Cons(y, Rc::new(rest));
                assert(res@ =~= self@ + s@);
                res
            },
        }
    }
}

/// Whether folding `f` over `s`, from the left and starting at `acc`, can end in `r`.
pub open spec fn fold_steps<A, B, F: Fn(B, &A) -> B>(f: F, acc: B, s: Seq<A>, r: B) -> bool
    decreases s.len(),
{
    if s.len() == 0 {
        r == acc
    } else {
        exists|b: B| #[trigger] f.ensures((acc, &s[0]), b) && fold_steps(f, b, s.drop_first(), r)
    }
}

impl<A> List<A> {
    /// The number of elements.
    pub fn length(&self) -> (res: i32)
        requires
            self@.len() <= i32::MAX,
        ensures
            res == self@.len(),
        decreases self,
    {
        match self {
            List::Nil => 0,
            List::Cons(_x, xs) => {
                assert(self@.len() == 1 + xs@.len());
                1 + xs.length()
            },
        }
    }

    /// Applies `f` to each element, keeping the order.
    pub fn map<B>(&self, f: impl Fn(&A) -> B) -> (res: List<B>)
        requires
            forall|i: int| 0 <= i < self@.len() ==> f.requires((&self@[i],)),
        ensures
            res@.len() == self@.len(),
            forall|i: int| 0 <= i < self@.len() ==> f.ensures((&self@[i],), #[trigger] res@[i]),
        decreases self,
    {
        match self {
            List::Nil => List::Nil,
            List::Cons(x, xs) => {
                assert(self@[0] == *x);
                assert forall|i: int| 0 <= i < xs@.len() implies f.requires((&xs@[i],)) by {
                    assert(self@[i + 1] == xs@[i]);
                }
                let y = f(x);
                let rest = xs.map(f);
                let res = List::Cons(y, Rc::new(rest));
                assert forall|i: int| 0 <= i < self@.len() implies f.ensures((&self@[i],), #[trigger] res@[i]) by {
                    if i > 0 {
                        assert(self@[i] == xs@[i - 1]);
                        assert(res@[i] == rest@[i - 1]);
                    }
                }
                res
            },
        }
    }

    /// Folds `f` over the elements from the head on, starting at `acc`.
    pub fn foldl<B>(&self, acc: B, f: impl Fn(B, &A) -> B) -> (res: B)
        requires
            forall|b: B, i: int| 0 <= i < self@.len() ==> f.requires((b, &self@[i])),
        ensures
            fold_steps(f, acc, self@, res),
        decreases self,
    {
        match self {
            List::Nil => acc,
            List::Cons(x, xs) => {
                assert(self@[0] == *x);
                assert(self@.drop_first() == xs@);
                assert forall|b: B, i: int| 0 <= i < xs@.len() implies f.requires((b, &xs@[i])) by {
                    assert(self@[i + 1] == xs@[i]);
                }
                let b = f(acc, x);
                let r = xs.foldl(b, f);
                assert(f.ensures((acc, &self@[0]), b));
                r
            },
        }
    }
}

} // verus!
