use vstd::prelude::*;
use crate::regex::re::{RE, nullable_spec, re_size, chars_of};
use crate::regex::pderiv::bitseq::{Bits, max_bits};
use crate::regex::pderiv::bits::{pd_bc, pderiv_bc, pairs_view, emp_code, lemma_pd_bc_len, lemma_emp_code_len};
use crate::regex::pderiv::closure::{
    closure, lemma_pds_finite, lemma_closure_closed, lemma_closure_size, lemma_pd_bc_letter,
    lemma_pds_letters,
};
use crate::regex::pderiv::parsetree::{Tree, emp_code_spec, valid, flat, encode, accepts};
use crate::regex::pderiv::parse::{
    states_ok, reaches, lookup_or_add, derived, derived_at, lemma_derived_extend, closed_under, reached,
    lemma_derived_closed_reached, lemma_reaches_start, lemma_reaches_step, lemma_reaches_accept,
    string_chars, codes_parse, codes_view,
};
use crate::regex::pderiv::soundness::{lemma_pd_bc_complete, lemma_empty_tree_nullable};
use crate::regex::pderiv::paths::{continue_path, step_paths, all_paths, final_codes};

verus! {

/// Transitions keyed by a state and a letter: the partial derivatives of the state by
/// the letter, each with its bits.
pub type Trans = Vec<((RE, char), Vec<(RE, Bits)>)>;

/// Final states, each with its empty-word code.
pub type Finals = Vec<(RE, Bits)>;

/// An entry holds the partial derivatives of its state by its letter.
pub open spec fn entry_ok(e: ((RE, char), Vec<(RE, Bits)>)) -> bool {
    pairs_view(e.1@) == pd_bc(e.0.0, e.0.1)
}

/// Some entry of `tr` has the key `(p, c)`.
pub open spec fn has_key(tr: Seq<((RE, char), Vec<(RE, Bits)>)>, p: RE, c: char) -> bool {
    exists|i: int| 0 <= i < tr.len() && (#[trigger] tr[i]).0 == (p, c)
}

/// No two entries of `tr` share a key.
pub open spec fn keys_distinct(tr: Seq<((RE, char), Vec<(RE, Bits)>)>) -> bool {
    forall|i: int, j: int| 0 <= i < j < tr.len() ==> (#[trigger] tr[i]).0 != (#[trigger] tr[j]).0
}

/// Every letter of `sig` that gives state `p` partial derivatives has an entry.
pub open spec fn row_complete(tr: Seq<((RE, char), Vec<(RE, Bits)>)>, p: RE, sig: Set<char>) -> bool {
    forall|c: char| sig.contains(c) && #[trigger] pd_bc(p, c).len() > 0 ==> has_key(tr, p, c)
}

/// Every partial derivative of `p` by a letter of `sig` is one of the states `st`.
pub open spec fn row_closed(st: Seq<RE>, p: RE, sig: Set<char>) -> bool {
    forall|c: char, k: int|
        sig.contains(c) && 0 <= k < pd_bc(p, c).len() ==> st.contains(#[trigger] pd_bc(p, c)[k].0)
}

/// `fins` lists exactly the nullable states of `st`, each with its empty-word code.
pub open spec fn finals_ok(st: Seq<RE>, fins: Seq<(RE, Bits)>) -> bool {
    &&& forall|i: int|
        0 <= i < fins.len() ==> {
            &&& st.contains((#[trigger] fins[i]).0)
            &&& nullable_spec(fins[i].0)
            &&& fins[i].1@ == emp_code_spec(fins[i].0)
        }
    &&& forall|i: int|
        0 <= i < st.len() && nullable_spec(#[trigger] st[i]) ==> exists|j: int|
            0 <= j < fins.len() && fins[j].0 == st[i]
}

/// The state of every entry of `tr` is among the first `n` states of `st`.
pub open spec fn keys_among(tr: Seq<((RE, char), Vec<(RE, Bits)>)>, st: Seq<RE>, n: int) -> bool {
    forall|i: int| 0 <= i < tr.len() ==> exists|m: int| 0 <= m < n && #[trigger] st[m] == (#[trigger] tr[i]).0.0
}

proof fn lemma_has_key_grow(tr: Seq<((RE, char), Vec<(RE, Bits)>)>, e: ((RE, char), Vec<(RE, Bits)>), p: RE, c: char)
    requires
        has_key(tr, p, c),
    ensures
        has_key(tr.push(e), p, c),
{
    let i = choose|i: int| 0 <= i < tr.len() && (#[trigger] tr[i]).0 == (p, c);
    assert(tr.push(e)[i] == tr[i]);
}

proof fn lemma_contains_grow(st: Seq<RE>, st2: Seq<RE>, q: RE)
    requires
        st.contains(q),
        st.is_prefix_of(st2),
    ensures
        st2.contains(q),
{
    let i = choose|i: int| 0 <= i < st.len() && st[i] == q;
    assert(st2[i] == st[i]);
}

/// The entries of state `p` (the state numbered `k`) for the letters of `sig`,
/// appended to `trans`; the states they reach are added to `states`.
fn build_row(
    states: &mut Vec<RE>,
    trans: &mut Trans,
    k: usize,
    sig: &Vec<char>,
    Ghost(init): Ghost<RE>,
    Ghost(n0): Ghost<int>,
)
    requires
        states_ok(init, old(states)@),
        derived(old(states)@, n0, sig@.to_set()),
        k < old(states)@.len(),
        re_size(init) * re_size(init) <= max_bits(),
        sig@.no_duplicates(),
        forall|i: int| 0 <= i < old(trans)@.len() ==> entry_ok(#[trigger] old(trans)@[i]),
        keys_distinct(old(trans)@),
        keys_among(old(trans)@, old(states)@, k as int),
    ensures
        states_ok(init, final(states)@),
        old(states)@.is_prefix_of(final(states)@),
        old(trans)@.is_prefix_of(final(trans)@),
        forall|i: int| 0 <= i < final(trans)@.len() ==> entry_ok(#[trigger] final(trans)@[i]),
        keys_distinct(final(trans)@),
        keys_among(final(trans)@, final(states)@, k + 1),
        row_complete(final(trans)@, old(states)@[k as int], sig@.to_set()),
        row_closed(final(states)@, old(states)@[k as int], sig@.to_set()),
        derived(final(states)@, n0, sig@.to_set()),
{
    let p = states[k].clone();
    let ghost st0 = states@;
    let ghost tr0 = trans@;
    proof {
        lemma_closure_size(init, p);
    }
    let mut j: usize = 0;
    while j < sig.len()
        invariant
            0 <= j <= sig.len(),
            p == st0[k as int],
            k < st0.len(),
            closure(init).contains(p),
            re_size(p) <= max_bits(),
            re_size(init) * re_size(init) <= max_bits(),
            sig@.no_duplicates(),
            states_ok(init, states@),
            st0.is_prefix_of(states@),
            tr0.is_prefix_of(trans@),
            forall|i: int| 0 <= i < trans@.len() ==> entry_ok(#[trigger] trans@[i]),
            keys_distinct(trans@),
            keys_among(tr0, st0, k as int),
            forall|i: int|
                tr0.len() <= i < trans@.len() ==> (#[trigger] trans@[i]).0.0 == p
                    && sig@.subrange(0, j as int).contains(trans@[i].0.1),
            row_complete(trans@, p, sig@.subrange(0, j as int).to_set()),
            row_closed(states@, p, sig@.subrange(0, j as int).to_set()),
            derived(states@, n0, sig@.to_set()),
        decreases sig.len() - j,
    {
        let c = sig[j];
        let ghost sub = sig@.subrange(0, j as int);
        proof {
            assert(sig@.subrange(0, j + 1) =~= sub.push(c));
            sub.lemma_push_to_set_commute(c);
            lemma_closure_closed(init, p, c);
        }
        let tfs = pderiv_bc(&p, &c);
        let ghost pd = pd_bc(p, c);
        let ghost st_before = states@;
        assert(sig@.to_set().contains(c)) by {
            assert(sig@[j as int] == c);
        }
        assert(st_before[k as int] == p);
        let mut t: usize = 0;
        while t < tfs.len()
            invariant
                0 <= t <= tfs.len(),
                pairs_view(tfs@) == pd,
                pd == pd_bc(p, c),
                forall|i: int| 0 <= i < pd.len() ==> closure(init).contains(#[trigger] pd[i].0),
                states_ok(init, states@),
                st_before.is_prefix_of(states@),
                forall|i: int| 0 <= i < t ==> states@.contains(#[trigger] pd[i].0),
                derived(states@, n0, sig@.to_set()),
                sig@.to_set().contains(c),
                k < st_before.len(),
                st_before[k as int] == p,
            decreases tfs.len() - t,
        {
            let ghost before = states@;
            let q = tfs[t].0.clone();
            proof {
                assert(pairs_view(tfs@)[t as int] == (tfs@[t as int].0, tfs@[t as int].1@));
                assert(q == pd[t as int].0);
            }
            let _id = lookup_or_add(states, q);
            proof {
                lemma_derived_extend(before, states@, n0, sig@.to_set());
                assert forall|jj: int| n0 <= jj < states@.len() implies #[trigger] derived_at(states@, jj, sig@.to_set()) by {
                    if jj >= before.len() {
                        assert(states@[jj] == q);
                        assert(states@[k as int] == before[k as int]);
                        assert(before[k as int] == st_before[k as int]);
                        assert(pd_bc(states@[k as int], c)[t as int].0 == states@[jj]);
                    }
                }
                assert forall|i: int| 0 <= i < states@.len() implies closure(init).contains(#[trigger] states@[i]) by {
                    if i >= before.len() {
                        assert(states@[i] == q);
                    } else {
                        assert(states@[i] == before[i]);
                    }
                }
                assert(states@[0] == before[0]);
                assert(st_before.is_prefix_of(states@)) by {
                    assert(states@.subrange(0, st_before.len() as int) =~= before.subrange(0, st_before.len() as int));
                }
                assert forall|i: int| 0 <= i < t + 1 implies states@.contains(#[trigger] pd[i].0) by {
                    if i < t {
                        lemma_contains_grow(before, states@, pd[i].0);
                    } else {
                        assert(states@[_id as int] == q);
                    }
                }
            }
            t = t + 1;
        }
        proof {
            assert(st0.is_prefix_of(states@)) by {
                assert(states@.subrange(0, st0.len() as int) =~= st_before.subrange(0, st0.len() as int));
            }
            let sub2 = sig@.subrange(0, j + 1);
            assert forall|d: char, kk: int|
                sub2.to_set().contains(d) && 0 <= kk < pd_bc(p, d).len() implies states@.contains(
                #[trigger] pd_bc(p, d)[kk].0) by {
                if d == c {
                } else {
                    assert(sub.to_set().contains(d));
                    lemma_contains_grow(st_before, states@, pd_bc(p, d)[kk].0);
                }
            }
        }
        if tfs.len() > 0 {
            let ghost tr_before = trans@;
            proof {
                assert forall|i: int| 0 <= i < tr_before.len() implies (#[trigger] tr_before[i]).0 != (p, c) by {
                    if i < tr0.len() {
                        let m = choose|m: int| 0 <= m < k && #[trigger] st0[m] == tr0[i].0.0;
                        assert(tr_before[i] == tr0[i]);
                        assert(st0[m] != st0[k as int]);
                    } else {
                        assert(sub.contains(tr_before[i].0.1));
                        let n = choose|n: int| 0 <= n < sub.len() && sub[n] == tr_before[i].0.1;
                        assert(sig@[n] == sub[n]);
                        assert(sig@[j as int] == c);
                    }
                }
            }
            trans.push(((p.clone(), c), tfs));
            proof {
                let e = trans@[tr_before.len() as int];
                assert(e.0 == (p, c));
                assert(tr0.is_prefix_of(trans@)) by {
                    assert(trans@.subrange(0, tr0.len() as int) =~= tr_before.subrange(0, tr0.len() as int));
                }
                assert forall|i: int| 0 <= i < trans@.len() implies entry_ok(#[trigger] trans@[i]) by {
                    if i < tr_before.len() {
                        assert(trans@[i] == tr_before[i]);
                    }
                }
                assert forall|a: int, b: int| 0 <= a < b < trans@.len() implies (#[trigger] trans@[a]).0 != (#[trigger] trans@[b]).0 by {
                    if b < tr_before.len() {
                        assert(trans@[a] == tr_before[a] && trans@[b] == tr_before[b]);
                    } else {
                        assert(trans@[a] == tr_before[a]);
                    }
                }
                assert forall|i: int| tr0.len() <= i < trans@.len() implies (#[trigger] trans@[i]).0.0 == p
                    && sig@.subrange(0, j + 1).contains(trans@[i].0.1) by {
                    if i < tr_before.len() {
                        assert(trans@[i] == tr_before[i]);
                        let n = choose|n: int| 0 <= n < sub.len() && sub[n] == tr_before[i].0.1;
                        assert(sig@.subrange(0, j + 1)[n] == sub[n]);
                    } else {
                        assert(sig@.subrange(0, j + 1)[j as int] == c);
                    }
                }
                assert forall|d: char| sig@.subrange(0, j + 1).to_set().contains(d) && #[trigger] pd_bc(p, d).len() > 0
                    implies has_key(trans@, p, d) by {
                    if d == c {
                        assert(trans@[tr_before.len() as int].0 == (p, c));
                    } else {
                        assert(sub.to_set().contains(d));
                        lemma_has_key_grow(tr_before, ((p, c), tfs), p, d);
                    }
                }
            }
        } else {
            proof {
                assert forall|i: int| tr0.len() <= i < trans@.len() implies (#[trigger] trans@[i]).0.0 == p
                    && sig@.subrange(0, j + 1).contains(trans@[i].0.1) by {
                    let n = choose|n: int| 0 <= n < sub.len() && sub[n] == trans@[i].0.1;
                    assert(sig@.subrange(0, j + 1)[n] == sub[n]);
                }
                assert forall|d: char| sig@.subrange(0, j + 1).to_set().contains(d) && #[trigger] pd_bc(p, d).len() > 0
                    implies has_key(trans@, p, d) by {
                    if d != c {
                        assert(sub.to_set().contains(d));
                    }
                }
            }
        }
        j = j + 1;
    }
    proof {
        assert(sig@.subrange(0, sig@.len() as int) =~= sig@);
        assert forall|i: int| 0 <= i < trans@.len() implies exists|m: int|
            0 <= m < k + 1 && #[trigger] states@[m] == (#[trigger] trans@[i]).0.0 by {
            if i < tr0.len() {
                let m = choose|m: int| 0 <= m < k && #[trigger] st0[m] == tr0[i].0.0;
                assert(trans@[i] == tr0[i]);
                assert(states@[m] == st0[m]);
            } else {
                assert(states@[k as int] == st0[k as int]);
            }
        }
    }
}


/// Builds the entries of all states, adding the states that the partial
/// derivatives reach, until every state has its entries.
fn build_fix(states: Vec<RE>, sig: &Vec<char>, Ghost(init): Ghost<RE>) -> (res: (Vec<RE>, Trans))
    requires
        states_ok(init, states@),
        re_size(init) * re_size(init) <= max_bits(),
        sig@.no_duplicates(),
    ensures
        states_ok(init, res.0@),
        states@.is_prefix_of(res.0@),
        forall|i: int| 0 <= i < res.1@.len() ==> entry_ok(#[trigger] res.1@[i]),
        keys_distinct(res.1@),
        forall|i: int| 0 <= i < res.0@.len() ==> row_complete(res.1@, #[trigger] res.0@[i], sig@.to_set()),
        forall|i: int| 0 <= i < res.0@.len() ==> row_closed(res.0@, #[trigger] res.0@[i], sig@.to_set()),
        derived(res.0@, states@.len() as int, sig@.to_set()),
        forall|q: RE| res.0@.contains(q) <==> reached(states@.to_set(), q, sig@.to_set()),
{
    let mut states = states;
    let mut trans: Trans = Vec::new();
    let ghost start = states@;
    proof {
        lemma_pds_finite(init);
        states@.unique_seq_to_set();
        vstd::set_lib::lemma_len_subset(states@.to_set(), closure(init));
    }
    let mut k: usize = 0;
    while k < states.len()
        invariant
            0 <= k <= states.len(),
            states_ok(init, states@),
            start.is_prefix_of(states@),
            states@.len() <= closure(init).len(),
            closure(init).finite(),
            re_size(init) * re_size(init) <= max_bits(),
            sig@.no_duplicates(),
            forall|i: int| 0 <= i < trans@.len() ==> entry_ok(#[trigger] trans@[i]),
            keys_distinct(trans@),
            keys_among(trans@, states@, k as int),
            forall|i: int| 0 <= i < k ==> row_complete(trans@, #[trigger] states@[i], sig@.to_set()),
            forall|i: int| 0 <= i < k ==> row_closed(states@, #[trigger] states@[i], sig@.to_set()),
            derived(states@, start.len() as int, sig@.to_set()),
        decreases closure(init).len() - k,
    {
        let ghost st_before = states@;
        let ghost tr_before = trans@;
        build_row(&mut states, &mut trans, k, sig, Ghost(init), Ghost(start.len() as int));
        proof {
            assert forall|i: int| 0 <= i < k + 1 implies row_complete(trans@, #[trigger] states@[i], sig@.to_set()) by {
                assert(states@[i] == st_before[i]);
                if i < k {
                    assert forall|c: char| sig@.to_set().contains(c) && #[trigger] pd_bc(states@[i], c).len() > 0
                        implies has_key(trans@, states@[i], c) by {
                        assert(has_key(tr_before, st_before[i], c));
                        let m = choose|m: int| 0 <= m < tr_before.len() && (#[trigger] tr_before[m]).0 == (st_before[i], c);
                        assert(trans@[m] == tr_before[m]);
                    }
                }
            }
            assert forall|i: int| 0 <= i < k + 1 implies row_closed(states@, #[trigger] states@[i], sig@.to_set()) by {
                assert(states@[i] == st_before[i]);
                if i < k {
                    assert forall|c: char, kk: int| sig@.to_set().contains(c) && 0 <= kk < pd_bc(states@[i], c).len()
                        implies states@.contains(#[trigger] pd_bc(states@[i], c)[kk].0) by {
                        lemma_contains_grow(st_before, states@, pd_bc(states@[i], c)[kk].0);
                    }
                }
            }
            assert(start.is_prefix_of(states@)) by {
                assert(states@.subrange(0, start.len() as int) =~= st_before.subrange(0, start.len() as int));
            }
            states@.unique_seq_to_set();
            assert(states@.to_set().subset_of(closure(init)));
            vstd::set_lib::lemma_len_subset(states@.to_set(), closure(init));
        }
        k = k + 1;
    }
    proof {
        assert forall|i: int, c: char, kk: int|
            0 <= i < states@.len() && sig@.to_set().contains(c) && 0 <= kk < pd_bc(states@[i], c).len() implies states@.contains(
                #[trigger] pd_bc(states@[i], c)[kk].0) by {
            assert(row_closed(states@, states@[i], sig@.to_set()));
        }
        assert(closed_under(states@, sig@.to_set()));
        assert(states@.subrange(0, start.len() as int) =~= start);
        lemma_derived_closed_reached(states@, start.len() as int, sig@.to_set());
    }
    (states, trans)
}

/// Each nullable state with its empty-word code.
fn build_finals(states: &Vec<RE>, Ghost(init): Ghost<RE>) -> (fins: Finals)
    requires
        states_ok(init, states@),
        re_size(init) * re_size(init) <= max_bits(),
    ensures
        finals_ok(states@, fins@),
{
    let mut fins: Finals = Vec::new();
    let mut i: usize = 0;
    while i < states.len()
        invariant
            0 <= i <= states.len(),
            states_ok(init, states@),
            re_size(init) * re_size(init) <= max_bits(),
            forall|m: int|
                0 <= m < fins@.len() ==> {
                    &&& states@.contains((#[trigger] fins@[m]).0)
                    &&& nullable_spec(fins@[m].0)
                    &&& fins@[m].1@ == emp_code_spec(fins@[m].0)
                },
            forall|m: int|
                0 <= m < i && nullable_spec(#[trigger] states@[m]) ==> exists|j: int|
                    0 <= j < fins@.len() && fins@[j].0 == states@[m],
        decreases states.len() - i,
    {
        if states[i].nullable() {
            proof {
                lemma_closure_size(init, states@[i as int]);
            }
            let e = emp_code(&states[i]);
            let ghost before = fins@;
            fins.push((states[i].clone(), e));
            proof {
                assert forall|m: int|
                    0 <= m < i + 1 && nullable_spec(#[trigger] states@[m]) implies exists|j: int|
                        0 <= j < fins@.len() && fins@[j].0 == states@[m] by {
                    if m < i {
                        let j = choose|j: int| 0 <= j < before.len() && before[j].0 == states@[m];
                        assert(fins@[j] == before[j]);
                    } else {
                        assert(fins@[before.len() as int].0 == states@[m]);
                    }
                }
                assert forall|m: int| 0 <= m < fins@.len() implies {
                    &&& states@.contains((#[trigger] fins@[m]).0)
                    &&& nullable_spec(fins@[m].0)
                    &&& fins@[m].1@ == emp_code_spec(fins@[m].0)
                } by {
                    if m < before.len() {
                        assert(fins@[m] == before[m]);
                    } else {
                        assert(states@[i as int] == fins@[m].0);
                    }
                }
            }
        }
        i = i + 1;
    }
    fins
}

/// A transducer whose transitions are keyed by a state and a letter.
pub struct Regex {
    pub trans: Trans,
    init: RE,
    finals: Finals,
    states: Ghost<Seq<RE>>,
}

impl Regex {
    /// The expression that the transducer recognises.
    pub closed spec fn init_re(&self) -> RE {
        self.init
    }

    /// The transducer is the one that `build_regex` builds for `init_re()`: its
    /// states are partial derivatives of `init_re()`, closed under partial
    /// derivatives by its letters, each of which has its transitions.
    pub closed spec fn wf(&self) -> bool {
        let st = self.states@;
        let sig = chars_of(self.init);
        &&& states_ok(self.init, st)
        &&& derived(st, 1, sig)
        &&& re_size(self.init) * re_size(self.init) <= max_bits()
        &&& forall|i: int| 0 <= i < self.trans@.len() ==> entry_ok(#[trigger] self.trans@[i])
        &&& keys_distinct(self.trans@)
        &&& forall|i: int| 0 <= i < st.len() ==> row_complete(self.trans@, #[trigger] st[i], sig)
        &&& forall|i: int| 0 <= i < st.len() ==> row_closed(st, #[trigger] st[i], sig)
        &&& finals_ok(st, self.finals@)
    }

    /// The number of transitions, counted as (state, letter) pairs.
    pub closed spec fn transition_count(&self) -> int {
        self.trans@.len() as int
    }

    /// `q` is one of the states of the transducer.
    pub closed spec fn has_state(&self, q: RE) -> bool {
        self.states@.contains(q)
    }

    /// The states of a well-formed transducer are exactly the expressions
    /// reached from `init_re()` by partial derivatives by its letters.
    pub proof fn lemma_states_reached(&self)
        requires
            self.wf(),
        ensures
            forall|q: RE| self.has_state(q) <==> reached(set![self.init_re()], q, chars_of(self.init_re())),
    {
        let st = self.states@;
        let sig = chars_of(self.init);
        assert forall|i: int, c: char, k: int|
            0 <= i < st.len() && sig.contains(c) && 0 <= k < pd_bc(st[i], c).len() implies st.contains(
                #[trigger] pd_bc(st[i], c)[k].0) by {
            assert(row_closed(st, st[i], sig));
        }
        assert(st.subrange(0, 1).to_set() =~= set![self.init]) by {
            let s1 = st.subrange(0, 1);
            assert(s1[0] == self.init);
            assert forall|q: RE| s1.to_set().contains(q) <==> q == self.init by {
                if q == self.init {
                    assert(s1.contains(q));
                }
            }
        }
        lemma_derived_closed_reached(st, 1, sig);
    }
}

/// The number of transitions of the transducer, as (state, letter) pairs.
pub fn cnt(regex: &Regex) -> (res: usize)
    requires
        regex.wf(),
    ensures
        res == regex.transition_count(),
{
    regex.trans.len()
}

/// Builds the transducer of `r`: its states are `r` and the partial derivatives
/// reachable from it by the letters of `r`.
pub fn build_regex(r: &RE) -> (res: Regex)
    requires
        re_size(*r) * re_size(*r) <= max_bits(),
    ensures
        res.wf(),
        res.init_re() == *r,
        forall|q: RE| res.has_state(q) <==> reached(set![*r], q, chars_of(*r)),
{
    let sig = r.sigma();
    let mut init_states: Vec<RE> = Vec::new();
    init_states.push(r.clone());
    let ghost init = *r;
    proof {
        lemma_pds_finite(init);
        assert(closure(init).contains(init));
        assert(init_states@.no_duplicates());
    }
    let (all_states, trans) = build_fix(init_states, &sig, Ghost(init));
    let fins = build_finals(&all_states, Ghost(init));
    proof {
        assert(all_states@[0] == init);
    }
    let res = Regex { trans: trans, init: r.clone(), finals: fins, states: Ghost(all_states@) };
    proof {
        res.lemma_states_reached();
    }
    res
}


/// Each path leads to a state of `st` and carries the bits of the way there.
pub open spec fn paths_ok(init: RE, w: Seq<char>, st: Seq<RE>, v: Seq<(RE, Bits)>, bound: nat) -> bool {
    forall|j: int|
        0 <= j < v.len() ==> {
            &&& st.contains((#[trigger] v[j]).0)
            &&& reaches(init, w, v[j].0, v[j].1@)
            &&& v[j].1@.len() <= bound
        }
}

/// Every parse tree of `init` whose word starts with `w` continues, after `w`,
/// with a word of the state of one of the paths `v`.
#[verifier::opaque]
pub open spec fn covered_by(init: RE, w: Seq<char>, v: Seq<(RE, Bits)>) -> bool {
    forall|t: Tree|
        #[trigger] valid(t, init) && w.is_prefix_of(flat(t)) ==> exists|j: int|
            0 <= j < v.len() && #[trigger] accepts(
                v[j].0,
                flat(t).subrange(w.len() as int, flat(t).len() as int),
            )
}

/// Every partial derivative by `c` of the state of a path of `v` is the state
/// of a path of `v2`.
pub open spec fn step_closed(v: Seq<(RE, Bits)>, v2: Seq<(RE, Bits)>, c: char) -> bool {
    forall|j: int, k: int|
        #![trigger pd_bc(v[j].0, c)[k]]
        0 <= j < v.len() && 0 <= k < pd_bc(v[j].0, c).len() ==> held_by(v2, pd_bc(v[j].0, c)[k].0)
}

/// Some path of `v` ends in `q`.
pub open spec fn held_by(v: Seq<(RE, Bits)>, q: RE) -> bool {
    exists|m: int| 0 <= m < v.len() && v[m].0 == q
}

proof fn lemma_covered_start(init: RE, v: Seq<(RE, Bits)>)
    requires
        v.len() > 0,
        v[0].0 == init,
    ensures
        covered_by(init, Seq::empty(), v),
{
    reveal(covered_by);
    assert forall|t: Tree| #[trigger] valid(t, init) && Seq::<char>::empty().is_prefix_of(flat(t)) implies exists|j: int|
        0 <= j < v.len() && #[trigger] accepts(v[j].0, flat(t).subrange(0, flat(t).len() as int)) by {
        assert(flat(t).subrange(0, flat(t).len() as int) =~= flat(t));
        assert(accepts(v[0].0, flat(t)));
    }
}

proof fn lemma_covered_step(init: RE, w: Seq<char>, v: Seq<(RE, Bits)>, v2: Seq<(RE, Bits)>, c: char)
    requires
        covered_by(init, w, v),
        step_closed(v, v2, c),
    ensures
        covered_by(init, w.push(c), v2),
{
    reveal(covered_by);
    let w2 = w.push(c);
    assert forall|t: Tree| #[trigger] valid(t, init) && w2.is_prefix_of(flat(t)) implies exists|j: int|
        0 <= j < v2.len() && #[trigger] accepts(v2[j].0, flat(t).subrange(w2.len() as int, flat(t).len() as int)) by {
        let f = flat(t);
        assert(w.is_prefix_of(f)) by {
            assert forall|i: int| 0 <= i < w.len() implies w[i] == f[i] by {
                assert(w2[i] == w[i]);
            }
        }
        let j = choose|j: int| 0 <= j < v.len() && #[trigger] accepts(v[j].0, f.subrange(w.len() as int, f.len() as int));
        let p = v[j].0;
        let rest = f.subrange(w.len() as int, f.len() as int);
        let t1 = choose|t1: Tree| valid(t1, p) && flat(t1) == rest;
        let rest2 = f.subrange(w2.len() as int, f.len() as int);
        assert(rest =~= seq![c] + rest2) by {
            assert(f[w.len() as int] == w2[w.len() as int]);
        }
        let (k, t3) = lemma_pd_bc_complete(p, c, t1, rest2);
        assert(pd_bc(v[j].0, c)[k].0 == pd_bc(p, c)[k].0);
        assert(held_by(v2, pd_bc(v[j].0, c)[k].0));
        let m = choose|m: int| 0 <= m < v2.len() && v2[m].0 == pd_bc(v[j].0, c)[k].0;
        assert(accepts(v2[m].0, rest2));
    }
}

/// When no path ends in a nullable state, the word is not in the language.
proof fn lemma_reject(init: RE, s: Seq<char>, v: Seq<(RE, Bits)>)
    requires
        covered_by(init, s, v),
        forall|j: int| 0 <= j < v.len() ==> !nullable_spec(#[trigger] v[j].0),
    ensures
        !accepts(init, s),
{
    reveal(covered_by);
    if accepts(init, s) {
        let t = choose|t: Tree| valid(t, init) && flat(t) == s;
        assert(s.is_prefix_of(flat(t))) by {
            assert(flat(t).subrange(0, s.len() as int) =~= s);
        }
        let j = choose|j: int| 0 <= j < v.len() && #[trigger] accepts(v[j].0, flat(t).subrange(s.len() as int, flat(t).len() as int));
        let p = v[j].0;
        let t2 = choose|t2: Tree| valid(t2, p) && flat(t2) == flat(t).subrange(s.len() as int, flat(t).len() as int);
        lemma_empty_tree_nullable(t2, p);
    }
}

/// The partial derivatives by `x` of a state of the transducer are those of its
/// entry for `x`; when it has no entry, there are none.
proof fn lemma_lookup(regex: &Regex, r: RE, x: char)
    requires
        regex.wf(),
        regex.states@.contains(r),
    ensures
        !has_key(regex.trans@, r, x) ==> pd_bc(r, x).len() == 0,
        forall|k: int| 0 <= k < pd_bc(r, x).len() ==> regex.states@.contains(#[trigger] pd_bc(r, x)[k].0),
        closure(regex.init).contains(r),
{
    let st = regex.states@;
    let sig = chars_of(regex.init);
    let i = choose|i: int| 0 <= i < st.len() && st[i] == r;
    assert(row_complete(regex.trans@, st[i], sig));
    assert(row_closed(st, st[i], sig));
    assert(closure(regex.init).contains(st[i]));
    if !sig.contains(x) {
        if r != regex.init {
            lemma_pds_letters(regex.init, r);
        }
        lemma_pd_bc_letter(r, x);
    }
}

/// The position of the entry with key `(r, x)`, if there is one.
fn lookup(trans: &Trans, r: &RE, x: char) -> (res: Option<usize>)
    ensures
        match res {
            Some(i) => i < trans@.len() && trans@[i as int].0 == (*r, x),
            None => !has_key(trans@, *r, x),
        },
{
    let mut i: usize = 0;
    while i < trans.len()
        invariant
            i <= trans.len(),
            forall|m: int| 0 <= m < i ==> (#[trigger] trans@[m]).0 != (*r, x),
        decreases trans.len() - i,
    {
        if trans[i].0.1 == x && trans[i].0.0 == *r {
            return Some(i);
        }
        i = i + 1;
    }
    None
}

/// One letter of input: follows every path by the letter `x`, extending its bits
/// with those of the transition taken.
fn step(regex: &Regex, rbc: &Vec<(RE, Bits)>, x: char, Ghost(w): Ghost<Seq<char>>) -> (tbc: Vec<(RE, Bits)>)
    requires
        regex.wf(),
        paths_ok(regex.init, w, regex.states@, rbc@, w.len() * (re_size(regex.init) * re_size(regex.init))),
        (w.len() + 1) * (re_size(regex.init) * re_size(regex.init)) <= max_bits(),
    ensures
        paths_ok(regex.init, w.push(x), regex.states@, tbc@, (w.len() + 1) * (re_size(regex.init) * re_size(regex.init))),
        step_closed(rbc@, tbc@, x),
        pairs_view(tbc@) == step_paths(pairs_view(rbc@), x),
{
    let ghost init = regex.init;
    let ghost st = regex.states@;
    let ghost big = re_size(init) * re_size(init);
    let ghost bound = (w.len() + 1) * big;
    proof {
        assert(w.len() * big + big == bound) by (nonlinear_arith)
            requires bound == (w.len() + 1) * big;
    }
    let mut tbc: Vec<(RE, Bits)> = Vec::new();
    let mut j: usize = 0;
    while j < rbc.len()
        invariant
            0 <= j <= rbc.len(),
            regex.wf(),
            init == regex.init,
            st == regex.states@,
            big == re_size(init) * re_size(init),
            w.len() * big + big == bound,
            bound <= max_bits(),
            paths_ok(init, w, st, rbc@, w.len() * big),
            paths_ok(init, w.push(x), st, tbc@, bound),
            step_closed(rbc@.subrange(0, j as int), tbc@, x),
            pairs_view(tbc@) == step_paths(pairs_view(rbc@.subrange(0, j as int)), x),
        decreases rbc.len() - j,
    {
        let ghost r = rbc@[j as int].0;
        let ghost tbc0 = tbc@;
        proof {
            let pre = pairs_view(rbc@.subrange(0, j + 1));
            assert(pre.drop_last() =~= pairs_view(rbc@.subrange(0, j as int)));
            assert(pre.last() == (r, rbc@[j as int].1@));
            assert(step_paths(pre, x) == step_paths(pre.drop_last(), x) + continue_path(pd_bc(r, x), rbc@[j as int].1@));
            lemma_lookup(regex, r, x);
            lemma_closure_size(init, r);
            lemma_pd_bc_len(r, x);
        }
        match lookup(&regex.trans, &rbc[j].0, x) {
            None => {
                proof {
                    assert(pd_bc(r, x).len() == 0);
                    assert(tbc@ == tbc0);
                    assert(continue_path(pd_bc(r, x), rbc@[j as int].1@) =~= Seq::<(RE, Seq<bool>)>::empty());
                    assert(pairs_view(tbc@) =~= step_paths(pairs_view(rbc@.subrange(0, j + 1)), x));
                    let old_v = rbc@.subrange(0, j as int);
                    let new_v = rbc@.subrange(0, j + 1);
                    assert forall|jj: int, kk: int|
                        #![trigger pd_bc(new_v[jj].0, x)[kk]]
                        0 <= jj < new_v.len() && 0 <= kk < pd_bc(new_v[jj].0, x).len() implies held_by(tbc@, pd_bc(new_v[jj].0, x)[kk].0) by {
                        assert(new_v[jj] == rbc@[jj]);
                        if jj < j {
                            assert(old_v[jj] == rbc@[jj]);
                            assert(pd_bc(old_v[jj].0, x)[kk] == pd_bc(new_v[jj].0, x)[kk]);
                            assert(held_by(tbc0, pd_bc(old_v[jj].0, x)[kk].0));
                            let m = choose|m: int| 0 <= m < tbc0.len() && tbc0[m].0 == pd_bc(old_v[jj].0, x)[kk].0;
                            assert(tbc@[m] == tbc0[m]);
                        }
                    }
                    assert(step_closed(new_v, tbc@, x));
                }
            },
            Some(idx) => {
                let tfs = &regex.trans[idx].1;
                let ghost pd = pd_bc(r, x);
                proof {
                    assert(entry_ok(regex.trans@[idx as int]));
                    assert(pairs_view(tfs@) == pd);
                }
                let mut k: usize = 0;
                while k < tfs.len()
                    invariant
                        0 <= k <= tfs.len(),
                        regex.wf(),
                        init == regex.init,
                        st == regex.states@,
                        j < rbc.len(),
                        r == rbc@[j as int].0,
                        pairs_view(tfs@) == pd,
                        pd == pd_bc(r, x),
                        forall|i: int| 0 <= i < pd.len() ==> (#[trigger] pd[i]).1.len() <= big,
                        forall|i: int| 0 <= i < pd.len() ==> st.contains(#[trigger] pd_bc(r, x)[i].0),
                        reaches(init, w, r, rbc@[j as int].1@),
                        rbc@[j as int].1@.len() <= w.len() * big,
                        w.len() * big + big == bound,
                        bound <= max_bits(),
                        paths_ok(init, w.push(x), st, tbc@, bound),
                        tbc0.is_prefix_of(tbc@),
                        tbc@.len() == tbc0.len() + k,
                        forall|i: int| 0 <= i < k ==> #[trigger] tbc@[tbc0.len() + i].0 == pd[i].0,
                        pairs_view(tbc@) == pairs_view(tbc0) + continue_path(pd.subrange(0, k as int), rbc@[j as int].1@),
                    decreases tfs.len() - k,
                {
                    proof {
                        assert(pairs_view(tfs@)[k as int] == (tfs@[k as int].0, tfs@[k as int].1@));
                        lemma_reaches_step(init, w, r, rbc@[j as int].1@, x, k as int);
                        assert(st.contains(pd_bc(r, x)[k as int].0));
                    }
                    let t = tfs[k].0.clone();
                    let mut b2 = rbc[j].1.copy();
                    b2.extend_from(&tfs[k].1);
                    let ghost before = tbc@;
                    tbc.push((t, b2));
                    proof {
                        let ds = pd.subrange(0, k + 1);
                        assert(ds.drop_last() =~= pd.subrange(0, k as int));
                        assert(ds.last() == pd[k as int]);
                        assert(pairs_view(tbc@) =~= pairs_view(before).push((pd[k as int].0, rbc@[j as int].1@ + pd[k as int].1)));
                        assert forall|i: int| 0 <= i < tbc@.len() implies {
                            &&& st.contains((#[trigger] tbc@[i]).0)
                            &&& reaches(init, w.push(x), tbc@[i].0, tbc@[i].1@)
                            &&& tbc@[i].1@.len() <= bound
                        } by {
                            if i < before.len() {
                                assert(tbc@[i] == before[i]);
                            }
                        }
                        assert(tbc0.is_prefix_of(tbc@)) by {
                            assert(tbc@.subrange(0, tbc0.len() as int) =~= before.subrange(0, tbc0.len() as int));
                        }
                        assert forall|i: int| 0 <= i < k + 1 implies #[trigger] tbc@[tbc0.len() + i].0 == pd[i].0 by {
                            if i < k {
                                assert(tbc@[tbc0.len() + i] == before[tbc0.len() + i]);
                            }
                        }
                    }
                    k = k + 1;
                }
                proof {
                    assert(pd.subrange(0, pd.len() as int) =~= pd);
                    assert(pairs_view(tbc@) =~= step_paths(pairs_view(rbc@.subrange(0, j + 1)), x));
                    let old_v = rbc@.subrange(0, j as int);
                    let new_v = rbc@.subrange(0, j + 1);
                    assert forall|jj: int, kk: int|
                        #![trigger pd_bc(new_v[jj].0, x)[kk]]
                        0 <= jj < new_v.len() && 0 <= kk < pd_bc(new_v[jj].0, x).len() implies held_by(tbc@, pd_bc(new_v[jj].0, x)[kk].0) by {
                        assert(new_v[jj] == rbc@[jj]);
                        if jj < j {
                            assert(old_v[jj] == rbc@[jj]);
                            assert(pd_bc(old_v[jj].0, x)[kk] == pd_bc(new_v[jj].0, x)[kk]);
                            assert(held_by(tbc0, pd_bc(old_v[jj].0, x)[kk].0));
                            let m = choose|m: int| 0 <= m < tbc0.len() && tbc0[m].0 == pd_bc(old_v[jj].0, x)[kk].0;
                            assert(tbc@[m] == tbc0[m]);
                        } else {
                            assert(kk < pd.len());
                            assert(tbc@[tbc0.len() + kk].0 == pd[kk].0);
                            assert(tbc@[tbc0.len() + kk].0 == pd_bc(new_v[jj].0, x)[kk].0);
                        }
                    }
                    assert(step_closed(new_v, tbc@, x));
                }
            },
        }
        j = j + 1;
    }
    proof {
        assert(rbc@.subrange(0, rbc@.len() as int) =~= rbc@);
    }
    tbc
}

/// Follows all paths through `s` from the initial state; returns, for each path that
/// ends in a nullable state and in the order of the paths, its bits followed by that
/// state's empty-word code.
fn go(regex: &Regex, s: &Vec<char>) -> (res: Vec<Bits>)
    requires
        regex.wf(),
        (s@.len() + 1) * (re_size(regex.init) * re_size(regex.init)) <= max_bits(),
    ensures
        codes_view(res@) == final_codes(all_paths(regex.init, s@)),
        forall|i: int| 0 <= i < res@.len() ==> codes_parse(regex.init, s@, (#[trigger] res@[i])@),
        res@.len() == 0 ==> !accepts(regex.init, s@),
{
    let ghost init = regex.init;
    let ghost st = regex.states@;
    let ghost big = re_size(init) * re_size(init);
    let mut rbc: Vec<(RE, Bits)> = Vec::new();
    rbc.push((regex.init.clone(), Bits::new()));
    proof {
        lemma_reaches_start(init);
        lemma_covered_start(init, rbc@);
        assert(st[0] == init);
        assert(s@.subrange(0, 0) =~= Seq::<char>::empty());
        assert(0 * big == 0) by (nonlinear_arith);
        assert(pairs_view(rbc@) =~= all_paths(init, s@.subrange(0, 0)));
    }
    let mut i: usize = 0;
    while i < s.len()
        invariant
            0 <= i <= s.len(),
            pairs_view(rbc@) == all_paths(init, s@.subrange(0, i as int)),
            regex.wf(),
            init == regex.init,
            st == regex.states@,
            big == re_size(init) * re_size(init),
            (s@.len() + 1) * big <= max_bits(),
            paths_ok(init, s@.subrange(0, i as int), st, rbc@, (i * big) as nat),
            covered_by(init, s@.subrange(0, i as int), rbc@),
        decreases s.len() - i,
    {
        let x = s[i];
        let ghost w = s@.subrange(0, i as int);
        proof {
            assert((i + 1) * big <= (s@.len() + 1) * big) by (nonlinear_arith)
                requires i < s@.len(), big >= 0;
        }
        let tbc = step(regex, &rbc, x, Ghost(w));
        proof {
            assert(w.push(x) =~= s@.subrange(0, i + 1));
            assert(w.push(x).drop_last() =~= w);
            lemma_covered_step(init, w, rbc@, tbc@, x);
        }
        rbc = tbc;
        i = i + 1;
    }
    proof {
        assert(s@.subrange(0, s@.len() as int) =~= s@);
        assert(s@.len() * big + big == (s@.len() + 1) * big) by (nonlinear_arith);
    }
    let mut res: Vec<Bits> = Vec::new();
    let mut j: usize = 0;
    proof {
        assert(codes_view(res@) =~= final_codes(pairs_view(rbc@).subrange(0, 0)));
    }
    while j < rbc.len()
        invariant
            0 <= j <= rbc.len(),
            regex.wf(),
            init == regex.init,
            st == regex.states@,
            big == re_size(init) * re_size(init),
            s@.len() * big + big <= max_bits(),
            paths_ok(init, s@, st, rbc@, s@.len() * big),
            pairs_view(rbc@) == all_paths(init, s@),
            codes_view(res@) == final_codes(pairs_view(rbc@).subrange(0, j as int)),
            forall|m: int| 0 <= m < res@.len() ==> codes_parse(init, s@, (#[trigger] res@[m])@),
            res@.len() == 0 ==> forall|m: int| 0 <= m < j ==> !nullable_spec(#[trigger] rbc@[m].0),
        decreases rbc.len() - j,
    {
        proof {
            let pre = pairs_view(rbc@).subrange(0, j + 1);
            assert(pre.drop_last() =~= pairs_view(rbc@).subrange(0, j as int));
            assert(pre.last() == (rbc@[j as int].0, rbc@[j as int].1@));
        }
        if rbc[j].0.nullable() {
            let ghost r = rbc@[j as int].0;
            proof {
                lemma_lookup(regex, r, 'a');
                lemma_closure_size(init, r);
                lemma_emp_code_len(r);
            }
            let e = emp_code(&rbc[j].0);
            let mut b = rbc[j].1.copy();
            b.extend_from(&e);
            let ghost before = res@;
            let ghost bits = b@;
            res.push(b);
            proof {
                assert(e@ == emp_code_spec(r));
                assert(codes_view(res@) =~= codes_view(before).push(bits));
                let t0 = lemma_reaches_accept(init, s@, r, rbc@[j as int].1@);
                assert(encode(t0, init) == bits);
                assert forall|m: int| 0 <= m < res@.len() implies codes_parse(init, s@, (#[trigger] res@[m])@) by {
                    if m < before.len() {
                        assert(res@[m] == before[m]);
                    } else {
                        assert(res@[m]@ == bits);
                        assert(valid(t0, init) && flat(t0) == s@ && encode(t0, init) == res@[m]@);
                    }
                }
            }
        }
        j = j + 1;
    }
    proof {
        if res@.len() == 0 {
            lemma_reject(init, s@, rbc@);
        }
        assert(pairs_view(rbc@).subrange(0, rbc@.len() as int) =~= pairs_view(rbc@));
    }
    res
}

/// Matches the whole of `s` against the transducer; returns the bit code of a parse
/// tree of `s` when there is one: that of the first path, in the order in which
/// paths are followed, that ends in a nullable state.
pub fn parse_regex(regex: &Regex, s: &String) -> (res: Option<Bits>)
    requires
        regex.wf(),
        (s@.len() + 1) * (re_size(regex.init_re()) * re_size(regex.init_re())) <= max_bits(),
    ensures
        match res {
            Some(b) => final_codes(all_paths(regex.init_re(), s@)).len() > 0 && b@ == final_codes(
                all_paths(regex.init_re(), s@),
            )[0],
            None => final_codes(all_paths(regex.init_re(), s@)).len() == 0,
        },
        res is Some ==> exists|t: Tree|
            valid(t, regex.init_re()) && flat(t) == s@ && encode(t, regex.init_re()) == res->0@,
        res is None ==> !accepts(regex.init_re(), s@),
{
    let chars = string_chars(s);
    let result = go(regex, &chars);
    if result.len() == 0 {
        None
    } else {
        let bv = result[0].copy();
        proof {
            assert(result@[0]@ == bv@);
            assert(codes_view(result@)[0] == result@[0]@);
            assert(codes_parse(regex.init, s@, result@[0]@));
        }
        Some(bv)
    }
}

} // verus!
