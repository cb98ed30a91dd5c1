use vstd::prelude::*;
use crate::regex::re::{RE, nullable_spec, re_size, chars_of, nub_fst, nub_vec_fst, lemma_nub_fst_subset, lemma_nub_fst_covers, occurs_fst};
use vstd::laws_eq::obeys_concrete_eq;
use crate::regex::pderiv::bitseq::{Bits, max_bits};
use crate::regex::pderiv::bits::{pd_bc, pderiv_bc, pairs_view, emp_code, lemma_pd_bc_len, decode};
use crate::regex::pderiv::closure::{
    closure, lemma_pds_finite, lemma_closure_closed, lemma_closure_size, lemma_pd_bc_letter,
    lemma_pds_letters,
};
use crate::regex::pderiv::parsetree::{
    Tree, U, emp_code_spec, valid, flat, encode, accepts, emp_tree, lemma_emp_tree,
    lemma_code_unique,
};
use crate::regex::pderiv::soundness::{lemma_pd_bc_sound, lemma_pd_bc_complete, lemma_empty_tree_nullable};
use crate::regex::pderiv::paths::{Path, continue_path, step_paths, all_paths, first_paths, final_codes};
use crate::regex::pderiv::table::{
    TransRow, Finals, entries_view, row_map, finals_map, row_new, row_insert, row_get, row_len,
    finals_new, finals_insert, finals_get,
};

verus! {

/// The transitions of a transducer, one row per state.
pub type Trans = Vec<TransRow>;

/// The key of a letter in a transition row.
pub open spec fn code(c: char) -> u64 {
    (c as u32) as u64
}

/// `e` lists, for each partial derivative in `pd` and in the same order, the
/// number of a state that holds it and its bits.
pub open spec fn entries_ok(st: Seq<RE>, e: Seq<(u64, Seq<bool>)>, pd: Seq<(RE, Seq<bool>)>) -> bool {
    &&& e.len() == pd.len()
    &&& forall|i: int|
        0 <= i < e.len() ==> {
            &&& (#[trigger] e[i]).0 < st.len()
            &&& st[e[i].0 as int] == pd[i].0
            &&& e[i].1 == pd[i].1
        }
}

/// `row` holds, for each letter of `sig` by which `p` has partial
/// derivatives, those derivatives; and nothing for any other letter.
pub open spec fn row_ok(st: Seq<RE>, p: RE, row: Map<u64, Seq<(u64, Seq<bool>)>>, sig: Set<char>) -> bool {
    &&& row.dom().finite()
    &&& forall|c: char|
        #[trigger] row.contains_key(code(c)) == (sig.contains(c) && pd_bc(p, c).len() > 0)
    &&& forall|c: char|
        #[trigger] row.contains_key(code(c)) ==> entries_ok(st, row[code(c)], pd_bc(p, c))
}

/// `fins` maps the number of every nullable state to its empty-word code.
pub open spec fn finals_ok(st: Seq<RE>, fins: Map<u64, Seq<bool>>) -> bool {
    &&& forall|k: u64|
        #[trigger] fins.contains_key(k) == (k < st.len() && nullable_spec(st[k as int]))
    &&& forall|k: u64| #[trigger] fins.contains_key(k) ==> fins[k] == emp_code_spec(st[k as int])
}

/// The states found so far: the first is `init`, none occurs twice, and all
/// belong to the closure of `init`.
pub open spec fn states_ok(init: RE, st: Seq<RE>) -> bool {
    &&& st.len() > 0
    &&& st[0] == init
    &&& st.no_duplicates()
    &&& forall|i: int| 0 <= i < st.len() ==> closure(init).contains(#[trigger] st[i])
}

proof fn lemma_entries_ok_extend(st: Seq<RE>, st2: Seq<RE>, e: Seq<(u64, Seq<bool>)>, pd: Seq<(RE, Seq<bool>)>)
    requires
        entries_ok(st, e, pd),
        st.is_prefix_of(st2),
    ensures
        entries_ok(st2, e, pd),
{
    assert forall|i: int| 0 <= i < e.len() implies {
        &&& (#[trigger] e[i]).0 < st2.len()
        &&& st2[e[i].0 as int] == pd[i].0
        &&& e[i].1 == pd[i].1
    } by {
        assert(st2[e[i].0 as int] == st[e[i].0 as int]);
    }
}

proof fn lemma_row_ok_extend(st: Seq<RE>, st2: Seq<RE>, p: RE, row: Map<u64, Seq<(u64, Seq<bool>)>>, sig: Set<char>)
    requires
        row_ok(st, p, row, sig),
        st.is_prefix_of(st2),
    ensures
        row_ok(st2, p, row, sig),
{
    assert forall|c: char| #[trigger] row.contains_key(code(c)) implies entries_ok(st2, row[code(c)], pd_bc(p, c)) by {
        lemma_entries_ok_extend(st, st2, row[code(c)], pd_bc(p, c));
    }
}

proof fn lemma_code_injective(c: char, d: char)
    requires
        code(c) == code(d),
    ensures
        c == d,
{
}

/// Finds `q` among the states, adding it at the end if it is not there;
/// returns its number.
pub(crate) fn lookup_or_add(states: &mut Vec<RE>, q: RE) -> (id: u64)
    requires
        old(states)@.no_duplicates(),
    ensures
        final(states)@.no_duplicates(),
        old(states)@.is_prefix_of(final(states)@),
        old(states)@.contains(q) ==> final(states)@ == old(states)@,
        !old(states)@.contains(q) ==> final(states)@ == old(states)@.push(q),
        id < final(states)@.len(),
        final(states)@[id as int] == q,
{
    let mut i: usize = 0;
    while i < states.len()
        invariant
            0 <= i <= states.len(),
            states@ == old(states)@,
            states@.no_duplicates(),
            forall|j: int| 0 <= j < i ==> states@[j] != q,
        decreases states.len() - i,
    {
        if states[i] == q {
            proof {
                assert(states@.is_prefix_of(states@)) by {
                    assert(states@.subrange(0, states@.len() as int) =~= states@);
                }
            }
            return i as u64;
        }
        i = i + 1;
    }
    let ghost before = states@;
    let n = states.len();
    states.push(q);
    proof {
        assert(!before.contains(q));
        assert(states@.subrange(0, before.len() as int) =~= before);
    }
    n as u64
}

/// The state at position `j` is a partial derivative, by a letter of `sig`, of a
/// state before it.
pub open spec fn derived_at(st: Seq<RE>, j: int, sig: Set<char>) -> bool {
    exists|i: int, c: char, k: int|
        #![trigger pd_bc(st[i], c)[k]]
        0 <= i < j && sig.contains(c) && 0 <= k < pd_bc(st[i], c).len() && pd_bc(st[i], c)[k].0 == st[j]
}

/// Every state from position `n` on is a partial derivative, by a letter of `sig`,
/// of a state before it; so all of them are reached from the first `n` states.
pub open spec fn derived(st: Seq<RE>, n: int, sig: Set<char>) -> bool {
    forall|j: int| n <= j < st.len() ==> #[trigger] derived_at(st, j, sig)
}

/// Growing the states keeps how the old ones were derived.
pub proof fn lemma_derived_extend(st: Seq<RE>, st2: Seq<RE>, n: int, sig: Set<char>)
    requires
        derived(st, n, sig),
        st.is_prefix_of(st2),
    ensures
        forall|j: int| n <= j < st.len() ==> #[trigger] derived_at(st2, j, sig),
{
    assert forall|j: int| n <= j < st.len() implies #[trigger] derived_at(st2, j, sig) by {
        assert(derived_at(st, j, sig));
        let (i, c, k) = choose|i: int, c: char, k: int|
            #![trigger pd_bc(st[i], c)[k]]
            0 <= i < j && sig.contains(c) && 0 <= k < pd_bc(st[i], c).len() && pd_bc(st[i], c)[k].0 == st[j];
        assert(st2[i] == st[i] && st2[j] == st[j]);
        assert(pd_bc(st2[i], c)[k].0 == st2[j]);
    }
}

/// The expressions reached from `s0` in at most `n` steps, each step taking a
/// partial derivative by a letter of `sig`.
pub open spec fn reach_from(s0: Set<RE>, n: nat, sig: Set<char>) -> Set<RE>
    decreases n,
{
    if n == 0 {
        s0
    } else {
        let prev = reach_from(s0, (n - 1) as nat, sig);
        prev.union(
            Set::new(
                |q: RE|
                    exists|p: RE, c: char, k: int|
                        #![trigger prev.contains(p), pd_bc(p, c)[k]]
                        prev.contains(p) && sig.contains(c) && 0 <= k < pd_bc(p, c).len() && pd_bc(p, c)[k].0 == q,
            ),
        )
    }
}

/// `q` is reached from `s0` by partial derivatives by letters of `sig`.
pub open spec fn reached(s0: Set<RE>, q: RE, sig: Set<char>) -> bool {
    exists|n: nat| #[trigger] reach_from(s0, n, sig).contains(q)
}

/// Every partial derivative of a state of `st`, by a letter of `sig`, is a state of `st`.
pub open spec fn closed_under(st: Seq<RE>, sig: Set<char>) -> bool {
    forall|i: int, c: char, k: int|
        0 <= i < st.len() && sig.contains(c) && 0 <= k < pd_bc(st[i], c).len() ==> st.contains(
            #[trigger] pd_bc(st[i], c)[k].0,
        )
}

proof fn lemma_state_reached(st: Seq<RE>, n: int, sig: Set<char>, j: int) -> (m: nat)
    requires
        0 <= n <= st.len(),
        derived(st, n, sig),
        0 <= j < st.len(),
    ensures
        reach_from(st.subrange(0, n).to_set(), m, sig).contains(st[j]),
    decreases j,
{
    let s0 = st.subrange(0, n).to_set();
    if j < n {
        assert(st.subrange(0, n)[j] == st[j]);
        0
    } else {
        assert(derived_at(st, j, sig));
        let (i, c, k) = choose|i: int, c: char, k: int|
            #![trigger pd_bc(st[i], c)[k]]
            0 <= i < j && sig.contains(c) && 0 <= k < pd_bc(st[i], c).len() && pd_bc(st[i], c)[k].0 == st[j];
        let mi = lemma_state_reached(st, n, sig, i);
        let prev = reach_from(s0, mi, sig);
        assert(reach_from(s0, mi + 1, sig) == prev.union(
            Set::new(
                |q: RE|
                    exists|p: RE, c: char, k: int|
                        #![trigger prev.contains(p), pd_bc(p, c)[k]]
                        prev.contains(p) && sig.contains(c) && 0 <= k < pd_bc(p, c).len() && pd_bc(p, c)[k].0 == q,
            ),
        ));
        assert(prev.contains(st[i]) && pd_bc(st[i], c)[k].0 == st[j]);
        mi + 1
    }
}

proof fn lemma_reached_state(st: Seq<RE>, n: int, sig: Set<char>, m: nat)
    requires
        0 <= n <= st.len(),
        closed_under(st, sig),
    ensures
        forall|q: RE| reach_from(st.subrange(0, n).to_set(), m, sig).contains(q) ==> st.contains(q),
    decreases m,
{
    let s0 = st.subrange(0, n).to_set();
    if m == 0 {
        assert forall|q: RE| s0.contains(q) implies st.contains(q) by {
            let i = choose|i: int| 0 <= i < n && st.subrange(0, n)[i] == q;
            assert(st[i] == q);
        }
    } else {
        lemma_reached_state(st, n, sig, (m - 1) as nat);
        let prev = reach_from(s0, (m - 1) as nat, sig);
        assert forall|q: RE| reach_from(s0, m, sig).contains(q) implies st.contains(q) by {
            if prev.contains(q) {
                assert(st.contains(q));
            } else {
                let (p, c, k) = choose|p: RE, c: char, k: int|
                    #![trigger prev.contains(p), pd_bc(p, c)[k]]
                    prev.contains(p) && sig.contains(c) && 0 <= k < pd_bc(p, c).len() && pd_bc(p, c)[k].0 == q;
                assert(st.contains(p));
                let i = choose|i: int| 0 <= i < st.len() && st[i] == p;
                assert(st.contains(pd_bc(st[i], c)[k].0));
            }
        }
    }
}

/// States that are closed under partial derivatives, and each of which from
/// position `n` on is derived from one before it, are exactly the expressions
/// reached from the first `n` of them.
pub proof fn lemma_derived_closed_reached(st: Seq<RE>, n: int, sig: Set<char>)
    requires
        0 <= n <= st.len(),
        derived(st, n, sig),
        closed_under(st, sig),
    ensures
        forall|q: RE| st.contains(q) <==> reached(st.subrange(0, n).to_set(), q, sig),
{
    let s0 = st.subrange(0, n).to_set();
    assert forall|q: RE| st.contains(q) <==> reached(s0, q, sig) by {
        if st.contains(q) {
            let j = choose|j: int| 0 <= j < st.len() && st[j] == q;
            let m = lemma_state_reached(st, n, sig, j);
            assert(reach_from(s0, m, sig).contains(q));
        }
        if reached(s0, q, sig) {
            let m = choose|m: nat| #[trigger] reach_from(s0, m, sig).contains(q);
            lemma_reached_state(st, n, sig, m);
        }
    }
}

/// The transitions of state `p` by the letter `c`: each partial derivative,
/// by the number of its state (added to `states` when new), with its bits.
fn transitions_of(
    states: &mut Vec<RE>,
    p: &RE,
    c: char,
    Ghost(init): Ghost<RE>,
    Ghost(pi): Ghost<int>,
    Ghost(n0): Ghost<int>,
    Ghost(sig): Ghost<Set<char>>,
) -> (entries: Vec<(u64, Bits)>)
    requires
        states_ok(init, old(states)@),
        closure(init).contains(*p),
        re_size(init) * re_size(init) <= max_bits(),
        0 <= pi < old(states)@.len(),
        old(states)@[pi] == *p,
        sig.contains(c),
        derived(old(states)@, n0, sig),
    ensures
        states_ok(init, final(states)@),
        old(states)@.is_prefix_of(final(states)@),
        entries_ok(final(states)@, entries_view(entries@), pd_bc(*p, c)),
        derived(final(states)@, n0, sig),
{
    proof {
        lemma_closure_size(init, *p);
        lemma_closure_closed(init, *p, c);
    }
    let tfs = pderiv_bc(p, &c);
    let ghost pd = pd_bc(*p, c);
    let ghost start = states@;
    let mut entries: Vec<(u64, Bits)> = Vec::new();
    for q in it: tfs
        invariant
            it.seq() == tfs@,
            pairs_view(tfs@) == pd,
            forall|i: int| 0 <= i < pd.len() ==> closure(init).contains(#[trigger] pd[i].0),
            states_ok(init, states@),
            start.is_prefix_of(states@),
            entries_ok(states@, entries_view(entries@), pd.subrange(0, it.index() as int)),
            0 <= pi < start.len(),
            start[pi] == *p,
            pd == pd_bc(*p, c),
            sig.contains(c),
            derived(states@, n0, sig),
    {
        let ghost k = it.index();
        let ghost before = states@;
        let (r, b) = q;
        proof {
            assert(tfs@[k as int] == (r, b));
            assert(pairs_view(tfs@)[k as int] == (tfs@[k as int].0, tfs@[k as int].1@));
            assert(pd[k as int].0 == r);
            assert(closure(init).contains(r));
        }
        let id = lookup_or_add(states, r);
        proof {
            lemma_entries_ok_extend(before, states@, entries_view(entries@), pd.subrange(0, k as int));
            assert forall|i: int| 0 <= i < states@.len() implies closure(init).contains(#[trigger] states@[i]) by {
                if i >= before.len() {
                    assert(states@[i] == r);
                } else {
                    assert(states@[i] == before[i]);
                }
            }
            assert(states@[0] == before[0]);
            assert(start.is_prefix_of(states@)) by {
                assert(states@.subrange(0, start.len() as int) =~= before.subrange(0, start.len() as int));
            }
            lemma_derived_extend(before, states@, n0, sig);
            assert forall|j: int| n0 <= j < states@.len() implies #[trigger] derived_at(states@, j, sig) by {
                if j >= before.len() {
                    assert(states@[j] == r);
                    assert(states@[pi] == start[pi]);
                    assert(pd_bc(states@[pi], c)[k as int].0 == states@[j]);
                }
            }
        }
        let ghost eb = entries@;
        entries.push((id, b));
        proof {
            assert(entries_view(entries@) =~= entries_view(eb).push((id, b@)));
            assert(pd.subrange(0, k + 1) =~= pd.subrange(0, k as int).push(pd[k as int]));
        }
    }
    proof {
        assert(pd.subrange(0, pd.len() as int) =~= pd);
    }
    entries
}

/// The transition row of the state numbered `k`, for the letters of `sig`.
fn build_row(states: &mut Vec<RE>, k: usize, sig: &Vec<char>, Ghost(init): Ghost<RE>, Ghost(n0): Ghost<int>) -> (row: TransRow)
    requires
        states_ok(init, old(states)@),
        k < old(states)@.len(),
        re_size(init) * re_size(init) <= max_bits(),
        derived(old(states)@, n0, sig@.to_set()),
    ensures
        states_ok(init, final(states)@),
        old(states)@.is_prefix_of(final(states)@),
        row_ok(final(states)@, old(states)@[k as int], row_map(row), sig@.to_set()),
        derived(final(states)@, n0, sig@.to_set()),
{
    let p = states[k].clone();
    let ghost start = states@;
    let mut row = row_new();
    let mut j: usize = 0;
    while j < sig.len()
        invariant
            0 <= j <= sig.len(),
            p == start[k as int],
            k < start.len(),
            closure(init).contains(p),
            re_size(init) * re_size(init) <= max_bits(),
            states_ok(init, states@),
            start.is_prefix_of(states@),
            row_ok(states@, p, row_map(row), sig@.subrange(0, j as int).to_set()),
            derived(states@, n0, sig@.to_set()),
        decreases sig.len() - j,
    {
        let c = sig[j];
        let ghost before = states@;
        let ghost row_before = row_map(row);
        proof {
            assert(states@[k as int] == start[k as int]);
            assert(sig@.contains(c));
        }
        let entries = transitions_of(states, &p, c, Ghost(init), Ghost(k as int), Ghost(n0), Ghost(sig@.to_set()));
        proof {
            lemma_row_ok_extend(before, states@, p, row_before, sig@.subrange(0, j as int).to_set());
            assert(start.is_prefix_of(states@)) by {
                assert(states@.subrange(0, start.len() as int) =~= before.subrange(0, start.len() as int));
            }
            assert(sig@.subrange(0, j + 1) =~= sig@.subrange(0, j as int).push(c));
            sig@.subrange(0, j as int).lemma_push_to_set_commute(c);
        }
        if entries.len() > 0 {
            let key = (c as u32) as u64;
            row_insert(&mut row, key, entries);
            proof {
                assert forall|d: char| #[trigger] row_map(row).contains_key(code(d)) == (sig@.subrange(0, j + 1).to_set().contains(d) && pd_bc(p, d).len() > 0) by {
                    if code(d) == key {
                        lemma_code_injective(d, c);
                    }
                }
                assert forall|d: char| #[trigger] row_map(row).contains_key(code(d)) implies entries_ok(states@, row_map(row)[code(d)], pd_bc(p, d)) by {
                    if code(d) == key {
                        lemma_code_injective(d, c);
                    }
                }
            }
        } else {
            proof {
                assert forall|d: char| #[trigger] row_map(row).contains_key(code(d)) == (sig@.subrange(0, j + 1).to_set().contains(d) && pd_bc(p, d).len() > 0) by {
                    if d == c {
                        assert(pd_bc(p, d).len() == 0);
                    }
                }
            }
        }
        j = j + 1;
    }
    proof {
        assert(sig@.subrange(0, sig@.len() as int) =~= sig@);
    }
    row
}

/// Builds the transition rows of all states, adding the states that the
/// partial derivatives reach, until every state has its row.
fn build_fix(states: Vec<RE>, trans: Trans, sig: &Vec<char>, Ghost(init): Ghost<RE>) -> (res: (Vec<RE>, Trans))
    requires
        states_ok(init, states@),
        trans@.len() <= states@.len(),
        re_size(init) * re_size(init) <= max_bits(),
        forall|i: int| 0 <= i < trans@.len() ==> row_ok(states@, states@[i], row_map(#[trigger] trans@[i]), sig@.to_set()),
    ensures
        states_ok(init, res.0@),
        states@.is_prefix_of(res.0@),
        res.1@.len() == res.0@.len(),
        forall|i: int| 0 <= i < res.1@.len() ==> row_ok(res.0@, res.0@[i], row_map(#[trigger] res.1@[i]), sig@.to_set()),
        derived(res.0@, states@.len() as int, sig@.to_set()),
        forall|q: RE| res.0@.contains(q) <==> reached(states@.to_set(), q, sig@.to_set()),
{
    let mut states = states;
    let mut trans = trans;
    let ghost start = states@;
    proof {
        assert(derived(states@, start.len() as int, sig@.to_set()));
        lemma_pds_finite(init);
        states@.unique_seq_to_set();
        assert(states@.to_set().subset_of(closure(init)));
        vstd::set_lib::lemma_len_subset(states@.to_set(), closure(init));
    }
    while trans.len() < states.len()
        invariant
            states_ok(init, states@),
            start.is_prefix_of(states@),
            trans@.len() <= states@.len(),
            states@.len() <= closure(init).len(),
            closure(init).finite(),
            re_size(init) * re_size(init) <= max_bits(),
            forall|i: int| 0 <= i < trans@.len() ==> row_ok(states@, states@[i], row_map(#[trigger] trans@[i]), sig@.to_set()),
            derived(states@, start.len() as int, sig@.to_set()),
        decreases closure(init).len() - trans@.len(),
    {
        let k = trans.len();
        let ghost before = states@;
        let row = build_row(&mut states, k, sig, Ghost(init), Ghost(start.len() as int));
        proof {
            assert forall|i: int| 0 <= i < trans@.len() implies row_ok(states@, states@[i], row_map(#[trigger] trans@[i]), sig@.to_set()) by {
                lemma_row_ok_extend(before, states@, before[i], row_map(trans@[i]), sig@.to_set());
                assert(states@[i] == before[i]);
            }
            assert(states@[k as int] == before[k as int]);
            assert(start.is_prefix_of(states@)) by {
                assert(states@.subrange(0, start.len() as int) =~= before.subrange(0, start.len() as int));
            }
            states@.unique_seq_to_set();
            assert(states@.to_set().subset_of(closure(init)));
            vstd::set_lib::lemma_len_subset(states@.to_set(), closure(init));
        }
        trans.push(row);
    }
    proof {
        lemma_rows_closed(states@, trans@, sig@.to_set());
        assert(states@.subrange(0, start.len() as int) =~= start);
        lemma_derived_closed_reached(states@, start.len() as int, sig@.to_set());
    }
    (states, trans)
}

proof fn lemma_rows_closed(st: Seq<RE>, rows: Seq<TransRow>, sig: Set<char>)
    requires
        rows.len() == st.len(),
        forall|i: int| 0 <= i < rows.len() ==> row_ok(st, st[i], row_map(#[trigger] rows[i]), sig),
    ensures
        closed_under(st, sig),
{
    assert forall|i: int, c: char, k: int|
        0 <= i < st.len() && sig.contains(c) && 0 <= k < pd_bc(st[i], c).len() implies st.contains(
            #[trigger] pd_bc(st[i], c)[k].0) by {
        let row = row_map(rows[i]);
        assert(row_ok(st, st[i], row, sig));
        assert(row.contains_key(code(c)));
        let e = row[code(c)];
        assert(entries_ok(st, e, pd_bc(st[i], c)));
        assert(st[e[k].0 as int] == pd_bc(st[i], c)[k].0);
    }
}

/// The table of final states: each nullable state with its empty-word code.
fn build_finals(states: &Vec<RE>, Ghost(init): Ghost<RE>) -> (fins: Finals)
    requires
        states_ok(init, states@),
        re_size(init) * re_size(init) <= max_bits(),
    ensures
        finals_ok(states@, finals_map(fins)),
{
    let mut fins = finals_new();
    let mut i: usize = 0;
    while i < states.len()
        invariant
            0 <= i <= states.len(),
            states_ok(init, states@),
            re_size(init) * re_size(init) <= max_bits(),
            forall|k: u64|
                #[trigger] finals_map(fins).contains_key(k) == (k < i && nullable_spec(states@[k as int])),
            forall|k: u64|
                #[trigger] finals_map(fins).contains_key(k) ==> finals_map(fins)[k] == emp_code_spec(states@[k as int]),
        decreases states.len() - i,
    {
        if states[i].nullable() {
            proof {
                lemma_closure_size(init, states@[i as int]);
            }
            let e = emp_code(&states[i]);
            finals_insert(&mut fins, i as u64, e);
        }
        i = i + 1;
    }
    fins
}

/// A transducer that recognises a regular expression: its states are the
/// partial derivatives of the expression, numbered from 0 (the expression
/// itself), and each transition carries the bits of the derivative taken.
pub struct Regex {
    pub trans: Trans,
    init: RE,
    finals: Finals,
    states: Ghost<Seq<RE>>,
}

impl Regex {
    /// The expression that the transducer recognises.
    pub closed spec fn init_re(&self) -> RE {
        self.init
    }

    /// The transducer is the one that `build_regex` builds for `init_re()`.
    pub closed spec fn wf(&self) -> bool {
        let st = self.states@;
        &&& states_ok(self.init, st)
        &&& derived(st, 1, chars_of(self.init))
        &&& st.len() == self.trans@.len()
        &&& re_size(self.init) * re_size(self.init) <= max_bits()
        &&& forall|i: int|
            0 <= i < st.len() ==> row_ok(st, st[i], row_map(#[trigger] self.trans@[i]), chars_of(self.init))
        &&& finals_ok(st, finals_map(self.finals))
    }

    /// The number of transitions, counted as (state, letter) pairs.
    pub closed spec fn transition_count(&self) -> int {
        trans_count(self.trans@)
    }

    /// `q` is one of the states of the transducer.
    pub closed spec fn has_state(&self, q: RE) -> bool {
        self.states@.contains(q)
    }

    /// The states of a well-formed transducer are exactly the expressions
    /// reached from `init_re()` by partial derivatives by its letters.
    pub proof fn lemma_states_reached(&self)
        requires
            self.wf(),
        ensures
            forall|q: RE| self.has_state(q) <==> reached(set![self.init_re()], q, chars_of(self.init_re())),
    {
        let st = self.states@;
        lemma_rows_closed(st, self.trans@, chars_of(self.init));
        assert(st.subrange(0, 1).to_set() =~= set![self.init]) by {
            let s1 = st.subrange(0, 1);
            assert(s1[0] == self.init);
            assert forall|q: RE| s1.to_set().contains(q) <==> q == self.init by {
                if q == self.init {
                    assert(s1.contains(q));
                }
            }
        }
        lemma_derived_closed_reached(st, 1, chars_of(self.init));
    }
}

/// The number of keys in all rows.
pub open spec fn trans_count(rows: Seq<TransRow>) -> int
    decreases rows.len(),
{
    if rows.len() == 0 {
        0
    } else {
        trans_count(rows.drop_last()) + row_map(rows.last()).dom().len()
    }
}

/// The number of transitions of the transducer, as (state, letter) pairs;
/// `usize::MAX` if there are more.
pub fn cnt(regex: &Regex) -> (res: usize)
    requires
        regex.wf(),
    ensures
        res == (if regex.transition_count() < usize::MAX { regex.transition_count() } else { usize::MAX as int }),
{
    let mut total: usize = 0;
    let mut i: usize = 0;
    while i < regex.trans.len()
        invariant
            0 <= i <= regex.trans@.len(),
            regex.wf(),
            total == (if trans_count(regex.trans@.subrange(0, i as int)) < usize::MAX {
                trans_count(regex.trans@.subrange(0, i as int))
            } else {
                usize::MAX as int
            }),
        decreases regex.trans@.len() - i,
    {
        proof {
            assert(row_ok(regex.states@, regex.states@[i as int], row_map(regex.trans@[i as int]), chars_of(regex.init)));
            assert(regex.trans@.subrange(0, i + 1).drop_last() =~= regex.trans@.subrange(0, i as int));
        }
        let n = row_len(&regex.trans[i]);
        total = total.saturating_add(n);
        i = i + 1;
    }
    proof {
        assert(regex.trans@.subrange(0, regex.trans@.len() as int) =~= regex.trans@);
    }
    total
}

/// The bits that matching a word of `len` letters against the transducer of `r`
/// may need stay within `max_bits()`; with `len == 0`, the transducer itself can
/// be built.
pub open spec fn fits_bits(r: RE, len: int) -> bool {
    (len + 1) * (re_size(r) * re_size(r)) <= max_bits()
}

/// Whether `fits_bits(r, len)` holds, computed without overflow.
pub fn within_bit_limit(r: &RE, len: usize) -> (res: bool)
    ensures
        res == fits_bits(*r, len as int),
{
    let n = r.size();
    let ghost k = re_size(*r);
    let l1 = len as u128 + 1;
    proof {
        if k > usize::MAX {
            assert(k * k > usize::MAX) by (nonlinear_arith)
                requires
                    k > usize::MAX,
            ;
            assert((len + 1) * (k * k) >= k * k) by (nonlinear_arith)
                requires
                    len >= 0,
                    k * k >= 0,
            ;
        }
    }
    match n.checked_mul(n) {
        None => {
            proof {
                assert(k * k > usize::MAX) by (nonlinear_arith)
                    requires
                        k >= n,
                        n * n > usize::MAX,
                        n >= 0,
                ;
                assert((len + 1) * (k * k) >= k * k) by (nonlinear_arith)
                    requires
                        len >= 0,
                        k * k >= 0,
                ;
            }
            false
        },
        Some(sq) => {
            proof {
                if k > usize::MAX {
                    assert(n == usize::MAX);
                    assert(n * n > usize::MAX) by (nonlinear_arith)
                        requires
                            n == usize::MAX,
                    ;
                }
                assert(k == n);
                assert(l1 * (sq as u128) <= 0x1_0000_0000_0000_0000 * 0xffff_ffff_ffff_ffff) by (nonlinear_arith)
                    requires
                        l1 <= 0x1_0000_0000_0000_0000,
                        sq <= 0xffff_ffff_ffff_ffff,
                ;
            }
            let total: u128 = l1 * (sq as u128);
            total <= (usize::MAX / 8) as u128
        },
    }
}

/// Builds the transducer of `r` when `fits_bits(r, 0)` holds; `None` otherwise.
pub fn checked_build_regex(r: &RE) -> (res: Option<Regex>)
    ensures
        res is Some <==> fits_bits(*r, 0),
        res matches Some(regex) ==> regex.wf() && regex.init_re() == *r
            && forall|q: RE| regex.has_state(q) <==> reached(set![*r], q, chars_of(*r)),
{
    if within_bit_limit(r, 0) {
        Some(build_regex(r))
    } else {
        None
    }
}

/// Builds the transducer of `r`: its states are `r` and the partial
/// derivatives reachable from it by the letters of `r`.
pub fn build_regex(r: &RE) -> (res: Regex)
    requires
        re_size(*r) * re_size(*r) <= max_bits(),
    ensures
        res.wf(),
        res.init_re() == *r,
        forall|q: RE| res.has_state(q) <==> reached(set![*r], q, chars_of(*r)),
{
    let sig = r.sigma();
    let mut init_states: Vec<RE> = Vec::new();
    init_states.push(r.clone());
    let ghost init = *r;
    proof {
        lemma_pds_finite(init);
        assert(closure(init).contains(init));
        assert(init_states@.no_duplicates());
    }
    let (all_states, trans) = build_fix(init_states, Vec::new(), &sig, Ghost(init));
    let fins = build_finals(&all_states, Ghost(init));
    proof {
        assert(all_states@[0] == init);
    }
    let res = Regex { trans: trans, init: r.clone(), finals: fins, states: Ghost(all_states@) };
    proof {
        res.lemma_states_reached();
    }
    res
}

/// `b` is the code of a parse tree of `init` that spells `s`.
pub open spec fn codes_parse(init: RE, s: Seq<char>, b: Seq<bool>) -> bool {
    exists|t: Tree| valid(t, init) && flat(t) == s && encode(t, init) == b
}

/// `t` is a parse tree of `init` that spells `w` followed by the word of
/// `t2`, and whose code is `b` followed by the code of `t2` as a tree of `p`.
pub open spec fn extends_to(init: RE, w: Seq<char>, p: RE, b: Seq<bool>, t2: Tree, t: Tree) -> bool {
    &&& valid(t, init)
    &&& flat(t) == w + flat(t2)
    &&& encode(t, init) == b + encode(t2, p)
}

/// Every parse tree of `p` extends, by the word `w` before it, to a parse tree
/// of `init` whose code is `b` followed by the code of the tree of `p`.
#[verifier::opaque]
pub open spec fn reaches(init: RE, w: Seq<char>, p: RE, b: Seq<bool>) -> bool {
    forall|t2: Tree|
        #[trigger] valid(t2, p) ==> exists|t: Tree| #[trigger] extends_to(init, w, p, b, t2, t)
}

/// Every parse tree of `init` whose word starts with `w` continues, after `w`,
/// with a word of one of the states numbered in `ids`.
#[verifier::opaque]
pub open spec fn covered(init: RE, w: Seq<char>, st: Seq<RE>, ids: Seq<u64>) -> bool {
    forall|t: Tree|
        #[trigger] valid(t, init) && w.is_prefix_of(flat(t)) ==> exists|j: int|
            0 <= j < ids.len() && ids[j] < st.len() && #[trigger] accepts(
                st[ids[j] as int],
                flat(t).subrange(w.len() as int, flat(t).len() as int),
            )
}

/// The state numbers of a list of paths.
pub open spec fn ids_of(v: Seq<(u64, Bits)>) -> Seq<u64> {
    v.map_values(|p: (u64, Bits)| p.0)
}

/// Some state numbered in `ids` holds `q`.
pub open spec fn holds_state(st: Seq<RE>, ids: Seq<u64>, q: RE) -> bool {
    exists|m: int| 0 <= m < ids.len() && ids[m] < st.len() && st[ids[m] as int] == q
}

/// Every partial derivative by `c` of a state numbered in `ids` is held by a
/// state numbered in `ids2`.
pub open spec fn step_closed(st: Seq<RE>, ids: Seq<u64>, ids2: Seq<u64>, c: char) -> bool {
    forall|j: int, k: int|
        #![trigger pd_bc(st[ids[j] as int], c)[k]]
        0 <= j < ids.len() && 0 <= k < pd_bc(st[ids[j] as int], c).len() ==> holds_state(
            st,
            ids2,
            pd_bc(st[ids[j] as int], c)[k].0,
        )
}

/// Each path leads to a state and carries the bits of the way there.
pub open spec fn paths_ok(init: RE, w: Seq<char>, st: Seq<RE>, v: Seq<(u64, Bits)>, bound: nat) -> bool {
    forall|j: int|
        0 <= j < v.len() ==> {
            &&& (#[trigger] v[j]).0 < st.len()
            &&& reaches(init, w, st[v[j].0 as int], v[j].1@)
            &&& v[j].1@.len() <= bound
        }
}

pub(crate) proof fn lemma_reaches_start(init: RE)
    ensures
        reaches(init, Seq::empty(), init, Seq::empty()),
{
    reveal(reaches);
    assert forall|t2: Tree| #[trigger] valid(t2, init) implies exists|t: Tree|
        #[trigger] extends_to(init, Seq::empty(), init, Seq::empty(), t2, t) by {
        assert(flat(t2) =~= Seq::<char>::empty() + flat(t2));
        assert(encode(t2, init) =~= Seq::<bool>::empty() + encode(t2, init));
        assert(extends_to(init, Seq::empty(), init, Seq::empty(), t2, t2));
    }
}

pub(crate) proof fn lemma_reaches_step(init: RE, w: Seq<char>, p: RE, b: Seq<bool>, c: char, k: int)
    requires
        reaches(init, w, p, b),
        0 <= k < pd_bc(p, c).len(),
    ensures
        reaches(init, w.push(c), pd_bc(p, c)[k].0, b + pd_bc(p, c)[k].1),
{
    reveal(reaches);
    let q = pd_bc(p, c)[k].0;
    let bq = pd_bc(p, c)[k].1;
    assert forall|t2: Tree| #[trigger] valid(t2, q) implies exists|t: Tree|
        #[trigger] extends_to(init, w.push(c), q, b + bq, t2, t) by {
        let t1 = lemma_pd_bc_sound(p, c, k, t2);
        assert(valid(t1, p));
        let t = choose|t: Tree| #[trigger] extends_to(init, w, p, b, t1, t);
        assert(flat(t) =~= w.push(c) + flat(t2));
        assert(encode(t, init) =~= (b + bq) + encode(t2, q));
        assert(extends_to(init, w.push(c), q, b + bq, t2, t));
    }
}

pub(crate) proof fn lemma_reaches_accept(init: RE, w: Seq<char>, p: RE, b: Seq<bool>) -> (t: Tree)
    requires
        reaches(init, w, p, b),
        nullable_spec(p),
    ensures
        valid(t, init),
        flat(t) == w,
        encode(t, init) == b + emp_code_spec(p),
{
    reveal(reaches);
    lemma_emp_tree(p);
    let t2 = emp_tree(p);
    assert(valid(t2, p));
    let t = choose|t: Tree| #[trigger] extends_to(init, w, p, b, t2, t);
    assert(w + flat(t2) =~= w);
    t
}

proof fn lemma_covered_start(init: RE, st: Seq<RE>)
    requires
        st.len() > 0,
        st[0] == init,
    ensures
        covered(init, Seq::empty(), st, seq![0u64]),
{
    reveal(covered);
    assert forall|t: Tree| #[trigger] valid(t, init) && Seq::<char>::empty().is_prefix_of(flat(t)) implies exists|j: int|
        0 <= j < seq![0u64].len() && seq![0u64][j] < st.len() && #[trigger] accepts(
            st[seq![0u64][j] as int],
            flat(t).subrange(0, flat(t).len() as int),
        ) by {
        assert(flat(t).subrange(0, flat(t).len() as int) =~= flat(t));
        assert(seq![0u64][0] == 0);
        assert(accepts(st[0], flat(t)));
    }
}

proof fn lemma_covered_step(init: RE, w: Seq<char>, st: Seq<RE>, ids: Seq<u64>, ids2: Seq<u64>, c: char)
    requires
        covered(init, w, st, ids),
        step_closed(st, ids, ids2, c),
    ensures
        covered(init, w.push(c), st, ids2),
{
    reveal(covered);
    let w2 = w.push(c);
    assert forall|t: Tree| #[trigger] valid(t, init) && w2.is_prefix_of(flat(t)) implies exists|j: int|
        0 <= j < ids2.len() && ids2[j] < st.len() && #[trigger] accepts(
            st[ids2[j] as int],
            flat(t).subrange(w2.len() as int, flat(t).len() as int),
        ) by {
        let f = flat(t);
        assert(w.is_prefix_of(f)) by {
            assert forall|i: int| 0 <= i < w.len() implies w[i] == f[i] by {
                assert(w2[i] == w[i]);
            }
        }
        let j = choose|j: int|
            0 <= j < ids.len() && ids[j] < st.len() && #[trigger] accepts(
                st[ids[j] as int],
                f.subrange(w.len() as int, f.len() as int),
            );
        let p = st[ids[j] as int];
        let rest = f.subrange(w.len() as int, f.len() as int);
        let t1 = choose|t1: Tree| valid(t1, p) && flat(t1) == rest;
        let rest2 = f.subrange(w2.len() as int, f.len() as int);
        assert(rest =~= seq![c] + rest2) by {
            assert(f[w.len() as int] == w2[w.len() as int]);
        }
        let (k, t3) = lemma_pd_bc_complete(p, c, t1, rest2);
        assert(pd_bc(st[ids[j] as int], c)[k].0 == pd_bc(p, c)[k].0);
        assert(holds_state(st, ids2, pd_bc(st[ids[j] as int], c)[k].0));
        let m = choose|m: int|
            0 <= m < ids2.len() && ids2[m] < st.len() && st[ids2[m] as int] == pd_bc(
                st[ids[j] as int],
                c,
            )[k].0;
        assert(accepts(st[ids2[m] as int], rest2));
    }
}

proof fn lemma_holds_state_grow(st: Seq<RE>, ids2: Seq<u64>, ids3: Seq<u64>, q: RE)
    requires
        holds_state(st, ids2, q),
        ids2.is_prefix_of(ids3),
    ensures
        holds_state(st, ids3, q),
{
    let m = choose|m: int| 0 <= m < ids2.len() && ids2[m] < st.len() && st[ids2[m] as int] == q;
    assert(ids3.subrange(0, ids2.len() as int)[m] == ids3[m]);
}

proof fn lemma_step_closed_grow(st: Seq<RE>, ids: Seq<u64>, ids2: Seq<u64>, ids3: Seq<u64>, c: char)
    requires
        step_closed(st, ids, ids2, c),
        ids2.is_prefix_of(ids3),
    ensures
        step_closed(st, ids, ids3, c),
{
    assert forall|j: int, k: int|
        #![trigger pd_bc(st[ids[j] as int], c)[k]]
        0 <= j < ids.len() && 0 <= k < pd_bc(st[ids[j] as int], c).len() implies holds_state(
            st,
            ids3,
            pd_bc(st[ids[j] as int], c)[k].0,
        ) by {
        lemma_holds_state_grow(st, ids2, ids3, pd_bc(st[ids[j] as int], c)[k].0);
    }
}

/// A letter's partial derivatives of a state of the transducer are the ones
/// listed in its row for that letter; when the row has no entry, there are none.
proof fn lemma_row_lookup(regex: &Regex, id: int, c: char)
    requires
        regex.wf(),
        0 <= id < regex.states@.len(),
    ensures
        row_map(regex.trans@[id]).contains_key(code(c)) ==> entries_ok(regex.states@, row_map(regex.trans@[id])[code(c)], pd_bc(regex.states@[id], c)),
        !row_map(regex.trans@[id]).contains_key(code(c)) ==> pd_bc(regex.states@[id], c).len() == 0,
{
    let st = regex.states@;
    assert(row_ok(st, st[id], row_map(regex.trans@[id]), chars_of(regex.init)));
    if !row_map(regex.trans@[id]).contains_key(code(c)) && !chars_of(regex.init).contains(c) {
        assert(closure(regex.init).contains(st[id]));
        if st[id] != regex.init {
            lemma_pds_letters(regex.init, st[id]);
        }
        lemma_pd_bc_letter(st[id], c);
    }
}

proof fn lemma_u64_concrete_eq()
    ensures
        obeys_concrete_eq::<u64>(),
{
    reveal(obeys_concrete_eq);
}

/// The paths of `v`, with each state number replaced by its state.
pub open spec fn state_paths(v: Seq<(u64, Bits)>, st: Seq<RE>) -> Seq<Path> {
    v.map_values(|p: (u64, Bits)| (st[p.0 as int], p.1@))
}

/// The views of a list of bit sequences.
pub open spec fn codes_view(v: Seq<Bits>) -> Seq<Seq<bool>> {
    v.map_values(|b: Bits| b@)
}

/// Numbering states without repetition commutes with keeping the first path to
/// each state.
proof fn lemma_state_paths_nub(v: Seq<(u64, Bits)>, st: Seq<RE>)
    requires
        st.no_duplicates(),
        forall|i: int| 0 <= i < v.len() ==> (#[trigger] v[i]).0 < st.len(),
    ensures
        state_paths(nub_fst(v), st) == nub_fst(state_paths(v, st)),
    decreases v.len(),
{
    if v.len() > 0 {
        let d = v.drop_last();
        lemma_state_paths_nub(d, st);
        assert(state_paths(v, st).drop_last() =~= state_paths(d, st));
        let prev = nub_fst(d);
        let sprev = nub_fst(state_paths(d, st));
        lemma_nub_fst_subset(d);
        assert(state_paths(v, st).last() == (st[v.last().0 as int], v.last().1@));
        if occurs_fst(prev, v.last().0) {
            let i = choose|i: int| 0 <= i < prev.len() && prev[i].0 == v.last().0;
            assert(state_paths(prev, st)[i].0 == st[v.last().0 as int]);
        } else {
            if occurs_fst(sprev, st[v.last().0 as int]) {
                let i = choose|i: int| 0 <= i < sprev.len() && sprev[i].0 == st[v.last().0 as int];
                assert(sprev[i] == state_paths(prev, st)[i]);
                let k = choose|k: int| 0 <= k < d.len() && prev[i] == d[k];
                assert(st[prev[i].0 as int] == st[v.last().0 as int]);
                assert(prev[i].0 == v.last().0);
            }
            assert(state_paths(prev.push(v.last()), st) =~= state_paths(prev, st).push((st[v.last().0 as int], v.last().1@)));
        }
    }
}

/// Keeps the first path to each state.
fn nub_vec_fst_u64(v: Vec<(u64, Bits)>, Ghost(init): Ghost<RE>, Ghost(w): Ghost<Seq<char>>, Ghost(st): Ghost<Seq<RE>>, Ghost(bound): Ghost<nat>) -> (res: Vec<(u64, Bits)>)
    requires
        paths_ok(init, w, st, v@, bound),
    ensures
        res@ == nub_fst(v@),
        paths_ok(init, w, st, res@, bound),
        forall|q: RE| holds_state(st, ids_of(v@), q) ==> holds_state(st, ids_of(res@), q),
{
    proof {
        lemma_u64_concrete_eq();
    }
    let ghost orig = v@;
    let res = nub_vec_fst(v);
    proof {
        lemma_nub_fst_subset(orig);
        lemma_nub_fst_covers(orig);
        assert forall|j: int| 0 <= j < res@.len() implies {
            &&& (#[trigger] res@[j]).0 < st.len()
            &&& reaches(init, w, st[res@[j].0 as int], res@[j].1@)
            &&& res@[j].1@.len() <= bound
        } by {
            let i = choose|i: int| 0 <= i < orig.len() && nub_fst(orig)[j] == orig[i];
        }
        assert forall|q: RE| holds_state(st, ids_of(orig), q) implies holds_state(st, ids_of(res@), q) by {
            let m = choose|m: int| 0 <= m < ids_of(orig).len() && ids_of(orig)[m] < st.len() && st[ids_of(orig)[m] as int] == q;
            assert(occurs_fst(nub_fst(orig), orig[m].0));
            let i = choose|i: int| 0 <= i < nub_fst(orig).len() && nub_fst(orig)[i].0 == orig[m].0;
            assert(ids_of(res@)[i] == res@[i].0);
        }
    }
    res
}

/// The characters of a string, in order.
pub(crate) fn string_chars(s: &String) -> (v: Vec<char>)
    ensures
        v@ == s@,
{
    let mut v: Vec<char> = Vec::new();
    for c in it: s.as_str().chars()
        invariant
            it.seq() == s@,
            v@ == it.seq().subrange(0, it.index() as int),
    {
        let ghost k = it.index();
        v.push(c);
        proof {
            assert(v@ =~= it.seq().subrange(0, k + 1));
        }
    }
    proof {
        assert(s@.subrange(0, s@.len() as int) =~= s@);
    }
    v
}

impl Regex {
    /// One letter of input: follows every path by the letter `x`, extending
    /// its bits with those of the transition taken.
    fn step(&self, rbc: &Vec<(u64, Bits)>, x: char, Ghost(w): Ghost<Seq<char>>) -> (tbc: Vec<(u64, Bits)>)
        requires
            self.wf(),
            paths_ok(self.init, w, self.states@, rbc@, w.len() * (re_size(self.init) * re_size(self.init))),
            (w.len() + 1) * (re_size(self.init) * re_size(self.init)) <= max_bits(),
        ensures
            paths_ok(self.init, w.push(x), self.states@, tbc@, (w.len() + 1) * (re_size(self.init) * re_size(self.init))),
            step_closed(self.states@, ids_of(rbc@), ids_of(tbc@), x),
            state_paths(tbc@, self.states@) == step_paths(state_paths(rbc@, self.states@), x),
    {
        let ghost st = self.states@;
        let ghost big = re_size(self.init) * re_size(self.init);
        let ghost bound = (w.len() + 1) * big;
        proof {
            assert(w.len() * big + big == bound) by (nonlinear_arith)
                requires bound == (w.len() + 1) * big;
        }
        let mut tbc: Vec<(u64, Bits)> = Vec::new();
        let ntrans = self.trans.len();
        let mut j: usize = 0;
        while j < rbc.len()
            invariant
                0 <= j <= rbc.len(),
                self.wf(),
                st == self.states@,
                ntrans == self.trans@.len(),
                big == re_size(self.init) * re_size(self.init),
                w.len() * big + big == bound,
                bound <= max_bits(),
                paths_ok(self.init, w, st, rbc@, w.len() * big),
                paths_ok(self.init, w.push(x), st, tbc@, bound),
                step_closed(st, ids_of(rbc@.subrange(0, j as int)), ids_of(tbc@), x),
                state_paths(tbc@, st) == step_paths(state_paths(rbc@.subrange(0, j as int), st), x),
            decreases rbc.len() - j,
        {
            let r = rbc[j].0;
            let ghost tbc0 = tbc@;
            proof {
                let pre = state_paths(rbc@.subrange(0, j + 1), st);
                assert(pre.drop_last() =~= state_paths(rbc@.subrange(0, j as int), st));
                assert(pre.last() == (st[r as int], rbc@[j as int].1@));
                assert(rbc@[j as int].0 < st.len());
                lemma_row_lookup(self, r as int, x);
                lemma_closure_size(self.init, st[r as int]);
                lemma_pd_bc_len(st[r as int], x);
            }
            let key = (x as u32) as u64;
            let row = &self.trans[r as usize];
            assert(*row == self.trans@[r as int]);
            match row_get(row, key) {
                None => {
                    proof {
                        assert(key == code(x));
                        assert(pd_bc(st[r as int], x).len() == 0);
                        assert(continue_path(pd_bc(st[r as int], x), rbc@[j as int].1@) =~= Seq::<Path>::empty());
                        assert(state_paths(tbc@, st) =~= step_paths(state_paths(rbc@.subrange(0, j + 1), st), x));
                        let ids_old = ids_of(rbc@.subrange(0, j as int));
                        let ids_new = ids_of(rbc@.subrange(0, j + 1));
                        assert forall|jj: int, kk: int|
                            #![trigger pd_bc(st[ids_new[jj] as int], x)[kk]]
                            0 <= jj < ids_new.len() && 0 <= kk < pd_bc(st[ids_new[jj] as int], x).len() implies holds_state(
                                st,
                                ids_of(tbc@),
                                pd_bc(st[ids_new[jj] as int], x)[kk].0,
                            ) by {
                            if jj < j {
                                assert(ids_new[jj] == ids_old[jj]);
                                assert(pd_bc(st[ids_old[jj] as int], x)[kk] == pd_bc(st[ids_new[jj] as int], x)[kk]);
                            } else {
                                assert(ids_new[jj] == r);
                            }
                        }
                    }
                },
                Some(tfs) => {
                    let ghost pd = pd_bc(st[r as int], x);
                    proof {
                        assert(key == code(x));
                    }
                    let mut k: usize = 0;
                    while k < tfs.len()
                        invariant
                            0 <= k <= tfs.len(),
                            self.wf(),
                            st == self.states@,
                            j < rbc.len(),
                            r == rbc@[j as int].0,
                            r < st.len(),
                            entries_ok(st, entries_view(tfs@), pd),
                            pd == pd_bc(st[r as int], x),
                            forall|i: int| 0 <= i < pd.len() ==> (#[trigger] pd[i]).1.len() <= big,
                            reaches(self.init, w, st[r as int], rbc@[j as int].1@),
                            rbc@[j as int].1@.len() <= w.len() * big,
                            w.len() * big + big == bound,
                            bound <= max_bits(),
                            paths_ok(self.init, w.push(x), st, tbc@, bound),
                            tbc0.is_prefix_of(tbc@),
                            tbc@.len() == tbc0.len() + k,
                            forall|i: int| 0 <= i < k ==> #[trigger] tbc@[tbc0.len() + i].0 == tfs@[i].0,
                            state_paths(tbc@, st) == state_paths(tbc0, st) + continue_path(pd.subrange(0, k as int), rbc@[j as int].1@),
                        decreases tfs.len() - k,
                    {
                        let t = tfs[k].0;
                        let bc1 = &tfs[k].1;
                        proof {
                            assert(entries_view(tfs@)[k as int] == (tfs@[k as int].0, tfs@[k as int].1@));
                            assert(bc1@ == pd[k as int].1);
                            assert(st[t as int] == pd[k as int].0);
                            lemma_reaches_step(self.init, w, st[r as int], rbc@[j as int].1@, x, k as int);
                        }
                        let mut b2 = rbc[j].1.copy();
                        b2.extend_from(bc1);
                        let ghost before = tbc@;
                        tbc.push((t, b2));
                        proof {
                            let ds = pd.subrange(0, k + 1);
                            assert(ds.drop_last() =~= pd.subrange(0, k as int));
                            assert(ds.last() == pd[k as int]);
                            assert(state_paths(tbc@, st) =~= state_paths(before, st).push((pd[k as int].0, rbc@[j as int].1@ + pd[k as int].1)));
                            assert forall|i: int| 0 <= i < tbc@.len() implies {
                                &&& (#[trigger] tbc@[i]).0 < st.len()
                                &&& reaches(self.init, w.push(x), st[tbc@[i].0 as int], tbc@[i].1@)
                                &&& tbc@[i].1@.len() <= bound
                            } by {
                                if i < before.len() {
                                    assert(tbc@[i] == before[i]);
                                }
                            }
                            assert(tbc0.is_prefix_of(tbc@)) by {
                                assert(tbc@.subrange(0, tbc0.len() as int) =~= before.subrange(0, tbc0.len() as int));
                            }
                            assert forall|i: int| 0 <= i < k + 1 implies #[trigger] tbc@[tbc0.len() + i].0 == tfs@[i].0 by {
                                if i < k {
                                    assert(tbc@[tbc0.len() + i] == before[tbc0.len() + i]);
                                }
                            }
                        }
                        k = k + 1;
                    }
                    proof {
                        assert(entries_view(tfs@).len() == tfs@.len());
                        assert(pd.subrange(0, pd.len() as int) =~= pd);
                        assert(state_paths(tbc@, st) =~= step_paths(state_paths(rbc@.subrange(0, j + 1), st), x));
                        let ids_old = ids_of(rbc@.subrange(0, j as int));
                        let ids_new = ids_of(rbc@.subrange(0, j + 1));
                        assert(ids_of(tbc0).is_prefix_of(ids_of(tbc@))) by {
                            assert(ids_of(tbc@).subrange(0, tbc0.len() as int) =~= ids_of(tbc0));
                        }
                        lemma_step_closed_grow(st, ids_old, ids_of(tbc0), ids_of(tbc@), x);
                        assert forall|jj: int, kk: int|
                            #![trigger pd_bc(st[ids_new[jj] as int], x)[kk]]
                            0 <= jj < ids_new.len() && 0 <= kk < pd_bc(st[ids_new[jj] as int], x).len() implies holds_state(
                                st,
                                ids_of(tbc@),
                                pd_bc(st[ids_new[jj] as int], x)[kk].0,
                            ) by {
                            if jj < j {
                                assert(ids_new[jj] == ids_old[jj]);
                                assert(pd_bc(st[ids_old[jj] as int], x)[kk] == pd_bc(st[ids_new[jj] as int], x)[kk]);
                            } else {
                                assert(ids_new[jj] == r);
                                let m = tbc0.len() + kk;
                                assert(row_map(self.trans@[r as int]).contains_key(code(x)));
                                assert(kk < tfs@.len());
                                assert(tbc@[tbc0.len() + kk].0 == tfs@[kk].0);
                                assert(ids_of(tbc@)[m] == tbc@[m].0);
                                assert(entries_view(tfs@)[kk] == (tfs@[kk].0, tfs@[kk].1@));
                                assert(st[tfs@[kk].0 as int] == pd[kk].0);
                                assert(st[ids_of(tbc@)[m] as int] == pd_bc(st[ids_new[jj] as int], x)[kk].0);
                            }
                        }
                    }
                },
            }
            j = j + 1;
        }
        proof {
            assert(rbc@.subrange(0, rbc@.len() as int) =~= rbc@);
        }
        tbc
    }
}

proof fn lemma_step_closed_keep(st: Seq<RE>, ids: Seq<u64>, ids2: Seq<u64>, ids3: Seq<u64>, x: char)
    requires
        step_closed(st, ids, ids2, x),
        forall|q: RE| holds_state(st, ids2, q) ==> holds_state(st, ids3, q),
    ensures
        step_closed(st, ids, ids3, x),
{
    assert forall|j: int, k: int|
        #![trigger pd_bc(st[ids[j] as int], x)[k]]
        0 <= j < ids.len() && 0 <= k < pd_bc(st[ids[j] as int], x).len() implies holds_state(
            st,
            ids3,
            pd_bc(st[ids[j] as int], x)[k].0,
        ) by {
        assert(holds_state(st, ids2, pd_bc(st[ids[j] as int], x)[k].0));
    }
}

/// When no path ends in a nullable state, the word is not in the language.
proof fn lemma_reject(init: RE, s: Seq<char>, st: Seq<RE>, rbc: Seq<(u64, Bits)>)
    requires
        covered(init, s, st, ids_of(rbc)),
        forall|j: int| 0 <= j < rbc.len() ==> !nullable_spec(#[trigger] st[rbc[j].0 as int]),
    ensures
        !accepts(init, s),
{
    reveal(covered);
    if accepts(init, s) {
        let t = choose|t: Tree| valid(t, init) && flat(t) == s;
        assert(s.is_prefix_of(flat(t))) by {
            assert(flat(t).subrange(0, s.len() as int) =~= s);
        }
        assert(valid(t, init) && s.is_prefix_of(flat(t)));
        let j = choose|j: int|
            0 <= j < ids_of(rbc).len() && ids_of(rbc)[j] < st.len() && #[trigger] accepts(
                st[ids_of(rbc)[j] as int],
                flat(t).subrange(s.len() as int, flat(t).len() as int),
            );
        let p = st[ids_of(rbc)[j] as int];
        let t2 = choose|t2: Tree| valid(t2, p) && flat(t2) == flat(t).subrange(s.len() as int, flat(t).len() as int);
        lemma_empty_tree_nullable(t2, p);
        assert(ids_of(rbc)[j] == rbc[j].0);
        assert(!nullable_spec(st[rbc[j].0 as int]));
    }
}

impl Regex {
    /// The end of the input: the bits of the last path that ends in a final
    /// state, followed by that state's empty-word code.
    fn accept(&self, rbc: &Vec<(u64, Bits)>, Ghost(w): Ghost<Seq<char>>) -> (res: Option<Bits>)
        requires
            self.wf(),
            paths_ok(self.init, w, self.states@, rbc@, w.len() * (re_size(self.init) * re_size(self.init))),
            (w.len() + 1) * (re_size(self.init) * re_size(self.init)) <= max_bits(),
        ensures
            res is Some ==> exists|t: Tree| valid(t, self.init) && flat(t) == w && encode(t, self.init) == res->0@,
            res is None ==> forall|j: int| 0 <= j < rbc@.len() ==> !nullable_spec(#[trigger] self.states@[rbc@[j].0 as int]),
            match res {
                Some(b) => final_codes(state_paths(rbc@, self.states@)).len() > 0 && b@ == final_codes(
                    state_paths(rbc@, self.states@),
                ).last(),
                None => final_codes(state_paths(rbc@, self.states@)).len() == 0,
            },
    {
        let ghost st = self.states@;
        let ghost big = re_size(self.init) * re_size(self.init);
        proof {
            assert(w.len() * big + big == (w.len() + 1) * big) by (nonlinear_arith);
        }
        let mut res: Option<Bits> = None;
        let mut j: usize = 0;
        while j < rbc.len()
            invariant
                0 <= j <= rbc.len(),
                self.wf(),
                st == self.states@,
                big == re_size(self.init) * re_size(self.init),
                w.len() * big + big <= max_bits(),
                paths_ok(self.init, w, st, rbc@, w.len() * big),
                res is Some ==> exists|t: Tree| valid(t, self.init) && flat(t) == w && encode(t, self.init) == res->0@,
                res is None ==> forall|i: int| 0 <= i < j ==> !nullable_spec(#[trigger] st[rbc@[i].0 as int]),
                match res {
                    Some(b) => final_codes(state_paths(rbc@, st).subrange(0, j as int)).len() > 0 && b@
                        == final_codes(state_paths(rbc@, st).subrange(0, j as int)).last(),
                    None => final_codes(state_paths(rbc@, st).subrange(0, j as int)).len() == 0,
                },
            decreases rbc.len() - j,
        {
            let r = rbc[j].0;
            proof {
                assert(rbc@[j as int].0 < st.len());
                assert(finals_ok(st, finals_map(self.finals)));
                let pre = state_paths(rbc@, st).subrange(0, j + 1);
                assert(pre.drop_last() =~= state_paths(rbc@, st).subrange(0, j as int));
                assert(pre.last() == (st[r as int], rbc@[j as int].1@));
            }
            match finals_get(&self.finals, r) {
                None => {
                    proof {
                        assert(!nullable_spec(st[r as int]));
                    }
                },
                Some(e) => {
                    proof {
                        assert(nullable_spec(st[r as int]));
                        assert(e@ == emp_code_spec(st[r as int]));
                        lemma_closure_size(self.init, st[r as int]);
                        crate::regex::pderiv::bits::lemma_emp_code_len(st[r as int]);
                    }
                    let mut b = rbc[j].1.copy();
                    b.extend_from(e);
                    proof {
                        let t = lemma_reaches_accept(self.init, w, st[r as int], rbc@[j as int].1@);
                        assert(valid(t, self.init) && flat(t) == w && encode(t, self.init) == b@);
                    }
                    res = Some(b);
                },
            }
            j = j + 1;
        }
        proof {
            assert(state_paths(rbc@, st).subrange(0, rbc@.len() as int) =~= state_paths(rbc@, st));
        }
        res
    }

    /// Matches `s` as `parse_regex` does when its bits fit (`Some`); `None`
    /// when `s` is too long for them.
    pub fn checked_parse_regex(&self, s: &String) -> (res: Option<Option<Bits>>)
        requires
            self.wf(),
        ensures
            res is Some <==> fits_bits(self.init_re(), s@.len() as int),
            res matches Some(r) ==> match r {
                Some(b) => final_codes(first_paths(self.init_re(), s@)).len() > 0 && b@ == final_codes(
                    first_paths(self.init_re(), s@),
                ).last(),
                None => final_codes(first_paths(self.init_re(), s@)).len() == 0,
            },
    {
        let n = string_chars(s).len();
        if within_bit_limit(&self.init, n) {
            Some(self.parse_regex(s))
        } else {
            None
        }
    }

    /// Matches the whole of `s` against the transducer; returns the bit code
    /// of a parse tree of `s` when there is one. Paths are followed letter by
    /// letter, keeping after each letter only the first path to each state; the
    /// code is that of the last path that ends in a final state.
    pub fn parse_regex(&self, s: &String) -> (res: Option<Bits>)
        requires
            self.wf(),
            (s@.len() + 1) * (re_size(self.init_re()) * re_size(self.init_re())) <= max_bits(),
        ensures
            match res {
                Some(b) => final_codes(first_paths(self.init_re(), s@)).len() > 0 && b@ == final_codes(
                    first_paths(self.init_re(), s@),
                ).last(),
                None => final_codes(first_paths(self.init_re(), s@)).len() == 0,
            },
            res is Some ==> exists|t: Tree|
                valid(t, self.init_re()) && flat(t) == s@ && encode(t, self.init_re()) == res->0@,
            res is None ==> !accepts(self.init_re(), s@),
    {
        let ghost st = self.states@;
        let ghost big = re_size(self.init) * re_size(self.init);
        let chars = string_chars(s);
        let mut rbc: Vec<(u64, Bits)> = Vec::new();
        rbc.push((0, Bits::new()));
        proof {
            lemma_reaches_start(self.init);
            lemma_covered_start(self.init, st);
            assert(ids_of(rbc@) =~= seq![0u64]);
            assert(chars@.subrange(0, 0) =~= Seq::<char>::empty());
            assert(0 * big == 0) by (nonlinear_arith);
            assert(st[0] == self.init);
            assert(state_paths(rbc@, st) =~= first_paths(self.init, chars@.subrange(0, 0)));
        }
        let mut i: usize = 0;
        while i < chars.len()
            invariant
                0 <= i <= chars.len(),
                chars@ == s@,
                state_paths(rbc@, st) == first_paths(self.init, chars@.subrange(0, i as int)),
                self.wf(),
                st == self.states@,
                big == re_size(self.init) * re_size(self.init),
                (chars@.len() + 1) * big <= max_bits(),
                paths_ok(self.init, chars@.subrange(0, i as int), st, rbc@, (i * big) as nat),
                covered(self.init, chars@.subrange(0, i as int), st, ids_of(rbc@)),
            decreases chars.len() - i,
        {
            let x = chars[i];
            let ghost w = chars@.subrange(0, i as int);
            proof {
                assert((i + 1) * big <= (chars@.len() + 1) * big) by (nonlinear_arith)
                    requires i < chars@.len(), big >= 0;
            }
            let tbc = self.step(&rbc, x, Ghost(w));
            let ghost tbc_v = tbc@;
            let next = nub_vec_fst_u64(tbc, Ghost(self.init), Ghost(w.push(x)), Ghost(st), Ghost(((w.len() + 1) * big) as nat));
            proof {
                assert(w.push(x) =~= chars@.subrange(0, i + 1));
                assert(w.push(x).drop_last() =~= w);
                lemma_state_paths_nub(tbc_v, st);
                lemma_step_closed_keep(st, ids_of(rbc@), ids_of(tbc@), ids_of(next@), x);
                lemma_covered_step(self.init, w, st, ids_of(rbc@), ids_of(next@), x);
            }
            rbc = next;
            i = i + 1;
        }
        proof {
            assert(chars@.subrange(0, chars@.len() as int) =~= s@);
            assert(chars@.len() * big + big == (chars@.len() + 1) * big) by (nonlinear_arith);
        }
        let res = self.accept(&rbc, Ghost(s@));
        proof {
            if res is None {
                lemma_reject(self.init, s@, st, rbc@);
            }
        }
        res
    }

    /// Follows every path through `s` from the initial state, without merging paths
    /// that reach the same state; returns, in the order of the paths, the bits of
    /// each path that ends in a final state followed by that state's empty-word code.
    pub(crate) fn go_all(&self, s: &String) -> (res: Vec<Bits>)
        requires
            self.wf(),
            (s@.len() + 1) * (re_size(self.init_re()) * re_size(self.init_re())) <= max_bits(),
        ensures
            codes_view(res@) == final_codes(all_paths(self.init_re(), s@)),
            forall|i: int| 0 <= i < res@.len() ==> codes_parse(self.init_re(), s@, (#[trigger] res@[i])@),
            res@.len() == 0 ==> !accepts(self.init_re(), s@),
    {
        let ghost st = self.states@;
        let ghost big = re_size(self.init) * re_size(self.init);
        let chars = string_chars(s);
        let mut rbc: Vec<(u64, Bits)> = Vec::new();
        rbc.push((0, Bits::new()));
        proof {
            lemma_reaches_start(self.init);
            lemma_covered_start(self.init, st);
            assert(ids_of(rbc@) =~= seq![0u64]);
            assert(chars@.subrange(0, 0) =~= Seq::<char>::empty());
            assert(0 * big == 0) by (nonlinear_arith);
            assert(st[0] == self.init);
            assert(state_paths(rbc@, st) =~= all_paths(self.init, chars@.subrange(0, 0)));
        }
        let mut i: usize = 0;
        while i < chars.len()
            invariant
                0 <= i <= chars.len(),
                chars@ == s@,
                state_paths(rbc@, st) == all_paths(self.init, chars@.subrange(0, i as int)),
                self.wf(),
                st == self.states@,
                big == re_size(self.init) * re_size(self.init),
                (chars@.len() + 1) * big <= max_bits(),
                paths_ok(self.init, chars@.subrange(0, i as int), st, rbc@, (i * big) as nat),
                covered(self.init, chars@.subrange(0, i as int), st, ids_of(rbc@)),
            decreases chars.len() - i,
        {
            let x = chars[i];
            let ghost w = chars@.subrange(0, i as int);
            proof {
                assert((i + 1) * big <= (chars@.len() + 1) * big) by (nonlinear_arith)
                    requires i < chars@.len(), big >= 0;
            }
            let tbc = self.step(&rbc, x, Ghost(w));
            proof {
                assert(w.push(x) =~= chars@.subrange(0, i + 1));
                assert(w.push(x).drop_last() =~= w);
                lemma_covered_step(self.init, w, st, ids_of(rbc@), ids_of(tbc@), x);
            }
            rbc = tbc;
            i = i + 1;
        }
        proof {
            assert(chars@.subrange(0, chars@.len() as int) =~= s@);
            assert(chars@.len() * big + big == (chars@.len() + 1) * big) by (nonlinear_arith);
        }
        let mut res: Vec<Bits> = Vec::new();
        let mut j: usize = 0;
        proof {
            assert(codes_view(res@) =~= final_codes(state_paths(rbc@, st).subrange(0, 0)));
        }
        while j < rbc.len()
            invariant
                0 <= j <= rbc.len(),
                self.wf(),
                st == self.states@,
                big == re_size(self.init) * re_size(self.init),
                s@.len() * big + big <= max_bits(),
                paths_ok(self.init, s@, st, rbc@, s@.len() * big),
                state_paths(rbc@, st) == all_paths(self.init, s@),
                codes_view(res@) == final_codes(state_paths(rbc@, st).subrange(0, j as int)),
                forall|m: int| 0 <= m < res@.len() ==> codes_parse(self.init, s@, (#[trigger] res@[m])@),
                res@.len() == 0 ==> forall|m: int| 0 <= m < j ==> !nullable_spec(#[trigger] st[rbc@[m].0 as int]),
            decreases rbc.len() - j,
        {
            let r = rbc[j].0;
            proof {
                assert(rbc@[j as int].0 < st.len());
                assert(finals_ok(st, finals_map(self.finals)));
                let pre = state_paths(rbc@, st).subrange(0, j + 1);
                assert(pre.drop_last() =~= state_paths(rbc@, st).subrange(0, j as int));
                assert(pre.last() == (st[r as int], rbc@[j as int].1@));
            }
            match finals_get(&self.finals, r) {
                None => {
                    proof {
                        assert(!nullable_spec(st[r as int]));
                    }
                },
                Some(e) => {
                    proof {
                        lemma_closure_size(self.init, st[r as int]);
                        crate::regex::pderiv::bits::lemma_emp_code_len(st[r as int]);
                    }
                    let mut b = rbc[j].1.copy();
                    b.extend_from(e);
                    let ghost bits = b@;
                    let ghost before = res@;
                    res.push(b);
                    proof {
                        assert(codes_view(res@) =~= codes_view(before).push(bits));
                        let t0 = lemma_reaches_accept(self.init, s@, st[r as int], rbc@[j as int].1@);
                        assert(encode(t0, self.init) == bits);
                        assert forall|m: int| 0 <= m < res@.len() implies codes_parse(self.init, s@, (#[trigger] res@[m])@) by {
                            if m < before.len() {
                                assert(res@[m] == before[m]);
                            } else {
                                assert(res@[m]@ == bits);
                                assert(valid(t0, self.init) && flat(t0) == s@ && encode(t0, self.init) == res@[m]@);
                            }
                        }
                    }
                },
            }
            j = j + 1;
        }
        proof {
            if res@.len() == 0 {
                lemma_reject(self.init, s@, st, rbc@);
            }
            assert(state_paths(rbc@, st).subrange(0, rbc@.len() as int) =~= state_paths(rbc@, st));
        }
        res
    }

    /// Matches the whole of `s` against the transducer; returns a parse tree
    /// of `s` when there is one.
    pub fn parse_decode_regex(&self, s: &String) -> (res: Option<U>)
        requires
            self.wf(),
            (s@.len() + 1) * (re_size(self.init_re()) * re_size(self.init_re())) <= max_bits(),
        ensures
            res is Some <==> accepts(self.init_re(), s@),
            res is Some ==> valid(res->0@, self.init_re()) && flat(res->0@) == s@,
            res is Some ==> encode(res->0@, self.init_re()) == final_codes(first_paths(self.init_re(), s@)).last(),
    {
        match self.parse_regex(s) {
            None => None,
            Some(bv) => {
                let ghost t = choose|t: Tree|
                    valid(t, self.init) && flat(t) == s@ && encode(t, self.init) == bv@;
                proof {
                    assert(valid(t, self.init) && encode(t, self.init) == bv@ && flat(t).len() == s@.len());
                }
                let u = decode(&self.init, &bv, s);
                proof {
                    assert(bv@.subrange(0, bv@.len() as int) =~= bv@);
                    lemma_code_unique(u@, t, self.init, bv@, 0);
                }
                Some(u)
            },
        }
    }
}

} // verus!
