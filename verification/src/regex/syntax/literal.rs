use vstd::prelude::*;
use crate::pattern_re;
use crate::regex::re::RE;
use crate::regex::pderiv::parsetree::{Tree, valid, flat, accepts};
use crate::regex::syntax::ext::Syn;
use crate::regex::syntax::grammar::{
    sp_esc, sp_exp, sp_ere, sp_ere_rest, sp_branch, sp_branch_rest, sp_post, sp_anchor, sp_group,
    sp_charclass, sp_dot, sp_char, Stop,
};
use crate::regex::syntax::parser::PostAnchorOrAtom;
use crate::regex::syntax::desugar::{
    desugar, simp, simps, desugar_all, join_concat, lemma_simps, lemma_desugar_all, Anchor,
};
use crate::regex::syntax::laws::{reserved, char_item, no_suffix_at, lemma_plain_char_exp};

verus! {

/// What a backslash followed by `c`, which is not a digit, stands for: `n` a
/// newline, `t` a tab, `r` a carriage return, and any other character itself.
pub open spec fn escape_meaning(c: char) -> char {
    if c == 'n' {
        '\n'
    } else if c == 't' {
        '\t'
    } else if c == 'r' {
        '\r'
    } else {
        c
    }
}

/// The word that `p`, from position `i` on, spells when it is literal text: each
/// character that is not reserved stands for itself, and a backslash followed by a
/// character that is not a digit stands for that escape's meaning. `None` where
/// `p` holds anything else.
pub open spec fn literal_word(p: Seq<char>, i: int) -> Option<Seq<char>>
    decreases p.len() - i,
{
    if i < 0 || i > p.len() {
        None
    } else if i == p.len() {
        Some(Seq::empty())
    } else if p[i] == '\\' {
        if i + 1 < p.len() && !('0' <= p[i + 1] <= '9') {
            match literal_word(p, i + 2) {
                Some(w) => Some(seq![escape_meaning(p[i + 1])] + w),
                None => None,
            }
        } else {
            None
        }
    } else if !reserved(p[i]) {
        match literal_word(p, i + 1) {
            Some(w) => Some(seq![p[i]] + w),
            None => None,
        }
    } else {
        None
    }
}

/// The escape expression of `c`.
spec fn escape_item(c: char) -> Syn {
    Syn::Escape(c)
}

/// The expressions that literal text from position `i` on parses into.
spec fn literal_items(p: Seq<char>, i: int) -> Seq<Syn>
    decreases p.len() - i,
{
    if i < 0 || i >= p.len() {
        Seq::empty()
    } else if p[i] == '\\' {
        if i + 1 < p.len() {
            seq![escape_item(escape_meaning(p[i + 1]))] + literal_items(p, i + 2)
        } else {
            Seq::empty()
        }
    } else {
        seq![char_item(p[i])] + literal_items(p, i + 1)
    }
}

/// The literal expression of `c`.
spec fn lit(c: char) -> RE {
    RE::Lit(c)
}

/// The parse tree of the letter `c`.
spec fn chr(c: char) -> Tree {
    Tree::Chr(c)
}

/// `w` in sequence, letter by letter, nested to the right.
spec fn lit_seq(w: Seq<char>) -> RE
    decreases w.len(),
{
    if w.len() == 0 {
        RE::Eps
    } else if w.len() == 1 {
        lit(w[0])
    } else {
        RE::Sequence(Box::new(lit(w[0])), Box::new(lit_seq(w.subrange(1, w.len() as int))))
    }
}

/// Literal text never has a suffix after a character it takes.
proof fn lemma_literal_no_suffix(p: Seq<char>, i: int)
    requires
        literal_word(p, i) is Some,
    ensures
        no_suffix_at(p, i),
{
    if 0 <= i < p.len() && p[i] != '\\' {
        assert(!reserved(p[i]));
    }
}

/// The expression at position `i` of literal text.
proof fn lemma_literal_exp(p: Seq<char>, i: int)
    requires
        0 <= i < p.len(),
        literal_word(p, i) is Some,
    ensures
        p[i] == '\\' ==> i + 1 < p.len() && literal_word(p, i + 2) is Some
            && sp_exp(p, i) == Ok::<(Syn, int), Stop>((escape_item(escape_meaning(p[i + 1])), i + 2)),
        p[i] != '\\' ==> literal_word(p, i + 1) is Some
            && sp_exp(p, i) == Ok::<(Syn, int), Stop>((char_item(p[i]), i + 1)),
{
    if p[i] == '\\' {
        lemma_literal_no_suffix(p, i + 2);
        assert(sp_anchor(p, i) == Err::<(Syn, int), Stop>(Stop::Unmatched));
        assert(sp_group(p, i) == Err::<(Syn, int), Stop>(Stop::Unmatched));
        assert(sp_charclass(p, i) == Err::<(Syn, int), Stop>(Stop::Unmatched));
        assert(sp_dot(p, i) == Err::<(Syn, int), Stop>(Stop::Unmatched));
        assert(sp_esc(p, i) == Ok::<(char, int), Stop>((escape_meaning(p[i + 1]), i + 2)));
        assert(sp_post(p, i + 2) == (PostAnchorOrAtom::Nothing, i + 2));
    } else {
        assert(!reserved(p[i]));
        lemma_literal_no_suffix(p, i + 1);
        lemma_plain_char_exp(p, i);
    }
}

/// The branch parser takes all of literal text from position `i` on.
proof fn lemma_literal_branch_rest(p: Seq<char>, i: int, acc: Seq<Syn>)
    requires
        0 <= i <= p.len(),
        literal_word(p, i) is Some,
    ensures
        sp_branch_rest(p, i, acc) == Ok::<(Seq<Syn>, int), Stop>((acc + literal_items(p, i), p.len() as int)),
    decreases p.len() - i,
{
    if i == p.len() {
        assert(sp_anchor(p, i) == Err::<(Syn, int), Stop>(Stop::Unmatched));
        assert(sp_group(p, i) == Err::<(Syn, int), Stop>(Stop::Unmatched));
        assert(sp_charclass(p, i) == Err::<(Syn, int), Stop>(Stop::Unmatched));
        assert(sp_dot(p, i) == Err::<(Syn, int), Stop>(Stop::Unmatched));
        assert(sp_esc(p, i) == Err::<(char, int), Stop>(Stop::Unmatched));
        assert(sp_char(p, i) == Err::<(Syn, int), Stop>(Stop::Unmatched));
        assert(sp_exp(p, i) == Err::<(Syn, int), Stop>(Stop::Unmatched));
        assert(acc + literal_items(p, i) =~= acc);
    } else {
        lemma_literal_exp(p, i);
        if p[i] == '\\' {
            let x = escape_item(escape_meaning(p[i + 1]));
            lemma_literal_branch_rest(p, i + 2, acc.push(x));
            assert(acc.push(x) + literal_items(p, i + 2) =~= acc + (seq![x] + literal_items(p, i + 2)));
        } else {
            let x = char_item(p[i]);
            lemma_literal_branch_rest(p, i + 1, acc.push(x));
            assert(acc.push(x) + literal_items(p, i + 1) =~= acc + (seq![x] + literal_items(p, i + 1)));
        }
    }
}

/// Non-empty literal text parses whole, as one branch of its items.
proof fn lemma_literal_parse(p: Seq<char>)
    requires
        p.len() > 0,
        literal_word(p, 0) is Some,
    ensures
        sp_ere(p, 0) == Ok::<(Syn, int), Stop>((Syn::Or(seq![Syn::Concat(literal_items(p, 0))]), p.len() as int)),
{
    lemma_literal_exp(p, 0);
    let items = literal_items(p, 0);
    if p[0] == '\\' {
        let x = escape_item(escape_meaning(p[1]));
        lemma_literal_branch_rest(p, 2, seq![x]);
        assert(seq![x] + literal_items(p, 2) == items);
    } else {
        let x = char_item(p[0]);
        lemma_literal_branch_rest(p, 1, seq![x]);
        assert(seq![x] + literal_items(p, 1) == items);
    }
    assert(sp_branch(p, 0) == Ok::<(Syn, int), Stop>((Syn::Concat(items), p.len() as int)));
    assert(sp_ere_rest(p, p.len() as int, seq![Syn::Concat(items)]) == Ok::<(Seq<Syn>, int), Stop>(
        (seq![Syn::Concat(items)], p.len() as int),
    ));
}

/// Each item of literal text is a letter of its word: it stays as it is when
/// simplified and desugars to that letter.
proof fn lemma_literal_items_word(p: Seq<char>, i: int)
    requires
        0 <= i <= p.len(),
        literal_word(p, i) is Some,
    ensures
        literal_items(p, i).len() == literal_word(p, i)->Some_0.len(),
        forall|k: int|
            0 <= k < literal_items(p, i).len() ==> simp(#[trigger] literal_items(p, i)[k]) == literal_items(p, i)[k]
                && desugar(literal_items(p, i)[k]) == Ok::<RE, Anchor>(RE::Lit(literal_word(p, i)->Some_0[k])),
    decreases p.len() - i,
{
    if i < p.len() {
        let j = if p[i] == '\\' { i + 2 } else { i + 1 };
        lemma_literal_items_word(p, j);
        let it = literal_items(p, i);
        let w = literal_word(p, i)->Some_0;
        let it2 = literal_items(p, j);
        let w2 = literal_word(p, j)->Some_0;
        let x = if p[i] == '\\' { escape_item(escape_meaning(p[i + 1])) } else { char_item(p[i]) };
        let c = if p[i] == '\\' { escape_meaning(p[i + 1]) } else { p[i] };
        assert(it == seq![x] + it2);
        assert(w == seq![c] + w2);
        assert(simp(x) == x && desugar(x) == Ok::<RE, Anchor>(RE::Lit(c)));
        assert forall|k: int| 0 <= k < it.len() implies simp(#[trigger] it[k]) == it[k]
            && desugar(it[k]) == Ok::<RE, Anchor>(RE::Lit(w[k])) by {
            if k > 0 {
                assert(it[k] == it2[k - 1]);
                assert(w[k] == w2[k - 1]);
            }
        }
    }
}

/// Parts that each desugar to a letter of `w` join into `w` letter by letter.
proof fn lemma_join_letters(ds: Seq<Syn>, w: Seq<char>)
    requires
        ds.len() == w.len(),
        forall|k: int| 0 <= k < ds.len() ==> desugar(#[trigger] ds[k]) == Ok::<RE, Anchor>(RE::Lit(w[k])),
    ensures
        join_concat(desugar_all(ds)) == lit_seq(w),
    decreases ds.len(),
{
    lemma_desugar_all(ds);
    if ds.len() > 0 {
        let rest = ds.subrange(1, ds.len() as int);
        let wr = w.subrange(1, w.len() as int);
        assert forall|k: int| 0 <= k < rest.len() implies desugar(#[trigger] rest[k]) == Ok::<RE, Anchor>(RE::Lit(wr[k])) by {
            assert(rest[k] == ds[k + 1]);
        }
        lemma_join_letters(rest, wr);
        let rs = desugar_all(ds);
        assert(rs.subrange(1, rs.len() as int) == desugar_all(rest));
        assert(rs[0] == Ok::<RE, Anchor>(RE::Lit(w[0])));
        if ds.len() == 1 {
            assert(rest.len() == 0);
            assert(join_concat(desugar_all(rest)) == RE::Eps);
        } else {
            assert(lit_seq(wr) != RE::Eps);
        }
    }
}

/// `lit_seq(w)` accepts `w` and nothing else.
proof fn lemma_lit_seq_accepts(w: Seq<char>, v: Seq<char>)
    ensures
        accepts(lit_seq(w), v) <==> v == w,
    decreases w.len(),
{
    if w.len() == 0 {
        assert(valid(Tree::Nil, RE::Eps) && flat(Tree::Nil) =~= w);
        if accepts(lit_seq(w), v) {
            let t = choose|t: Tree| valid(t, RE::Eps) && flat(t) == v;
            match t {
                Tree::Nil => { assert(v =~= w); },
                _ => {},
            }
        }
    } else if w.len() == 1 {
        let t = chr(w[0]);
        assert(valid(t, lit(w[0])) && flat(t) =~= w);
        if accepts(lit_seq(w), v) {
            let t = choose|t: Tree| valid(t, lit(w[0])) && flat(t) == v;
            match t {
                Tree::Chr(c) => { assert(v =~= w); },
                _ => {},
            }
        }
    } else {
        let wr = w.subrange(1, w.len() as int);
        let e = lit_seq(w);
        assert(e == RE::Sequence(Box::new(lit(w[0])), Box::new(lit_seq(wr))));
        lemma_lit_seq_accepts(wr, wr);
        if v == w {
            let t2 = choose|t: Tree| valid(t, lit_seq(wr)) && flat(t) == wr;
            let t = Tree::Pair(Box::new(chr(w[0])), Box::new(t2));
            assert(valid(chr(w[0]), lit(w[0])));
            assert(valid(t, e));
            assert(flat(chr(w[0])).len() == 1 && flat(chr(w[0]))[0] == w[0]);
            assert(flat(t) == flat(chr(w[0])) + wr);
            assert forall|k: int| 0 <= k < w.len() implies flat(t)[k] == w[k] by {
                if k > 0 {
                    assert(wr[k - 1] == w[k]);
                }
            }
            assert(flat(t) =~= w);
        }
        if accepts(e, v) {
            let t = choose|t: Tree| valid(t, e) && flat(t) == v;
            match t {
                Tree::Pair(a, b) => {
                    assert(valid(*a, lit(w[0])) && valid(*b, lit_seq(wr)));
                    match *a {
                        Tree::Chr(c) => {
                            assert(lit(w[0]) == RE::Lit(c));
                            assert(c == w[0]);
                        },
                        _ => {},
                    }
                    assert(flat(*a).len() == 1 && flat(*a)[0] == w[0]);
                    lemma_lit_seq_accepts(wr, flat(*b));
                    assert(flat(*b) == wr);
                    assert(v == flat(*a) + flat(*b));
                    assert forall|k: int| 0 <= k < w.len() implies v[k] == w[k] by {
                        if k > 0 {
                            assert(wr[k - 1] == w[k]);
                        }
                    }
                    assert(v =~= w);
                },
                _ => {},
            }
        }
    }
}

/// A non-empty pattern of literal text stands for exactly the word it spells: each
/// character that is not reserved for itself, and each backslash followed by a
/// character that is not a digit for that escape (`\n` a newline, `\t` a tab, `\r`
/// a carriage return, any other character itself).
pub proof fn lemma_literal_pattern(p: Seq<char>, v: Seq<char>)
    requires
        p.len() > 0,
        literal_word(p, 0) is Some,
    ensures
        pattern_re(p) is Ok,
        accepts(pattern_re(p)->Ok_0, v) <==> v == literal_word(p, 0)->Some_0,
{
    let w = literal_word(p, 0)->Some_0;
    lemma_literal_parse(p);
    lemma_literal_items_word(p, 0);
    let items = literal_items(p, 0);
    let x = Syn::Or(seq![Syn::Concat(items)]);
    assert(simp(x) == simp(Syn::Concat(items)));
    if items.len() == 1 {
        assert(simp(Syn::Concat(items)) == items[0]);
        assert(desugar(items[0]) == Ok::<RE, Anchor>(RE::Lit(w[0])));
        assert(lit_seq(w) == lit(w[0]));
    } else {
        lemma_simps(items);
        assert(simps(items) =~= items);
        lemma_join_letters(items, w);
        assert(desugar(Syn::Concat(items)) == Ok::<RE, Anchor>(lit_seq(w)));
    }
    assert(pattern_re(p) == Ok::<RE, Seq<char>>(lit_seq(w)));
    lemma_lit_seq_accepts(w, v);
}

} // verus!
