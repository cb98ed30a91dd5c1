use vstd::prelude::*;
use crate::regex::syntax::ext::Syn;
use crate::regex::syntax::grammar::{
    sp_esc, sp_exp, sp_atom, sp_ere, sp_ere_rest, sp_branch, sp_branch_rest, sp_post, sp_char,
    sp_anchor, sp_group, sp_charclass, sp_dot, Stop, sp_enum, sp_enum_items, sp_one_enum, sp_range,
    sp_char_set, sp_enum_char, insert_sorted, add_all, sp_bound_spec, digits_end, digits_value,
};
use crate::regex::syntax::ext::ascending;
use crate::regex::syntax::parser::PostAnchorOrAtom;
use crate::regex::syntax::desugar::{
    desugar, concat_words, rep_seq, opt_tail, prefix_seq, or_chars, ascii_chars, Anchor, join_or, join_concat,
    desugar_all, lemma_desugar_all,
};
use crate::regex::re::RE;
use crate::regex::pderiv::parsetree::{Tree, valid, valid_list, flat, flat_list, accepts};

verus! {

/// The characters that a pattern does not take as themselves: `^ . [ $ ( ) | * + ? { \`.
pub open spec fn reserved(c: char) -> bool {
    c == '^' || c == '.' || c == '[' || c == '$' || c == '(' || c == ')' || c == '|' || c == '*'
        || c == '+' || c == '?' || c == '{' || c == '\\'
}

/// Nothing at position `i` of `s` starts a suffix `*`, `+`, `?` or `{`.
pub open spec fn no_suffix_at(s: Seq<char>, i: int) -> bool {
    !(0 <= i < s.len() && (s[i] == '*' || s[i] == '+' || s[i] == '?' || s[i] == '{'))
}

/// After a backslash, `n` stands for a newline, `t` for a tab and `r` for a carriage
/// return; the escape takes two characters, and with no suffix after it the
/// expression there is that escaped character.
pub proof fn lemma_control_escapes(s: Seq<char>, i: int)
    requires
        0 <= i,
        i + 1 < s.len(),
        s[i] == '\\',
        s[i + 1] == 'n' || s[i + 1] == 't' || s[i + 1] == 'r',
    ensures
        s[i + 1] == 'n' ==> sp_esc(s, i) == Ok::<(char, int), Stop>(('\n', i + 2)),
        s[i + 1] == 't' ==> sp_esc(s, i) == Ok::<(char, int), Stop>(('\t', i + 2)),
        s[i + 1] == 'r' ==> sp_esc(s, i) == Ok::<(char, int), Stop>(('\r', i + 2)),
        no_suffix_at(s, i + 2) && s[i + 1] == 'n' ==> sp_exp(s, i) == Ok::<(Syn, int), Stop>((Syn::Escape('\n'), i + 2)),
        no_suffix_at(s, i + 2) && s[i + 1] == 't' ==> sp_exp(s, i) == Ok::<(Syn, int), Stop>((Syn::Escape('\t'), i + 2)),
        no_suffix_at(s, i + 2) && s[i + 1] == 'r' ==> sp_exp(s, i) == Ok::<(Syn, int), Stop>((Syn::Escape('\r'), i + 2)),
{
    assert(sp_anchor(s, i) == Err::<(Syn, int), Stop>(Stop::Unmatched));
    assert(sp_group(s, i) == Err::<(Syn, int), Stop>(Stop::Unmatched));
    assert(sp_charclass(s, i) == Err::<(Syn, int), Stop>(Stop::Unmatched));
    assert(sp_dot(s, i) == Err::<(Syn, int), Stop>(Stop::Unmatched));
    if no_suffix_at(s, i + 2) {
        assert(sp_post(s, i + 2) == (PostAnchorOrAtom::Nothing, i + 2));
    }
}

/// A character that is not reserved, with no suffix after it, is an expression that
/// stands for itself and takes one character.
pub proof fn lemma_plain_char_exp(s: Seq<char>, i: int)
    requires
        0 <= i < s.len(),
        !reserved(s[i]),
        no_suffix_at(s, i + 1),
    ensures
        sp_exp(s, i) == Ok::<(Syn, int), Stop>((Syn::Char(s[i]), i + 1)),
{
    assert(sp_anchor(s, i) == Err::<(Syn, int), Stop>(Stop::Unmatched));
    assert(sp_group(s, i) == Err::<(Syn, int), Stop>(Stop::Unmatched));
    assert(sp_charclass(s, i) == Err::<(Syn, int), Stop>(Stop::Unmatched));
    assert(sp_dot(s, i) == Err::<(Syn, int), Stop>(Stop::Unmatched));
    assert(sp_esc(s, i) == Err::<(char, int), Stop>(Stop::Unmatched));
    assert(sp_char(s, i) == Ok::<(Syn, int), Stop>((Syn::Char(s[i]), i + 1)));
    assert(sp_post(s, i + 1) == (PostAnchorOrAtom::Nothing, i + 1));
}

/// An atom is a plain character only where the pattern holds that character, and it
/// is not a reserved one.
pub proof fn lemma_char_atom_not_reserved(s: Seq<char>, i: int)
    ensures
        sp_atom(s, i) matches Ok((Syn::Char(c), j)) ==> 0 <= i < s.len() && s[i] == c && !reserved(c) && j == i + 1,
{
    if at_open(s, i) {
        let r = sp_group(s, i);
        if r is Ok {
            lemma_group_not_char(s, i);
        }
    }
}

spec fn at_open(s: Seq<char>, i: int) -> bool {
    0 <= i < s.len() && s[i] == '('
}

proof fn lemma_group_not_char(s: Seq<char>, i: int)
    ensures
        !(sp_group(s, i) matches Ok((Syn::Char(_), _))),
{
    if 0 <= i < s.len() && s[i] == '(' {
        if 0 <= i + 3 <= s.len() {
            assert(!(sp_ere(s, i + 3) matches Ok((Syn::Char(_), _))));
        }
        assert(!(sp_ere(s, i + 1) matches Ok((Syn::Char(_), _))));
    }
}

/// The plain-character expression of `c`.
pub open spec fn char_item(c: char) -> Syn {
    Syn::Char(c)
}

/// Each character of `s`, as a plain-character expression, in order.
pub open spec fn plain_items(s: Seq<char>) -> Seq<Syn> {
    Seq::new(s.len(), |k: int| char_item(s[k]))
}

/// Taking the first character off a text takes the first item off its items.
proof fn lemma_plain_items_first(s: Seq<char>, i: int)
    requires
        0 <= i < s.len(),
    ensures
        plain_items(s.subrange(i, s.len() as int)) == seq![char_item(s[i])] + plain_items(s.subrange(i + 1, s.len() as int)),
{
    let a = seq![char_item(s[i])] + plain_items(s.subrange(i + 1, s.len() as int));
    let b = plain_items(s.subrange(i, s.len() as int));
    assert(a.len() == b.len());
    assert forall|k: int| 0 <= k < a.len() implies a[k] == b[k] by {
        if k > 0 {
            assert(s.subrange(i + 1, s.len() as int)[k - 1] == s[i + k]);
            assert(s.subrange(i, s.len() as int)[k] == s[i + k]);
        } else {
            assert(s.subrange(i, s.len() as int)[0] == s[i]);
        }
    }
    assert(a =~= b);
}

/// The branch parser, from position `i` of a text of characters that are not
/// reserved, takes all of the rest, each character as itself.
proof fn lemma_plain_branch_rest(s: Seq<char>, i: int, acc: Seq<Syn>)
    requires
        0 <= i <= s.len(),
        forall|k: int| 0 <= k < s.len() ==> !reserved(#[trigger] s[k]),
    ensures
        sp_branch_rest(s, i, acc) == Ok::<(Seq<Syn>, int), Stop>(
            (acc + plain_items(s.subrange(i, s.len() as int)), s.len() as int),
        ),
    decreases s.len() - i,
{
    if i == s.len() {
        assert(sp_anchor(s, i) == Err::<(Syn, int), Stop>(Stop::Unmatched));
        assert(sp_group(s, i) == Err::<(Syn, int), Stop>(Stop::Unmatched));
        assert(sp_charclass(s, i) == Err::<(Syn, int), Stop>(Stop::Unmatched));
        assert(sp_dot(s, i) == Err::<(Syn, int), Stop>(Stop::Unmatched));
        assert(sp_esc(s, i) == Err::<(char, int), Stop>(Stop::Unmatched));
        assert(sp_exp(s, i) == Err::<(Syn, int), Stop>(Stop::Unmatched));
        assert(s.subrange(i, s.len() as int).len() == 0);
        assert(acc + plain_items(s.subrange(i, s.len() as int)) =~= acc);
    } else {
        assert(!reserved(s[i]));
        if i + 1 < s.len() {
            assert(!reserved(s[i + 1]));
        }
        lemma_plain_char_exp(s, i);
        lemma_plain_branch_rest(s, i + 1, acc.push(char_item(s[i])));
        lemma_plain_items_first(s, i);
        assert(acc.push(char_item(s[i])) + plain_items(s.subrange(i + 1, s.len() as int))
            =~= acc + (seq![char_item(s[i])] + plain_items(s.subrange(i + 1, s.len() as int))));
    }
}

/// A non-empty pattern of characters that are not reserved parses whole, as one
/// branch that holds each character as itself, in order.
pub proof fn lemma_plain_text(s: Seq<char>)
    requires
        s.len() > 0,
        forall|k: int| 0 <= k < s.len() ==> !reserved(#[trigger] s[k]),
    ensures
        sp_ere(s, 0) == Ok::<(Syn, int), Stop>((Syn::Or(seq![Syn::Concat(plain_items(s))]), s.len() as int)),
{
    assert(!reserved(s[0]));
    if 1 < s.len() {
        assert(!reserved(s[1]));
    }
    let cs = plain_items(s);
    lemma_plain_char_exp(s, 0);
    lemma_plain_branch_rest(s, 1, seq![char_item(s[0])]);
    lemma_plain_items_first(s, 0);
    assert(s.subrange(0, s.len() as int) =~= s);
    assert(seq![char_item(s[0])] + plain_items(s.subrange(1, s.len() as int)) == cs);
    assert(sp_branch(s, 0) == Ok::<(Syn, int), Stop>((Syn::Concat(cs), s.len() as int)));
    assert(sp_ere_rest(s, s.len() as int, seq![Syn::Concat(cs)]) == Ok::<(Seq<Syn>, int), Stop>(
        (seq![Syn::Concat(cs)], s.len() as int),
    ));
}

/// Joining words: the first word, then the others joined.
pub proof fn lemma_concat_words_first(ws: Seq<Seq<char>>)
    requires
        ws.len() > 0,
    ensures
        concat_words(ws) == ws[0] + concat_words(ws.subrange(1, ws.len() as int)),
    decreases ws.len(),
{
    let rest = ws.subrange(1, ws.len() as int);
    if ws.len() == 1 {
        assert(ws.drop_last().len() == 0);
        assert(rest.len() == 0);
        assert(concat_words(ws.drop_last()) == Seq::<char>::empty());
        assert(ws.last() == ws[0]);
        assert(concat_words(ws) =~= ws[0]);
        assert(ws[0] + concat_words(rest) =~= ws[0]);
    } else {
        let dl = ws.drop_last();
        lemma_concat_words_first(dl);
        assert(dl[0] == ws[0]);
        assert(dl.subrange(1, dl.len() as int) =~= rest.drop_last());
        assert(rest.last() == ws.last());
        assert(concat_words(rest) == concat_words(rest.drop_last()) + rest.last());
        assert(ws[0] + concat_words(rest) =~= (ws[0] + concat_words(rest.drop_last())) + ws.last());
    }
}

/// Joining words: the first `k` joined, then the others joined.
pub proof fn lemma_concat_words_split(ws: Seq<Seq<char>>, k: int)
    requires
        0 <= k <= ws.len(),
    ensures
        concat_words(ws) == concat_words(ws.subrange(0, k)) + concat_words(ws.subrange(k, ws.len() as int)),
    decreases ws.len(),
{
    if k == ws.len() {
        assert(ws.subrange(0, k) =~= ws);
        assert(ws.subrange(k, ws.len() as int).len() == 0);
        assert(concat_words(ws) + concat_words(ws.subrange(k, ws.len() as int)) =~= concat_words(ws));
    } else {
        let dl = ws.drop_last();
        lemma_concat_words_split(dl, k);
        let back = ws.subrange(k, ws.len() as int);
        assert(dl.subrange(0, k) =~= ws.subrange(0, k));
        assert(back.drop_last() =~= dl.subrange(k, dl.len() as int));
        assert(back.last() == ws.last());
        assert(concat_words(back) == concat_words(back.drop_last()) + back.last());
        assert(concat_words(ws) == concat_words(dl) + ws.last());
        assert(concat_words(ws.subrange(0, k)) + concat_words(back) =~= (concat_words(ws.subrange(0, k))
            + concat_words(dl.subrange(k, dl.len() as int))) + ws.last());
    }
}

/// No word is accepted by `Phi`.
proof fn lemma_phi_rejects(w: Seq<char>)
    ensures
        !accepts(RE::Phi, w),
{
    assert forall|t: Tree| !valid(t, RE::Phi) by {
        match t {
            Tree::Nil => {},
            Tree::Chr(c) => {},
            Tree::Pair(a, b) => {},
            Tree::Left(a) => {},
            Tree::Right(b) => {},
            Tree::List(ts) => {},
        }
    }
}

/// `n` copies of `r` in sequence accept every word joined from `n` words of `r`.
proof fn lemma_rep_seq_accepts(r: RE, ws: Seq<Seq<char>>)
    requires
        forall|i: int| 0 <= i < ws.len() ==> accepts(r, #[trigger] ws[i]),
    ensures
        accepts(rep_seq(r, ws.len()), concat_words(ws)),
    decreases ws.len(),
{
    let n = ws.len();
    if n == 0 {
        assert(valid(Tree::Nil, RE::Eps));
        assert(flat(Tree::Nil) =~= concat_words(ws));
    } else {
        let rest = ws.subrange(1, ws.len() as int);
        lemma_concat_words_first(ws);
        assert(accepts(r, ws[0]));
        if n == 1 {
            assert(rest.len() == 0);
            assert(ws[0] + concat_words(rest) =~= ws[0]);
        } else {
            assert forall|i: int| 0 <= i < rest.len() implies accepts(r, #[trigger] rest[i]) by {
                assert(rest[i] == ws[i + 1]);
            }
            lemma_rep_seq_accepts(r, rest);
            let a = rep_seq(r, (n - 1) as nat);
            assert(rest.len() == n - 1);
            if a == RE::Phi {
                lemma_phi_rejects(concat_words(rest));
            } else {
                let t1 = choose|t: Tree| valid(t, r) && flat(t) == ws[0];
                let t2 = choose|t: Tree| valid(t, a) && flat(t) == concat_words(rest);
                let t = Tree::Pair(Box::new(t1), Box::new(t2));
                assert(rep_seq(r, n) == RE::Sequence(Box::new(r), Box::new(a)));
                assert(valid(t, rep_seq(r, n)));
                assert(flat(t) == concat_words(ws));
            }
        }
    }
}

/// An expression that accepts `u`, followed by `n` optional copies of `r`, accepts
/// `u` followed by any at most `n` words of `r`.
proof fn lemma_opt_tail_from(acc: RE, r: RE, n: nat, u: Seq<char>, ws: Seq<Seq<char>>)
    requires
        accepts(acc, u),
        ws.len() <= n,
        forall|i: int| 0 <= i < ws.len() ==> accepts(r, #[trigger] ws[i]),
    ensures
        accepts(opt_tail(acc, r, n), u + concat_words(ws)),
    decreases n,
{
    if n == 0 {
        assert(ws.len() == 0);
        assert(u + concat_words(ws) =~= u);
    } else {
        let prev = opt_tail(acc, r, (n - 1) as nat);
        let o = RE::Choice(Box::new(r), Box::new(RE::Eps));
        assert(opt_tail(acc, r, n) == RE::Sequence(Box::new(prev), Box::new(o)));
        if ws.len() == n {
            let ws0 = ws.drop_last();
            assert forall|i: int| 0 <= i < ws0.len() implies accepts(r, #[trigger] ws0[i]) by {
                assert(ws0[i] == ws[i]);
            }
            lemma_opt_tail_from(acc, r, (n - 1) as nat, u, ws0);
            let t1 = choose|t: Tree| valid(t, prev) && flat(t) == u + concat_words(ws0);
            assert(accepts(r, ws[ws.len() - 1]));
            let t2 = choose|t: Tree| valid(t, r) && flat(t) == ws.last();
            let t = Tree::Pair(Box::new(t1), Box::new(Tree::Left(Box::new(t2))));
            assert(valid(Tree::Left(Box::new(t2)), o));
            assert(valid(t, opt_tail(acc, r, n)));
            assert(flat(Tree::Left(Box::new(t2))) == flat(t2));
            assert(flat(t) =~= u + concat_words(ws));
        } else {
            lemma_opt_tail_from(acc, r, (n - 1) as nat, u, ws);
            let t1 = choose|t: Tree| valid(t, prev) && flat(t) == u + concat_words(ws);
            let t2 = Tree::Right(Box::new(Tree::Nil));
            assert(valid(Tree::Nil, RE::Eps));
            assert(valid(t2, o));
            assert(flat(Tree::Nil) =~= Seq::<char>::empty());
            assert(flat(t2) =~= Seq::<char>::empty());
            let t = Tree::Pair(Box::new(t1), Box::new(t2));
            assert(valid(t, opt_tail(acc, r, n)));
            assert(flat(t) =~= u + concat_words(ws));
        }
    }
}

/// The star of `r` accepts every word joined from words of `r`.
proof fn lemma_star_accepts(r: RE, ws: Seq<Seq<char>>)
    requires
        forall|i: int| 0 <= i < ws.len() ==> accepts(r, #[trigger] ws[i]),
    ensures
        accepts(RE::Star(Box::new(r)), concat_words(ws)),
    decreases ws.len(),
{
    if ws.len() == 0 {
        let t = Tree::List(Seq::empty());
        assert(valid_list(Seq::empty(), r));
        assert(flat_list(Seq::<Tree>::empty()) =~= Seq::<char>::empty());
        assert(concat_words(ws) =~= Seq::<char>::empty());
        assert(flat(t) =~= concat_words(ws));
        assert(valid(t, RE::Star(Box::new(r))));
    } else {
        let rest = ws.subrange(1, ws.len() as int);
        assert forall|i: int| 0 <= i < rest.len() implies accepts(r, #[trigger] rest[i]) by {
            assert(rest[i] == ws[i + 1]);
        }
        lemma_star_accepts(r, rest);
        lemma_concat_words_first(ws);
        assert(accepts(r, ws[0]));
        let t0 = choose|t: Tree| valid(t, r) && flat(t) == ws[0];
        let tl = choose|t: Tree| valid(t, RE::Star(Box::new(r))) && flat(t) == concat_words(rest);
        let ts = match tl {
            Tree::List(ts) => ts,
            _ => Seq::empty(),
        };
        assert(tl == Tree::List(ts));
        let ts2 = seq![t0] + ts;
        assert(ts2.subrange(1, ts2.len() as int) =~= ts);
        assert(ts2[0] == t0);
        assert(valid_list(ts2, r));
        assert(flat_list(ts2) == flat(t0) + flat_list(ts));
        assert(valid(Tree::List(ts2), RE::Star(Box::new(r))));
        assert(flat(Tree::List(ts2)) == concat_words(ws));
    }
}

/// `n` copies of `r` in front of `tail` accept `n` words of `r` followed by a word of `tail`.
proof fn lemma_prefix_seq_accepts(r: RE, tail: RE, ws: Seq<Seq<char>>, v: Seq<char>)
    requires
        forall|i: int| 0 <= i < ws.len() ==> accepts(r, #[trigger] ws[i]),
        accepts(tail, v),
    ensures
        accepts(prefix_seq(r, ws.len(), tail), concat_words(ws) + v),
    decreases ws.len(),
{
    if ws.len() == 0 {
        assert(concat_words(ws) + v =~= v);
    } else {
        let rest = ws.subrange(1, ws.len() as int);
        assert forall|i: int| 0 <= i < rest.len() implies accepts(r, #[trigger] rest[i]) by {
            assert(rest[i] == ws[i + 1]);
        }
        lemma_prefix_seq_accepts(r, tail, rest, v);
        lemma_concat_words_first(ws);
        assert(accepts(r, ws[0]));
        let t0 = choose|t: Tree| valid(t, r) && flat(t) == ws[0];
        let t1 = choose|t: Tree| valid(t, prefix_seq(r, rest.len(), tail)) && flat(t) == concat_words(rest) + v;
        let t = Tree::Pair(Box::new(t0), Box::new(t1));
        assert(prefix_seq(r, ws.len(), tail) == RE::Sequence(Box::new(r), Box::new(prefix_seq(r, rest.len(), tail))));
        assert(valid(t, prefix_seq(r, ws.len(), tail)));
        assert(flat(t) =~= concat_words(ws) + v);
    }
}

/// A bound `x{lb,ub}` accepts every word joined from `k` words of `x`, for each `k`
/// from `lb` to `ub`.
pub proof fn lemma_bound_accepts(x: Syn, lb: u64, ub: u64, g: bool, ws: Seq<Seq<char>>)
    requires
        desugar(x) is Ok,
        lb <= ws.len() <= ub,
        forall|i: int| 0 <= i < ws.len() ==> accepts(desugar(x)->Ok_0, #[trigger] ws[i]),
    ensures
        desugar(Syn::Bound(Box::new(x), lb, Some(ub), g)) is Ok,
        accepts(desugar(Syn::Bound(Box::new(x), lb, Some(ub), g))->Ok_0, concat_words(ws)),
{
    let r = desugar(x)->Ok_0;
    if lb == 0 && ub == 0 {
        assert(ws.len() == 0);
        assert(valid(Tree::Nil, RE::Eps));
        assert(flat(Tree::Nil) =~= concat_words(ws));
    } else {
        let w1 = ws.subrange(0, lb as int);
        let w2 = ws.subrange(lb as int, ws.len() as int);
        lemma_concat_words_split(ws, lb as int);
        assert forall|i: int| 0 <= i < w1.len() implies accepts(r, #[trigger] w1[i]) by {
            assert(w1[i] == ws[i]);
        }
        assert forall|i: int| 0 <= i < w2.len() implies accepts(r, #[trigger] w2[i]) by {
            assert(w2[i] == ws[i + lb]);
        }
        lemma_rep_seq_accepts(r, w1);
        assert(w1.len() == lb);
        lemma_opt_tail_from(rep_seq(r, lb as nat), r, (ub - lb) as nat, concat_words(w1), w2);
        assert(desugar(Syn::Bound(Box::new(x), lb, Some(ub), g)) == Ok::<RE, crate::regex::syntax::desugar::Anchor>(
            opt_tail(rep_seq(r, lb as nat), r, (ub - lb) as nat),
        ));
    }
}

/// An unbounded repetition `x{lb,}` accepts every word joined from `lb` or more words of `x`.
pub proof fn lemma_unbounded_accepts(x: Syn, lb: u64, g: bool, ws: Seq<Seq<char>>)
    requires
        desugar(x) is Ok,
        lb <= ws.len(),
        forall|i: int| 0 <= i < ws.len() ==> accepts(desugar(x)->Ok_0, #[trigger] ws[i]),
    ensures
        desugar(Syn::Bound(Box::new(x), lb, None, g)) is Ok,
        accepts(desugar(Syn::Bound(Box::new(x), lb, None, g))->Ok_0, concat_words(ws)),
{
    let r = desugar(x)->Ok_0;
    let w1 = ws.subrange(0, lb as int);
    let w2 = ws.subrange(lb as int, ws.len() as int);
    lemma_concat_words_split(ws, lb as int);
    assert forall|i: int| 0 <= i < w1.len() implies accepts(r, #[trigger] w1[i]) by {
        assert(w1[i] == ws[i]);
    }
    assert forall|i: int| 0 <= i < w2.len() implies accepts(r, #[trigger] w2[i]) by {
        assert(w2[i] == ws[i + lb]);
    }
    lemma_star_accepts(r, w2);
    lemma_prefix_seq_accepts(r, RE::Star(Box::new(r)), w1, concat_words(w2));
    assert(w1.len() == lb);
}

/// Copies of `r` make `Phi` only where `r` is `Phi`.
proof fn lemma_rep_seq_phi(r: RE, n: nat)
    requires
        n >= 1,
        rep_seq(r, n) == RE::Phi,
    ensures
        r == RE::Phi,
    decreases n,
{
    if n >= 2 {
        let a = rep_seq(r, (n - 1) as nat);
        if a == RE::Phi {
            lemma_rep_seq_phi(r, (n - 1) as nat);
        }
    }
}

/// A word of `n` copies of `r` is joined from `n` words of `r`.
proof fn lemma_rep_seq_words(r: RE, n: nat, t: Tree) -> (ws: Seq<Seq<char>>)
    requires
        valid(t, rep_seq(r, n)),
    ensures
        ws.len() == n,
        forall|i: int| 0 <= i < ws.len() ==> accepts(r, #[trigger] ws[i]),
        concat_words(ws) == flat(t),
    decreases n,
{
    if n == 0 {
        assert(t == Tree::Nil);
        let ws = Seq::<Seq<char>>::empty();
        assert(concat_words(ws) =~= flat(t));
        ws
    } else if n == 1 {
        let ws = seq![flat(t)];
        lemma_concat_words_first(ws);
        assert(ws.subrange(1, 1).len() == 0);
        assert(concat_words(ws) =~= flat(t));
        ws
    } else {
        let a = rep_seq(r, (n - 1) as nat);
        if a == RE::Phi {
            lemma_rep_seq_phi(r, (n - 1) as nat);
            lemma_phi_rejects(flat(t));
            assert(false);
            Seq::empty()
        } else {
            let (t1, t2) = match t {
                Tree::Pair(a1, b1) => (*a1, *b1),
                _ => (t, t),
            };
            assert(valid(t1, r) && valid(t2, a));
            let ws2 = lemma_rep_seq_words(r, (n - 1) as nat, t2);
            let ws = seq![flat(t1)] + ws2;
            assert(ws.subrange(1, ws.len() as int) =~= ws2);
            lemma_concat_words_first(ws);
            assert forall|i: int| 0 <= i < ws.len() implies accepts(r, #[trigger] ws[i]) by {
                if i == 0 {
                    assert(valid(t1, r) && flat(t1) == ws[0]);
                } else {
                    assert(ws[i] == ws2[i - 1]);
                }
            }
            ws
        }
    }
}

/// A word of `acc` followed by `n` optional copies of `r` is a word of `acc`
/// followed by at most `n` words of `r`.
proof fn lemma_opt_tail_words(acc: RE, r: RE, n: nat, t: Tree) -> (res: (Tree, Seq<Seq<char>>))
    requires
        valid(t, opt_tail(acc, r, n)),
    ensures
        valid(res.0, acc),
        res.1.len() <= n,
        forall|i: int| 0 <= i < res.1.len() ==> accepts(r, #[trigger] res.1[i]),
        flat(t) == flat(res.0) + concat_words(res.1),
    decreases n,
{
    if n == 0 {
        let ws = Seq::<Seq<char>>::empty();
        assert(flat(t) + concat_words(ws) =~= flat(t));
        (t, ws)
    } else {
        let (t1, t2) = match t {
            Tree::Pair(a1, b1) => (*a1, *b1),
            _ => (t, t),
        };
        let prev = opt_tail(acc, r, (n - 1) as nat);
        let o = RE::Choice(Box::new(r), Box::new(RE::Eps));
        assert(opt_tail(acc, r, n) == RE::Sequence(Box::new(prev), Box::new(o)));
        assert(t == Tree::Pair(Box::new(t1), Box::new(t2)));
        assert(valid(t1, prev) && valid(t2, o));
        assert(flat(t) == flat(t1) + flat(t2));
        let (t0, ws1) = lemma_opt_tail_words(acc, r, (n - 1) as nat, t1);
        match t2 {
            Tree::Left(a) => {
                let ws = ws1.push(flat(*a));
                assert(ws.drop_last() =~= ws1);
                assert(concat_words(ws) == concat_words(ws1) + flat(*a));
                assert forall|i: int| 0 <= i < ws.len() implies accepts(r, #[trigger] ws[i]) by {
                    if i < ws1.len() {
                        assert(ws[i] == ws1[i]);
                    } else {
                        assert(valid(*a, r) && flat(*a) == ws[i]);
                    }
                }
                assert(flat(t) =~= flat(t0) + concat_words(ws));
                (t0, ws)
            },
            Tree::Right(b) => {
                assert(valid(*b, RE::Eps));
                assert(flat(*b) =~= Seq::<char>::empty()) by {
                    match *b {
                        Tree::Nil => {},
                        Tree::Chr(c) => {},
                        Tree::Pair(p1, p2) => {},
                        Tree::Left(p1) => {},
                        Tree::Right(p2) => {},
                        Tree::List(ts) => {},
                    }
                }
                assert(flat(t) =~= flat(t0) + concat_words(ws1));
                (t0, ws1)
            },
            _ => {
                assert(false);
                (t0, ws1)
            },
        }
    }
}

/// A bound `x{lb,ub}` accepts nothing but words joined from `k` words of `x`, for a
/// `k` from `lb` to `ub` (exactly `lb` when `ub < lb`).
pub proof fn lemma_bound_words(x: Syn, lb: u64, ub: u64, g: bool, w: Seq<char>) -> (ws: Seq<Seq<char>>)
    requires
        desugar(x) is Ok,
        accepts(desugar(Syn::Bound(Box::new(x), lb, Some(ub), g))->Ok_0, w),
    ensures
        lb <= ws.len() <= (if lb <= ub { ub } else { lb }),
        forall|i: int| 0 <= i < ws.len() ==> accepts(desugar(x)->Ok_0, #[trigger] ws[i]),
        concat_words(ws) == w,
{
    let r = desugar(x)->Ok_0;
    let e = desugar(Syn::Bound(Box::new(x), lb, Some(ub), g))->Ok_0;
    let t = choose|t: Tree| valid(t, e) && flat(t) == w;
    if lb == 0 && ub == 0 {
        assert(e == RE::Eps);
        assert(t == Tree::Nil);
        let ws = Seq::<Seq<char>>::empty();
        assert(concat_words(ws) =~= w);
        ws
    } else {
        let m: nat = if ub > lb { (ub - lb) as nat } else { 0 };
        assert(e == opt_tail(rep_seq(r, lb as nat), r, m));
        let (t0, ws2) = lemma_opt_tail_words(rep_seq(r, lb as nat), r, m, t);
        let ws1 = lemma_rep_seq_words(r, lb as nat, t0);
        let ws = ws1 + ws2;
        lemma_concat_words_split(ws, ws1.len() as int);
        assert(ws.subrange(0, ws1.len() as int) =~= ws1);
        assert(ws.subrange(ws1.len() as int, ws.len() as int) =~= ws2);
        assert forall|i: int| 0 <= i < ws.len() implies accepts(r, #[trigger] ws[i]) by {
            if i < ws1.len() {
                assert(ws[i] == ws1[i]);
            } else {
                assert(ws[i] == ws2[i - ws1.len()]);
            }
        }
        ws
    }
}

/// The word of a list of parse trees of `r` is joined from one word of `r` per tree.
proof fn lemma_list_words(r: RE, ts: Seq<Tree>) -> (ws: Seq<Seq<char>>)
    requires
        valid_list(ts, r),
    ensures
        forall|i: int| 0 <= i < ws.len() ==> accepts(r, #[trigger] ws[i]),
        concat_words(ws) == flat_list(ts),
    decreases ts.len(),
{
    if ts.len() == 0 {
        let ws = Seq::<Seq<char>>::empty();
        assert(concat_words(ws) =~= flat_list(ts));
        ws
    } else {
        let rest = ts.subrange(1, ts.len() as int);
        let ws2 = lemma_list_words(r, rest);
        let ws = seq![flat(ts[0])] + ws2;
        assert(ws.subrange(1, ws.len() as int) =~= ws2);
        lemma_concat_words_first(ws);
        assert forall|i: int| 0 <= i < ws.len() implies accepts(r, #[trigger] ws[i]) by {
            if i == 0 {
                assert(valid(ts[0], r) && flat(ts[0]) == ws[0]);
            } else {
                assert(ws[i] == ws2[i - 1]);
            }
        }
        ws
    }
}

/// A word of `n` copies of `r` in front of `tail` is joined from `n` words of `r`
/// and a word of `tail`.
proof fn lemma_prefix_seq_words(r: RE, n: nat, tail: RE, t: Tree) -> (res: (Seq<Seq<char>>, Tree))
    requires
        valid(t, prefix_seq(r, n, tail)),
    ensures
        res.0.len() == n,
        forall|i: int| 0 <= i < res.0.len() ==> accepts(r, #[trigger] res.0[i]),
        valid(res.1, tail),
        flat(t) == concat_words(res.0) + flat(res.1),
    decreases n,
{
    if n == 0 {
        let ws = Seq::<Seq<char>>::empty();
        assert(concat_words(ws) + flat(t) =~= flat(t));
        (ws, t)
    } else {
        let (t1, t2) = match t {
            Tree::Pair(a1, b1) => (*a1, *b1),
            _ => (t, t),
        };
        assert(prefix_seq(r, n, tail) == RE::Sequence(Box::new(r), Box::new(prefix_seq(r, (n - 1) as nat, tail))));
        assert(t == Tree::Pair(Box::new(t1), Box::new(t2)));
        let (ws2, tt) = lemma_prefix_seq_words(r, (n - 1) as nat, tail, t2);
        let ws = seq![flat(t1)] + ws2;
        assert(ws.subrange(1, ws.len() as int) =~= ws2);
        lemma_concat_words_first(ws);
        assert forall|i: int| 0 <= i < ws.len() implies accepts(r, #[trigger] ws[i]) by {
            if i == 0 {
                assert(valid(t1, r) && flat(t1) == ws[0]);
            } else {
                assert(ws[i] == ws2[i - 1]);
            }
        }
        assert(flat(t) =~= concat_words(ws) + flat(tt));
        (ws, tt)
    }
}

/// An unbounded repetition `x{lb,}` accepts nothing but words joined from `lb` or
/// more words of `x`.
pub proof fn lemma_unbounded_words(x: Syn, lb: u64, g: bool, w: Seq<char>) -> (ws: Seq<Seq<char>>)
    requires
        desugar(x) is Ok,
        accepts(desugar(Syn::Bound(Box::new(x), lb, None, g))->Ok_0, w),
    ensures
        lb <= ws.len(),
        forall|i: int| 0 <= i < ws.len() ==> accepts(desugar(x)->Ok_0, #[trigger] ws[i]),
        concat_words(ws) == w,
{
    let r = desugar(x)->Ok_0;
    let st = RE::Star(Box::new(r));
    let e = desugar(Syn::Bound(Box::new(x), lb, None, g))->Ok_0;
    assert(e == prefix_seq(r, lb as nat, st));
    let t = choose|t: Tree| valid(t, e) && flat(t) == w;
    let (ws1, tt) = lemma_prefix_seq_words(r, lb as nat, st, t);
    let ts = match tt {
        Tree::List(ts) => ts,
        _ => Seq::empty(),
    };
    assert(tt == Tree::List(ts));
    let ws2 = lemma_list_words(r, ts);
    let ws = ws1 + ws2;
    lemma_concat_words_split(ws, ws1.len() as int);
    assert(ws.subrange(0, ws1.len() as int) =~= ws1);
    assert(ws.subrange(ws1.len() as int, ws.len() as int) =~= ws2);
    assert forall|i: int| 0 <= i < ws.len() implies accepts(r, #[trigger] ws[i]) by {
        if i < ws1.len() {
            assert(ws[i] == ws1[i]);
        } else {
            assert(ws[i] == ws2[i - ws1.len()]);
        }
    }
    ws
}

/// A character that is not reserved followed by `*`, `+` or `?` is that character
/// repeated any number of times, at least once, or at most once; a further `?`
/// makes the repetition not greedy.
pub proof fn lemma_suffix_ops(s: Seq<char>, i: int)
    requires
        0 <= i,
        i + 1 < s.len(),
        !reserved(s[i]),
    ensures
        ({
            let lazy = i + 2 < s.len() && s[i + 2] == '?';
            let end = if lazy { i + 3 } else { i + 2 };
            let a = Box::new(char_item(s[i]));
            &&& s[i + 1] == '*' ==> sp_exp(s, i) == Ok::<(Syn, int), Stop>((Syn::Star(a, !lazy), end))
            &&& s[i + 1] == '+' ==> sp_exp(s, i) == Ok::<(Syn, int), Stop>((Syn::Plus(a, !lazy), end))
            &&& s[i + 1] == '?' ==> sp_exp(s, i) == Ok::<(Syn, int), Stop>((Syn::Opt(a, !lazy), end))
        }),
{
    assert(sp_anchor(s, i) == Err::<(Syn, int), Stop>(Stop::Unmatched));
    assert(sp_group(s, i) == Err::<(Syn, int), Stop>(Stop::Unmatched));
    assert(sp_charclass(s, i) == Err::<(Syn, int), Stop>(Stop::Unmatched));
    assert(sp_dot(s, i) == Err::<(Syn, int), Stop>(Stop::Unmatched));
    assert(sp_esc(s, i) == Err::<(char, int), Stop>(Stop::Unmatched));
    assert(sp_char(s, i) == Ok::<(Syn, int), Stop>((char_item(s[i]), i + 1)));
}

/// `x?` accepts the empty word and the words of `x`, and nothing else.
pub proof fn lemma_opt_meaning(x: Syn, g: bool, w: Seq<char>)
    requires
        desugar(x) is Ok,
    ensures
        desugar(Syn::Opt(Box::new(x), g)) is Ok,
        accepts(desugar(Syn::Opt(Box::new(x), g))->Ok_0, w) <==> (w.len() == 0 || accepts(desugar(x)->Ok_0, w)),
{
    let r = desugar(x)->Ok_0;
    let e = RE::Choice(Box::new(r), Box::new(RE::Eps));
    assert(desugar(Syn::Opt(Box::new(x), g)) == Ok::<RE, crate::regex::syntax::desugar::Anchor>(e));
    if accepts(e, w) {
        let t = choose|t: Tree| valid(t, e) && flat(t) == w;
        match t {
            Tree::Left(a) => {
                assert(valid(*a, r) && flat(*a) == w);
            },
            Tree::Right(b) => {
                assert(valid(*b, RE::Eps));
                assert(flat(*b) == w);
                match *b {
                    Tree::Nil => {
                        assert(flat(Tree::Nil).len() == 0);
                    },
                    Tree::Chr(c) => {},
                    Tree::Pair(p1, p2) => {},
                    Tree::Left(p1) => {},
                    Tree::Right(p2) => {},
                    Tree::List(ts) => {},
                }
            },
            _ => {},
        }
    }
    if w.len() == 0 {
        let t = Tree::Right(Box::new(Tree::Nil));
        assert(valid(Tree::Nil, RE::Eps));
        assert(valid(t, e));
        assert(flat(Tree::Nil) =~= Seq::<char>::empty());
        assert(flat(t) =~= w);
    } else if accepts(r, w) {
        let t0 = choose|t: Tree| valid(t, r) && flat(t) == w;
        let t = Tree::Left(Box::new(t0));
        assert(valid(t, e));
        assert(flat(t) == w);
    }
}

/// `x*` accepts every word joined from words of `x`.
pub proof fn lemma_star_meaning(x: Syn, g: bool, ws: Seq<Seq<char>>)
    requires
        desugar(x) is Ok,
        forall|i: int| 0 <= i < ws.len() ==> accepts(desugar(x)->Ok_0, #[trigger] ws[i]),
    ensures
        desugar(Syn::Star(Box::new(x), g)) is Ok,
        accepts(desugar(Syn::Star(Box::new(x), g))->Ok_0, concat_words(ws)),
{
    lemma_star_accepts(desugar(x)->Ok_0, ws);
}

/// `x*` accepts nothing but words joined from words of `x`.
pub proof fn lemma_star_words(x: Syn, g: bool, w: Seq<char>) -> (ws: Seq<Seq<char>>)
    requires
        desugar(x) is Ok,
        accepts(desugar(Syn::Star(Box::new(x), g))->Ok_0, w),
    ensures
        forall|i: int| 0 <= i < ws.len() ==> accepts(desugar(x)->Ok_0, #[trigger] ws[i]),
        concat_words(ws) == w,
{
    let r = desugar(x)->Ok_0;
    let e = RE::Star(Box::new(r));
    let t = choose|t: Tree| valid(t, e) && flat(t) == w;
    let ts = match t {
        Tree::List(ts) => ts,
        _ => Seq::empty(),
    };
    assert(t == Tree::List(ts));
    lemma_list_words(r, ts)
}

/// `x+` accepts every word joined from one or more words of `x`.
pub proof fn lemma_plus_meaning(x: Syn, g: bool, ws: Seq<Seq<char>>)
    requires
        desugar(x) is Ok,
        ws.len() >= 1,
        forall|i: int| 0 <= i < ws.len() ==> accepts(desugar(x)->Ok_0, #[trigger] ws[i]),
    ensures
        desugar(Syn::Plus(Box::new(x), g)) is Ok,
        accepts(desugar(Syn::Plus(Box::new(x), g))->Ok_0, concat_words(ws)),
{
    let r = desugar(x)->Ok_0;
    let st = RE::Star(Box::new(r));
    let rest = ws.subrange(1, ws.len() as int);
    assert forall|i: int| 0 <= i < rest.len() implies accepts(r, #[trigger] rest[i]) by {
        assert(rest[i] == ws[i + 1]);
    }
    lemma_star_accepts(r, rest);
    lemma_concat_words_first(ws);
    assert(accepts(r, ws[0]));
    let t0 = choose|t: Tree| valid(t, r) && flat(t) == ws[0];
    let t1 = choose|t: Tree| valid(t, st) && flat(t) == concat_words(rest);
    let t = Tree::Pair(Box::new(t0), Box::new(t1));
    assert(valid(t, RE::Sequence(Box::new(r), Box::new(st))));
    assert(flat(t) == concat_words(ws));
}

/// `x+` accepts nothing but words joined from one or more words of `x`.
pub proof fn lemma_plus_words(x: Syn, g: bool, w: Seq<char>) -> (ws: Seq<Seq<char>>)
    requires
        desugar(x) is Ok,
        accepts(desugar(Syn::Plus(Box::new(x), g))->Ok_0, w),
    ensures
        ws.len() >= 1,
        forall|i: int| 0 <= i < ws.len() ==> accepts(desugar(x)->Ok_0, #[trigger] ws[i]),
        concat_words(ws) == w,
{
    let r = desugar(x)->Ok_0;
    let st = RE::Star(Box::new(r));
    let e = RE::Sequence(Box::new(r), Box::new(st));
    let t = choose|t: Tree| valid(t, e) && flat(t) == w;
    let (t0, t1) = match t {
        Tree::Pair(a, b) => (*a, *b),
        _ => (t, t),
    };
    assert(t == Tree::Pair(Box::new(t0), Box::new(t1)));
    assert(valid(t0, r) && valid(t1, st));
    let ts = match t1 {
        Tree::List(ts) => ts,
        _ => Seq::empty(),
    };
    assert(t1 == Tree::List(ts));
    let ws2 = lemma_list_words(r, ts);
    assert(flat(t1) == flat_list(ts));
    assert(w == flat(t0) + flat(t1));
    let ws = seq![flat(t0)] + ws2;
    assert(ws.subrange(1, ws.len() as int) =~= ws2);
    lemma_concat_words_first(ws);
    assert forall|i: int| 0 <= i < ws.len() implies accepts(r, #[trigger] ws[i]) by {
        if i == 0 {
            assert(valid(t0, r) && flat(t0) == ws[0]);
        } else {
            assert(ws[i] == ws2[i - 1]);
        }
    }
    ws
}

/// The literal expression of `c`.
spec fn lit_re(c: char) -> RE {
    RE::Lit(c)
}

/// The parse tree of the letter `c`.
spec fn chr_tree(c: char) -> Tree {
    Tree::Chr(c)
}

/// A letter accepts exactly the one-letter word of itself.
proof fn lemma_lit_accepts(c: char, w: Seq<char>)
    ensures
        accepts(lit_re(c), w) <==> (w.len() == 1 && w[0] == c),
{
    let t = chr_tree(c);
    assert(valid(t, lit_re(c)));
    assert(flat(t).len() == 1 && flat(t)[0] == c);
    if w.len() == 1 && w[0] == c {
        assert(flat(t) =~= w);
    }
    if accepts(lit_re(c), w) {
        let t2 = choose|t: Tree| valid(t, lit_re(c)) && flat(t) == w;
        match t2 {
            Tree::Chr(d) => {
                assert(lit_re(c) == RE::Lit(d));
                assert(d == c);
                assert(w == flat(t2));
                assert(t2 == chr_tree(d));
            },
            _ => {},
        }
    }
}

/// The alternative of the letters `cs` accepts exactly the one-letter words of a
/// letter of `cs`.
proof fn lemma_or_chars_accepts(cs: Seq<char>, w: Seq<char>)
    ensures
        accepts(or_chars(cs), w) <==> (w.len() == 1 && cs.contains(w[0])),
    decreases cs.len(),
{
    if cs.len() == 0 {
        lemma_phi_rejects(w);
    } else {
        let rest = cs.subrange(1, cs.len() as int);
        let acc = or_chars(rest);
        let l = RE::Lit(cs[0]);
        lemma_or_chars_accepts(rest, w);
        assert(cs.contains(cs[0]));
        assert forall|c: char| cs.contains(c) <==> (c == cs[0] || rest.contains(c)) by {
            if cs.contains(c) && c != cs[0] {
                let k = choose|k: int| 0 <= k < cs.len() && cs[k] == c;
                assert(rest[k - 1] == c);
            }
            if rest.contains(c) {
                let k = choose|k: int| 0 <= k < rest.len() && rest[k] == c;
                assert(cs[k + 1] == c);
            }
        }
        lemma_lit_accepts(cs[0], w);
        assert(l == lit_re(cs[0]));
        if acc == RE::Phi {
            assert(or_chars(cs) == l);
            lemma_phi_rejects(w);
        } else {
            let e = RE::Choice(Box::new(l), Box::new(acc));
            assert(or_chars(cs) == e);
            if accepts(e, w) {
                let t = choose|t: Tree| valid(t, e) && flat(t) == w;
                match t {
                    Tree::Left(a) => {
                        assert(valid(*a, l) && flat(*a) == w);
                    },
                    Tree::Right(b) => {
                        assert(valid(*b, acc) && flat(*b) == w);
                    },
                    _ => {},
                }
            }
            if accepts(l, w) {
                let t0 = choose|t: Tree| valid(t, l) && flat(t) == w;
                assert(valid(Tree::Left(Box::new(t0)), e) && flat(Tree::Left(Box::new(t0))) == w);
            }
            if accepts(acc, w) {
                let t0 = choose|t: Tree| valid(t, acc) && flat(t) == w;
                assert(valid(Tree::Right(Box::new(t0)), e) && flat(Tree::Right(Box::new(t0))) == w);
            }
        }
    }
}

/// A bracket `[...]` accepts exactly the one-letter words of a letter it lists.
pub proof fn lemma_any_meaning(cs: Seq<char>, w: Seq<char>)
    ensures
        desugar(Syn::Any(cs)) is Ok,
        accepts(desugar(Syn::Any(cs))->Ok_0, w) <==> (w.len() == 1 && cs.contains(w[0])),
{
    lemma_or_chars_accepts(cs, w);
}

/// The characters with codes 0 to 126 are exactly those below code 127.
proof fn lemma_ascii_contains(c: char)
    ensures
        ascii_chars().contains(c) <==> (c as u32) < 127,
{
    if (c as u32) < 127 {
        let k = c as u32 as int;
        assert(ascii_chars()[k] == k as char);
        assert(ascii_chars()[k] == c);
    }
}

/// `.` accepts exactly the one-letter words whose letter has a code below 127.
pub proof fn lemma_dot_meaning(w: Seq<char>)
    ensures
        desugar(Syn::Dot) is Ok,
        accepts(desugar(Syn::Dot)->Ok_0, w) <==> (w.len() == 1 && (w[0] as u32) < 127),
{
    lemma_or_chars_accepts(ascii_chars(), w);
    if w.len() == 1 {
        lemma_ascii_contains(w[0]);
    }
}

/// A negated bracket `[^...]` accepts exactly the one-letter words whose letter has
/// a code below 127 and is not listed.
pub proof fn lemma_none_of_meaning(cs: Seq<char>, w: Seq<char>)
    ensures
        desugar(Syn::NoneOf(cs)) is Ok,
        accepts(desugar(Syn::NoneOf(cs))->Ok_0, w) <==> (w.len() == 1 && (w[0] as u32) < 127 && !cs.contains(w[0])),
{
    let p = |c: char| !cs.contains(c);
    let f = ascii_chars().filter(p);
    assert(desugar(Syn::NoneOf(cs)) == Ok::<RE, Anchor>(or_chars(f)));
    lemma_or_chars_accepts(f, w);
    if w.len() == 1 {
        lemma_ascii_contains(w[0]);
        if ascii_chars().contains(w[0]) && p(w[0]) {
            let k = choose|k: int| 0 <= k < ascii_chars().len() && ascii_chars()[k] == w[0];
            ascii_chars().lemma_filter_contains(p, k);
        }
        if f.contains(w[0]) {
            ascii_chars().lemma_filter_contains_rev(p, w[0]);
            let j = choose|j: int| 0 <= j < f.len() && f[j] == w[0];
            ascii_chars().lemma_filter_pred(p, j);
        }
    }
}

/// Putting `c` into an ascending sequence keeps it ascending and adds exactly `c`.
proof fn lemma_insert_sorted_contains(q: Seq<char>, c: char)
    requires
        ascending(q),
    ensures
        ascending(insert_sorted(q, c)),
        forall|x: char| #[trigger] insert_sorted(q, c).contains(x) <==> (q.contains(x) || x == c),
    decreases q.len(),
{
    let r = insert_sorted(q, c);
    if q.len() == 0 {
        assert(r =~= seq![c]);
        assert(r[0] == c);
    } else if c < q[0] {
        assert(r =~= seq![c] + q);
        assert forall|i: int, j: int| 0 <= i < j < r.len() implies r[i] < r[j] by {
            if i > 0 {
                assert(r[i] == q[i - 1] && r[j] == q[j - 1]);
            } else {
                assert(r[j] == q[j - 1]);
                if j > 1 {
                    assert(q[0] < q[j - 1]);
                }
            }
        }
        assert forall|x: char| r.contains(x) <==> (q.contains(x) || x == c) by {
            if r.contains(x) {
                let k = choose|k: int| 0 <= k < r.len() && r[k] == x;
                if k > 0 {
                    assert(q[k - 1] == x);
                }
            }
            if q.contains(x) {
                let k = choose|k: int| 0 <= k < q.len() && q[k] == x;
                assert(r[k + 1] == x);
            }
            if x == c {
                assert(r[0] == x);
            }
        }
    } else if c == q[0] {
        assert(q.contains(q[0]));
    } else {
        let t = q.subrange(1, q.len() as int);
        assert forall|i: int, j: int| 0 <= i < j < t.len() implies t[i] < t[j] by {
            assert(t[i] == q[i + 1] && t[j] == q[j + 1]);
        }
        lemma_insert_sorted_contains(t, c);
        let rt = insert_sorted(t, c);
        assert(r == seq![q[0]] + rt);
        assert(r.len() == rt.len() + 1);
        assert(q[0] < c);
        assert(rt.contains(c));
        assert forall|x: char| t.contains(x) implies q[0] < x by {
            let k = choose|k: int| 0 <= k < t.len() && t[k] == x;
            assert(q[k + 1] == x);
        }
        assert forall|i: int, j: int| 0 <= i < j < r.len() implies r[i] < r[j] by {
            if i > 0 {
                assert(r[i] == rt[i - 1] && r[j] == rt[j - 1]);
            } else {
                assert(r[j] == rt[j - 1]);
                assert(rt.contains(rt[j - 1]));
                assert(r[0] == q[0]);
                if t.contains(rt[j - 1]) {
                    assert(q[0] < rt[j - 1]);
                }
            }
        }
        assert forall|x: char| r.contains(x) <==> (q.contains(x) || x == c) by {
            if r.contains(x) {
                let k = choose|k: int| 0 <= k < r.len() && r[k] == x;
                if k > 0 {
                    assert(rt[k - 1] == x);
                    assert(rt.contains(x));
                    if t.contains(x) {
                        let m = choose|m: int| 0 <= m < t.len() && t[m] == x;
                        assert(q[m + 1] == x);
                    }
                } else {
                    assert(q[0] == x);
                }
            }
            if q.contains(x) {
                let k = choose|k: int| 0 <= k < q.len() && q[k] == x;
                if k > 0 {
                    assert(t[k - 1] == x);
                    assert(t.contains(x));
                    assert(rt.contains(x));
                    let m = choose|m: int| 0 <= m < rt.len() && rt[m] == x;
                    assert(r[m + 1] == x);
                } else {
                    assert(r[0] == x);
                }
            }
            if x == c {
                assert(rt.contains(x));
                let m = choose|m: int| 0 <= m < rt.len() && rt[m] == x;
                assert(r[m + 1] == x);
            }
        }
    }
}

/// Whether `c` may stand in a bracket as itself, as one of the characters it lists
/// (neither `]`, `\`, `-` nor `^`).
pub open spec fn bracket_plain(c: char) -> bool {
    c != ']' && c != '\\' && c != '-' && c != '^'
}

/// The items of a bracket from position `i` up to its closing `]` at `m`, all of
/// them plain characters, added to the ascending `acc`.
proof fn lemma_plain_enum_items(s: Seq<char>, i: int, m: int, acc: Seq<char>)
    requires
        0 <= i <= m < s.len(),
        s[m] == ']',
        forall|k: int| i <= k < m ==> bracket_plain(#[trigger] s[k]),
        ascending(acc),
    ensures
        sp_enum_items(s, i, acc) matches Ok((set, j)) && j == m && ascending(set)
            && forall|x: char| set.contains(x) <==> (acc.contains(x) || exists|k: int| i <= k < m && s[k] == x),
    decreases m - i,
{
    if i == m {
        assert(sp_esc(s, i) == Err::<(char, int), Stop>(Stop::Unmatched));
        assert(sp_enum_char(s, i) == Err::<(char, int), Stop>(Stop::Unmatched));
        assert(sp_range(s, i) == Err::<(Seq<char>, int), Stop>(Stop::Unmatched));
        assert(sp_char_set(s, i) == Err::<(Seq<char>, int), Stop>(Stop::Unmatched));
    } else {
        let c = s[i];
        assert(bracket_plain(s[i]));
        if i + 1 < m {
            assert(bracket_plain(s[i + 1]));
        }
        assert(sp_esc(s, i) == Err::<(char, int), Stop>(Stop::Unmatched));
        assert(sp_enum_char(s, i) == Ok::<(char, int), Stop>((c, i + 1)));
        assert(sp_range(s, i) == Err::<(Seq<char>, int), Stop>(Stop::Unmatched));
        assert(sp_one_enum(s, i) == Ok::<(Seq<char>, int), Stop>((seq![c], i + 1)));
        let u = seq![c];
        assert(u.subrange(1, 1) =~= Seq::<char>::empty());
        assert(add_all(acc, u) == add_all(insert_sorted(acc, c), u.subrange(1, 1)));
        assert(add_all(acc, u) == insert_sorted(acc, c));
        lemma_insert_sorted_contains(acc, c);
        lemma_plain_enum_items(s, i + 1, m, insert_sorted(acc, c));
        let set = sp_enum_items(s, i + 1, insert_sorted(acc, c))->Ok_0.0;
        assert(sp_enum_items(s, i, acc) == sp_enum_items(s, i + 1, insert_sorted(acc, c)));
        assert forall|x: char| set.contains(x) <==> (acc.contains(x) || exists|k: int| i <= k < m && s[k] == x) by {
            if x == c {
                assert(s[i] == x);
            }
            if exists|k: int| i <= k < m && s[k] == x {
                let k = choose|k: int| i <= k < m && s[k] == x;
                if k > i {
                    assert(exists|k2: int| i + 1 <= k2 < m && s[k2] == x);
                }
            }
            if exists|k: int| i + 1 <= k < m && s[k] == x {
                let k = choose|k: int| i + 1 <= k < m && s[k] == x;
                assert(exists|k2: int| i <= k2 < m && s[k2] == x);
            }
        }
    }
}

/// A bracket `[c1 c2 ... cn]` of plain characters (at least one) is the set of
/// exactly those characters, in ascending order, and takes the text up to and
/// including its `]`.
pub proof fn lemma_plain_bracket(s: Seq<char>, i: int, m: int)
    requires
        0 <= i,
        i + 2 <= m < s.len(),
        s[i] == '[',
        s[m] == ']',
        forall|k: int| i + 1 <= k < m ==> bracket_plain(#[trigger] s[k]),
    ensures
        sp_charclass(s, i) matches Ok((Syn::Any(set), j)) && j == m + 1 && ascending(set)
            && forall|x: char| set.contains(x) <==> exists|k: int| i + 1 <= k < m && s[k] == x,
{
    let j = i + 1;
    let c = s[j];
    assert(bracket_plain(s[j]));
    if j + 1 < m {
        assert(bracket_plain(s[j + 1]));
    }
    assert(sp_esc(s, j) == Err::<(char, int), Stop>(Stop::Unmatched));
    assert(sp_enum_char(s, j) == Ok::<(char, int), Stop>((c, j + 1)));
    assert(sp_range(s, j) == Err::<(Seq<char>, int), Stop>(Stop::Unmatched));
    assert(sp_one_enum(s, j) == Ok::<(Seq<char>, int), Stop>((seq![c], j + 1)));
    let e = Seq::<char>::empty();
    assert(add_all(e, e) == e);
    let u = seq![c];
    assert(u.subrange(1, 1) =~= Seq::<char>::empty());
    assert(u[0] == c);
    assert(add_all(e, u) == add_all(insert_sorted(e, c), u.subrange(1, 1)));
    assert(add_all(e, u) == insert_sorted(e, c));
    lemma_insert_sorted_contains(e, c);
    let acc = insert_sorted(e, c);
    lemma_plain_enum_items(s, j + 1, m, acc);
    let set = sp_enum_items(s, j + 1, acc)->Ok_0.0;
    assert(sp_enum(s, j) == Ok::<(Seq<char>, int), Stop>((set, m + 1)));
    assert forall|x: char| set.contains(x) <==> exists|k: int| i + 1 <= k < m && s[k] == x by {
        if exists|k: int| i + 1 <= k < m && s[k] == x {
            let k = choose|k: int| i + 1 <= k < m && s[k] == x;
            if k > j {
                assert(exists|k2: int| j + 1 <= k2 < m && s[k2] == x);
            }
        }
        if exists|k: int| j + 1 <= k < m && s[k] == x {
            let k = choose|k: int| j + 1 <= k < m && s[k] == x;
            assert(exists|k2: int| i + 1 <= k2 < m && s[k2] == x);
        }
        if x == c {
            assert(exists|k2: int| i + 1 <= k2 < m && s[k2] == x);
        }
    }
}

/// `Eps` accepts the empty word and nothing else.
proof fn lemma_eps_accepts(w: Seq<char>)
    ensures
        accepts(RE::Eps, w) <==> w.len() == 0,
{
    assert(valid(Tree::Nil, RE::Eps));
    assert(flat(Tree::Nil) =~= Seq::<char>::empty());
    if w.len() == 0 {
        assert(flat(Tree::Nil) =~= w);
    }
    if accepts(RE::Eps, w) {
        let t = choose|t: Tree| valid(t, RE::Eps) && flat(t) == w;
        match t {
            Tree::Nil => {},
            _ => {},
        }
    }
}

/// The alternative of desugared parts accepts exactly the words that some part that
/// desugared accepts.
proof fn lemma_join_or_accepts(rs: Seq<Result<RE, Anchor>>, w: Seq<char>)
    ensures
        accepts(join_or(rs), w) <==> exists|k: int| 0 <= k < rs.len() && (#[trigger] rs[k]) is Ok && accepts(rs[k]->Ok_0, w),
    decreases rs.len(),
{
    if rs.len() == 0 {
        lemma_phi_rejects(w);
    } else {
        let rest = rs.subrange(1, rs.len() as int);
        let acc = join_or(rest);
        lemma_join_or_accepts(rest, w);
        let some_rest = exists|k: int| 0 <= k < rest.len() && (#[trigger] rest[k]) is Ok && accepts(rest[k]->Ok_0, w);
        let some_all = exists|k: int| 0 <= k < rs.len() && (#[trigger] rs[k]) is Ok && accepts(rs[k]->Ok_0, w);
        assert(some_all <==> ((rs[0] is Ok && accepts(rs[0]->Ok_0, w)) || some_rest)) by {
            if some_all {
                let k = choose|k: int| 0 <= k < rs.len() && (#[trigger] rs[k]) is Ok && accepts(rs[k]->Ok_0, w);
                if k > 0 {
                    assert(rest[k - 1] == rs[k]);
                }
            }
            if some_rest {
                let k = choose|k: int| 0 <= k < rest.len() && (#[trigger] rest[k]) is Ok && accepts(rest[k]->Ok_0, w);
                assert(rs[k + 1] == rest[k]);
            }
            if rs[0] is Ok && accepts(rs[0]->Ok_0, w) {
                assert(rs[0] is Ok);
            }
        }
        match rs[0] {
            Ok(d) => {
                if acc == RE::Phi {
                    lemma_phi_rejects(w);
                } else {
                    let e = RE::Choice(Box::new(d), Box::new(acc));
                    assert(join_or(rs) == e);
                    if accepts(e, w) {
                        let t = choose|t: Tree| valid(t, e) && flat(t) == w;
                        match t {
                            Tree::Left(a) => {
                                assert(valid(*a, d) && flat(*a) == w);
                            },
                            Tree::Right(b) => {
                                assert(valid(*b, acc) && flat(*b) == w);
                            },
                            _ => {},
                        }
                    }
                    if accepts(d, w) {
                        let t0 = choose|t: Tree| valid(t, d) && flat(t) == w;
                        assert(valid(Tree::Left(Box::new(t0)), e) && flat(Tree::Left(Box::new(t0))) == w);
                    }
                    if accepts(acc, w) {
                        let t0 = choose|t: Tree| valid(t, acc) && flat(t) == w;
                        assert(valid(Tree::Right(Box::new(t0)), e) && flat(Tree::Right(Box::new(t0))) == w);
                    }
                }
            },
            Err(_) => {},
        }
    }
}

/// An alternative `x1|...|xn` accepts exactly the words that one of its branches
/// accepts; a branch that is an anchor counts for none.
pub proof fn lemma_or_meaning(ds: Seq<Syn>, w: Seq<char>)
    ensures
        desugar(Syn::Or(ds)) is Ok,
        accepts(desugar(Syn::Or(ds))->Ok_0, w) <==> exists|k: int|
            0 <= k < ds.len() && desugar(#[trigger] ds[k]) is Ok && accepts(desugar(ds[k])->Ok_0, w),
{
    let rs = desugar_all(ds);
    lemma_desugar_all(ds);
    lemma_join_or_accepts(rs, w);
    if exists|k: int| 0 <= k < ds.len() && desugar(#[trigger] ds[k]) is Ok && accepts(desugar(ds[k])->Ok_0, w) {
        let k = choose|k: int| 0 <= k < ds.len() && desugar(#[trigger] ds[k]) is Ok && accepts(desugar(ds[k])->Ok_0, w);
        assert(rs[k] == desugar(ds[k]));
    }
    if exists|k: int| 0 <= k < rs.len() && (#[trigger] rs[k]) is Ok && accepts(rs[k]->Ok_0, w) {
        let k = choose|k: int| 0 <= k < rs.len() && (#[trigger] rs[k]) is Ok && accepts(rs[k]->Ok_0, w);
        assert(rs[k] == desugar(ds[k]));
    }
}

/// The concatenation of desugared parts, none of them an anchor, accepts exactly the
/// words joined from one word of each part, in order.
proof fn lemma_join_concat_accepts(rs: Seq<Result<RE, Anchor>>, ws: Seq<Seq<char>>)
    requires
        forall|k: int| 0 <= k < rs.len() ==> (#[trigger] rs[k]) is Ok,
        ws.len() == rs.len(),
        forall|k: int| 0 <= k < ws.len() ==> accepts(rs[k]->Ok_0, #[trigger] ws[k]),
    ensures
        accepts(join_concat(rs), concat_words(ws)),
    decreases rs.len(),
{
    if rs.len() == 0 {
        lemma_eps_accepts(concat_words(ws));
        assert(concat_words(ws) =~= Seq::<char>::empty());
    } else {
        let rest = rs.subrange(1, rs.len() as int);
        let wr = ws.subrange(1, ws.len() as int);
        assert forall|k: int| 0 <= k < rest.len() implies (#[trigger] rest[k]) is Ok by {
            assert(rest[k] == rs[k + 1]);
        }
        assert forall|k: int| 0 <= k < wr.len() implies accepts(rest[k]->Ok_0, #[trigger] wr[k]) by {
            assert(rest[k] == rs[k + 1] && wr[k] == ws[k + 1]);
        }
        lemma_join_concat_accepts(rest, wr);
        lemma_concat_words_first(ws);
        let acc = join_concat(rest);
        assert(rs[0] is Ok);
        let d = rs[0]->Ok_0;
        assert(accepts(d, ws[0]));
        if acc == RE::Eps {
            lemma_eps_accepts(concat_words(wr));
            assert(concat_words(ws) =~= ws[0]);
        } else {
            let e = RE::Sequence(Box::new(d), Box::new(acc));
            assert(join_concat(rs) == e);
            let t0 = choose|t: Tree| valid(t, d) && flat(t) == ws[0];
            let t1 = choose|t: Tree| valid(t, acc) && flat(t) == concat_words(wr);
            let t = Tree::Pair(Box::new(t0), Box::new(t1));
            assert(valid(t, e));
            assert(flat(t) == concat_words(ws));
        }
    }
}

/// A word of the concatenation of desugared parts, none of them an anchor, is
/// joined from one word of each part, in order.
proof fn lemma_join_concat_words(rs: Seq<Result<RE, Anchor>>, w: Seq<char>) -> (ws: Seq<Seq<char>>)
    requires
        forall|k: int| 0 <= k < rs.len() ==> (#[trigger] rs[k]) is Ok,
        accepts(join_concat(rs), w),
    ensures
        ws.len() == rs.len(),
        forall|k: int| 0 <= k < ws.len() ==> accepts(rs[k]->Ok_0, #[trigger] ws[k]),
        concat_words(ws) == w,
    decreases rs.len(),
{
    if rs.len() == 0 {
        lemma_eps_accepts(w);
        let ws = Seq::<Seq<char>>::empty();
        assert(concat_words(ws) =~= w);
        ws
    } else {
        let rest = rs.subrange(1, rs.len() as int);
        assert forall|k: int| 0 <= k < rest.len() implies (#[trigger] rest[k]) is Ok by {
            assert(rest[k] == rs[k + 1]);
        }
        let acc = join_concat(rest);
        assert(rs[0] is Ok);
        let d = rs[0]->Ok_0;
        let (w0, w1) = if acc == RE::Eps {
            (w, Seq::<char>::empty())
        } else {
            let e = RE::Sequence(Box::new(d), Box::new(acc));
            let t = choose|t: Tree| valid(t, join_concat(rs)) && flat(t) == w;
            match t {
                Tree::Pair(a, b) => (flat(*a), flat(*b)),
                _ => (w, w),
            }
        };
        assert(accepts(d, w0) && accepts(acc, w1) && w == w0 + w1) by {
            if acc == RE::Eps {
                lemma_eps_accepts(w1);
                assert(join_concat(rs) == d);
                assert(w =~= w0 + w1);
            } else {
                let e = RE::Sequence(Box::new(d), Box::new(acc));
                assert(join_concat(rs) == e);
                let t = choose|t: Tree| valid(t, join_concat(rs)) && flat(t) == w;
                match t {
                    Tree::Pair(a, b) => {
                        assert(valid(*a, d) && valid(*b, acc));
                    },
                    _ => {},
                }
            }
        }
        let wr = lemma_join_concat_words(rest, w1);
        let ws = seq![w0] + wr;
        assert(ws.subrange(1, ws.len() as int) =~= wr);
        lemma_concat_words_first(ws);
        assert forall|k: int| 0 <= k < ws.len() implies accepts(rs[k]->Ok_0, #[trigger] ws[k]) by {
            if k > 0 {
                assert(ws[k] == wr[k - 1] && rest[k - 1] == rs[k]);
            }
        }
        ws
    }
}

/// A concatenation `x1 x2 ... xn` of parts that are not anchors accepts exactly
/// the words joined from one word of each part, in order.
pub proof fn lemma_concat_meaning(ds: Seq<Syn>, ws: Seq<Seq<char>>)
    requires
        forall|k: int| 0 <= k < ds.len() ==> desugar(#[trigger] ds[k]) is Ok,
        ws.len() == ds.len(),
        forall|k: int| 0 <= k < ws.len() ==> accepts(desugar(ds[k])->Ok_0, #[trigger] ws[k]),
    ensures
        desugar(Syn::Concat(ds)) is Ok,
        accepts(desugar(Syn::Concat(ds))->Ok_0, concat_words(ws)),
{
    let rs = desugar_all(ds);
    lemma_desugar_all(ds);
    assert forall|k: int| 0 <= k < rs.len() implies (#[trigger] rs[k]) is Ok by {
        assert(rs[k] == desugar(ds[k]));
    }
    assert forall|k: int| 0 <= k < ws.len() implies accepts(rs[k]->Ok_0, #[trigger] ws[k]) by {
        assert(rs[k] == desugar(ds[k]));
    }
    lemma_join_concat_accepts(rs, ws);
}

/// A concatenation `x1 x2 ... xn` of parts that are not anchors accepts nothing but
/// words joined from one word of each part, in order.
pub proof fn lemma_concat_words(ds: Seq<Syn>, w: Seq<char>) -> (ws: Seq<Seq<char>>)
    requires
        forall|k: int| 0 <= k < ds.len() ==> desugar(#[trigger] ds[k]) is Ok,
        accepts(desugar(Syn::Concat(ds))->Ok_0, w),
    ensures
        ws.len() == ds.len(),
        forall|k: int| 0 <= k < ws.len() ==> accepts(desugar(ds[k])->Ok_0, #[trigger] ws[k]),
        concat_words(ws) == w,
{
    let rs = desugar_all(ds);
    lemma_desugar_all(ds);
    assert forall|k: int| 0 <= k < rs.len() implies (#[trigger] rs[k]) is Ok by {
        assert(rs[k] == desugar(ds[k]));
    }
    let ws = lemma_join_concat_words(rs, w);
    assert forall|k: int| 0 <= k < ws.len() implies accepts(desugar(ds[k])->Ok_0, #[trigger] ws[k]) by {
        assert(rs[k] == desugar(ds[k]));
    }
    ws
}

/// The value of the decimal digit `c`.
pub open spec fn digit_of(c: char) -> int {
    c as int - '0' as int
}

/// A character that is not reserved followed by a bound with one-digit numbers:
/// `c{d}` and `c{d,}` repeat it at least `d` times, and `c{d,e}` from `d` to `e`
/// times (to `d` times when `e` is below `d`).
pub proof fn lemma_digit_bounds(s: Seq<char>, i: int)
    requires
        0 <= i,
        i + 3 < s.len(),
        !reserved(s[i]),
        s[i + 1] == '{',
        '0' <= s[i + 2] <= '9',
    ensures
        ({
            let a = Box::new(char_item(s[i]));
            let lo = digit_of(s[i + 2]) as u64;
            &&& s[i + 3] == '}' && !(i + 4 < s.len() && s[i + 4] == '?') ==> sp_exp(s, i) == Ok::<(Syn, int), Stop>(
                (Syn::Bound(a, lo, None, true), i + 4),
            )
            &&& i + 4 < s.len() && s[i + 3] == ',' && s[i + 4] == '}' && !(i + 5 < s.len() && s[i + 5] == '?')
                ==> sp_exp(s, i) == Ok::<(Syn, int), Stop>((Syn::Bound(a, lo, None, true), i + 5))
            &&& i + 5 < s.len() && s[i + 3] == ',' && '0' <= s[i + 4] <= '9' && s[i + 5] == '}' && !(i + 6 < s.len()
                && s[i + 6] == '?') ==> sp_exp(s, i) == Ok::<(Syn, int), Stop>(
                (Syn::Bound(a, lo, Some(if digit_of(s[i + 4]) < digit_of(s[i + 2]) { lo } else { digit_of(s[i + 4]) as u64 }), true), i + 6),
            )
        }),
{
    assert(sp_anchor(s, i) == Err::<(Syn, int), Stop>(Stop::Unmatched));
    assert(sp_group(s, i) == Err::<(Syn, int), Stop>(Stop::Unmatched));
    assert(sp_charclass(s, i) == Err::<(Syn, int), Stop>(Stop::Unmatched));
    assert(sp_dot(s, i) == Err::<(Syn, int), Stop>(Stop::Unmatched));
    assert(sp_esc(s, i) == Err::<(char, int), Stop>(Stop::Unmatched));
    assert(sp_char(s, i) == Ok::<(Syn, int), Stop>((char_item(s[i]), i + 1)));
    let d = i + 2;
    assert(digits_end(s, d + 1) == d + 1 || s[d + 1] != '}');
    if s[d + 1] == '}' || s[d + 1] == ',' {
        assert(digits_end(s, d + 1) == d + 1);
        assert(digits_end(s, d) == d + 1);
        assert(digits_value(s, d, d) == 0);
        assert(digits_value(s, d, d + 1) == digit_of(s[d]));
        if s[d + 1] == ',' && d + 2 < s.len() {
            if s[d + 2] == '}' {
                assert(digits_end(s, d + 2) == d + 2);
            } else if '0' <= s[d + 2] <= '9' && d + 3 < s.len() && s[d + 3] == '}' {
                assert(digits_end(s, d + 3) == d + 3);
                assert(digits_end(s, d + 2) == d + 3);
                assert(digits_value(s, d + 2, d + 2) == 0);
                assert(digits_value(s, d + 2, d + 3) == digit_of(s[d + 2]));
            }
        }
    }
}

} // verus!
