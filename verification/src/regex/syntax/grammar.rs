use vstd::prelude::*;
use crate::regex::syntax::ext::{Syn, ascending};
use crate::regex::syntax::parser::PostAnchorOrAtom;

verus! {

/// How a parser that did not produce a value stopped.
#[derive(Debug, PartialEq, Eq, Clone, Copy)]
pub enum Stop {
    /// It failed without consuming input; an alternative may still be tried.
    Unmatched,
    /// It failed after consuming input; the whole parse fails.
    Failed,
    /// It met an octal escape whose value is no decimal digit, which it cannot convert.
    Aborted,
}

/// The result of a parser in the grammar below: a value and the position after it.
pub type Parsed<T> = Result<(T, int), Stop>;

/// Carries a stop over to a result of another type.
pub open spec fn stopped<A, B>(r: Parsed<A>) -> Parsed<B>
    recommends
        r is Err,
{
    Err(r->Err_0)
}

pub open spec fn at(s: Seq<char>, i: int, c: char) -> bool {
    0 <= i < s.len() && s[i] == c
}

pub open spec fn is_digit(c: char) -> bool {
    '0' <= c <= '9'
}

pub open spec fn digit_value(c: char) -> int {
    c as int - '0' as int
}

/// The characters that cannot stand for themselves outside a bracket.
pub open spec fn is_special(c: char) -> bool {
    ||| c == '^'
    ||| c == '.'
    ||| c == '['
    ||| c == '$'
    ||| c == '('
    ||| c == ')'
    ||| c == '|'
    ||| c == '*'
    ||| c == '+'
    ||| c == '?'
    ||| c == '{'
    ||| c == '\\'
}

/// A character that stands for itself.
pub open spec fn sp_char(s: Seq<char>, i: int) -> Parsed<Syn> {
    if 0 <= i < s.len() && !is_special(s[i]) {
        Ok((Syn::Char(s[i]), i + 1))
    } else {
        Err(Stop::Unmatched)
    }
}

pub open spec fn sp_dot(s: Seq<char>, i: int) -> Parsed<Syn> {
    if at(s, i, '.') {
        Ok((Syn::Dot, i + 1))
    } else {
        Err(Stop::Unmatched)
    }
}

/// What follows a backslash: `t`, `r`, `n`, three digits `d1 d2 d3` (read as the
/// decimal digit `8 * d2 + d3`, which must be below ten; `d1` is ignored), or any
/// other character, which stands for itself.
pub open spec fn sp_escaped(s: Seq<char>, i: int) -> Parsed<char> {
    if !(0 <= i < s.len()) {
        Err(Stop::Unmatched)
    } else if s[i] == 't' {
        Ok(('\t', i + 1))
    } else if s[i] == 'r' {
        Ok(('\r', i + 1))
    } else if s[i] == 'n' {
        Ok(('\n', i + 1))
    } else if i + 2 < s.len() && is_digit(s[i]) && is_digit(s[i + 1]) && is_digit(s[i + 2]) {
        let v = digit_value(s[i + 1]) * 8 + digit_value(s[i + 2]);
        if v < 10 {
            Ok((('0' as int + v) as char, i + 3))
        } else {
            Err(Stop::Aborted)
        }
    } else {
        Ok((s[i], i + 1))
    }
}

/// A backslash and the character it escapes.
pub open spec fn sp_esc(s: Seq<char>, i: int) -> Parsed<char> {
    if at(s, i, '\\') {
        match sp_escaped(s, i + 1) {
            Err(Stop::Unmatched) => Err(Stop::Failed),
            r => r,
        }
    } else {
        Err(Stop::Unmatched)
    }
}

/// A character inside a bracket: an escape, or any character but `]`.
pub open spec fn sp_enum_char(s: Seq<char>, i: int) -> Parsed<char> {
    match sp_esc(s, i) {
        Ok(r) => Ok(r),
        Err(Stop::Aborted) => Err(Stop::Aborted),
        _ => if 0 <= i < s.len() && s[i] != ']' {
            Ok((s[i], i + 1))
        } else {
            Err(Stop::Unmatched)
        },
    }
}

pub open spec fn is_surrogate(x: int) -> bool {
    0xD800 <= x <= 0xDFFF
}

/// The characters with codes from `a` up to, but not including, `b`, in order.
pub open spec fn code_range(a: int, b: int) -> Seq<char>
    decreases b - a,
{
    if b <= a {
        Seq::empty()
    } else if is_surrogate(b - 1) {
        code_range(a, b - 1)
    } else {
        code_range(a, b - 1).push((b - 1) as char)
    }
}

/// The characters from `a` up to, but not including, `b`, in order.
pub open spec fn char_range(a: char, b: char) -> Seq<char> {
    code_range(a as int, b as int)
}

/// `a-b` inside a bracket.
pub open spec fn sp_range(s: Seq<char>, i: int) -> Parsed<Seq<char>> {
    match sp_enum_char(s, i) {
        Ok((a, j)) => if at(s, j, '-') {
            match sp_enum_char(s, j + 1) {
                Ok((b, k)) => Ok((char_range(a, b), k)),
                Err(Stop::Aborted) => Err(Stop::Aborted),
                _ => Err(Stop::Unmatched),
            }
        } else {
            Err(Stop::Unmatched)
        },
        Err(Stop::Aborted) => Err(Stop::Aborted),
        _ => Err(Stop::Unmatched),
    }
}

/// One character inside a bracket; a `-` must be the last one.
pub open spec fn sp_char_set(s: Seq<char>, i: int) -> Parsed<Seq<char>> {
    match sp_enum_char(s, i) {
        Ok((c, j)) => if c == '-' && !at(s, j, ']') {
            Err(Stop::Failed)
        } else {
            Ok((seq![c], j))
        },
        Err(e) => Err(e),
    }
}

pub open spec fn sp_one_enum(s: Seq<char>, i: int) -> Parsed<Seq<char>> {
    match sp_range(s, i) {
        Err(Stop::Unmatched) => sp_char_set(s, i),
        r => r,
    }
}

/// `q` with `c` put in its place, when `q` is in ascending order and lacks `c`.
pub open spec fn insert_sorted(q: Seq<char>, c: char) -> Seq<char>
    decreases q.len(),
{
    if q.len() == 0 {
        seq![c]
    } else if c < q[0] {
        seq![c] + q
    } else if c == q[0] {
        q
    } else {
        seq![q[0]] + insert_sorted(q.subrange(1, q.len() as int), c)
    }
}

/// Adds the characters of `cs` to the ascending sequence `q`, one by one.
pub open spec fn add_all(q: Seq<char>, cs: Seq<char>) -> Seq<char>
    decreases cs.len(),
{
    if cs.len() == 0 {
        q
    } else {
        add_all(insert_sorted(q, cs[0]), cs.subrange(1, cs.len() as int))
    }
}

/// The items of a bracket from position `i` on, added to `acc`.
pub open spec fn sp_enum_items(s: Seq<char>, i: int, acc: Seq<char>) -> Parsed<Seq<char>>
    decreases s.len() - i,
{
    match sp_one_enum(s, i) {
        Ok((cs, j)) => if i < j <= s.len() {
            sp_enum_items(s, j, add_all(acc, cs))
        } else {
            Ok((add_all(acc, cs), j))
        },
        Err(Stop::Unmatched) => Ok((acc, i)),
        Err(e) => Err(e),
    }
}

/// The contents of a bracket and its closing `]`: an optional leading `]` or `-`,
/// then at least one item.
pub open spec fn sp_enum(s: Seq<char>, i: int) -> Parsed<Seq<char>> {
    let lead = at(s, i, ']') || at(s, i, '-');
    let j = if lead {
        i + 1
    } else {
        i
    };
    let init = if lead {
        seq![s[i]]
    } else {
        Seq::empty()
    };
    match sp_one_enum(s, j) {
        Ok((cs, k)) => {
            let items = if j < k <= s.len() {
                sp_enum_items(s, k, add_all(add_all(Seq::empty(), init), cs))
            } else {
                Ok((add_all(add_all(Seq::empty(), init), cs), k))
            };
            match items {
                Ok((set, m)) => if at(s, m, ']') {
                    Ok((set, m + 1))
                } else {
                    Err(Stop::Failed)
                },
                Err(e) => Err(e),
            }
        },
        Err(Stop::Unmatched) => if lead {
            Err(Stop::Failed)
        } else {
            Err(Stop::Unmatched)
        },
        Err(e) => Err(e),
    }
}

/// A bracket expression: `[...]`, or `[^...]` for the characters not listed.
pub open spec fn sp_charclass(s: Seq<char>, i: int) -> Parsed<Syn> {
    if !at(s, i, '[') {
        Err(Stop::Unmatched)
    } else if at(s, i + 1, '^') {
        match sp_enum(s, i + 2) {
            Ok((set, k)) => Ok((Syn::NoneOf(set), k)),
            Err(Stop::Aborted) => Err(Stop::Aborted),
            _ => Err(Stop::Failed),
        }
    } else {
        match sp_enum(s, i + 1) {
            Ok((set, k)) => Ok((Syn::Any(set), k)),
            Err(Stop::Aborted) => Err(Stop::Aborted),
            _ => Err(Stop::Failed),
        }
    }
}

pub open spec fn sp_anchor(s: Seq<char>, i: int) -> Parsed<Syn> {
    if at(s, i, '^') {
        Ok((Syn::Carat, i + 1))
    } else if at(s, i, '$') {
        Ok((Syn::Dollar, i + 1))
    } else {
        Err(Stop::Unmatched)
    }
}

/// The first position at or after `i` that does not hold a digit.
pub open spec fn digits_end(s: Seq<char>, i: int) -> int
    decreases s.len() - i,
{
    if 0 <= i < s.len() && is_digit(s[i]) {
        digits_end(s, i + 1)
    } else {
        i
    }
}

/// The number written in decimal by `s[i..j]`.
pub open spec fn digits_value(s: Seq<char>, i: int, j: int) -> int
    decreases j - i,
{
    if j <= i {
        0
    } else {
        digits_value(s, i, j - 1) * 10 + digit_value(s[j - 1])
    }
}

/// The inside of `{...}`: a lower bound, then optionally `,` and an upper bound.
/// An upper bound that is missing or does not fit is absent; one below the lower
/// bound is raised to it. A lower bound that does not fit fails.
pub open spec fn sp_bound_spec(s: Seq<char>, i: int) -> Option<(u64, Option<u64>, int)> {
    let j = digits_end(s, i);
    let lo = digits_value(s, i, j);
    if j == i || lo > u64::MAX {
        None
    } else if at(s, j, ',') {
        let k = digits_end(s, j + 1);
        let hi = digits_value(s, j + 1, k);
        if k == j + 1 || hi > u64::MAX {
            Some((lo as u64, None, k))
        } else if lo <= hi {
            Some((lo as u64, Some(hi as u64), k))
        } else {
            Some((lo as u64, Some(lo as u64), k))
        }
    } else {
        Some((lo as u64, None, j))
    }
}

/// The suffix after an anchor or an atom: `*`, `+`, `?` or a bound `{...}`, each
/// followed by `?` when it is not greedy; or nothing.
pub open spec fn sp_post(s: Seq<char>, i: int) -> (PostAnchorOrAtom, int) {
    if at(s, i, '*') {
        if at(s, i + 1, '?') {
            (PostAnchorOrAtom::Star(false), i + 2)
        } else {
            (PostAnchorOrAtom::Star(true), i + 1)
        }
    } else if at(s, i, '+') {
        if at(s, i + 1, '?') {
            (PostAnchorOrAtom::Plus(false), i + 2)
        } else {
            (PostAnchorOrAtom::Plus(true), i + 1)
        }
    } else if at(s, i, '?') {
        if at(s, i + 1, '?') {
            (PostAnchorOrAtom::Opt(false), i + 2)
        } else {
            (PostAnchorOrAtom::Opt(true), i + 1)
        }
    } else if at(s, i, '{') {
        match sp_bound_spec(s, i + 1) {
            Some((lo, hi, j)) => if at(s, j, '}') {
                if at(s, j + 1, '?') {
                    (PostAnchorOrAtom::Bound(lo, hi, false), j + 2)
                } else {
                    (PostAnchorOrAtom::Bound(lo, hi, true), j + 1)
                }
            } else {
                (PostAnchorOrAtom::Nothing, i)
            },
            None => (PostAnchorOrAtom::Nothing, i),
        }
    } else {
        (PostAnchorOrAtom::Nothing, i)
    }
}

/// An anchor or atom with its suffix applied.
pub open spec fn apply_post(a: Syn, p: PostAnchorOrAtom) -> Syn {
    match p {
        PostAnchorOrAtom::Nothing => a,
        PostAnchorOrAtom::Bound(l, h, g) => Syn::Bound(Box::new(a), l, h, g),
        PostAnchorOrAtom::Opt(g) => Syn::Opt(Box::new(a), g),
        PostAnchorOrAtom::Plus(g) => Syn::Plus(Box::new(a), g),
        PostAnchorOrAtom::Star(g) => Syn::Star(Box::new(a), g),
    }
}

/// An extended regular expression: branches separated by `|`.
pub open spec fn sp_ere(s: Seq<char>, i: int) -> Parsed<Syn>
    decreases s.len() - i, 6nat,
{
    match sp_branch(s, i) {
        Ok((b, j)) => if i < j <= s.len() {
            match sp_ere_rest(s, j, seq![b]) {
                Ok((bs, k)) => Ok((Syn::Or(bs), k)),
                Err(e) => Err(e),
            }
        } else {
            Ok((Syn::Or(seq![b]), j))
        },
        Err(e) => Err(e),
    }
}

/// The further branches of an expression, each after a `|`, added to `acc`.
pub open spec fn sp_ere_rest(s: Seq<char>, i: int, acc: Seq<Syn>) -> Parsed<Seq<Syn>>
    decreases s.len() - i, 6nat,
{
    if at(s, i, '|') {
        match sp_branch(s, i + 1) {
            Ok((b, j)) => if i < j <= s.len() {
                sp_ere_rest(s, j, acc.push(b))
            } else {
                Ok((acc.push(b), j))
            },
            Err(Stop::Unmatched) => Err(Stop::Failed),
            Err(e) => Err(e),
        }
    } else {
        Ok((acc, i))
    }
}

/// A branch: one or more expressions in sequence.
pub open spec fn sp_branch(s: Seq<char>, i: int) -> Parsed<Syn>
    decreases s.len() - i, 5nat,
{
    match sp_exp(s, i) {
        Ok((x, j)) => if i < j <= s.len() {
            match sp_branch_rest(s, j, seq![x]) {
                Ok((xs, k)) => Ok((Syn::Concat(xs), k)),
                Err(e) => Err(e),
            }
        } else {
            Ok((Syn::Concat(seq![x]), j))
        },
        Err(e) => Err(e),
    }
}

/// The further expressions of a branch, added to `acc`.
pub open spec fn sp_branch_rest(s: Seq<char>, i: int, acc: Seq<Syn>) -> Parsed<Seq<Syn>>
    decreases s.len() - i, 5nat,
{
    match sp_exp(s, i) {
        Ok((x, j)) => if i < j <= s.len() {
            sp_branch_rest(s, j, acc.push(x))
        } else {
            Ok((acc.push(x), j))
        },
        Err(Stop::Unmatched) => Ok((acc, i)),
        Err(e) => Err(e),
    }
}

/// An anchor or an atom, and its suffix.
pub open spec fn sp_exp(s: Seq<char>, i: int) -> Parsed<Syn>
    decreases s.len() - i, 4nat,
{
    let a = match sp_anchor(s, i) {
        Err(Stop::Unmatched) => sp_atom(s, i),
        r => r,
    };
    match a {
        Ok((x, j)) => {
            let (p, k) = sp_post(s, j);
            Ok((apply_post(x, p), k))
        },
        Err(e) => Err(e),
    }
}

/// A group, a bracket expression, `.`, an escape or a plain character.
pub open spec fn sp_atom(s: Seq<char>, i: int) -> Parsed<Syn>
    decreases s.len() - i, 3nat,
{
    match sp_group(s, i) {
        Err(Stop::Unmatched) => match sp_charclass(s, i) {
            Err(Stop::Unmatched) => match sp_dot(s, i) {
                Err(Stop::Unmatched) => match sp_esc(s, i) {
                    Ok((c, j)) => Ok((Syn::Escape(c), j)),
                    Err(Stop::Unmatched) => sp_char(s, i),
                    Err(e) => Err(e),
                },
                r => r,
            },
            r => r,
        },
        r => r,
    }
}

/// `(?:e)`, which stands for `e`, or `(e)`, a marking group.
pub open spec fn sp_group(s: Seq<char>, i: int) -> Parsed<Syn>
    decreases s.len() - i, 2nat,
{
    if !at(s, i, '(') {
        Err(Stop::Unmatched)
    } else {
        let non_marking = if at(s, i + 1, '?') && at(s, i + 2, ':') {
            sp_ere(s, i + 3)
        } else {
            Err(Stop::Unmatched)
        };
        let inner = match non_marking {
            Ok((x, k)) => Ok((x, k)),
            Err(Stop::Aborted) => Err(Stop::Aborted),
            _ => match sp_ere(s, i + 1) {
                Ok((x, k)) => Ok((Syn::Grp(Box::new(x)), k)),
                Err(Stop::Aborted) => Err(Stop::Aborted),
                _ => Err(Stop::Failed),
            },
        };
        match inner {
            Ok((x, k)) => if at(s, k, ')') {
                Ok((x, k + 1))
            } else {
                Err(Stop::Failed)
            },
            Err(e) => Err(e),
        }
    }
}


/// Inserting `c` at the first position whose character is not below it keeps an
/// ascending sequence ascending and adds exactly `c`.
proof fn lemma_insert_at(q: Seq<char>, c: char, k: int)
    requires
        ascending(q),
        0 <= k <= q.len(),
        forall|j: int| 0 <= j < k ==> q[j] < c,
        k < q.len() ==> c < q[k],
    ensures
        ascending(q.insert(k, c)),
        forall|x: char| q.insert(k, c).contains(x) <==> (q.contains(x) || x == c),
{
    let r = q.insert(k, c);
    assert forall|i: int, j: int| 0 <= i < j < r.len() implies r[i] < r[j] by {
        if j < k {
        } else if j == k {
            assert(r[i] == q[i]);
        } else if i < k {
            assert(r[j] == q[j - 1]);
        } else if i == k {
            assert(r[j] == q[j - 1]);
        } else {
            assert(r[i] == q[i - 1] && r[j] == q[j - 1]);
        }
    }
    assert forall|x: char| r.contains(x) <==> (q.contains(x) || x == c) by {
        if r.contains(x) {
            let i = choose|i: int| 0 <= i < r.len() && r[i] == x;
            if i < k {
                assert(q[i] == x);
            } else if i > k {
                assert(q[i - 1] == x);
            }
        }
        if q.contains(x) {
            let i = choose|i: int| 0 <= i < q.len() && q[i] == x;
            if i < k {
                assert(r[i] == x);
            } else {
                assert(r[i + 1] == x);
            }
        }
        if x == c {
            assert(r[k] == x);
        }
    }
}

/// `insert_sorted` puts `c` at the first position whose character is not below it.
pub proof fn lemma_insert_sorted_at(q: Seq<char>, c: char, k: int)
    requires
        ascending(q),
        0 <= k <= q.len(),
        forall|j: int| 0 <= j < k ==> q[j] < c,
        k < q.len() ==> c <= q[k],
    ensures
        insert_sorted(q, c) == (if k < q.len() && q[k] == c {
            q
        } else {
            q.insert(k, c)
        }),
        ascending(insert_sorted(q, c)),
        forall|x: char| insert_sorted(q, c).contains(x) <==> (q.contains(x) || x == c),
    decreases q.len(),
{
    let r = insert_sorted(q, c);
    if q.len() == 0 {
        assert(r =~= q.insert(k, c));
    } else if k == 0 {
        if c < q[0] {
            assert(r =~= q.insert(k, c));
        }
    } else {
        let t = q.subrange(1, q.len() as int);
        assert(q[0] < c);
        assert forall|j: int| 0 <= j < k - 1 implies t[j] < c by {
            assert(t[j] == q[j + 1]);
        }
        lemma_insert_sorted_at(t, c, k - 1);
        assert(r == seq![q[0]] + insert_sorted(t, c));
        if k < q.len() && q[k] == c {
            assert(r =~= q);
        } else {
            assert(r =~= q.insert(k, c));
        }
    }
    if k < q.len() && q[k] == c {
        assert(r == q);
        assert(q.contains(c)) by {
            assert(q[k] == c);
        }
    } else {
        lemma_insert_at(q, c, k);
    }
}

} // verus!
