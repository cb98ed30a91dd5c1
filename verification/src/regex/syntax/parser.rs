use vstd::prelude::*;
use std::rc::Rc;
use crate::regex::syntax::ext::{
    Ext, Syn, syn_of, syns_of, lemma_syns_of, sets_sorted, all_sets_sorted, lemma_all_sets_sorted_push,
    ascending,
};
use crate::regex::syntax::grammar::{
    Stop, Parsed, at, is_digit, digit_value, is_surrogate, sp_char, sp_dot,
    sp_escaped, sp_esc, sp_enum_char, code_range, char_range, sp_range, sp_char_set, sp_one_enum,
    insert_sorted, add_all, sp_enum_items, sp_enum, sp_charclass, sp_anchor, digits_end,
    digits_value, sp_bound_spec, sp_post, apply_post, sp_ere, sp_ere_rest, sp_branch,
    sp_branch_rest, sp_exp, sp_atom, sp_group, lemma_insert_sorted_at,
};

verus! {

/// What a suffix after an anchor or an atom asks for.
#[derive(Debug, PartialEq, Eq, Clone, Copy)]
pub enum PostAnchorOrAtom {
    Opt(bool),
    Plus(bool),
    Star(bool),
    Bound(u64, Option<u64>, bool),
    Nothing,
}

/// A parse of a value of type `T` from a character vector: the value and the
/// position after it, or how the parser stopped.
pub type ParseResult<T> = Result<(T, usize), Stop>;

/// Whether an executable result is the grammar's result `sp`.
pub open spec fn agrees_char(r: ParseResult<char>, sp: Parsed<char>) -> bool {
    match r {
        Ok((c, j)) => sp == Ok::<(char, int), Stop>((c, j as int)),
        Err(e) => sp == Err::<(char, int), Stop>(e),
    }
}

pub open spec fn agrees_chars(r: ParseResult<Vec<char>>, sp: Parsed<Seq<char>>) -> bool {
    match r {
        Ok((cs, j)) => sp == Ok::<(Seq<char>, int), Stop>((cs@, j as int)),
        Err(e) => sp == Err::<(Seq<char>, int), Stop>(e),
    }
}

/// Whether a successful parse from position `i` consumed at least one character and
/// stayed within the `n` characters of the input.
pub open spec fn advances<T>(r: ParseResult<T>, i: usize, n: usize) -> bool {
    r is Ok ==> i < r->Ok_0.1 <= n
}

pub open spec fn agrees_ext(r: ParseResult<Ext>, sp: Parsed<Syn>) -> bool {
    match r {
        Ok((e, j)) => sp == Ok::<(Syn, int), Stop>((e@, j as int)),
        Err(st) => sp == Err::<(Syn, int), Stop>(st),
    }
}

/// `char::from_u32`: the character with code `x`; `None` when `x` is above
/// `0x10FFFF` or a surrogate code, which name no character.
#[verifier::external_body]
fn char_from_code(x: u32) -> (res: Option<char>)
    ensures
        match res {
            Some(c) => c as int == x as int,
            None => x > 0x10FFFF || is_surrogate(x as int),
        },
{
    char::from_u32(x)
}

/// The character at position `i`.
fn char_at(s: &Vec<char>, i: usize) -> (c: char)
    requires
        i < s.len(),
    ensures
        c == s@[i as int],
{
    s[i]
}

/// The character at position `i`, if there is one and it is `c`.
fn token(s: &Vec<char>, i: usize, c: char) -> (res: bool)
    ensures
        res == at(s@, i as int, c),
        res ==> i < s.len(),
{
    i < s.len() && s[i] == c
}

/// A character that stands for itself.
pub fn p_char(s: &Vec<char>, i: usize) -> (res: ParseResult<Ext>)
    ensures
        advances(res, i, s.len()),
        agrees_ext(res, sp_char(s@, i as int)),
{
    if i < s.len() {
        let c = char_at(s, i);
        let special = c == '^' || c == '.' || c == '[' || c == '$' || c == '(' || c == ')'
            || c == '|' || c == '*' || c == '+' || c == '?' || c == '{' || c == '\\';
        if !special {
            return Ok((Ext::Char(c), i + 1));
        }
    }
    Err(Stop::Unmatched)
}

/// `.`
pub fn p_dot(s: &Vec<char>, i: usize) -> (res: ParseResult<Ext>)
    ensures
        advances(res, i, s.len()),
        agrees_ext(res, sp_dot(s@, i as int)),
{
    if token(s, i, '.') {
        Ok((Ext::Dot, i + 1))
    } else {
        Err(Stop::Unmatched)
    }
}

/// `^` or `$`.
pub fn p_anchor(s: &Vec<char>, i: usize) -> (res: ParseResult<Ext>)
    ensures
        advances(res, i, s.len()),
        agrees_ext(res, sp_anchor(s@, i as int)),
{
    if token(s, i, '^') {
        Ok((Ext::Carat, i + 1))
    } else if token(s, i, '$') {
        Ok((Ext::Dollar, i + 1))
    } else {
        Err(Stop::Unmatched)
    }
}

/// `?`
pub fn p_question_mark(s: &Vec<char>, i: usize) -> (res: ParseResult<char>)
    ensures
        advances(res, i, s.len()),
        agrees_char(res, if at(s@, i as int, '?') { Ok(('?', i + 1)) } else { Err(Stop::Unmatched) }),
{
    if token(s, i, '?') {
        Ok(('?', i + 1))
    } else {
        Err(Stop::Unmatched)
    }
}

/// `:`
pub fn p_colon(s: &Vec<char>, i: usize) -> (res: ParseResult<char>)
    ensures
        advances(res, i, s.len()),
        agrees_char(res, if at(s@, i as int, ':') { Ok((':', i + 1)) } else { Err(Stop::Unmatched) }),
{
    if token(s, i, ':') {
        Ok((':', i + 1))
    } else {
        Err(Stop::Unmatched)
    }
}

/// `[`
pub fn p_lbracket(s: &Vec<char>, i: usize) -> (res: ParseResult<char>)
    ensures
        advances(res, i, s.len()),
        agrees_char(res, if at(s@, i as int, '[') { Ok(('[', i + 1)) } else { Err(Stop::Unmatched) }),
{
    if token(s, i, '[') {
        Ok(('[', i + 1))
    } else {
        Err(Stop::Unmatched)
    }
}

/// `]`
pub fn p_rbracket(s: &Vec<char>, i: usize) -> (res: ParseResult<char>)
    ensures
        advances(res, i, s.len()),
        agrees_char(res, if at(s@, i as int, ']') { Ok((']', i + 1)) } else { Err(Stop::Unmatched) }),
{
    if token(s, i, ']') {
        Ok((']', i + 1))
    } else {
        Err(Stop::Unmatched)
    }
}

/// `t`, standing for a tab.
pub fn p_tab(s: &Vec<char>, i: usize) -> (res: ParseResult<char>)
    ensures
        advances(res, i, s.len()),
        agrees_char(res, if at(s@, i as int, 't') { Ok(('\t', i + 1)) } else { Err(Stop::Unmatched) }),
{
    if token(s, i, 't') {
        Ok(('\t', i + 1))
    } else {
        Err(Stop::Unmatched)
    }
}

/// `r`, standing for a carriage return.
pub fn p_return(s: &Vec<char>, i: usize) -> (res: ParseResult<char>)
    ensures
        advances(res, i, s.len()),
        agrees_char(res, if at(s@, i as int, 'r') { Ok(('\r', i + 1)) } else { Err(Stop::Unmatched) }),
{
    if token(s, i, 'r') {
        Ok(('\r', i + 1))
    } else {
        Err(Stop::Unmatched)
    }
}

/// `n`, standing for a newline.
pub fn p_newline(s: &Vec<char>, i: usize) -> (res: ParseResult<char>)
    ensures
        advances(res, i, s.len()),
        agrees_char(res, if at(s@, i as int, 'n') { Ok(('\n', i + 1)) } else { Err(Stop::Unmatched) }),
{
    if token(s, i, 'n') {
        Ok(('\n', i + 1))
    } else {
        Err(Stop::Unmatched)
    }
}

/// Whether position `i` holds a decimal digit.
fn digit_at(s: &Vec<char>, i: usize) -> (res: bool)
    ensures
        res == (0 <= i < s@.len() && is_digit(s@[i as int])),
{
    i < s.len() && '0' <= s[i] && s[i] <= '9'
}

/// Three digits `d1 d2 d3`, read as the decimal digit `8 * d2 + d3`; a value of ten
/// or more cannot be converted and aborts the parse.
pub fn p_oct_ascii(s: &Vec<char>, i: usize) -> (res: ParseResult<char>)
    ensures
        advances(res, i, s.len()),
        agrees_char(
            res,
            if i + 2 < s@.len() && is_digit(s@[i as int]) && is_digit(s@[i + 1]) && is_digit(
                s@[i + 2],
            ) {
                let v = digit_value(s@[i + 1]) * 8 + digit_value(s@[i + 2]);
                if v < 10 {
                    Ok((('0' as int + v) as char, i + 3))
                } else {
                    Err(Stop::Aborted)
                }
            } else {
                Err(Stop::Unmatched)
            },
        ),
{
    if i < s.len() && s.len() - i > 2 && digit_at(s, i) && digit_at(s, i + 1) && digit_at(s, i + 2) {
        let d2 = (s[i + 1] as u32) - ('0' as u32);
        let d3 = (s[i + 2] as u32) - ('0' as u32);
        let v = d2 * 8 + d3;
        if v < 10 {
            let c = ((v + 48) as u8) as char;
            Ok((c, i + 3))
        } else {
            Err(Stop::Aborted)
        }
    } else {
        Err(Stop::Unmatched)
    }
}

/// What a backslash escapes (see `sp_escaped`).
fn p_escaped(s: &Vec<char>, i: usize) -> (res: ParseResult<char>)
    ensures
        advances(res, i, s.len()),
        agrees_char(res, sp_escaped(s@, i as int)),
{
    if let Ok(r) = p_tab(s, i) {
        return Ok(r);
    }
    if let Ok(r) = p_return(s, i) {
        return Ok(r);
    }
    if let Ok(r) = p_newline(s, i) {
        return Ok(r);
    }
    match p_oct_ascii(s, i) {
        Ok(r) => Ok(r),
        Err(Stop::Aborted) => Err(Stop::Aborted),
        Err(_) => {
            if i < s.len() {
                Ok((char_at(s, i), i + 1))
            } else {
                Err(Stop::Unmatched)
            }
        },
    }
}

/// A backslash and the character it escapes.
pub fn p_esc_char_(s: &Vec<char>, i: usize) -> (res: ParseResult<char>)
    ensures
        advances(res, i, s.len()),
        agrees_char(res, sp_esc(s@, i as int)),
{
    if token(s, i, '\\') {
        match p_escaped(s, i + 1) {
            Err(Stop::Unmatched) => Err(Stop::Failed),
            r => r,
        }
    } else {
        Err(Stop::Unmatched)
    }
}

/// An escaped character as an atom.
pub fn p_esc_char(s: &Vec<char>, i: usize) -> (res: ParseResult<Ext>)
    ensures
        advances(res, i, s.len()),
        match sp_esc(s@, i as int) {
            Ok((c, j)) => res == Ok::<(Ext, usize), Stop>((Ext::Escape(c), j as usize)),
            Err(e) => res == Err::<(Ext, usize), Stop>(e),
        },
{
    match p_esc_char_(s, i) {
        Ok((c, j)) => Ok((Ext::Escape(c), j)),
        Err(e) => Err(e),
    }
}

/// A character inside a bracket: an escape, or any character but `]`.
fn p_enum_char(s: &Vec<char>, i: usize) -> (res: ParseResult<char>)
    ensures
        advances(res, i, s.len()),
        agrees_char(res, sp_enum_char(s@, i as int)),
{
    match p_esc_char_(s, i) {
        Ok(r) => Ok(r),
        Err(Stop::Aborted) => Err(Stop::Aborted),
        Err(_) => {
            if i < s.len() && s[i] != ']' {
                Ok((char_at(s, i), i + 1))
            } else {
                Err(Stop::Unmatched)
            }
        },
    }
}

/// `add_all` of one more character.
proof fn lemma_add_all_push(q: Seq<char>, cs: Seq<char>, c: char)
    ensures
        add_all(q, cs.push(c)) == insert_sorted(add_all(q, cs), c),
    decreases cs.len(),
{
    if cs.len() == 0 {
        let u = cs.push(c);
        assert(u.subrange(1, 1) =~= Seq::<char>::empty());
        assert(u[0] == c);
        assert(add_all(insert_sorted(q, c), u.subrange(1, 1)) == insert_sorted(q, c));
    } else {
        let t = cs.subrange(1, cs.len() as int);
        let u = cs.push(c);
        assert(u.subrange(1, u.len() as int) =~= t.push(c));
        assert(u[0] == cs[0]);
        lemma_add_all_push(insert_sorted(q, cs[0]), t, c);
        assert(add_all(q, u) == add_all(insert_sorted(q, cs[0]), t.push(c)));
        assert(add_all(q, cs) == add_all(insert_sorted(q, cs[0]), t));
    }
}

/// Puts `c` into the ascending vector `q` (see `insert_sorted`).
fn insert_char(q: &mut Vec<char>, c: char)
    requires
        ascending(old(q)@),
    ensures
        final(q)@ == insert_sorted(old(q)@, c),
        ascending(final(q)@),
{
    let mut k: usize = q.len();
    while k > 0 && q[k - 1] >= c
        invariant
            k <= q.len(),
            ascending(q@),
            forall|j: int| k <= j < q@.len() ==> c <= q@[j],
        decreases k,
    {
        k = k - 1;
    }
    proof {
        assert forall|j: int| 0 <= j < k implies q@[j] < c by {
            if k > 0 && j < k - 1 {
                assert(q@[j] < q@[k - 1]);
            }
        }
        lemma_insert_sorted_at(q@, c, k as int);
    }
    if k < q.len() && q[k] == c {
    } else {
        q.insert(k, c);
    }
}

/// Adds the characters of `cs` to `q`.
fn insert_all(q: &mut Vec<char>, cs: &Vec<char>)
    requires
        ascending(old(q)@),
    ensures
        final(q)@ == add_all(old(q)@, cs@),
        ascending(final(q)@),
{
    let ghost q0 = q@;
    let mut i: usize = 0;
    while i < cs.len()
        invariant
            i <= cs.len(),
            ascending(q@),
            q@ == add_all(q0, cs@.subrange(0, i as int)),
        decreases cs.len() - i,
    {
        proof {
            assert(cs@.subrange(0, i + 1) =~= cs@.subrange(0, i as int).push(cs@[i as int]));
            lemma_add_all_push(q0, cs@.subrange(0, i as int), cs@[i as int]);
        }
        insert_char(q, cs[i]);
        i = i + 1;
    }
    proof {
        assert(cs@.subrange(0, cs@.len() as int) =~= cs@);
    }
}

/// The characters from `a` up to, but not including, `b`.
fn range_chars(a: char, b: char) -> (res: Vec<char>)
    ensures
        res@ == char_range(a, b),
{
    let lo = a as u32;
    let hi = b as u32;
    let mut v: Vec<char> = Vec::new();
    let mut x: u32 = lo;
    proof {
        assert(code_range(a as int, a as int) =~= Seq::<char>::empty());
    }
    while x < hi
        invariant
            lo == a as u32,
            hi == b as u32,
            hi <= 0x10FFFF,
            lo <= x,
            x <= hi || x == lo,
            v@ == code_range(lo as int, x as int),
        decreases hi - x,
    {
        if x < 0xD800 || x > 0xDFFF {
            match char_from_code(x) {
                Some(c) => {
                    v.push(c);
                },
                None => {},
            }
        }
        x = x + 1;
    }
    proof {
        if hi <= lo {
            assert(code_range(lo as int, hi as int) =~= Seq::<char>::empty());
        }
    }
    v
}

/// `a-b` inside a bracket: the characters from `a` up to, but not including, `b`.
pub fn p_range(s: &Vec<char>, i: usize) -> (res: ParseResult<Vec<char>>)
    requires
        i <= s.len(),
    ensures
        advances(res, i, s.len()),
        agrees_chars(res, sp_range(s@, i as int)),
{
    match p_enum_char(s, i) {
        Ok((a, j)) => {
            if token(s, j, '-') {
                match p_enum_char(s, j + 1) {
                    Ok((b, k)) => Ok((range_chars(a, b), k)),
                    Err(Stop::Aborted) => Err(Stop::Aborted),
                    Err(_) => Err(Stop::Unmatched),
                }
            } else {
                Err(Stop::Unmatched)
            }
        },
        Err(Stop::Aborted) => Err(Stop::Aborted),
        Err(_) => Err(Stop::Unmatched),
    }
}

/// One character inside a bracket; a `-` must be the last one.
pub fn p_char_set(s: &Vec<char>, i: usize) -> (res: ParseResult<Vec<char>>)
    ensures
        advances(res, i, s.len()),
        agrees_chars(res, sp_char_set(s@, i as int)),
{
    match p_enum_char(s, i) {
        Ok((c, j)) => {
            if c == '-' && !token(s, j, ']') {
                Err(Stop::Failed)
            } else {
                let mut v: Vec<char> = Vec::new();
                v.push(c);
                proof {
                    assert(v@ =~= seq![c]);
                }
                Ok((v, j))
            }
        },
        Err(e) => Err(e),
    }
}

/// A range or a single character inside a bracket.
pub fn p_one_enum(s: &Vec<char>, i: usize) -> (res: ParseResult<Vec<char>>)
    requires
        i <= s.len(),
    ensures
        advances(res, i, s.len()),
        agrees_chars(res, sp_one_enum(s@, i as int)),
{
    match p_range(s, i) {
        Err(Stop::Unmatched) => p_char_set(s, i),
        r => r,
    }
}


/// The items of a bracket from position `i` on, added to `acc`.
fn p_enum_items(s: &Vec<char>, i: usize, acc0: Vec<char>) -> (res: ParseResult<Vec<char>>)
    requires
        i <= s.len(),
        ascending(acc0@),
    ensures
        agrees_chars(res, sp_enum_items(s@, i as int, acc0@)),
        res is Ok ==> ascending(res->Ok_0.0@) && i <= res->Ok_0.1 <= s.len(),
{
    let ghost goal = sp_enum_items(s@, i as int, acc0@);
    let mut acc = acc0;
    let mut m: usize = i;
    loop
        invariant
            i <= m <= s.len(),
            goal == sp_enum_items(s@, i as int, acc0@),
            ascending(acc@),
            sp_enum_items(s@, m as int, acc@) == goal,
        decreases s.len() - m,
    {
        match p_one_enum(s, m) {
            Ok((cs, m2)) => {
                insert_all(&mut acc, &cs);
                m = m2;
            },
            Err(Stop::Unmatched) => {
                return Ok((acc, m));
            },
            Err(e) => {
                return Err(e);
            },
        }
    }
}

/// The contents of a bracket and its closing `]` (see `sp_enum`); the characters come
/// out in ascending order, each once.
pub fn p_enum(s: &Vec<char>, i: usize) -> (res: ParseResult<Vec<char>>)
    requires
        i <= s.len(),
    ensures
        agrees_chars(res, sp_enum(s@, i as int)),
        advances(res, i, s.len()),
        res is Ok ==> ascending(res->Ok_0.0@),
{
    let lead = token(s, i, ']') || token(s, i, '-');
    let j = if lead {
        i + 1
    } else {
        i
    };
    let mut set: Vec<char> = Vec::new();
    let ghost init: Seq<char> = if lead {
        seq![s@[i as int]]
    } else {
        Seq::empty()
    };
    proof {
        assert(ascending(set@));
        if lead {
            assert(init.subrange(1, 1) =~= Seq::<char>::empty());
            assert(add_all(insert_sorted(Seq::<char>::empty(), init[0]), init.subrange(1, 1))
                == insert_sorted(Seq::<char>::empty(), init[0]));
        } else {
            assert(add_all(Seq::<char>::empty(), init) == Seq::<char>::empty());
        }
    }
    if lead {
        insert_char(&mut set, char_at(s, i));
    }
    assert(set@ == add_all(Seq::<char>::empty(), init));
    match p_one_enum(s, j) {
        Ok((cs, k)) => {
            insert_all(&mut set, &cs);
            match p_enum_items(s, k, set) {
                Ok((set, m)) => {
                    if token(s, m, ']') {
                        Ok((set, m + 1))
                    } else {
                        Err(Stop::Failed)
                    }
                },
                Err(e) => Err(e),
            }
        },
        Err(Stop::Unmatched) => {
            if lead {
                Err(Stop::Failed)
            } else {
                Err(Stop::Unmatched)
            }
        },
        Err(e) => Err(e),
    }
}

/// A bracket expression: `[...]`, or `[^...]` for the characters not listed.
pub fn p_charclass(s: &Vec<char>, i: usize) -> (res: ParseResult<Ext>)
    requires
        i <= s.len(),
    ensures
        res is Ok ==> sets_sorted(res->Ok_0.0@),
        agrees_ext(res, sp_charclass(s@, i as int)),
        advances(res, i, s.len()),
{
    if p_lbracket(s, i).is_err() {
        Err(Stop::Unmatched)
    } else if token(s, i + 1, '^') {
        match p_enum(s, i + 2) {
            Ok((set, k)) => Ok((Ext::NoneOf(set), k)),
            Err(Stop::Aborted) => Err(Stop::Aborted),
            Err(_) => Err(Stop::Failed),
        }
    } else {
        match p_enum(s, i + 1) {
            Ok((set, k)) => Ok((Ext::Any(set), k)),
            Err(Stop::Aborted) => Err(Stop::Aborted),
            Err(_) => Err(Stop::Failed),
        }
    }
}

/// The digits from position `i` on: where they end, and their value when it fits
/// in a `u64`.
fn read_number(s: &Vec<char>, i: usize) -> (res: (usize, Option<u64>))
    requires
        i <= s.len(),
    ensures
        res.0 == digits_end(s@, i as int),
        i <= res.0 <= s.len(),
        match res.1 {
            Some(v) => v as int == digits_value(s@, i as int, res.0 as int),
            None => digits_value(s@, i as int, res.0 as int) > u64::MAX,
        },
{
    let mut j: usize = i;
    let mut val: Option<u64> = Some(0);
    while digit_at(s, j)
        invariant
            i <= j <= s.len(),
            digits_end(s@, j as int) == digits_end(s@, i as int),
            digits_value(s@, i as int, j as int) >= 0,
            match val {
                Some(v) => v as int == digits_value(s@, i as int, j as int),
                None => digits_value(s@, i as int, j as int) > u64::MAX,
            },
        decreases s.len() - j,
    {
        let d = (s[j] as u32 - '0' as u32) as u64;
        proof {
            assert(digits_value(s@, i as int, j + 1) == digits_value(s@, i as int, j as int) * 10
                + digit_value(s@[j as int]));
        }
        val = match val {
            Some(v) => match v.checked_mul(10) {
                Some(w) => w.checked_add(d),
                None => None,
            },
            None => None,
        };
        j = j + 1;
    }
    (j, val)
}

/// The inside of `{...}` (see `sp_bound_spec`).
pub fn p_bound_spec(s: &Vec<char>, i: usize) -> (res: Option<(u64, Option<u64>, usize)>)
    requires
        i <= s.len(),
    ensures
        match res {
            Some((lo, hi, k)) => sp_bound_spec(s@, i as int) == Some((lo, hi, k as int)) && i <= k
                <= s.len(),
            None => sp_bound_spec(s@, i as int) is None,
        },
{
    let (j, lo) = read_number(s, i);
    if j == i {
        return None;
    }
    match lo {
        None => None,
        Some(lo) => {
            if token(s, j, ',') {
                let (k, hi) = read_number(s, j + 1);
                if k == j + 1 {
                    Some((lo, None, k))
                } else {
                    match hi {
                        None => Some((lo, None, k)),
                        Some(h) => {
                            if lo <= h {
                                Some((lo, Some(h), k))
                            } else {
                                Some((lo, Some(lo), k))
                            }
                        },
                    }
                }
            } else {
                Some((lo, None, j))
            }
        },
    }
}

/// `{...}?`, a bound that is not greedy.
pub fn p_bound_non_greedy(s: &Vec<char>, i: usize) -> (res: Option<(PostAnchorOrAtom, usize)>)
    requires
        i <= s.len(),
    ensures
        match res {
            Some((p, k)) => at(s@, i as int, '{') && i < k <= s.len() && match sp_bound_spec(
                s@,
                i + 1,
            ) {
                Some((lo, hi, j)) => at(s@, j, '}') && at(s@, j + 1, '?') && p
                    == PostAnchorOrAtom::Bound(lo, hi, false) && k == j + 2,
                None => false,
            },
            None => !at(s@, i as int, '{') || match sp_bound_spec(s@, i + 1) {
                Some((lo, hi, j)) => !(at(s@, j, '}') && at(s@, j + 1, '?')),
                None => true,
            },
        },
{
    if !token(s, i, '{') {
        return None;
    }
    match p_bound_spec(s, i + 1) {
        Some((lo, hi, j)) => {
            if token(s, j, '}') && token(s, j + 1, '?') {
                Some((PostAnchorOrAtom::Bound(lo, hi, false), j + 2))
            } else {
                None
            }
        },
        None => None,
    }
}

/// The suffix after an anchor or an atom (see `sp_post`).
pub fn p_post_anchor_or_atom(s: &Vec<char>, i: usize) -> (res: (PostAnchorOrAtom, usize))
    requires
        i <= s.len(),
    ensures
        (res.0, res.1 as int) == sp_post(s@, i as int),
        i <= res.1 <= s.len(),
{
    if token(s, i, '*') {
        if token(s, i + 1, '?') {
            (PostAnchorOrAtom::Star(false), i + 2)
        } else {
            (PostAnchorOrAtom::Star(true), i + 1)
        }
    } else if token(s, i, '+') {
        if token(s, i + 1, '?') {
            (PostAnchorOrAtom::Plus(false), i + 2)
        } else {
            (PostAnchorOrAtom::Plus(true), i + 1)
        }
    } else if token(s, i, '?') {
        if token(s, i + 1, '?') {
            (PostAnchorOrAtom::Opt(false), i + 2)
        } else {
            (PostAnchorOrAtom::Opt(true), i + 1)
        }
    } else if token(s, i, '{') {
        match p_bound_non_greedy(s, i) {
            Some(r) => r,
            None => match p_bound_spec(s, i + 1) {
                Some((lo, hi, j)) => {
                    if token(s, j, '}') {
                        (PostAnchorOrAtom::Bound(lo, hi, true), j + 1)
                    } else {
                        (PostAnchorOrAtom::Nothing, i)
                    }
                },
                None => (PostAnchorOrAtom::Nothing, i),
            },
        }
    } else {
        (PostAnchorOrAtom::Nothing, i)
    }
}


/// `syns_of` of a vector with one more element.
proof fn lemma_syns_of_push(es: Seq<Ext>, e: Ext)
    ensures
        syns_of(es.push(e)) == syns_of(es).push(syn_of(e)),
{
    lemma_syns_of(es);
    lemma_syns_of(es.push(e));
    assert(syns_of(es.push(e)) =~= syns_of(es).push(syn_of(e)));
}

/// An anchor or atom with its suffix applied (see `apply_post`).
fn apply_post_ext(a: Ext, p: PostAnchorOrAtom) -> (res: Ext)
    ensures
        res@ == apply_post(a@, p),
        sets_sorted(a@) ==> sets_sorted(res@),
{
    match p {
        PostAnchorOrAtom::Nothing => a,
        PostAnchorOrAtom::Bound(l, h, g) => Ext::Bound(Rc::new(a), l, h, g),
        PostAnchorOrAtom::Opt(g) => Ext::Opt(Rc::new(a), g),
        PostAnchorOrAtom::Plus(g) => Ext::Plus(Rc::new(a), g),
        PostAnchorOrAtom::Star(g) => Ext::Star(Rc::new(a), g),
    }
}

/// An extended regular expression: branches separated by `|` (see `sp_ere`).
pub fn p_ere_(s: &Vec<char>, i: usize) -> (res: ParseResult<Ext>)
    requires
        i <= s.len(),
    ensures
        res is Ok ==> sets_sorted(res->Ok_0.0@),
        agrees_ext(res, sp_ere(s@, i as int)),
        advances(res, i, s.len()),
    decreases s.len() - i, 6nat,
{
    match p_branch(s, i) {
        Ok((b, j)) => {
            let ghost goal = sp_ere_rest(s@, j as int, seq![b@]);
            let mut bs: Vec<Ext> = Vec::new();
            bs.push(b);
            let mut m: usize = j;
            proof {
                lemma_syns_of_push(Seq::<Ext>::empty(), bs@[0]);
                assert(Seq::<Ext>::empty().push(bs@[0]) =~= bs@);
                assert(syns_of(Seq::<Ext>::empty()) =~= Seq::<Syn>::empty());
                assert(syns_of(bs@) =~= seq![b@]);
                lemma_all_sets_sorted_push(Seq::<Syn>::empty(), b@);
                assert(Seq::<Syn>::empty().push(b@) =~= seq![b@]);
            }
            loop
                invariant
                    i < j <= m <= s.len(),
                    all_sets_sorted(syns_of(bs@)),
                    goal == sp_ere_rest(s@, j as int, seq![b@]),
                    sp_ere_rest(s@, m as int, syns_of(bs@)) == goal,
                    sp_ere(s@, i as int) == match goal {
                        Ok((xs, k)) => Ok::<(Syn, int), Stop>((Syn::Or(xs), k)),
                        Err(e) => Err(e),
                    },
                decreases s.len() - m,
            {
                if token(s, m, '|') {
                    match p_branch(s, m + 1) {
                        Ok((b2, m2)) => {
                            proof {
                                lemma_syns_of_push(bs@, b2);
                                lemma_all_sets_sorted_push(syns_of(bs@), b2@);
                            }
                            bs.push(b2);
                            m = m2;
                        },
                        Err(Stop::Unmatched) => {
                            return Err(Stop::Failed);
                        },
                        Err(e) => {
                            return Err(e);
                        },
                    }
                } else {
                    return Ok((Ext::Or(bs), m));
                }
            }
        },
        Err(e) => Err(e),
    }
}

/// A branch: one or more expressions in sequence (see `sp_branch`).
pub fn p_branch(s: &Vec<char>, i: usize) -> (res: ParseResult<Ext>)
    requires
        i <= s.len(),
    ensures
        res is Ok ==> sets_sorted(res->Ok_0.0@),
        agrees_ext(res, sp_branch(s@, i as int)),
        advances(res, i, s.len()),
    decreases s.len() - i, 5nat,
{
    match p_exp(s, i) {
        Ok((x, j)) => {
            let ghost goal = sp_branch_rest(s@, j as int, seq![x@]);
            let mut xs: Vec<Ext> = Vec::new();
            xs.push(x);
            let mut m: usize = j;
            proof {
                lemma_syns_of_push(Seq::<Ext>::empty(), xs@[0]);
                assert(Seq::<Ext>::empty().push(xs@[0]) =~= xs@);
                assert(syns_of(Seq::<Ext>::empty()) =~= Seq::<Syn>::empty());
                assert(syns_of(xs@) =~= seq![x@]);
                lemma_all_sets_sorted_push(Seq::<Syn>::empty(), x@);
                assert(Seq::<Syn>::empty().push(x@) =~= seq![x@]);
            }
            loop
                invariant
                    i < j <= m <= s.len(),
                    all_sets_sorted(syns_of(xs@)),
                    goal == sp_branch_rest(s@, j as int, seq![x@]),
                    sp_branch_rest(s@, m as int, syns_of(xs@)) == goal,
                    sp_branch(s@, i as int) == match goal {
                        Ok((ys, k)) => Ok::<(Syn, int), Stop>((Syn::Concat(ys), k)),
                        Err(e) => Err(e),
                    },
                decreases s.len() - m,
            {
                match p_exp(s, m) {
                    Ok((y, m2)) => {
                        proof {
                            lemma_syns_of_push(xs@, y);
                            lemma_all_sets_sorted_push(syns_of(xs@), y@);
                        }
                        xs.push(y);
                        m = m2;
                    },
                    Err(Stop::Unmatched) => {
                        return Ok((Ext::Concat(xs), m));
                    },
                    Err(e) => {
                        return Err(e);
                    },
                }
            }
        },
        Err(e) => Err(e),
    }
}

/// An anchor or an atom, and its suffix (see `sp_exp`).
pub fn p_exp(s: &Vec<char>, i: usize) -> (res: ParseResult<Ext>)
    requires
        i <= s.len(),
    ensures
        res is Ok ==> sets_sorted(res->Ok_0.0@),
        agrees_ext(res, sp_exp(s@, i as int)),
        advances(res, i, s.len()),
    decreases s.len() - i, 4nat,
{
    let a = match p_anchor(s, i) {
        Err(Stop::Unmatched) => p_atom(s, i),
        r => {
            proof {
                if r is Ok {
                    assert(sets_sorted(r->Ok_0.0@));
                }
            }
            r
        },
    };
    match a {
        Ok((x, j)) => {
            let (p, k) = p_post_anchor_or_atom(s, j);
            Ok((apply_post_ext(x, p), k))
        },
        Err(e) => Err(e),
    }
}

/// A group, a bracket expression, `.`, an escape or a plain character (see `sp_atom`).
pub fn p_atom(s: &Vec<char>, i: usize) -> (res: ParseResult<Ext>)
    requires
        i <= s.len(),
    ensures
        res is Ok ==> sets_sorted(res->Ok_0.0@),
        agrees_ext(res, sp_atom(s@, i as int)),
        advances(res, i, s.len()),
    decreases s.len() - i, 3nat,
{
    match p_group(s, i) {
        Err(Stop::Unmatched) => {},
        r => {
            return r;
        },
    }
    match p_charclass(s, i) {
        Err(Stop::Unmatched) => {},
        r => {
            return r;
        },
    }
    match p_dot(s, i) {
        Err(Stop::Unmatched) => {},
        r => {
            return r;
        },
    }
    match p_esc_char(s, i) {
        Err(Stop::Unmatched) => p_char(s, i),
        r => r,
    }
}

/// `(?:e)`, which stands for `e`, or `(e)`, a marking group (see `sp_group`).
pub fn p_group(s: &Vec<char>, i: usize) -> (res: ParseResult<Ext>)
    requires
        i <= s.len(),
    ensures
        res is Ok ==> sets_sorted(res->Ok_0.0@),
        agrees_ext(res, sp_group(s@, i as int)),
        advances(res, i, s.len()),
    decreases s.len() - i, 2nat,
{
    if !token(s, i, '(') {
        return Err(Stop::Unmatched);
    }
    let non_marking = if p_question_mark(s, i + 1).is_ok() && p_colon(s, i + 2).is_ok() {
        p_ere_(s, i + 3)
    } else {
        Err(Stop::Unmatched)
    };
    let inner = match non_marking {
        Ok((x, k)) => Ok((x, k)),
        Err(Stop::Aborted) => Err(Stop::Aborted),
        Err(_) => match p_ere_(s, i + 1) {
            Ok((x, k)) => Ok((Ext::Grp(Rc::new(x)), k)),
            Err(Stop::Aborted) => Err(Stop::Aborted),
            Err(_) => Err(Stop::Failed),
        },
    };
    match inner {
        Ok((x, k)) => {
            if token(s, k, ')') {
                Ok((x, k + 1))
            } else {
                Err(Stop::Failed)
            }
        },
        Err(e) => Err(e),
    }
}


/// Whether parsing `s` meets an octal escape that it cannot convert.
pub open spec fn parse_aborts(s: Seq<char>) -> bool {
    sp_ere(s, 0) == Err::<(Syn, int), Stop>(Stop::Aborted)
}

/// The message of a failed parse: one text for every failure, which names neither
/// the position nor the kind of the failure.
pub open spec fn parse_error_message() -> Seq<char> {
    "parse_ext: the input does not start with a regular expression."@
}

/// The characters of `s`.
fn str_chars(s: &str) -> (v: Vec<char>)
    ensures
        v@ == s@,
{
    let mut v: Vec<char> = Vec::new();
    for c in it: s.chars()
        invariant
            it.seq() == s@,
            v@ == it.seq().subrange(0, it.index() as int),
    {
        let ghost k = it.index();
        v.push(c);
        proof {
            assert(v@ =~= it.seq().subrange(0, k + 1));
        }
    }
    proof {
        assert(s@.subrange(0, s@.len() as int) =~= s@);
    }
    v
}

/// Whether parsing `s` would meet an octal escape whose value is no decimal digit
/// (see `sp_escaped`), which `parse_ext` cannot convert.
pub fn parse_would_abort(s: &str) -> (res: bool)
    ensures
        res == parse_aborts(s@),
{
    let v = str_chars(s);
    match p_ere_(&v, 0) {
        Err(Stop::Aborted) => true,
        _ => false,
    }
}

/// Parses the longest prefix of `s` that is an extended regular expression; returns
/// its syntax tree and the number of characters it takes.
pub fn parse_ext(s: &str) -> (res: Result<(Ext, usize), String>)
    requires
        !parse_aborts(s@),
    ensures
        match sp_ere(s@, 0) {
            Ok((x, k)) => res is Ok && res->Ok_0.0@ == x && res->Ok_0.1 == k,
            Err(_) => res is Err && res->Err_0@ == parse_error_message(),
        },
        res is Ok ==> sets_sorted(res->Ok_0.0@),
{
    let v = str_chars(s);
    match p_ere_(&v, 0) {
        Ok((e, k)) => Ok((e, k)),
        Err(_) => Err("parse_ext: the input does not start with a regular expression.".to_owned()),
    }
}

} // verus!
