use vstd::prelude::*;
use crate::regex::re::RE;

verus! {

/// `k + 1` copies of `r` in sequence, nested to the left.
pub open spec fn left_power(r: RE, k: nat) -> RE
    decreases k,
{
    if k == 0 {
        r
    } else {
        RE::Sequence(Box::new(left_power(r, (k - 1) as nat)), Box::new(r))
    }
}

/// The pattern `(a|ε)^n a^n` for `n > 0`, and `Phi` otherwise: its matching against
/// `a^n` tries exponentially many ways with a backtracking matcher.
pub open spec fn pathological(n: int) -> RE {
    if n > 0 {
        RE::Sequence(
            Box::new(left_power(RE::Choice(Box::new(RE::Lit('a')), Box::new(RE::Eps)), (n - 1) as nat)),
            Box::new(left_power(RE::Lit('a'), (n - 1) as nat)),
        )
    } else {
        RE::Phi
    }
}

/// `k + 1` copies of `r` in sequence, nested to the left (see `left_power`).
fn power(r: &RE, k: i32) -> (res: RE)
    requires
        k >= 0,
    ensures
        res == left_power(*r, k as nat),
{
    let mut acc = r.clone();
    let mut i: i32 = 0;
    while i < k
        invariant
            0 <= i <= k,
            acc == left_power(*r, i as nat),
        decreases k - i,
    {
        acc = RE::Sequence(Box::new(acc), Box::new(r.clone()));
        i = i + 1;
    }
    acc
}

/// Builds the pattern `(a|ε)^n a^n` (see `pathological`).
pub fn mkpat(n: i32) -> (res: RE)
    ensures
        res == pathological(n as int),
{
    if n > 0 {
        let j = n - 1;
        let r = RE::Choice(Box::new(RE::Lit('a')), Box::new(RE::Eps));
        let fst = power(&r, j);
        let t = RE::Lit('a');
        let snd = power(&t, j);
        RE::Sequence(Box::new(fst), Box::new(snd))
    } else {
        RE::Phi
    }
}

} // verus!
