use vstd::prelude::*;
use crate::regex::re::{RE, re_size};
use crate::regex::pderiv::bitseq::{Bits, max_bits};
use crate::regex::pderiv::parsetree::{Tree, valid, flat, encode, accepts};
use crate::regex::pderiv::parse::{codes_parse, codes_view, Regex as Transducer};
use crate::regex::pderiv::paths::{all_paths, final_codes};

verus! {

/// A transducer whose matching follows every path, without merging paths that reach
/// the same state, and yields the codes of all of them in order.
pub struct Regex {
    inner: Transducer,
}

impl Regex {
    /// The expression that the transducer recognises.
    pub closed spec fn init_re(&self) -> RE {
        self.inner.init_re()
    }

    /// The transducer is the one that `build_regex` builds for `init_re()`.
    pub closed spec fn wf(&self) -> bool {
        self.inner.wf()
    }

    /// The number of transitions, counted as (state, letter) pairs.
    pub closed spec fn transition_count(&self) -> int {
        self.inner.transition_count()
    }

    /// Matches the whole of `s`; returns, in the order in which the paths are
    /// followed, the bit code of each parse tree of `s` that ends a path.
    pub fn go(&self, s: &String) -> (res: Vec<Bits>)
        requires
            self.wf(),
            (s@.len() + 1) * (re_size(self.init_re()) * re_size(self.init_re())) <= max_bits(),
        ensures
            codes_view(res@) == final_codes(all_paths(self.init_re(), s@)),
            forall|i: int| 0 <= i < res@.len() ==> codes_parse(self.init_re(), s@, (#[trigger] res@[i])@),
            res@.len() == 0 ==> !accepts(self.init_re(), s@),
    {
        self.inner.go_all(s)
    }

    /// Matches the whole of `s`; returns the first code that `go` yields.
    pub fn parse_regex(&self, s: &String) -> (res: Option<Bits>)
        requires
            self.wf(),
            (s@.len() + 1) * (re_size(self.init_re()) * re_size(self.init_re())) <= max_bits(),
        ensures
            match res {
                Some(b) => final_codes(all_paths(self.init_re(), s@)).len() > 0 && b@ == final_codes(
                    all_paths(self.init_re(), s@),
                )[0],
                None => final_codes(all_paths(self.init_re(), s@)).len() == 0,
            },
            res is Some ==> exists|t: Tree|
                valid(t, self.init_re()) && flat(t) == s@ && encode(t, self.init_re()) == res->0@,
            res is None ==> !accepts(self.init_re(), s@),
    {
        let result = self.go(s);
        if result.len() == 0 {
            None
        } else {
            let bv = result[0].copy();
            proof {
                assert(codes_view(result@)[0] == result@[0]@);
                assert(codes_parse(self.init_re(), s@, result@[0]@));
            }
            Some(bv)
        }
    }
}

/// The number of transitions of the transducer, as (state, letter) pairs;
/// `usize::MAX` if there are more.
pub fn cnt(regex: &Regex) -> (res: usize)
    requires
        regex.wf(),
    ensures
        res == if regex.transition_count() < usize::MAX {
            regex.transition_count()
        } else {
            usize::MAX as int
        },
{
    crate::regex::pderiv::parse::cnt(&regex.inner)
}

/// Builds the transducer of `r`.
pub fn build_regex(r: &RE) -> (res: Regex)
    requires
        re_size(*r) * re_size(*r) <= max_bits(),
    ensures
        res.wf(),
        res.init_re() == *r,
{
    Regex { inner: crate::regex::pderiv::parse::build_regex(r) }
}

} // verus!
