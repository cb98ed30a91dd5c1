//! A regular expression matching library based on partial derivatives.
//!
//! A pattern is parsed into an external syntax tree, simplified, desugared into a
//! regular expression, and compiled into a transducer whose states are partial
//! derivatives; matching a word against the transducer yields a parse tree.
pub mod regex;

use vstd::prelude::*;
use crate::regex::re::{RE, re_size};
use crate::regex::pderiv::bitseq::max_bits;
use crate::regex::pderiv::parsetree::{U, valid, flat, accepts, encode};
use crate::regex::pderiv::paths::{first_paths, final_codes};
use crate::regex::pderiv::parse::{Regex, build_regex, fits_bits, within_bit_limit, string_chars};
use crate::regex::syntax::grammar::sp_ere;
use crate::regex::syntax::parser::{parse_ext, parse_aborts, parse_error_message};
use crate::regex::syntax::desugar::{simp, simp_ext, desugar, ext_to_re, anchor_message};

verus! {

/// A pattern together with its compiled transducer.
pub struct CompiledRegex {
    pub re: RE,
    pub regex: Regex,
}

impl CompiledRegex {
    /// Whether the transducer is well formed and was built from `re`.
    pub open spec fn wf(&self) -> bool {
        &&& self.regex.wf()
        &&& self.regex.init_re() == self.re
    }

    /// Matches the whole of `input`; returns a parse tree of it when there is one.
    pub fn parse(&self, input: &String) -> (res: Option<U>)
        requires
            self.wf(),
            (input@.len() + 1) * (re_size(self.re) * re_size(self.re)) <= max_bits(),
        ensures
            res is Some <==> accepts(self.re, input@),
            res is Some ==> valid(res->0@, self.re) && flat(res->0@) == input@,
            res is Some ==> encode(res->0@, self.re) == final_codes(first_paths(self.re, input@)).last(),
    {
        self.regex.parse_decode_regex(input)
    }

    /// Matches `input` as `parse` does when the bits of its paths fit (`Some`);
    /// `None` when `input` is too long for them.
    pub fn checked_parse(&self, input: &String) -> (res: Option<Option<U>>)
        requires
            self.wf(),
        ensures
            res is Some <==> fits_bits(self.re, input@.len() as int),
            res matches Some(r) ==> {
                &&& r is Some <==> accepts(self.re, input@)
                &&& r is Some ==> valid(r->0@, self.re) && flat(r->0@) == input@
                &&& r is Some ==> encode(r->0@, self.re) == final_codes(first_paths(self.re, input@)).last()
            },
    {
        let n = string_chars(input).len();
        if within_bit_limit(&self.re, n) {
            Some(self.parse(input))
        } else {
            None
        }
    }
}

/// The regular expression that a pattern stands for, if it parses and desugars.
pub open spec fn pattern_re(s: Seq<char>) -> Result<RE, Seq<char>> {
    match sp_ere(s, 0) {
        Ok((x, _)) => match desugar(simp(x)) {
            Ok(r) => Ok(r),
            Err(a) => Err(anchor_message(a)),
        },
        Err(_) => Err(parse_error_message()),
    }
}

/// Whether an expression is small enough for its transducer: the bits of a
/// transition have to fit in memory.
pub open spec fn compilable(r: RE) -> bool {
    fits_bits(r, 0)
}

/// The message for an expression too large to compile.
pub open spec fn too_large_message() -> Seq<char> {
    "compile: the regular expression is too large."@
}

/// Builds the transducer of `re`, when it is small enough.
fn compile_re(re: RE) -> (res: Result<CompiledRegex, String>)
    ensures
        if compilable(re) {
            res is Ok && res->Ok_0.re == re && res->Ok_0.wf()
        } else {
            res is Err && res->Err_0@ == too_large_message()
        },
{
    if within_bit_limit(&re, 0) {
        let compiled = build_regex(&re);
        Ok(CompiledRegex { re: re, regex: compiled })
    } else {
        Err("compile: the regular expression is too large.".to_owned())
    }
}

/// Compiles a pattern: parses the longest prefix of `s` that is a regular expression,
/// simplifies and desugars it, and builds its transducer.
pub fn compile(s: &str) -> (res: Result<CompiledRegex, String>)
    requires
        !parse_aborts(s@),
    ensures
        match pattern_re(s@) {
            Ok(r) => if compilable(r) {
                res is Ok && res->Ok_0.re == r && res->Ok_0.wf()
            } else {
                res is Err && res->Err_0@ == too_large_message()
            },
            Err(msg) => res is Err && res->Err_0@ == msg,
        },
{
    match parse_ext(s) {
        Err(e) => Err(e),
        Ok((ext_ast, _rest)) => {
            let simplified = simp_ext(&ext_ast);
            match ext_to_re(&simplified) {
                Err(e) => Err(e),
                Ok(re) => compile_re(re),
            }
        },
    }
}

} // verus!
