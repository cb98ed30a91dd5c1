use rs_pderiv::compile;
use rs_pderiv::regex::re::{RE, hash2};
use rs_pderiv::regex::pderiv::parsetree::U;
use rs_pderiv::regex::pderiv::parse::{within_bit_limit, checked_build_regex};

#[test]
fn compile_and_parse_a_word() {
    let compiled = match compile("ab*") {
        Err(_) => panic!("compilation failed."),
        Ok(c) => c,
    };
    assert_eq!(
        compiled.re,
        RE::Sequence(Box::new(RE::Lit('a')), Box::new(RE::Star(Box::new(RE::Lit('b')))))
    );
    let input = String::from("abb");
    assert_eq!(
        compiled.parse(&input),
        Some(U::PairU(Box::new(U::LitU('a')), Box::new(U::ListU(vec![U::LitU('b'), U::LitU('b')]))))
    );
    assert_eq!(compiled.parse(&String::from("ba")), None);
}

#[test]
fn compile_reports_errors() {
    assert_eq!(
        compile("^").err(),
        Some("ext_to_re:encountered carat.".to_owned())
    );
    assert_eq!(
        compile("a|").err(),
        Some("parse_ext: the input does not start with a regular expression.".to_owned())
    );
}

#[test]
fn compile_of_a_bounded_set() {
    // the pattern of the crate documentation: up to two of `s` and `g`
    let compiled = match compile("[sg]{0,2}") {
        Err(_) => panic!("compilation failed."),
        Ok(c) => c,
    };
    let input = String::from("sg");
    let g = || Box::new(U::LitU('g'));
    let s = || Box::new(U::LitU('s'));
    assert_eq!(
        compiled.parse(&input),
        Some(U::PairU(
            Box::new(U::PairU(Box::new(U::NilU), Box::new(U::LeftU(Box::new(U::RightU(s())))))),
            Box::new(U::LeftU(Box::new(U::LeftU(g()))))
        ))
    );
    assert!(compiled.parse(&String::from("")).is_some());
    assert!(compiled.parse(&String::from("g")).is_some());
    assert_eq!(compiled.parse(&String::from("sgs")), None);
    let compiled = compile("[sg]{1,2}").ok().unwrap();
    assert_eq!(
        compiled.parse(&String::from("sg")),
        Some(U::PairU(
            Box::new(U::RightU(s())),
            Box::new(U::LeftU(Box::new(U::LeftU(g()))))
        ))
    );
}

#[test]
fn compile_with_anchors_around_a_pattern() {
    let compiled = compile("^a+$").ok().unwrap();
    assert!(compiled.parse(&String::from("aaa")).is_some());
    assert!(compiled.parse(&String::from("")).is_none());
}

#[test]
fn hash2_combines() {
    assert_eq!(hash2(&1, &2), 258);
    assert_eq!(hash2(&u64::MAX, &0), u64::MAX - 255);
}

#[test]
fn checked_parse_within_the_limit() {
    let compiled = compile("a(b|c)*").unwrap();
    assert_eq!(compiled.checked_parse(&String::from("abc")), Some(compiled.parse(&String::from("abc"))));
    assert_eq!(compiled.checked_parse(&String::from("abd")), Some(None));
    assert!(compiled.checked_parse(&String::from("ab")).unwrap().is_some());
}

#[test]
fn bit_limit_of_sizes() {
    let r = RE::Lit('a');
    assert!(within_bit_limit(&r, 0));
    assert!(within_bit_limit(&r, 1000));
    assert!(within_bit_limit(&r, usize::MAX / 8 - 1));
    assert!(!within_bit_limit(&r, usize::MAX / 8));
    assert!(!within_bit_limit(&r, usize::MAX));
}

#[test]
fn checked_build_and_parse_regex() {
    let r = RE::Star(Box::new(RE::Lit('a')));
    let regex = checked_build_regex(&r).unwrap();
    assert_eq!(regex.checked_parse_regex(&String::from("aa")).map(|o| o.is_some()), Some(true));
    assert_eq!(regex.checked_parse_regex(&String::from("ab")).map(|o| o.is_some()), Some(false));
}
