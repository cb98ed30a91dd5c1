use rs_pderiv::regex::re::RE;
use rs_pderiv::regex::re::RE::{Lit, Phi};
use rs_pderiv::regex::pderiv::bitseq::Bits;
use rs_pderiv::regex::pderiv::parse::{build_regex, cnt};
use rs_pderiv::regex::pderiv::parsetree::U;

fn bits(v: &[u8]) -> Bits {
    let bools: Vec<bool> = v.iter().map(|b| *b == 1).collect();
    Bits::from_bools(&bools)
}

fn star(r: RE) -> RE {
    RE::Star(Box::new(r))
}

fn seq(a: RE, b: RE) -> RE {
    RE::Sequence(Box::new(a), Box::new(b))
}

fn choice(a: RE, b: RE) -> RE {
    RE::Choice(Box::new(a), Box::new(b))
}

#[test]
fn test_parse_aa_a() {
    let r = seq(Lit('a'), Lit('a'));
    let regex = build_regex(&r);
    let result = regex.parse_regex(&String::from("aa"));
    match result {
        None => assert_eq!(1, 2),
        Some(bv) => assert_eq!(bv, bits(&[])),
    }
}

#[test]
fn test_parse_star_a_a() {
    let r = star(Lit('a'));
    let regex = build_regex(&r);
    let result = regex.parse_regex(&String::from("aaa"));
    match result {
        None => assert_eq!(1, 2),
        Some(bv) => {
            assert_eq!(bv, bits(&[0, 0, 0, 1]))
        }
    }
}

#[test]
fn test_parse_abaac1() {
    let x = choice(Lit('a'), seq(Lit('a'), Lit('b')));
    let y = choice(seq(Lit('b'), seq(Lit('a'), Lit('a'))), Lit('a'));
    let z = choice(seq(Lit('a'), Lit('c')), Lit('c'));
    let r = seq(seq(x, y), z);
    let regex = build_regex(&r);
    let result = regex.parse_regex(&String::from("abaac"));
    match result {
        None => assert_eq!(1, 2),
        Some(bv) => {
            assert_eq!(bv, bits(&[0, 0, 1]))
        }
    }
}

#[test]
fn test_parse_abaac2() {
    let x = choice(seq(Lit('a'), Lit('b')), Lit('a'));
    let y = choice(seq(Lit('b'), seq(Lit('a'), Lit('a'))), Lit('a'));
    let z = choice(seq(Lit('a'), Lit('c')), Lit('c'));
    let r = seq(seq(x, y), z);
    let regex = build_regex(&r);
    let result = regex.parse_regex(&String::from("abaac"));
    match result {
        None => assert_eq!(1, 2),
        Some(bv) => {
            assert_eq!(bv, bits(&[0, 1, 0]))
        }
    }
}

#[test]
fn parse_regex_rejects_a_word_outside_the_language() {
    let r = seq(Lit('a'), star(Lit('b')));
    let regex = build_regex(&r);
    assert_eq!(regex.parse_regex(&String::from("ba")), None);
    assert_eq!(regex.parse_regex(&String::from("")), None);
    assert!(regex.parse_regex(&String::from("abbb")).is_some());
}

#[test]
fn parse_decode_regex_gives_a_tree_of_the_input() {
    let r = seq(Lit('a'), star(choice(Lit('b'), Lit('c'))));
    let regex = build_regex(&r);
    let u = regex.parse_decode_regex(&String::from("abc"));
    assert_eq!(
        u,
        Some(U::PairU(
            Box::new(U::LitU('a')),
            Box::new(U::ListU(vec![
                U::LeftU(Box::new(U::LitU('b'))),
                U::RightU(Box::new(U::LitU('c')))
            ]))
        ))
    );
    assert_eq!(regex.parse_decode_regex(&String::from("abd")), None);
}

#[test]
fn parse_of_the_empty_word() {
    let r = star(Lit('a'));
    let regex = build_regex(&r);
    assert_eq!(regex.parse_regex(&String::from("")), Some(bits(&[1])));
    assert_eq!(regex.parse_decode_regex(&String::from("")), Some(U::ListU(vec![])));
}

#[test]
fn cnt_counts_the_transitions() {
    // a* and (eps, a*) are the states, each with a transition on `a`
    let regex = build_regex(&star(Lit('a')));
    assert_eq!(cnt(&regex), 2);
    // Phi has no transitions at all
    let regex = build_regex(&Phi);
    assert_eq!(cnt(&regex), 0);
}
