use rs_pderiv::regex::re::RE;
use rs_pderiv::regex::re::RE::{Eps, Lit, Phi};
use rs_pderiv::regex::pderiv::bitseq::Bits;
use rs_pderiv::regex::pderiv::transduce;
use rs_pderiv::regex::pderiv::parse_lazy;

fn bits(v: &[u8]) -> Bits {
    let bools: Vec<bool> = v.iter().map(|b| *b == 1).collect();
    Bits::from_bools(&bools)
}

fn star(r: RE) -> RE {
    RE::Star(Box::new(r))
}

fn seq(a: RE, b: RE) -> RE {
    RE::Sequence(Box::new(a), Box::new(b))
}

fn choice(a: RE, b: RE) -> RE {
    RE::Choice(Box::new(a), Box::new(b))
}

fn abaac(first_long: bool) -> RE {
    let x = if first_long {
        choice(seq(Lit('a'), Lit('b')), Lit('a'))
    } else {
        choice(Lit('a'), seq(Lit('a'), Lit('b')))
    };
    let y = choice(seq(Lit('b'), seq(Lit('a'), Lit('a'))), Lit('a'));
    let z = choice(seq(Lit('a'), Lit('c')), Lit('c'));
    seq(seq(x, y), z)
}

#[test]
fn transduce_parses_a_star() {
    let regex = transduce::build_regex(&star(Lit('a')));
    assert_eq!(transduce::parse_regex(&regex, &String::from("aaa")), Some(bits(&[0, 0, 0, 1])));
    assert_eq!(transduce::parse_regex(&regex, &String::from("ab")), None);
    assert_eq!(transduce::cnt(&regex), 2);
}

#[test]
fn transduce_returns_the_first_parse() {
    // both words split as a|baa|c and ab|a|ac; the first path found wins
    let regex = transduce::build_regex(&abaac(false));
    assert_eq!(transduce::parse_regex(&regex, &String::from("abaac")), Some(bits(&[0, 0, 1])));
    let regex = transduce::build_regex(&abaac(true));
    assert_eq!(transduce::parse_regex(&regex, &String::from("abaac")), Some(bits(&[0, 1, 0])));
}

#[test]
fn transduce_of_the_empty_language() {
    let regex = transduce::build_regex(&Phi);
    assert_eq!(transduce::cnt(&regex), 0);
    assert_eq!(transduce::parse_regex(&regex, &String::from("")), None);
    let regex = transduce::build_regex(&Eps);
    assert_eq!(transduce::parse_regex(&regex, &String::from("")), Some(bits(&[])));
}

#[test]
fn parse_lazy_yields_every_parse() {
    let regex = parse_lazy::build_regex(&abaac(true));
    let all = regex.go(&String::from("abaac"));
    assert_eq!(all, vec![bits(&[0, 1, 0]), bits(&[1, 0, 1])]);
    assert_eq!(regex.parse_regex(&String::from("abaac")), Some(bits(&[0, 1, 0])));
    assert_eq!(regex.parse_regex(&String::from("abab")), None);
}

#[test]
fn parse_lazy_counts_transitions() {
    let regex = parse_lazy::build_regex(&star(Lit('a')));
    assert_eq!(parse_lazy::cnt(&regex), 2);
}
