use rs_pderiv::regex::re::RE;
use rs_pderiv::regex::re::RE::{Choice, Eps, Lit, Sequence, Star};
use rs_pderiv::regex::pderiv::pderiv;
use std::rc::Rc;

#[test]
fn test_pderiv_a_a() {
    let r = RE::Lit('a');
    let l = 'a';
    let result = pderiv(&r, &l);
    assert_eq!(result, vec![Rc::new(RE::Eps)]);
}

#[test]
fn test_pderiv_star_a_a() {
    let r = RE::Star(Box::new(RE::Lit('a')));
    let l = 'a';
    let result = pderiv(&r, &l);
    assert_eq!(
        result,
        vec![Rc::new(RE::Sequence(Box::new(RE::Eps), Box::new(RE::Star(Box::new(RE::Lit('a'))))))]
    );
}

#[test]
fn test_pderiv_star_a_star_a_a() {
    let r = Sequence(Box::new(Star(Box::new(Lit('a')))), Box::new(Star(Box::new(Lit('a')))));
    let l = 'a';
    let result = pderiv(&r, &l);
    assert_eq!(
        result,
        vec![
            Rc::new(Sequence(
                Box::new(Sequence(Box::new(Eps), Box::new(Star(Box::new(Lit('a')))))),
                Box::new(Star(Box::new(Lit('a'))))
            )),
            Rc::new(Sequence(Box::new(Eps), Box::new(Star(Box::new(Lit('a'))))))
        ]
    );
}

#[test]
fn pderiv_of_other_letter_is_empty() {
    let r = RE::Lit('a');
    assert_eq!(pderiv(&r, &'b'), Vec::<Rc<RE>>::new());
}

#[test]
fn pderiv_of_choice_drops_duplicates() {
    // both branches derive to Eps; it is listed once
    let r = Choice(Box::new(Lit('a')), Box::new(Lit('a')));
    assert_eq!(pderiv(&r, &'a'), vec![Rc::new(Eps)]);
}
