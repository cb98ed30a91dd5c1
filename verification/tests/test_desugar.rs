use rs_pderiv::regex::re::RE;
use rs_pderiv::regex::syntax::ext::Ext;
use rs_pderiv::regex::syntax::ext::Ext::{
    Any, Bound, Carat, Char, Concat, Dollar, Dot, Empty, Escape, Grp, GrpNonMarking, NoneOf, Opt, Or,
    Plus, Star,
};
use rs_pderiv::regex::syntax::parser::parse_ext;
use rs_pderiv::regex::syntax::desugar::{simp_ext, ext_to_re};
use std::rc::Rc;

fn range(a: char, b: char) -> Vec<char> {
    (a..b).collect()
}

fn letters() -> Vec<char> {
    let mut v = range('A', 'Z');
    v.extend(range('a', 'z'));
    v
}

fn lit(c: char) -> RE {
    RE::Lit(c)
}

fn seq(a: RE, b: RE) -> RE {
    RE::Sequence(Box::new(a), Box::new(b))
}

fn choice(a: RE, b: RE) -> RE {
    RE::Choice(Box::new(a), Box::new(b))
}

fn star(r: RE) -> RE {
    RE::Star(Box::new(r))
}

#[test]
fn test_parser_simp_us_addr() {
    let input = "^(.*) ([A-Za-z]{2}) ([0-9]{5})(-[0-9]{4})?$";
    let expected = Concat(vec![
        Carat,
        GrpNonMarking(Rc::new(Star(Rc::new(Dot), true))),
        Char(' '),
        GrpNonMarking(Rc::new(Bound(Rc::new(Any(letters())), 2, None, true))),
        Char(' '),
        GrpNonMarking(Rc::new(Bound(Rc::new(Any(range('0', '9'))), 5, None, true))),
        Opt(
            Rc::new(GrpNonMarking(Rc::new(Concat(vec![
                Char('-'),
                Bound(Rc::new(Any(range('0', '9'))), 4, None, true),
            ])))),
            true,
        ),
        Dollar,
    ]);
    let result = parse_ext(input);
    match result {
        Err(err) => println!("{:?}", err),
        Ok((ext, _rest)) => {
            let simp = simp_ext(&ext);
            assert_eq!(expected, simp)
        }
    }
}

#[test]
fn test_parser_simp_to_re_us_addr() {
    let input = "^(.*) ([A-Za-z]{2}) ([0-9]{5})(-[0-9]{4})?$";
    let result = parse_ext(input);
    match result {
        Err(err) => println!("{:?}", err),
        Ok((ext, _rest)) => {
            let re = ext_to_re(&simp_ext(&ext));
            match re {
                Err(err) => println!("{:?}", err),
                Ok(re) => println!("{:?}", re),
            }
        }
    }
}

#[test]
fn simp_ext_is_idempotent_on_an_example() {
    let e = Or(vec![Concat(vec![Grp(Rc::new(Or(vec![Concat(vec![Char('a')])]))), Char('b')])]);
    let once = simp_ext(&e);
    assert_eq!(once, Concat(vec![GrpNonMarking(Rc::new(Char('a'))), Char('b')]));
    assert_eq!(simp_ext(&once), once);
}

#[test]
fn simp_ext_of_empty_alternative_is_empty() {
    assert_eq!(simp_ext(&Or(vec![])), Empty);
    assert_eq!(simp_ext(&Concat(vec![])), Concat(vec![]));
}

#[test]
fn ext_to_re_of_alternative_and_concatenation() {
    let e = Or(vec![Char('a'), Char('b'), Char('c')]);
    assert_eq!(ext_to_re(&e), Ok(choice(lit('a'), choice(lit('b'), lit('c')))));
    let e = Concat(vec![Char('a'), Char('b'), Char('c')]);
    assert_eq!(ext_to_re(&e), Ok(seq(lit('a'), seq(lit('b'), lit('c')))));
    // anchors inside a concatenation are left out
    let e = Concat(vec![Carat, Char('a'), Dollar]);
    assert_eq!(ext_to_re(&e), Ok(lit('a')));
    assert_eq!(ext_to_re(&Or(vec![])), Ok(RE::Phi));
    assert_eq!(ext_to_re(&Empty), Ok(RE::Eps));
}

#[test]
fn ext_to_re_errors_on_anchors() {
    assert_eq!(ext_to_re(&Carat), Err("ext_to_re:encountered carat.".to_owned()));
    assert_eq!(ext_to_re(&Dollar), Err("ext_to_re:encountered dollar.".to_owned()));
    assert_eq!(
        ext_to_re(&Star(Rc::new(Dollar), true)),
        Err("ext_to_re:encountered dollar.".to_owned())
    );
}

#[test]
fn ext_to_re_of_suffixes() {
    let a = || Rc::new(Char('a'));
    assert_eq!(ext_to_re(&Opt(a(), true)), Ok(choice(lit('a'), RE::Eps)));
    assert_eq!(ext_to_re(&Plus(a(), true)), Ok(seq(lit('a'), star(lit('a')))));
    assert_eq!(ext_to_re(&Star(a(), false)), Ok(star(lit('a'))));
}

#[test]
fn ext_to_re_of_bounds() {
    let a = || Rc::new(Char('a'));
    // at least two
    assert_eq!(
        ext_to_re(&Bound(a(), 2, None, true)),
        Ok(seq(lit('a'), seq(lit('a'), star(lit('a')))))
    );
    // two to three
    assert_eq!(
        ext_to_re(&Bound(a(), 2, Some(3), true)),
        Ok(seq(seq(lit('a'), lit('a')), choice(lit('a'), RE::Eps)))
    );
    // a lower bound of zero starts from the empty word
    assert_eq!(
        ext_to_re(&Bound(a(), 0, Some(1), true)),
        Ok(seq(RE::Eps, choice(lit('a'), RE::Eps)))
    );
    assert_eq!(ext_to_re(&Bound(Rc::new(Carat), 0, Some(0), true)), Ok(RE::Eps));
    assert!(ext_to_re(&Bound(a(), 0, Some(1), true)).unwrap().nullable());
    assert!(ext_to_re(&Bound(Rc::new(Carat), 0, Some(1), true)).is_err());
}

#[test]
fn ext_to_re_of_sets() {
    assert_eq!(ext_to_re(&Any(vec!['a', 'b'])), Ok(choice(lit('a'), lit('b'))));
    assert_eq!(ext_to_re(&Any(vec![])), Ok(RE::Phi));
    // everything below code 127 but the listed ones
    let mut others: Vec<char> = (0u8..127).map(|b| b as char).collect();
    others.retain(|c| *c != 'a');
    let mut expected = lit(others[others.len() - 1]);
    for c in others.iter().rev().skip(1) {
        expected = choice(lit(*c), expected);
    }
    assert_eq!(ext_to_re(&NoneOf(vec!['a'])), Ok(expected));
    let dot = ext_to_re(&Dot).unwrap();
    match dot {
        RE::Choice(first, _) => assert_eq!(*first, lit('\u{0}')),
        _ => panic!("expected an alternative"),
    }
}

#[test]
fn escape_and_char_are_literals() {
    let e: Ext = Escape('*');
    assert_eq!(ext_to_re(&e), Ok(lit('*')));
    assert_eq!(ext_to_re(&Char('x')), Ok(lit('x')));
    assert_eq!(ext_to_re(&GrpNonMarking(Rc::new(Char('x')))), Ok(lit('x')));
}

#[test]
fn simp_ext_keeps_the_expression_without_anchors() {
    let (ext, _) = parse_ext("a(b|c)*d{1,2}[xy]").unwrap();
    assert_eq!(ext_to_re(&simp_ext(&ext)), ext_to_re(&ext));
}

#[test]
fn simp_ext_can_expose_a_lone_anchor() {
    // a branch that is only an anchor desugars to the empty word inside its
    // concatenation, but to an error once simplification has removed the concatenation
    let (ext, _) = parse_ext("^").unwrap();
    assert_eq!(ext_to_re(&ext), Ok(RE::Eps));
    assert_eq!(ext_to_re(&simp_ext(&ext)), Err("ext_to_re:encountered carat.".to_owned()));
}

#[test]
fn dot_is_an_empty_negated_set() {
    let dot = ext_to_re(&Dot);
    assert_eq!(dot, ext_to_re(&NoneOf(vec![])));
    assert_eq!(dot.unwrap().sigma().len(), 127);
}
