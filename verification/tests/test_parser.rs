use rs_pderiv::regex::syntax::ext::Ext;
use rs_pderiv::regex::syntax::ext::Ext::{
    Any, Bound, Carat, Char, Concat, Dollar, Dot, Escape, Grp, NoneOf, Opt, Or,
    Plus, Star,
};
use rs_pderiv::regex::syntax::parser::{
    parse_ext, parse_would_abort, p_bound_spec, p_enum, p_post_anchor_or_atom, PostAnchorOrAtom,
};
use rs_pderiv::regex::syntax::grammar::Stop;
use std::rc::Rc;

fn range(a: char, b: char) -> Vec<char> {
    (a..b).collect()
}

fn letters() -> Vec<char> {
    let mut v = range('A', 'Z');
    v.extend(range('a', 'z'));
    v
}

#[test]
fn test_parser_ab_or_c_star_d_plus() {
    let input = "a(b|c)*d+";
    let result = parse_ext(input);
    match result {
        Err(err) => println!("{:?}", err),
        Ok((ext, _rest)) => println!("{:?}", ext),
    }
}

#[test]
fn test_parser_us_addr() {
    let input = "^(.*) ([A-Za-z]{2}) ([0-9]{5})(-[0-9]{4})?$";
    let expected = Or(vec![Concat(vec![
        Carat,
        Grp(Rc::new(Or(vec![Concat(vec![Star(Rc::new(Dot), true)])]))),
        Char(' '),
        Grp(Rc::new(Or(vec![Concat(vec![Bound(Rc::new(Any(letters())), 2, None, true)])]))),
        Char(' '),
        Grp(Rc::new(Or(vec![Concat(vec![Bound(Rc::new(Any(range('0', '9'))), 5, None, true)])]))),
        Opt(
            Rc::new(Grp(Rc::new(Or(vec![Concat(vec![
                Char('-'),
                Bound(Rc::new(Any(range('0', '9'))), 4, None, true),
            ])])))),
            true,
        ),
        Dollar,
    ])]);
    let result = parse_ext(input);
    match result {
        Err(err) => println!("{:?}", err),
        Ok((ext, _rest)) => assert_eq!(expected, ext),
    }
}

#[test]
fn parser_reads_a_star_and_a_plus() {
    let (ext, n) = parse_ext("a(b|c)*d+").unwrap();
    assert_eq!(n, 9);
    let expected = Or(vec![Concat(vec![
        Char('a'),
        Star(
            Rc::new(Grp(Rc::new(Or(vec![Concat(vec![Char('b')]), Concat(vec![Char('c')])])))),
            true,
        ),
        Plus(Rc::new(Char('d')), true),
    ])]);
    assert_eq!(ext, expected);
}

#[test]
fn parser_non_marking_group_is_its_inside() {
    let (ext, _) = parse_ext("(?:ab)").unwrap();
    assert_eq!(ext, Or(vec![Concat(vec![Or(vec![Concat(vec![Char('a'), Char('b')])])])]));
}

#[test]
fn parser_non_greedy_suffixes() {
    let (ext, _) = parse_ext("a*?b{1,3}?").unwrap();
    assert_eq!(
        ext,
        Or(vec![Concat(vec![
            Star(Rc::new(Char('a')), false),
            Bound(Rc::new(Char('b')), 1, Some(3), false),
        ])])
    );
}

#[test]
fn parser_stops_before_what_it_cannot_read() {
    // the second `*` has nothing to repeat; the parse ends before it
    let (ext, n) = parse_ext("a**").unwrap();
    assert_eq!(n, 2);
    assert_eq!(ext, Or(vec![Concat(vec![Star(Rc::new(Char('a')), true)])]));
}

#[test]
fn parser_errors() {
    assert!(parse_ext("").is_err());
    assert!(parse_ext("a|").is_err());
    assert!(parse_ext("(a").is_err());
    assert!(parse_ext("[a").is_err());
    assert!(parse_ext("[--a]").is_err());
    assert_eq!(
        parse_ext(")").unwrap_err(),
        "parse_ext: the input does not start with a regular expression.".to_owned()
    );
}

#[test]
fn parser_brackets() {
    // a leading `]` and a trailing `-` are plain members; ranges exclude their end
    let (ext, _) = parse_ext("[]a-c-]").unwrap();
    assert_eq!(ext, Or(vec![Concat(vec![Any(vec!['-', ']', 'a', 'b'])])]));
    let (ext, _) = parse_ext("[^ba]").unwrap();
    assert_eq!(ext, Or(vec![Concat(vec![NoneOf(vec!['a', 'b'])])]));
}

#[test]
fn parser_escapes() {
    let (ext, _) = parse_ext("\\t\\.\\001").unwrap();
    assert_eq!(ext, Or(vec![Concat(vec![Escape('\t'), Escape('.'), Escape('1')])]));
    assert!(parse_would_abort("\\012"));
    assert!(!parse_would_abort("\\\\012"));
    assert!(!parse_would_abort("ab"));
}

#[test]
fn bound_spec_values() {
    let s: Vec<char> = "12,5}".chars().collect();
    assert_eq!(p_bound_spec(&s, 0), Some((12, Some(12), 4)));
    let s: Vec<char> = "3,}".chars().collect();
    assert_eq!(p_bound_spec(&s, 0), Some((3, None, 2)));
    let s: Vec<char> = "99999999999999999999}".chars().collect();
    assert_eq!(p_bound_spec(&s, 0), None);
    let s: Vec<char> = "x".chars().collect();
    assert_eq!(p_bound_spec(&s, 0), None);
}

#[test]
fn post_suffixes() {
    let s: Vec<char> = "{2}".chars().collect();
    assert_eq!(p_post_anchor_or_atom(&s, 0), (PostAnchorOrAtom::Bound(2, None, true), 3));
    let s: Vec<char> = "{2".chars().collect();
    assert_eq!(p_post_anchor_or_atom(&s, 0), (PostAnchorOrAtom::Nothing, 0));
    let s: Vec<char> = "??".chars().collect();
    assert_eq!(p_post_anchor_or_atom(&s, 0), (PostAnchorOrAtom::Opt(false), 2));
}

#[test]
fn enum_sorts_its_members() {
    let s: Vec<char> = "zay]".chars().collect();
    match p_enum(&s, 0) {
        Ok((set, k)) => {
            assert_eq!(set, vec!['a', 'y', 'z']);
            assert_eq!(k, 4);
        }
        Err(_) => panic!("expected a set"),
    }
    let s: Vec<char> = "]".chars().collect();
    assert_eq!(p_enum(&s, 0), Err(Stop::Failed));
}

#[test]
fn ext_values_compare() {
    let a: Ext = Char('a');
    assert_ne!(a, Escape('a'));
}
