use rs_pderiv::regex::re::RE;
use rs_pderiv::regex::re::RE::{Eps, Lit};
use rs_pderiv::regex::pderiv::pderiv;
use rs_pderiv::regex::pderiv::bits::{emp_code, pderiv_bc, decode, PDCached};
use rs_pderiv::regex::pderiv::bitseq::Bits;
use rs_pderiv::regex::pderiv::parsetree::U;

fn bits(v: &[u8]) -> Bits {
    let bools: Vec<bool> = v.iter().map(|b| *b == 1).collect();
    Bits::from_bools(&bools)
}

fn star(r: RE) -> RE {
    RE::Star(Box::new(r))
}

fn seq(a: RE, b: RE) -> RE {
    RE::Sequence(Box::new(a), Box::new(b))
}

fn choice(a: RE, b: RE) -> RE {
    RE::Choice(Box::new(a), Box::new(b))
}

#[test]
fn test_empcode_star_a_a() {
    let r = star(Lit('a'));
    let result = emp_code(&r);
    assert_eq!(result, bits(&[1]));
}

#[test]
fn test_empcode_eps_star_a_a() {
    let r = seq(Eps, star(Lit('a')));
    let result = emp_code(&r);
    assert_eq!(result, bits(&[1]));
}

#[test]
fn test_empcode_choice_star_a_eps_a() {
    let r = choice(star(Lit('a')), Eps);
    let result = emp_code(&r);
    assert_eq!(result, bits(&[0, 1]));
}

#[test]
fn test_empcode_star_choice_a_b() {
    let r = star(choice(Lit('a'), Lit('b')));
    let result = emp_code(&r);
    assert_eq!(result, bits(&[1]));
}

fn same_as_pderiv(r: &RE, l: char) {
    let lhs = pderiv_bc(r, &l);
    let rhs = pderiv(r, &l);
    assert_eq!(lhs.len(), rhs.len());
    for (idx, p) in lhs.iter().enumerate() {
        assert_eq!(&p.0, rhs[idx].as_ref());
    }
}

#[test]
fn test_pderiv_bc_same_as_pderiv_star_a() {
    let r = star(Lit('a'));
    let lhs = pderiv_bc(&r, &'a');
    let rhs = pderiv(&r, &'a');
    assert_eq!(lhs.len(), rhs.len());
    for (idx, p) in lhs.iter().enumerate() {
        assert_eq!(&p.0, rhs[idx].as_ref());
    }
}

#[test]
fn test_pderiv_bc_same_as_pderiv_choice_star_a_eps() {
    let r = choice(star(Lit('a')), Eps);
    let lhs = pderiv_bc(&r, &'a');
    let rhs = pderiv(&r, &'a');
    assert_eq!(lhs.len(), rhs.len());
    for (idx, p) in lhs.iter().enumerate() {
        assert_eq!(&p.0, rhs[idx].as_ref());
    }
}

#[test]
fn test_pderiv_bc_same_as_pderiv_star_choice_a_b() {
    let r = star(choice(Lit('a'), Lit('b')));
    let lhs = pderiv_bc(&r, &'a');
    let rhs = pderiv(&r, &'a');
    assert_eq!(lhs.len(), rhs.len());
    for (idx, p) in lhs.iter().enumerate() {
        assert_eq!(&p.0, rhs[idx].as_ref());
    }
}

#[test]
fn test_pderiv_bc_same_as_pderiv_abaac() {
    let x = choice(Lit('a'), seq(Lit('a'), Lit('b')));
    let y = choice(seq(Lit('b'), seq(Lit('a'), Lit('a'))), Lit('a'));
    let z = choice(seq(Lit('a'), Lit('c')), Lit('c'));
    let r = seq(seq(x, y), z);
    let lhs = pderiv_bc(&r, &'a');
    let rhs = pderiv(&r, &'a');
    assert_eq!(lhs.len(), rhs.len());
    for (idx, p) in lhs.iter().enumerate() {
        assert_eq!(&p.0, rhs[idx].as_ref());
    }
}

#[test]
fn pderiv_bc_firsts_are_pderiv_for_nested_stars() {
    let r = seq(star(seq(Lit('a'), star(Lit('b')))), choice(Lit('a'), Eps));
    same_as_pderiv(&r, 'a');
    same_as_pderiv(&r, 'b');
    same_as_pderiv(&r, 'c');
}

#[test]
fn pderiv_bc_bits_of_choice() {
    // the right alternative is marked by a one
    let r = choice(Lit('a'), Lit('b'));
    let ds = pderiv_bc(&r, &'b');
    assert_eq!(ds.len(), 1);
    assert_eq!(ds[0].0, Eps);
    assert_eq!(ds[0].1, bits(&[1]));
}

#[test]
fn emp_code_of_sequence_joins_codes() {
    let r = seq(choice(Lit('a'), Eps), choice(Eps, Lit('b')));
    assert_eq!(emp_code(&r), bits(&[1, 0]));
}

#[test]
fn decode_rebuilds_the_tree_of_a_star() {
    let r = star(Lit('a'));
    let u = decode(&r, &bits(&[0, 0, 1]), &String::from("aa"));
    assert_eq!(u, U::ListU(vec![U::LitU('a'), U::LitU('a')]));
}

#[test]
fn decode_of_choice_and_sequence() {
    let r = seq(choice(Lit('a'), Lit('b')), Lit('c'));
    let u = decode(&r, &bits(&[1]), &String::from("bc"));
    assert_eq!(
        u,
        U::PairU(Box::new(U::RightU(Box::new(U::LitU('b')))), Box::new(U::LitU('c')))
    );
}

#[test]
fn test_cached_pderiv_bc_same_as_pderiv_star_a() {
    let r = star(Lit('a'));
    let mut cached = PDCached::new();
    let lhs = cached.pderiv_bc(&r, &'a');
    let rhs = pderiv(&r, &'a');
    assert_eq!(lhs.len(), rhs.len());
    for (idx, p) in lhs.iter().enumerate() {
        assert_eq!(&p.0, rhs[idx].as_ref());
    }
}

#[test]
fn test_cached_pderiv_bc_same_as_pderiv_choice_star_a_eps() {
    let r = choice(star(Lit('a')), Eps);
    let mut cached = PDCached::new();
    let lhs = cached.pderiv_bc(&r, &'a');
    let rhs = pderiv(&r, &'a');
    assert_eq!(lhs.len(), rhs.len());
    for (idx, p) in lhs.iter().enumerate() {
        assert_eq!(&p.0, rhs[idx].as_ref());
    }
}

#[test]
fn test_cached_pderiv_bc_same_as_pderiv_star_choice_a_b() {
    let r = star(choice(Lit('a'), Lit('b')));
    let mut cached = PDCached::new();
    let lhs = cached.pderiv_bc(&r, &'a');
    let rhs = pderiv(&r, &'a');
    assert_eq!(lhs.len(), rhs.len());
    for (idx, p) in lhs.iter().enumerate() {
        assert_eq!(&p.0, rhs[idx].as_ref());
    }
}

#[test]
fn test_cached_pderiv_bc_same_as_pderiv_abaac() {
    let x = choice(Lit('a'), seq(Lit('a'), Lit('b')));
    let y = choice(seq(Lit('b'), seq(Lit('a'), Lit('a'))), Lit('a'));
    let z = choice(seq(Lit('a'), Lit('c')), Lit('c'));
    let r = seq(seq(x, y), z);
    let mut cached = PDCached::new();
    let lhs = cached.pderiv_bc(&r, &'a');
    let rhs = pderiv(&r, &'a');
    assert_eq!(lhs.len(), rhs.len());
    for (idx, p) in lhs.iter().enumerate() {
        assert_eq!(&p.0, rhs[idx].as_ref());
    }
}

#[test]
fn cached_pderiv_bc_answers_again_from_the_memo() {
    let r = star(choice(Lit('a'), Lit('b')));
    let mut cached = PDCached::new();
    let first = cached.pderiv_bc(&r, &'b');
    let second = cached.pderiv_bc(&r, &'b');
    assert_eq!(first, second);
    assert_eq!(first, pderiv_bc(&r, &'b'));
}
