use sat_nexus::lit::Lit;
use sat_nexus::var::Var;

#[test]
fn lit_encoding() {
    let v = Var::new(5);
    let p = Lit::new(v, false);
    let n = Lit::new(v, true);
    assert_eq!(p.inner(), 10);
    assert_eq!(n.inner(), 11);
    assert_eq!(p.var(), v);
    assert!(!p.negated());
    assert!(n.negated());
    assert_eq!(p.index(), 10);
    assert_eq!(p.sign(), 1);
    assert_eq!(n.sign(), -1);
    assert_eq!(-p, n);
    assert_eq!(!n, p);
    assert_eq!(p.negate(), n);
    assert_eq!(p ^ true, n);
    assert_eq!(p ^ false, p);
}

#[test]
fn lit_external_roundtrip() {
    for x in [1, -1, 2, -2, 17, -42, 1000000] {
        let lit = Lit::from_external(x);
        assert_eq!(lit.to_external(), x);
    }
    assert_eq!(Lit::from_external(3).var(), Var::new(2));
    assert!(Lit::from_external(-3).negated());
    assert_eq!(Lit::from_external(-3), -Lit::from_external(3));
}

#[test]
fn var_external_roundtrip() {
    let v = Var::new(7);
    assert_eq!(v.to_external(), 8);
    assert_eq!(Var::from_external(8), v);
    assert_eq!(v.inner(), 7);
    assert_eq!(v.index(), 7);
}

#[test]
fn lit_external_form_round_trips() {
    for v in [0u32, 1, 7, 1000, 0x7fff_fffe] {
        for neg in [false, true] {
            let l = Lit::new(Var::new(v), neg);
            let x = l.to_external();
            assert_eq!(x < 0, neg);
            assert_eq!(Lit::from_external(x), l);
        }
    }
}
