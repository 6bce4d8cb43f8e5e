use sat_nexus::minisat::common;
use sat_nexus::minisat::types;

#[test]
fn minisat_common_literals() {
    let l = common::Lit::mk(3, 1);
    assert_eq!(l.get(), 7);
    assert_eq!(l.var(), 3);
    assert_eq!(l.sign(), 1);
    assert_eq!(l.negate().get(), 6);
    assert_eq!(l.negate().sign(), 0);
    assert_eq!(common::LBool::True.flip(), common::LBool::False);
    assert!(common::LBool::True.bool());
    assert!(!common::LBool::False.bool());
}

#[test]
fn minisat_c_literals() {
    let l = types::Lit::new(9);
    assert_eq!(l.var(), 4);
    assert_eq!(l.sign(), 1);
    assert_eq!(l.negate().to_c(), 8);
    assert_eq!(types::Lit::from_c(5).to_c(), 5);
    assert_eq!(types::LBool::False.flip(), types::LBool::True);
    assert_eq!(types::Var::new(9).to_c(), 9);
}
