use sat_nexus::lbool::LBool;

#[test]
fn lbool_bitxor() {
    assert_eq!(LBool::False ^ false, LBool::False);
    assert_eq!(LBool::False ^ true, LBool::True);
    assert_eq!(LBool::True ^ false, LBool::True);
    assert_eq!(LBool::True ^ true, LBool::False);
    assert_eq!(LBool::Undef ^ false, LBool::Undef);
    assert_eq!(LBool::Undef ^ true, LBool::Undef);
}

#[test]
fn lbool_from_bool_and_xor_twice() {
    assert_eq!(LBool::from(true), LBool::True);
    assert_eq!(LBool::from(false), LBool::False);
    for v in [LBool::False, LBool::True, LBool::Undef] {
        for b in [false, true] {
            assert_eq!((v ^ b) ^ b, v);
        }
    }
    assert!(LBool::Undef.is_undef());
    assert!(!LBool::True.is_undef());
}
