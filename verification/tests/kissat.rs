use sat_nexus::kissat::{LitValue, SolveResponse};

#[test]
fn kissat_codes() {
    assert_eq!(SolveResponse::Sat.code(), 10);
    assert_eq!(SolveResponse::Unsat.code(), 20);
    assert_eq!(SolveResponse::Interrupted.code(), 0);
    assert_eq!(SolveResponse::from_code(10), Some(SolveResponse::Sat));
    assert_eq!(SolveResponse::from_code(20), Some(SolveResponse::Unsat));
    assert_eq!(SolveResponse::from_code(0), Some(SolveResponse::Interrupted));
    assert_eq!(SolveResponse::from_code(7), None);
}

#[test]
fn kissat_values() {
    assert_eq!(LitValue::from_answer(3, 3), Some(LitValue::True));
    assert_eq!(LitValue::from_answer(3, -3), Some(LitValue::False));
    assert_eq!(LitValue::from_answer(-3, 3), Some(LitValue::False));
    assert_eq!(LitValue::from_answer(3, 0), Some(LitValue::Any));
    assert_eq!(LitValue::from_answer(3, 4), None);
    assert!(LitValue::True.to_bool());
    assert!(!LitValue::False.to_bool());
}
