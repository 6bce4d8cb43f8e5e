use std::io::Write;
use sat_nexus::dimacs::{is_utf8, parse_dimacs_clause, read_dimacs_clause, read_dimacs_data, read_dimacs_text, DimacsError};
use sat_nexus::lit::Lit;

#[test]
fn dimacs_clause_is_read() {
    let lits = parse_dimacs_clause("1 -2 3 0");
    assert_eq!(lits, vec![Lit::from_external(1), Lit::from_external(-2), Lit::from_external(3)]);
    let lits = parse_dimacs_clause("  +4\t-5   0  ");
    assert_eq!(lits, vec![Lit::from_external(4), Lit::from_external(-5)]);
    assert_eq!(parse_dimacs_clause("0"), vec![]);
    assert_eq!(read_dimacs_clause("1 -2 3 0"), Some(parse_dimacs_clause("1 -2 3 0")));
}

#[test]
fn dimacs_clause_errors() {
    // No terminating zero.
    assert!(read_dimacs_clause("1 2").is_none());
    // Empty line.
    assert!(read_dimacs_clause("").is_none());
    assert!(read_dimacs_clause("   ").is_none());
    // Not a number.
    assert!(read_dimacs_clause("1 x 0").is_none());
    assert!(read_dimacs_clause("1 - 0").is_none());
    // A zero before the end.
    assert!(read_dimacs_clause("1 0 2 0").is_none());
    // Out of i32 range.
    assert!(read_dimacs_clause("2147483648 0").is_none());
    assert!(read_dimacs_clause("-2147483649 0").is_none());
    // In range.
    assert_eq!(read_dimacs_clause("2147483647 0").unwrap(), vec![Lit::from_external(2147483647)]);
}

#[test]
fn dimacs_text_skips_comments_and_header() {
    let text = b"c a comment\np cnf 3 2\n1 -2 0\r\n\n-3 2 0";
    let clauses = read_dimacs_text(text).unwrap();
    assert_eq!(
        clauses,
        vec![vec![Lit::from_external(1), Lit::from_external(-2)], vec![Lit::from_external(-3), Lit::from_external(2)]]
    );
    assert!(read_dimacs_text(b"p cnf 1 1\n1 x 0\n").is_none());
    assert_eq!(read_dimacs_text(b"").unwrap(), Vec::<Vec<Lit>>::new());
}

#[test]
fn dimacs_data_is_decompressed() {
    let text = b"p cnf 2 1\n1 2 0\n";
    let mut enc = flate2::write::GzEncoder::new(Vec::new(), flate2::Compression::default());
    enc.write_all(text).unwrap();
    let gz = enc.finish().unwrap();
    let clauses = read_dimacs_data(&gz, true).unwrap();
    assert_eq!(clauses, vec![vec![Lit::from_external(1), Lit::from_external(2)]]);
    assert_eq!(read_dimacs_data(text, false).unwrap(), clauses);
    assert!(matches!(read_dimacs_data(text, true), Err(DimacsError::Gzip)));
    assert!(matches!(read_dimacs_data(b"1 0 x\n", false), Err(DimacsError::Clause)));
}

#[test]
fn dimacs_unicode_white_space_and_non_utf8_lines() {
    assert_eq!(read_dimacs_clause("1\u{a0}-2\u{3000}0"), Some(vec![Lit::from_external(1), Lit::from_external(-2)]));
    assert_eq!(parse_dimacs_clause("\u{2003}3\u{85}0"), vec![Lit::from_external(3)]);
    assert!(read_dimacs_clause("1\u{b7}0").is_none());
    let text: Vec<u8> = b"1 0\n\xff\xfe x\n2 0\n".to_vec();
    assert_eq!(read_dimacs_text(&text).unwrap(), vec![vec![Lit::from_external(1)], vec![Lit::from_external(2)]]);
    assert!(is_utf8("\u{e9}\u{20ac}\u{1f600}".as_bytes()));
    assert!(!is_utf8(b"\xc0\x80"));
    assert!(!is_utf8(b"\xed\xa0\x80"));
    assert!(!is_utf8(b"\xe2\x82"));
}
