use sat_nexus::cube::{cube_lits, increment_cube};
use sat_nexus::lit::Lit;
use sat_nexus::var::Var;

#[test]
fn cube_increments_in_binary_order() {
    let mut cube = vec![false, false, false];
    let mut seen = vec![cube.clone()];
    loop {
        let j = increment_cube(&mut cube, 3);
        if j == 0 {
            break;
        }
        seen.push(cube.clone());
    }
    assert_eq!(seen.len(), 8);
    assert_eq!(seen[1], vec![false, false, true]);
    assert_eq!(seen[2], vec![false, true, false]);
    assert_eq!(seen[7], vec![true, true, true]);
}

#[test]
fn cube_increment_prefix() {
    // Only the first two positions count; the tail is cleared.
    let mut cube = vec![false, true, true];
    assert_eq!(increment_cube(&mut cube, 2), 1);
    assert_eq!(cube, vec![true, false, false]);
    let mut cube = vec![true, true, false];
    assert_eq!(increment_cube(&mut cube, 2), 0);
    assert_eq!(cube, vec![true, true, false]);
}

#[test]
fn cube_literals() {
    let vars = vec![Var::new(0), Var::new(4), Var::new(2)];
    let lits = cube_lits(&vars, &[true, false, true], 2);
    assert_eq!(lits, vec![Lit::new(Var::new(0), true), Lit::new(Var::new(4), false)]);
}
