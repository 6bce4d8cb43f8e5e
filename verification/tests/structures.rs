use sat_nexus::arena::Arena;
use sat_nexus::clause::Clause;
use sat_nexus::idx::IdxVec;
use sat_nexus::lit::Lit;
use sat_nexus::var::Var;

#[test]
fn arena_ids_start_at_one() {
    let mut arena = Arena::new();
    assert!(arena.is_empty());
    let a = arena.allocate(10u32);
    let b = arena.allocate(20u32);
    assert_eq!(a, 1);
    assert_eq!(b, 2);
    assert_eq!(*arena.get(b), 20);
    *arena.get_mut(a) = 11;
    arena.set(b, 21);
    assert_eq!(arena.as_slice(), &[11, 21]);
    assert_eq!(arena.next_id(), 3);
    assert_eq!(arena.len(), 2);
}

#[test]
fn idx_vec_by_variable() {
    let mut v: IdxVec<Var, u32> = IdxVec::new();
    v.init(&Var::new(3));
    assert_eq!(v.len(), 4);
    assert!(v.contains_key(&Var::new(3)));
    assert!(!v.contains_key(&Var::new(4)));
    v.set(&Var::new(2), 5);
    assert_eq!(*v.at(&Var::new(2)), 5);
    assert_eq!(v.replace(&Var::new(2), 6), 5);
    *v.get_mut(&Var::new(1)) = 9;
    assert_eq!(v.get(&Var::new(1)), Some(&9));
    assert_eq!(v.get(&Var::new(7)), None);
    assert_eq!(v.as_slice(), &[0, 9, 6, 0]);
    v.clear();
    assert_eq!(v.len(), 0);
}

#[test]
fn clause_basics() {
    let c = Clause::from_lits(&[1, -2, 3]);
    assert_eq!(c.len(), 3);
    assert!(!c.is_empty());
    assert!(!c.is_learnt());
    assert!(!c.is_deleted());
    assert_eq!(c.get(1), Lit::from_external(-2));
    let mut d = Clause::new(vec![Lit::from_external(4)], true);
    assert!(d.is_learnt());
    d.set(0, Lit::from_external(-4));
    assert_eq!(d.lits(), &[Lit::from_external(-4)]);
    d.mark_deleted();
    assert!(d.is_deleted());
}

#[test]
fn idx_vec_init_fills_with_defaults() {
    let mut v: IdxVec<Var, u32> = IdxVec::new();
    v.push(7);
    v.init(&Var::new(3));
    assert_eq!(v.len(), 4);
    assert_eq!(*v.at(&Var::new(0)), 7);
    assert_eq!(*v.at(&Var::new(1)), 0);
    assert_eq!(*v.at(&Var::new(3)), 0);
    // A position that already exists changes nothing.
    v.init(&Var::new(2));
    assert_eq!(v.len(), 4);
}
