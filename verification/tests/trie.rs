use sat_nexus::trie::{build_trie, Trie};

#[test]
fn test_new_trie() {
    let trie = Trie::new();
    assert_eq!(trie.num_nodes(), 1);
    assert_ne!(trie.root(), 0);
    assert!(!trie.is_end(trie.root()));
    assert_eq!(trie.left(trie.root()), 0);
    assert_eq!(trie.right(trie.root()), 0);
}

#[test]
fn test_insert_single_word() {
    let mut trie = Trie::new();
    trie.insert(&[true, false, true]);

    assert_eq!(trie.left(trie.root()), 0);
    assert_ne!(trie.right(trie.root()), 0);
    assert!(!trie.is_end(trie.root()));

    assert_eq!(trie.right(trie.right(trie.root())), 0);
    assert_ne!(trie.left(trie.right(trie.root())), 0);
    assert!(!trie.is_end(trie.right(trie.root())));

    assert_eq!(trie.left(trie.left(trie.right(trie.root()))), 0);
    assert_ne!(trie.right(trie.left(trie.right(trie.root()))), 0);
    assert!(!trie.is_end(trie.left(trie.right(trie.root()))));

    assert_eq!(trie.left(trie.right(trie.left(trie.right(trie.root())))), 0);
    assert_eq!(trie.right(trie.right(trie.left(trie.right(trie.root())))), 0);
    assert!(trie.is_end(trie.right(trie.left(trie.right(trie.root())))));
}

#[test]
fn test_insert_multiple_words() {
    let mut trie = Trie::new();
    let a = trie.insert(&[true, false, true]);
    let b = trie.insert(&[false, true, false]);
    let c = trie.insert(&[true, true, true]);
    assert!(!trie.is_end(trie.root()));
    assert!(trie.is_end(a));
    assert!(trie.is_end(b));
    assert!(trie.is_end(c));
}

#[test]
fn test_build_trie() {
    let cubes = vec![vec![true, false, true], vec![false, true, false], vec![true, true, true]];
    let trie = build_trie(&cubes);
    for cube in cubes.iter() {
        assert!(trie.contains(cube));
    }
}

#[test]
fn trie_holds_only_inserted_words() {
    let mut trie = Trie::new();
    assert!(trie.is_empty());
    trie.insert(&[true, false]);
    trie.insert(&[true, true, false]);
    assert!(!trie.is_empty());
    assert!(trie.contains(&[true, false]));
    assert!(trie.contains(&[true, true, false]));
    // A prefix of a word is a path of the trie but not a word.
    assert!(!trie.contains(&[true]));
    assert!(!trie.contains(&[true, true]));
    assert_ne!(trie.search(&[true, true]), 0);
    // Leaving the trie.
    assert!(!trie.contains(&[false]));
    assert_eq!(trie.search(&[false, true]), 0);
    // The empty word is the root path.
    assert_eq!(trie.search(&[]), trie.root());
    // Inserting again gives the same end node and no new nodes.
    let nodes = trie.num_nodes();
    let a = trie.insert(&[true, false]);
    assert_eq!(trie.num_nodes(), nodes);
    assert_eq!(a, trie.search(&[true, false]));
    assert_eq!(trie.len(), trie.num_nodes() - 1);
}

#[test]
fn trie_nodes_are_the_distinct_prefixes() {
    let mut trie = Trie::new();
    trie.insert(&[true, false, true]);
    assert_eq!(trie.len(), 3);
    trie.insert(&[false, true, false]);
    assert_eq!(trie.len(), 6);
    trie.insert(&[true, true, true]);
    // Non-empty prefixes: T, TF, TFT, F, FT, FTF, TT, TTT.
    assert_eq!(trie.len(), 8);
    // A word already inserted, or a prefix of one, adds no node.
    trie.insert(&[true, true, true]);
    trie.insert(&[false, true]);
    assert_eq!(trie.len(), 8);
    assert!(trie.contains(&[false, true]));
    assert_ne!(trie.search(&[false, true, false]), 0);
    assert_eq!(trie.search(&[false, false]), 0);
    let cubes = vec![vec![true, false, true], vec![false, true, false], vec![true, true, true]];
    assert_eq!(build_trie(&cubes).len(), 8);
    // Only the empty word: no node besides the root.
    let mut empty = Trie::new();
    empty.insert(&[]);
    assert!(empty.is_empty());
    assert!(empty.contains(&[]));
}

#[test]
fn earlier_ids_keep_their_words() {
    let mut trie = Trie::new();
    let a = trie.insert(&[true, false, true]);
    let b = trie.insert(&[true, false]);
    let c = trie.insert(&[true, false, true, true]);
    assert_eq!(trie.search(&[true, false, true]), a);
    assert_eq!(trie.search(&[true, false]), b);
    assert_eq!(trie.search(&[true, false, true, true]), c);
    assert!(trie.is_end(a) && trie.is_end(b) && trie.is_end(c));
}
