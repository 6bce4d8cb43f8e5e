use vstd::prelude::*;

use crate::arena::{Arena, Id};

verus! {

/// A node of a binary trie: links to the "false" (`left`) and "true" (`right`)
/// children (`0` when absent), and whether a word ends here.
#[derive(Debug, Copy, Clone)]
pub struct TrieNode {
    left: Id,
    right: Id,
    is_end: bool,
}

impl TrieNode {
    /// A node without children that ends no word. The parent is not recorded.
    pub fn new(_parent: Id) -> (res: Self)
        ensures
            res.left_spec() == 0,
            res.right_spec() == 0,
            !res.is_end_spec(),
    {
        TrieNode { left: 0, right: 0, is_end: false }
    }

    /// The "false" child of the node.
    pub closed spec fn left_spec(self) -> Id {
        self.left
    }

    /// The "true" child of the node.
    pub closed spec fn right_spec(self) -> Id {
        self.right
    }

    /// Whether a word ends at the node.
    pub closed spec fn is_end_spec(self) -> bool {
        self.is_end
    }
}

/// The child of node `id` along `bit` (`0` when absent).
pub open spec fn child(nodes: Seq<TrieNode>, id: Id, bit: bool) -> Id {
    if bit {
        nodes[id - 1].right_spec()
    } else {
        nodes[id - 1].left_spec()
    }
}

/// The node reached from `root` along `word`, or `0` if the path leaves the trie.
pub open spec fn follow(nodes: Seq<TrieNode>, root: Id, word: Seq<bool>) -> Id
    decreases word.len(),
{
    if word.len() == 0 {
        root
    } else {
        let p = follow(nodes, root, word.drop_last());
        if p == 0 {
            0
        } else {
            child(nodes, p, word.last())
        }
    }
}

/// Whether `word` ends at a node of the trie.
pub open spec fn holds_word(nodes: Seq<TrieNode>, root: Id, word: Seq<bool>) -> bool {
    let id = follow(nodes, root, word);
    id != 0 && nodes[id - 1].is_end_spec()
}

/// Shape of a trie: the root is node 1, children exist and come after their
/// parent, and every node has at most one parent link.
pub open spec fn trie_shape(nodes: Seq<TrieNode>, root: Id) -> bool {
    &&& root == 1
    &&& nodes.len() >= 1
    &&& nodes.len() < u32::MAX
    &&& forall|a: Id, b: bool|
        #![trigger child(nodes, a, b)]
        1 <= a <= nodes.len() ==> (child(nodes, a, b) == 0 || a < child(nodes, a, b) <= nodes.len())
    &&& forall|a: Id, b: Id, x: bool, y: bool|
        #![trigger child(nodes, a, x), child(nodes, b, y)]
        1 <= a <= nodes.len() && 1 <= b <= nodes.len() && child(nodes, a, x) != 0 && child(
            nodes,
            a,
            x,
        ) == child(nodes, b, y) ==> a == b && x == y
}

/// A binary trie of Boolean words (cubes).
#[derive(Debug)]
pub struct Trie {
    nodes: Arena<TrieNode>,
    root: Id,
}

/// In a well-shaped trie, a path ends at `0` or at an existing node.
proof fn lemma_follow_range(nodes: Seq<TrieNode>, root: Id, w: Seq<bool>)
    requires
        trie_shape(nodes, root),
    ensures
        follow(nodes, root, w) == 0 || 1 <= follow(nodes, root, w) <= nodes.len(),
    decreases w.len(),
{
    if w.len() > 0 {
        lemma_follow_range(nodes, root, w.drop_last());
        let p = follow(nodes, root, w.drop_last());
        if p != 0 {
            assert(child(nodes, p, w.last()) == 0 || p < child(nodes, p, w.last()) <= nodes.len());
        }
    }
}

/// In a well-shaped trie, two words that reach the same node are equal.
proof fn lemma_follow_injective(nodes: Seq<TrieNode>, root: Id, v: Seq<bool>, w: Seq<bool>)
    requires
        trie_shape(nodes, root),
        follow(nodes, root, v) != 0,
        follow(nodes, root, v) == follow(nodes, root, w),
    ensures
        v == w,
    decreases v.len() + w.len(),
{
    if v.len() == 0 && w.len() == 0 {
        assert(v =~= w);
    } else if v.len() == 0 {
        let p = follow(nodes, root, w.drop_last());
        lemma_follow_range(nodes, root, w.drop_last());
        assert(child(nodes, p, w.last()) == 0 || p < child(nodes, p, w.last()));
    } else if w.len() == 0 {
        let p = follow(nodes, root, v.drop_last());
        lemma_follow_range(nodes, root, v.drop_last());
        assert(child(nodes, p, v.last()) == 0 || p < child(nodes, p, v.last()));
    } else {
        let p = follow(nodes, root, v.drop_last());
        let q = follow(nodes, root, w.drop_last());
        lemma_follow_range(nodes, root, v.drop_last());
        lemma_follow_range(nodes, root, w.drop_last());
        assert(child(nodes, p, v.last()) != 0 && child(nodes, p, v.last()) == child(
            nodes,
            q,
            w.last(),
        ));
        assert(p == q && v.last() == w.last());
        lemma_follow_injective(nodes, root, v.drop_last(), w.drop_last());
        assert(v =~= v.drop_last().push(v.last()));
        assert(w =~= w.drop_last().push(w.last()));
    }
}

/// The length of the longest prefix of `w` that is a path of the trie.
pub open spec fn trie_prefix_len(nodes: Seq<TrieNode>, root: Id, w: Seq<bool>) -> nat
    decreases w.len(),
{
    if w.len() == 0 || follow(nodes, root, w) != 0 {
        w.len()
    } else {
        trie_prefix_len(nodes, root, w.drop_last())
    }
}

/// The words along which the trie reaches a node.
pub open spec fn trie_paths(nodes: Seq<TrieNode>, root: Id) -> Set<Seq<bool>> {
    Set::new(|v: Seq<bool>| follow(nodes, root, v) != 0)
}

/// The prefixes of `w` up to [`trie_prefix_len`] are paths of the trie; the longer ones are not.
proof fn lemma_prefix_len_paths(nodes: Seq<TrieNode>, root: Id, w: Seq<bool>)
    requires
        trie_shape(nodes, root),
    ensures
        trie_prefix_len(nodes, root, w) <= w.len(),
        forall|j: int| 0 <= j <= w.len() ==> (#[trigger] follow(nodes, root, w.take(j)) != 0) == (j <= trie_prefix_len(nodes, root, w)),
    decreases w.len(),
{
    if w.len() == 0 {
        assert(w.take(0) =~= w);
    } else if follow(nodes, root, w) != 0 {
        assert forall|j: int| 0 <= j <= w.len() implies (#[trigger] follow(nodes, root, w.take(j)) != 0) == (j <= trie_prefix_len(
            nodes,
            root,
            w,
        )) by {
            if follow(nodes, root, w.take(j)) == 0 {
                lemma_follow_zero_extends(nodes, root, w, j);
            }
        }
    } else {
        let u = w.drop_last();
        lemma_prefix_len_paths(nodes, root, u);
        assert forall|j: int| 0 <= j <= w.len() implies (#[trigger] follow(nodes, root, w.take(j)) != 0) == (j <= trie_prefix_len(
            nodes,
            root,
            w,
        )) by {
            if j < w.len() {
                assert(w.take(j) =~= u.take(j));
            } else {
                assert(w.take(j) =~= w);
            }
        }
    }
}

/// Adding the path of `word` to a trie whose nodes are each reached by one path adds a node
/// for each new prefix of `word`, so every node is still reached by one path.
proof fn lemma_paths_insert(old: Seq<TrieNode>, new: Seq<TrieNode>, root: Id, word: Seq<bool>)
    requires
        trie_shape(old, root),
        trie_paths(old, root).finite(),
        trie_paths(old, root).len() == old.len(),
        forall|v: Seq<bool>|
            #![trigger follow(new, root, v)]
            (follow(new, root, v) != 0) == (follow(old, root, v) != 0 || v.is_prefix_of(word)),
        new.len() == old.len() + word.len() - trie_prefix_len(old, root, word),
    ensures
        trie_paths(new, root).finite(),
        trie_paths(new, root).len() == new.len(),
{
    broadcast use vstd::seq_lib::seq_to_set_is_finite;

    let p = trie_prefix_len(old, root, word) as int;
    lemma_prefix_len_paths(old, root, word);
    let s = Seq::new((word.len() - p) as nat, |i: int| word.take(p + 1 + i));
    let pold = trie_paths(old, root);
    let ext = s.to_set();
    assert forall|i: int, j: int| 0 <= i < s.len() && 0 <= j < s.len() && i != j implies s[i] != s[j] by {
        assert(s[i].len() != s[j].len());
    }
    assert(s.no_duplicates());
    s.unique_seq_to_set();
    assert forall|x: Seq<bool>| ext.contains(x) implies !pold.contains(x) by {
        let i = choose|i: int| 0 <= i < s.len() && s[i] == x;
        assert(follow(old, root, word.take(p + 1 + i)) == 0);
    }
    assert(pold.disjoint(ext));
    assert forall|v: Seq<bool>| trie_paths(new, root).contains(v) <==> (pold + ext).contains(v) by {
        if follow(new, root, v) != 0 && follow(old, root, v) == 0 {
            assert(v.is_prefix_of(word));
            let j = v.len() as int;
            assert(v =~= word.take(j));
            assert(j > p);
            assert(s[j - p - 1] == v);
            assert(ext.contains(v));
        }
        if ext.contains(v) {
            let i = choose|i: int| 0 <= i < s.len() && s[i] == v;
            assert(v.is_prefix_of(word));
            assert(follow(new, root, v) != 0);
        }
        if pold.contains(v) {
            assert(follow(new, root, v) != 0);
        }
    }
    assert(trie_paths(new, root) =~= pold + ext);
    vstd::set_lib::lemma_set_disjoint_lens(pold, ext);
}

/// Adding a leaf below node `p` (reached along `u0`) on `bit` adds exactly the path
/// `u0.push(bit)`, ending at the leaf, and keeps every other path.
proof fn lemma_follow_add_leaf(before: Seq<TrieNode>, cur: Seq<TrieNode>, root: Id, p: Id, bit: bool, u0: Seq<bool>, v: Seq<bool>)
    requires
        trie_shape(before, root),
        1 <= p <= before.len(),
        follow(before, root, u0) == p,
        child(before, p, bit) == 0,
        cur.len() == before.len() + 1,
        child(cur, (before.len() + 1) as Id, false) == 0,
        child(cur, (before.len() + 1) as Id, true) == 0,
        child(cur, p, bit) == before.len() + 1,
        child(cur, p, !bit) == child(before, p, !bit),
        forall|a: Id, b: bool| 1 <= a <= before.len() && a != p ==> child(cur, a, b) == child(before, a, b),
    ensures
        follow(cur, root, v) == (if follow(before, root, v) != 0 {
            follow(before, root, v)
        } else if v == u0.push(bit) {
            (before.len() + 1) as Id
        } else {
            0
        }),
    decreases v.len(),
{
    if v.len() > 0 {
        let u = v.drop_last();
        let b = v.last();
        lemma_follow_add_leaf(before, cur, root, p, bit, u0, u);
        lemma_follow_range(before, root, u);
        let x = follow(before, root, u);
        if x != 0 {
            if x == p && b == bit {
                lemma_follow_injective(before, root, u, u0);
                assert(v =~= u0.push(bit));
            } else if x == p {
                assert(b == !bit);
                if v == u0.push(bit) {
                    assert(v.last() == bit);
                }
            } else {
                assert(child(cur, x, b) == child(before, x, b));
                if v == u0.push(bit) {
                    assert(u =~= u0);
                }
            }
        } else {
            if u == u0.push(bit) {
                assert(v != u0.push(bit));
            } else if v == u0.push(bit) {
                assert(u =~= u0);
            }
        }
    }
}

/// `cur` grows `old`: old links are kept unless they were absent, new links
/// from old nodes point to new nodes.
pub open spec fn trie_grows(old: Seq<TrieNode>, cur: Seq<TrieNode>) -> bool {
    &&& old.len() <= cur.len()
    &&& forall|a: Id, b: bool|
        #![trigger child(cur, a, b)]
        1 <= a <= old.len() ==> child(cur, a, b) == child(old, a, b) || (child(old, a, b) == 0 && (
        child(cur, a, b) == 0 || child(cur, a, b) > old.len()))
}

/// Growing a trie keeps every existing path, and a path that is new ends at a new node.
proof fn lemma_follow_grows(old: Seq<TrieNode>, cur: Seq<TrieNode>, root: Id, v: Seq<bool>)
    requires
        trie_shape(old, root),
        trie_shape(cur, root),
        trie_grows(old, cur),
    ensures
        follow(old, root, v) != 0 ==> follow(cur, root, v) == follow(old, root, v),
        follow(old, root, v) == 0 ==> follow(cur, root, v) == 0 || follow(cur, root, v) > old.len(),
    decreases v.len(),
{
    if v.len() > 0 {
        lemma_follow_grows(old, cur, root, v.drop_last());
        lemma_follow_range(old, root, v.drop_last());
        lemma_follow_range(cur, root, v.drop_last());
        let po = follow(old, root, v.drop_last());
        let pc = follow(cur, root, v.drop_last());
        if pc != 0 {
            assert(child(cur, pc, v.last()) == 0 || pc < child(cur, pc, v.last()));
        }
        if po != 0 {
            assert(child(cur, po, v.last()) == child(old, po, v.last()) || (child(old, po, v.last())
                == 0 && (child(cur, po, v.last()) == 0 || child(cur, po, v.last()) > old.len())));
        }
    }
}

/// Every path of `a` is a path of `b`, to the same node.
pub open spec fn keeps_paths(a: Trie, b: Trie) -> bool {
    forall|v: Seq<bool>|
        #![trigger follow(a.nodes_spec(), a.root_spec(), v)]
        follow(a.nodes_spec(), a.root_spec(), v) != 0 ==> follow(b.nodes_spec(), b.root_spec(), v) == follow(
            a.nodes_spec(),
            a.root_spec(),
            v,
        )
}

/// Keeping paths composes: over any sequence of inserts, a path keeps the node it reached
/// when it was added.
pub proof fn lemma_keeps_paths_trans(a: Trie, b: Trie, c: Trie)
    requires
        keeps_paths(a, b),
        keeps_paths(b, c),
    ensures
        keeps_paths(a, c),
{
    assert forall|v: Seq<bool>| #![trigger follow(a.nodes_spec(), a.root_spec(), v)] follow(a.nodes_spec(), a.root_spec(), v) != 0 implies follow(
        c.nodes_spec(),
        c.root_spec(),
        v,
    ) == follow(a.nodes_spec(), a.root_spec(), v) by {
        assert(follow(b.nodes_spec(), b.root_spec(), v) == follow(a.nodes_spec(), a.root_spec(), v));
    }
}

impl Trie {
    /// The trie is well shaped (see [`trie_shape`]).
    pub closed spec fn wf(self) -> bool {
        trie_shape(self.nodes@, self.root)
    }

    /// The node sequence of the trie: node id `i` is `self.nodes_spec()[i - 1]`.
    pub closed spec fn nodes_spec(self) -> Seq<TrieNode> {
        self.nodes@
    }

    /// The id of the root node.
    pub closed spec fn root_spec(self) -> Id {
        self.root
    }

    /// The words stored in the trie.
    pub open spec fn words(self) -> Set<Seq<bool>> {
        Set::new(|w: Seq<bool>| holds_word(self.nodes_spec(), self.root_spec(), w))
    }

    /// Every node of the trie is reached by exactly one path: there are as many paths (the
    /// empty one, to the root, included) as nodes.
    pub open spec fn all_reached(self) -> bool {
        &&& trie_paths(self.nodes_spec(), self.root_spec()).finite()
        &&& trie_paths(self.nodes_spec(), self.root_spec()).len() == self.nodes_spec().len()
    }

    /// An empty trie: a lone root node.
    pub fn new() -> (res: Self)
        ensures
            res.wf(),
            res.nodes_spec().len() == 1,
            res.root_spec() == 1,
            res.root_spec() != 0,
            !res.nodes_spec()[0].is_end_spec(),
            res.nodes_spec()[0].left_spec() == 0,
            res.nodes_spec()[0].right_spec() == 0,
            res.words() == Set::<Seq<bool>>::empty(),
            forall|v: Seq<bool>| #![trigger follow(res.nodes_spec(), res.root_spec(), v)] (follow(res.nodes_spec(), res.root_spec(), v) != 0) == (v.len() == 0),
            res.all_reached(),
    {
        let mut nodes = Arena::new();
        let root = nodes.allocate(TrieNode::new(0));
        let res = Trie { nodes, root };
        proof {
            assert forall|v: Seq<bool>| #![trigger follow(res.nodes_spec(), res.root_spec(), v)] (follow(res.nodes_spec(), res.root_spec(), v) != 0) == (v.len() == 0) by {
                lemma_follow_empty_trie_path(res.nodes_spec(), v);
            }
            assert forall|w: Seq<bool>| !holds_word(res.nodes_spec(), res.root_spec(), w) by {
                lemma_follow_empty_trie(res.nodes_spec(), w);
            }
            assert(res.words() =~= Set::<Seq<bool>>::empty());
            assert forall|v: Seq<bool>| #[trigger] trie_paths(res.nodes_spec(), res.root_spec()).contains(v) <==> Set::<Seq<bool>>::empty().insert(
                Seq::<bool>::empty(),
            ).contains(v) by {
                assert(follow(res.nodes_spec(), res.root_spec(), v) != 0 <==> v.len() == 0);
                if v.len() == 0 {
                    assert(v =~= Seq::<bool>::empty());
                }
            }
            assert(trie_paths(res.nodes_spec(), res.root_spec()) =~= Set::<Seq<bool>>::empty().insert(Seq::<bool>::empty()));
        }
        res
    }

    /// The node with id `index`.
    pub fn node(&self, index: Id) -> (res: &TrieNode)
        requires
            0 < index <= self.nodes_spec().len(),
        ensures
            *res == self.nodes_spec()[index - 1],
    {
        self.nodes.get(index)
    }

    /// The node with id `index`, for update (the trie may lose its shape).
    pub fn node_mut(&mut self, index: Id) -> (res: &mut TrieNode)
        requires
            0 < index <= old(self).nodes_spec().len(),
        ensures
            *res == old(self).nodes_spec()[index - 1],
            final(self).nodes_spec() == old(self).nodes_spec().update(index - 1, *final(res)),
            final(self).root_spec() == old(self).root_spec(),
    {
        self.nodes.get_mut(index)
    }

    /// The id of the root node.
    pub fn root(&self) -> (res: Id)
        ensures
            res == self.root_spec(),
            self.wf() ==> res == 1 && 1 <= self.nodes_spec().len(),
    {
        self.root
    }

    /// The "false" child of node `index` (`0` when absent).
    pub fn left(&self, index: Id) -> (res: Id)
        requires
            0 < index <= self.nodes_spec().len(),
        ensures
            res == child(self.nodes_spec(), index, false),
            self.wf() ==> res == 0 || index < res <= self.nodes_spec().len(),
    {
        self.node(index).left
    }

    /// The "true" child of node `index` (`0` when absent).
    pub fn right(&self, index: Id) -> (res: Id)
        requires
            0 < index <= self.nodes_spec().len(),
        ensures
            res == child(self.nodes_spec(), index, true),
            self.wf() ==> res == 0 || index < res <= self.nodes_spec().len(),
    {
        self.node(index).right
    }

    /// Whether a word ends at node `index`.
    pub fn is_end(&self, index: Id) -> (res: bool)
        requires
            0 < index <= self.nodes_spec().len(),
        ensures
            res == self.nodes_spec()[index - 1].is_end_spec(),
    {
        self.node(index).is_end
    }

    /// Number of nodes besides the root: when every node is reached by one path, the number
    /// of distinct non-empty paths (prefixes of the inserted words).
    pub fn len(&self) -> (res: usize)
        requires
            self.wf(),
        ensures
            res == self.nodes_spec().len() - 1,
            self.all_reached() ==> res == trie_paths(self.nodes_spec(), self.root_spec()).remove(Seq::<bool>::empty()).len(),
    {
        proof {
            assert(follow(self.nodes@, self.root, Seq::<bool>::empty()) == self.root);
        }
        self.nodes.len() - 1
    }

    /// Number of nodes, the root included.
    pub fn num_nodes(&self) -> (res: usize)
        ensures
            res == self.nodes_spec().len(),
    {
        self.nodes.len()
    }

    /// Whether the trie has no node besides the root: when every node is reached by one path,
    /// whether the only path is the empty one (only empty words were inserted).
    pub fn is_empty(&self) -> (res: bool)
        requires
            self.wf(),
        ensures
            res == (self.nodes_spec().len() == 1),
            self.all_reached() ==> (res <==> forall|v: Seq<bool>|
                #![trigger follow(self.nodes_spec(), self.root_spec(), v)]
                follow(self.nodes_spec(), self.root_spec(), v) != 0 ==> v.len() == 0),
    {
        proof {
            if self.all_reached() {
                let ps = trie_paths(self.nodes@, self.root);
                let e = Seq::<bool>::empty();
                assert(follow(self.nodes@, self.root, e) == self.root);
                assert(ps.contains(e));
                if self.nodes@.len() == 1 {
                    assert(ps.remove(e).len() == 0);
                    assert forall|v: Seq<bool>| #![trigger follow(self.nodes_spec(), self.root_spec(), v)] follow(self.nodes_spec(), self.root_spec(), v)
                        != 0 implies v.len() == 0 by {
                        if v.len() != 0 {
                            assert(v != e);
                            assert(ps.remove(e).contains(v));
                        }
                    }
                } else {
                    assert(ps.remove(e).len() > 0);
                    let v = ps.remove(e).choose();
                    assert(ps.remove(e).contains(v));
                    assert(v != e);
                    assert(follow(self.nodes_spec(), self.root_spec(), v) != 0);
                    assert(v.len() != 0) by {
                        if v.len() == 0 {
                            assert(v =~= e);
                        }
                    }
                }
            }
        }
        self.len() == 0
    }

    /// Adds `word`, creating the missing nodes on its path, and returns the id of its last node.
    /// Existing paths keep their nodes, so the id is what a later [`Trie::search`] for `word`
    /// finds after further inserts.
    pub fn insert(&mut self, word: &[bool]) -> (res: Id)
        requires
            old(self).wf(),
            old(self).nodes_spec().len() + word@.len() < u32::MAX,
        ensures
            final(self).wf(),
            res == follow(final(self).nodes_spec(), final(self).root_spec(), word@),
            res != 0,
            res <= final(self).nodes_spec().len(),
            final(self).root_spec() == old(self).root_spec(),
            final(self).words() == old(self).words().insert(word@),
            final(self).nodes_spec().len() <= old(self).nodes_spec().len() + word@.len(),
            final(self).nodes_spec().len() == old(self).nodes_spec().len() + word@.len() - trie_prefix_len(
                old(self).nodes_spec(),
                old(self).root_spec(),
                word@,
            ),
            forall|v: Seq<bool>|
                #![trigger follow(final(self).nodes_spec(), final(self).root_spec(), v)]
                (follow(final(self).nodes_spec(), final(self).root_spec(), v) != 0) == (follow(old(self).nodes_spec(), old(self).root_spec(), v)
                    != 0 || v.is_prefix_of(word@)),
            forall|v: Seq<bool>|
                #![trigger follow(old(self).nodes_spec(), old(self).root_spec(), v)]
                follow(old(self).nodes_spec(), old(self).root_spec(), v) != 0 ==> follow(final(self).nodes_spec(), final(self).root_spec(), v)
                    == follow(old(self).nodes_spec(), old(self).root_spec(), v),
            forall|a: int|
                1 <= a <= old(self).nodes_spec().len() && a != res ==> (#[trigger] final(self).nodes_spec()[a - 1]).is_end_spec()
                    == old(self).nodes_spec()[a - 1].is_end_spec(),
            keeps_paths(*old(self), *final(self)),
            old(self).all_reached() ==> final(self).all_reached(),
    {
        let res = self.insert_path(word);
        proof {
            if old(self).all_reached() {
                lemma_paths_insert(old(self).nodes_spec(), self.nodes_spec(), self.root_spec(), word@);
            }
        }
        res
    }

    /// Adds the path of `word` (see [`Trie::insert`]).
    #[verifier::spinoff_prover]
    #[verifier::rlimit(60)]
    fn insert_path(&mut self, word: &[bool]) -> (res: Id)
        requires
            old(self).wf(),
            old(self).nodes_spec().len() + word@.len() < u32::MAX,
        ensures
            final(self).wf(),
            res == follow(final(self).nodes_spec(), final(self).root_spec(), word@),
            res != 0,
            res <= final(self).nodes_spec().len(),
            final(self).root_spec() == old(self).root_spec(),
            final(self).words() == old(self).words().insert(word@),
            final(self).nodes_spec().len() <= old(self).nodes_spec().len() + word@.len(),
            final(self).nodes_spec().len() == old(self).nodes_spec().len() + word@.len() - trie_prefix_len(
                old(self).nodes_spec(),
                old(self).root_spec(),
                word@,
            ),
            forall|v: Seq<bool>|
                #![trigger follow(final(self).nodes_spec(), final(self).root_spec(), v)]
                (follow(final(self).nodes_spec(), final(self).root_spec(), v) != 0) == (follow(old(self).nodes_spec(), old(self).root_spec(), v)
                    != 0 || v.is_prefix_of(word@)),
            forall|v: Seq<bool>|
                #![trigger follow(old(self).nodes_spec(), old(self).root_spec(), v)]
                follow(old(self).nodes_spec(), old(self).root_spec(), v) != 0 ==> follow(final(self).nodes_spec(), final(self).root_spec(), v)
                    == follow(old(self).nodes_spec(), old(self).root_spec(), v),
            forall|a: int|
                1 <= a <= old(self).nodes_spec().len() && a != res ==> (#[trigger] final(self).nodes_spec()[a - 1]).is_end_spec()
                    == old(self).nodes_spec()[a - 1].is_end_spec(),
    {
        let ghost old_nodes = self.nodes@;
        let mut current = self.root;
        let mut i: usize = 0;
        while i < word.len()
            invariant
                trie_shape(self.nodes@, self.root),
                trie_grows(old_nodes, self.nodes@),
                trie_shape(old_nodes, self.root),
                self.root == 1,
                0 <= i <= word@.len(),
                self.nodes@.len() <= old_nodes.len() + i,
                old_nodes.len() + word@.len() < u32::MAX,
                forall|a: int|
                    0 <= a < old_nodes.len() ==> #[trigger] self.nodes@[a].is_end_spec()
                        == old_nodes[a].is_end_spec(),
                forall|a: int|
                    old_nodes.len() <= a < self.nodes@.len() ==> !(#[trigger] self.nodes@[a].is_end_spec()),
                current == follow(self.nodes@, self.root, word@.take(i as int)),
                1 <= current <= self.nodes@.len(),
                forall|v: Seq<bool>|
                    #![trigger follow(self.nodes@, self.root, v)]
                    (follow(self.nodes@, self.root, v) != 0) == (follow(old_nodes, self.root, v) != 0 || v.is_prefix_of(
                        word@.take(i as int),
                    )),
                self.nodes@.len() == old_nodes.len() + i - trie_prefix_len(old_nodes, self.root, word@.take(i as int)),
                trie_prefix_len(old_nodes, self.root, word@.take(i as int)) <= i,
            decreases word@.len() - i,
        {
            proof {
                assert(word@.take(i + 1).drop_last() =~= word@.take(i as int));
            }
            let ghost n_before = self.nodes@;
            let bit = word[i];
            let node = *self.nodes.get(current);
            let next = if bit {
                node.right
            } else {
                node.left
            };
            if next == 0 {
                let ghost before = self.nodes@;
                let new_id = self.nodes.allocate(TrieNode::new(current));
                let mut updated = node;
                if bit {
                    updated.right = new_id;
                } else {
                    updated.left = new_id;
                }
                self.nodes.set(current, updated);
                proof {
                    let cur = self.nodes@;
                    assert forall|a: Id, b: bool|
                        1 <= a <= cur.len() implies (child(cur, a, b) == 0 || a < child(cur, a, b)
                        <= cur.len()) by {
                        if a < cur.len() {
                            assert(child(before, a, b) == 0 || a < child(before, a, b)
                                <= before.len());
                        }
                    }
                    assert forall|a: Id, b: Id, x: bool, y: bool|
                        1 <= a <= cur.len() && 1 <= b <= cur.len() && child(cur, a, x) != 0
                            && child(cur, a, x) == child(cur, b, y) implies a == b && x == y by {
                        if a < cur.len() && b < cur.len() {
                            if (a == current && x == bit) || (b == current && y == bit) {
                                if !(a == current && x == bit) {
                                    assert(child(before, a, x) <= before.len());
                                }
                                if !(b == current && y == bit) {
                                    assert(child(before, b, y) <= before.len());
                                }
                            } else {
                                assert(child(before, a, x) == child(cur, a, x));
                                assert(child(before, b, y) == child(cur, b, y));
                            }
                        }
                    }
                    assert forall|a: Id, b: bool|
                        1 <= a <= old_nodes.len() implies child(cur, a, b) == child(old_nodes, a, b)
                        || (child(old_nodes, a, b) == 0 && (child(cur, a, b) == 0 || child(
                        cur,
                        a,
                        b,
                    ) > old_nodes.len())) by {
                        assert(child(before, a, b) == child(old_nodes, a, b) || (child(
                            old_nodes,
                            a,
                            b,
                        ) == 0 && (child(before, a, b) == 0 || child(before, a, b)
                            > old_nodes.len())));
                    }
                    assert(trie_shape(cur, self.root));
                    lemma_follow_grows(before, cur, self.root, word@.take(i as int));
                    assert(trie_grows(before, cur)) by {
                        assert forall|a: Id, b: bool|
                            1 <= a <= before.len() implies child(cur, a, b) == child(before, a, b)
                            || (child(before, a, b) == 0 && (child(cur, a, b) == 0 || child(
                            cur,
                            a,
                            b,
                        ) > before.len())) by {}
                    }
                    lemma_follow_grows(before, cur, self.root, word@.take(i as int));
                    let w1 = word@.take(i + 1);
                    assert(w1 =~= word@.take(i as int).push(bit));
                    assert forall|v: Seq<bool>| #![trigger follow(cur, self.root, v)] (follow(cur, self.root, v) != 0) == (follow(
                        old_nodes,
                        self.root,
                        v,
                    ) != 0 || v.is_prefix_of(w1)) by {
                        lemma_follow_add_leaf(before, cur, self.root, current, bit, word@.take(i as int), v);
                        if v.is_prefix_of(w1) && v.len() <= i {
                            assert(v.is_prefix_of(word@.take(i as int)));
                        }
                        if v.is_prefix_of(word@.take(i as int)) {
                            assert(v.is_prefix_of(w1));
                        }
                        if v.is_prefix_of(w1) && v.len() == i + 1 {
                            assert(v =~= w1);
                        }
                    }
                    assert(follow(cur, self.root, w1) != 0);
                    assert(follow(before, self.root, w1) == 0);
                    assert(follow(old_nodes, self.root, w1) == 0);
                    assert(w1.drop_last() =~= word@.take(i as int));
                    assert(trie_prefix_len(old_nodes, self.root, w1) == trie_prefix_len(old_nodes, self.root, word@.take(i as int)));
                    assert forall|a: int| 0 <= a < old_nodes.len() implies #[trigger] cur[a].is_end_spec()
                        == old_nodes[a].is_end_spec() by {
                        assert(before[a].is_end_spec() == old_nodes[a].is_end_spec());
                    }
                    assert forall|a: int| old_nodes.len() <= a < cur.len() implies !(#[trigger] cur[a].is_end_spec()) by {
                        if a < before.len() {
                            assert(!before[a].is_end_spec());
                        }
                    }
                }
                current = new_id;
            } else {
                proof {
                    assert(next == child(self.nodes@, current, bit));
                    let w1 = word@.take(i + 1);
                    let w0 = word@.take(i as int);
                    assert(w1 =~= w0.push(bit));
                    assert(follow(self.nodes@, self.root, w1) == next);
                    assert(!w1.is_prefix_of(w0));
                    assert(follow(old_nodes, self.root, w1) != 0);
                    if follow(old_nodes, self.root, w0) == 0 {
                        assert(w1.drop_last() =~= w0);
                    }
                    assert(trie_prefix_len(old_nodes, self.root, w0) == i);
                    assert(trie_prefix_len(old_nodes, self.root, w1) == i + 1);
                    assert forall|v: Seq<bool>| #![trigger follow(self.nodes@, self.root, v)] (follow(self.nodes@, self.root, v) != 0) == (follow(
                        old_nodes,
                        self.root,
                        v,
                    ) != 0 || v.is_prefix_of(w1)) by {
                        if v.is_prefix_of(w1) && v.len() <= i {
                            assert(v.is_prefix_of(w0));
                        }
                        if v.is_prefix_of(w0) {
                            assert(v.is_prefix_of(w1));
                        }
                        if v.is_prefix_of(w1) && v.len() == i + 1 {
                            assert(v =~= w1);
                        }
                    }
                }
                current = next;
            }
            i = i + 1;
        }
        proof {
            assert(word@.take(word@.len() as int) =~= word@);
        }
        let node = *self.nodes.get(current);
        let ghost before = self.nodes@;
        let mut updated = node;
        updated.is_end = true;
        self.nodes.set(current, updated);
        proof {
            let cur = self.nodes@;
            assert forall|a: Id, b: bool| 1 <= a <= cur.len() implies child(cur, a, b) == child(before, a, b) by {}
            assert(trie_shape(cur, self.root)) by {
                assert forall|a: Id, b: Id, x: bool, y: bool|
                    1 <= a <= cur.len() && 1 <= b <= cur.len() && child(cur, a, x) != 0
                        && child(cur, a, x) == child(cur, b, y) implies a == b && x == y by {
                    assert(child(before, a, x) == child(cur, a, x));
                    assert(child(before, b, y) == child(cur, b, y));
                }
            }
            lemma_follow_same_links(before, cur, self.root, word@);
            assert(follow(before, self.root, word@) == current);
            assert forall|v: Seq<bool>|
                #![trigger holds_word(cur, self.root, v)]
                holds_word(cur, self.root, v) == (holds_word(old_nodes, self.root, v) || v == word@) by {
                lemma_follow_same_links(before, cur, self.root, v);
                lemma_follow_grows(old_nodes, before, self.root, v);
                lemma_follow_range(before, self.root, v);
                lemma_follow_range(old_nodes, self.root, v);
                let x = follow(before, self.root, v);
                if v == word@ {
                    assert(follow(cur, self.root, v) == current);
                    assert(cur[current - 1].is_end_spec());
                } else if x != 0 {
                    if x == current {
                        lemma_follow_injective(before, self.root, v, word@);
                    }
                    assert(cur[x - 1] == before[x - 1]);
                    if x <= old_nodes.len() {
                        assert(follow(old_nodes, self.root, v) == x);
                    } else {
                        assert(!before[x - 1].is_end_spec());
                        assert(follow(old_nodes, self.root, v) == 0);
                    }
                } else {
                    assert(follow(old_nodes, self.root, v) == 0);
                }
            }
            assert(self.words() =~= old(self).words().insert(word@));
            assert(word@.take(word@.len() as int) =~= word@);
            assert forall|v: Seq<bool>| #![trigger follow(cur, self.root, v)] (follow(cur, self.root, v) != 0) == (follow(
                old_nodes,
                self.root,
                v,
            ) != 0 || v.is_prefix_of(word@)) by {
                lemma_follow_same_links(before, cur, self.root, v);
            }
            assert forall|v: Seq<bool>| #![trigger follow(old_nodes, self.root, v)] follow(old_nodes, self.root, v) != 0 implies follow(
                cur,
                self.root,
                v,
            ) == follow(old_nodes, self.root, v) by {
                lemma_follow_same_links(before, cur, self.root, v);
                lemma_follow_grows(old_nodes, before, self.root, v);
            }
        }
        current
    }

    /// Whether `word` is stored in the trie.
    pub fn contains(&self, word: &[bool]) -> (res: bool)
        requires
            self.wf(),
        ensures
            res == self.words().contains(word@),
    {
        let current = self.search(word);
        if current == 0 {
            false
        } else {
            proof {
                lemma_follow_range(self.nodes@, self.root, word@);
            }
            self.nodes.get(current).is_end
        }
    }

    /// The id of the node reached along `word`, or `0` if the path leaves the trie.
    pub fn search(&self, word: &[bool]) -> (res: Id)
        requires
            self.wf(),
        ensures
            res == follow(self.nodes_spec(), self.root_spec(), word@),
            res == 0 || 1 <= res <= self.nodes_spec().len(),
    {
        proof {
            lemma_follow_range(self.nodes@, self.root, word@);
        }
        let mut current = self.root;
        let mut i: usize = 0;
        while i < word.len()
            invariant
                trie_shape(self.nodes@, self.root),
                0 <= i <= word@.len(),
                current == follow(self.nodes@, self.root, word@.take(i as int)),
                1 <= current <= self.nodes@.len(),
            decreases word@.len() - i,
        {
            proof {
                assert(word@.take(i + 1).drop_last() =~= word@.take(i as int));
            }
            let next = if word[i] {
                self.right(current)
            } else {
                self.left(current)
            };
            if next == 0 {
                proof {
                    lemma_follow_zero_extends(self.nodes@, self.root, word@, (i + 1) as int);
                }
                return 0;
            }
            current = next;
            i = i + 1;
        }
        proof {
            assert(word@.take(word@.len() as int) =~= word@);
        }
        current
    }
}

/// A path that has left the trie stays out of it.
pub proof fn lemma_follow_zero_extends(nodes: Seq<TrieNode>, root: Id, w: Seq<bool>, k: int)
    requires
        0 <= k <= w.len(),
        follow(nodes, root, w.take(k)) == 0,
    ensures
        follow(nodes, root, w) == 0,
    decreases w.len() - k,
{
    if k < w.len() {
        assert(w.take(k + 1).drop_last() =~= w.take(k));
        lemma_follow_zero_extends(nodes, root, w, k + 1);
    } else {
        assert(w.take(k) =~= w);
    }
}

/// Paths only depend on the links, not on the end marks.
proof fn lemma_follow_same_links(a: Seq<TrieNode>, b: Seq<TrieNode>, root: Id, w: Seq<bool>)
    requires
        a.len() == b.len(),
        forall|i: Id, x: bool| 1 <= i <= a.len() ==> child(a, i, x) == child(b, i, x),
        trie_shape(a, root),
    ensures
        follow(a, root, w) == follow(b, root, w),
    decreases w.len(),
{
    if w.len() > 0 {
        lemma_follow_same_links(a, b, root, w.drop_last());
        lemma_follow_range(a, root, w.drop_last());
    }
}

/// In a lone-root trie, no word is stored.
proof fn lemma_follow_empty_trie(nodes: Seq<TrieNode>, w: Seq<bool>)
    requires
        nodes.len() == 1,
        nodes[0].left_spec() == 0,
        nodes[0].right_spec() == 0,
        !nodes[0].is_end_spec(),
    ensures
        !holds_word(nodes, 1, w),
    decreases w.len(),
{
    if w.len() > 0 {
        lemma_follow_empty_trie_path(nodes, w.drop_last());
    }
}

proof fn lemma_follow_empty_trie_path(nodes: Seq<TrieNode>, w: Seq<bool>)
    requires
        nodes.len() == 1,
        nodes[0].left_spec() == 0,
        nodes[0].right_spec() == 0,
    ensures
        follow(nodes, 1, w) == 0 || follow(nodes, 1, w) == 1,
        w.len() > 0 ==> follow(nodes, 1, w) == 0,
    decreases w.len(),
{
    if w.len() > 0 {
        lemma_follow_empty_trie_path(nodes, w.drop_last());
    }
}

/// Builds a trie holding every cube.
pub fn build_trie(cubes: &[Vec<bool>]) -> (res: Trie)
    requires
        1 + cube_lengths(cubes@) < u32::MAX,
    ensures
        res.wf(),
        forall|w: Seq<bool>| res.words().contains(w) <==> exists|i: int| 0 <= i < cubes@.len() && #[trigger] cubes@[i]@ == w,
        forall|v: Seq<bool>|
            #![trigger follow(res.nodes_spec(), res.root_spec(), v)]
            (follow(res.nodes_spec(), res.root_spec(), v) != 0) == (v.len() == 0 || exists|i: int|
                0 <= i < cubes@.len() && v.is_prefix_of(#[trigger] cubes@[i]@)),
            res.all_reached(),
            cube_prefixes(cubes@).finite(),
            res.nodes_spec().len() == 1 + cube_prefixes(cubes@).len(),
{
    let mut trie = Trie::new();
    let mut k: usize = 0;
    while k < cubes.len()
        invariant
            0 <= k <= cubes@.len(),
            trie.wf(),
            trie.nodes_spec().len() <= 1 + cube_lengths(cubes@.take(k as int)),
            1 + cube_lengths(cubes@) < u32::MAX,
            forall|w: Seq<bool>| trie.words().contains(w) <==> exists|i: int| 0 <= i < k && #[trigger] cubes@[i]@ == w,
            forall|v: Seq<bool>|
                #![trigger follow(trie.nodes_spec(), trie.root_spec(), v)]
                (follow(trie.nodes_spec(), trie.root_spec(), v) != 0) == (v.len() == 0 || exists|i: int|
                    0 <= i < k && v.is_prefix_of(#[trigger] cubes@[i]@)),
            trie.all_reached(),
        decreases cubes@.len() - k,
    {
        proof {
            lemma_cube_lengths_prefix(cubes@, k + 1);
            assert(cubes@.take(k + 1).last() == cubes@[k as int]);
            assert(cubes@.take(k + 1).drop_last() =~= cubes@.take(k as int));
        }
        let ghost t0 = trie;
        trie.insert(cubes[k].as_slice());
        proof {
            assert forall|v: Seq<bool>| #![trigger follow(trie.nodes_spec(), trie.root_spec(), v)] (follow(trie.nodes_spec(), trie.root_spec(), v) != 0) == (v.len() == 0 || exists|i: int|
                0 <= i < k + 1 && v.is_prefix_of(#[trigger] cubes@[i]@)) by {
                assert(follow(t0.nodes_spec(), t0.root_spec(), v) != 0 || true);
                if v.is_prefix_of(cubes@[k as int]@) {
                    assert(0 <= k < k + 1 && v.is_prefix_of(cubes@[k as int]@));
                }
                if exists|i: int| 0 <= i < k + 1 && v.is_prefix_of(#[trigger] cubes@[i]@) {
                    let i = choose|i: int| 0 <= i < k + 1 && v.is_prefix_of(#[trigger] cubes@[i]@);
                    if i < k {
                        assert(exists|i: int| 0 <= i < k && v.is_prefix_of(#[trigger] cubes@[i]@));
                    }
                }
            }
            assert forall|w: Seq<bool>| trie.words().contains(w) <==> exists|i: int| 0 <= i < k + 1 && #[trigger] cubes@[i]@ == w by {
                if w == cubes@[k as int]@ {
                    assert(0 <= k < k + 1 && cubes@[k as int]@ == w);
                }
            }
        }
        k = k + 1;
    }
    proof {
        assert(cubes@.take(cubes@.len() as int) =~= cubes@);
        let ps = trie_paths(trie.nodes_spec(), trie.root_spec());
        let e = Seq::<bool>::empty();
        assert(follow(trie.nodes_spec(), trie.root_spec(), e) != 0);
        assert(ps.contains(e));
        assert forall|v: Seq<bool>| #[trigger] cube_prefixes(cubes@).contains(v) <==> ps.remove(e).contains(v) by {
            if v.len() == 0 {
                assert(v =~= e);
            }
            if ps.remove(e).contains(v) {
                assert(follow(trie.nodes_spec(), trie.root_spec(), v) != 0);
                assert(v != e);
                assert(v.len() != 0) by {
                    if v.len() == 0 {
                        assert(v =~= e);
                    }
                }
            }
        }
        assert(cube_prefixes(cubes@) =~= ps.remove(e));
    }
    trie
}

/// The distinct non-empty prefixes of the cubes.
pub open spec fn cube_prefixes(cubes: Seq<Vec<bool>>) -> Set<Seq<bool>> {
    Set::new(|v: Seq<bool>| v.len() > 0 && exists|i: int| 0 <= i < cubes.len() && v.is_prefix_of(#[trigger] cubes[i]@))
}

/// Total length of the cubes.
pub open spec fn cube_lengths(cubes: Seq<Vec<bool>>) -> nat
    decreases cubes.len(),
{
    if cubes.len() == 0 {
        0
    } else {
        cube_lengths(cubes.drop_last()) + cubes.last()@.len()
    }
}

proof fn lemma_cube_lengths_prefix(cubes: Seq<Vec<bool>>, k: int)
    requires
        0 <= k <= cubes.len(),
    ensures
        cube_lengths(cubes.take(k)) <= cube_lengths(cubes),
    decreases cubes.len() - k,
{
    if k < cubes.len() {
        lemma_cube_lengths_prefix(cubes, k + 1);
        assert(cubes.take(k + 1).drop_last() =~= cubes.take(k));
    } else {
        assert(cubes.take(k) =~= cubes);
    }
}

impl Trie {
    /// In a trie that is a lone root, every non-empty path leaves the trie.
    pub proof fn lemma_lone_root_follow(self, word: Seq<bool>)
        requires
            self.wf(),
            self.nodes_spec().len() == 1,
            word.len() > 0,
        ensures
            follow(self.nodes_spec(), self.root_spec(), word) == 0,
        decreases word.len(),
    {
        if word.len() > 1 {
            self.lemma_lone_root_follow(word.drop_last());
        } else {
            assert(word.drop_last().len() == 0);
            assert(follow(self.nodes_spec(), self.root_spec(), word.drop_last()) == 1);
            let c = child(self.nodes_spec(), 1, word.last());
            assert(c == 0 || 1 < c <= 1);
        }
    }
}

} // verus!
