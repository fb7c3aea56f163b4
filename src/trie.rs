use vstd::prelude::*;
use crate::model::{
    in_trie, is_prefix, lemma_in_trie_parent, lemma_prefix_push, lemma_value_of_push,
    lemma_value_of_pattern, lemma_value_of_some, patterns_ok, value_of, is_state,
};

verus! {

/// One node of the prefix tree: its outgoing edges (character, index of the child node)
/// and the value of the pattern that ends here, if one does.
pub struct TrieNode {
    pub children: Vec<(char, usize)>,
    pub value: Option<usize>,
}

/// A prefix tree over characters, kept as an arena of nodes addressed by index; node 0
/// is the root. Each node stands for the prefix that spells the path to it.
pub struct Trie {
    pub nodes: Vec<TrieNode>,
    pub prefixes: Ghost<Seq<Seq<char>>>,
    pub patterns: Ghost<Seq<(Seq<char>, usize)>>,
}

/// Why a pattern set cannot be compiled.
#[derive(Debug, Clone, Copy, PartialEq, Eq, Structural)]
pub enum BuildError {
    /// The pattern at this position of the set is the empty string.
    EmptyPattern(usize),
}

/// A pattern set given as (literal, value) pairs, as sequences.
pub open spec fn pattern_set(v: Seq<(Vec<char>, usize)>) -> Seq<(Seq<char>, usize)> {
    v.map_values(|e: (Vec<char>, usize)| (e.0@, e.1))
}

/// The empty pattern set, as the builder starts from it.
pub open spec fn no_patterns() -> Seq<(Seq<char>, usize)> {
    Seq::empty()
}

/// Two arenas with the same edges and prefixes are the same tree.
proof fn lemma_same_tree(a: Trie, b: Trie)
    requires
        a.shape_ok(),
        a.prefixes@ == b.prefixes@,
        a.len() == b.len(),
        forall|i: int| 0 <= i < a.len() ==> (#[trigger] a.nodes@[i]).children@ == b.nodes@[i].children@,
    ensures
        b.shape_ok(),
        forall|pats: Seq<(Seq<char>, usize)>| a.covered_by(pats) ==> b.covered_by(pats),
{
    assert forall|i: int| 0 <= i < a.len() implies #[trigger] b.degree(i) == a.degree(i) by {
        assert(a.nodes@[i].children@ == b.nodes@[i].children@);
    }
    assert forall|i: int, k: int| 0 <= i < a.len() && 0 <= k < a.degree(i) implies #[trigger] b.child(i, k) == a.child(i, k) by {
        assert(a.nodes@[i].children@ == b.nodes@[i].children@);
    }
    assert forall|j: int| 0 < j < b.len() implies #[trigger] b.has_parent(j) by {
        assert(a.has_parent(j));
        let (pi, pk) = choose|pi: int, pk: int|
            0 <= pi < a.len() && 0 <= pk < a.degree(pi) && (#[trigger] a.child(pi, pk)).1 == j;
        assert(b.child(pi, pk) == a.child(pi, pk));
    }
    assert forall|i: int, k: int|
        0 <= i < b.len() && 0 <= k < b.degree(i) implies {
            &&& i < (#[trigger] b.child(i, k)).1 < b.len()
            &&& b.pre(b.child(i, k).1 as int) == b.pre(i).push(b.child(i, k).0)
        } by {
        assert(b.child(i, k) == a.child(i, k));
    }
    assert forall|i: int, k1: int, k2: int|
        0 <= i < b.len() && 0 <= k1 < b.degree(i) && 0 <= k2 < b.degree(i) && k1 != k2 implies
            (#[trigger] b.child(i, k1)).0 != (#[trigger] b.child(i, k2)).0 by {
        assert(b.child(i, k1) == a.child(i, k1));
        assert(b.child(i, k2) == a.child(i, k2));
    }
    assert forall|i: int, j: int| 0 <= i < b.len() && 0 <= j < b.len() && i != j implies
        #[trigger] b.pre(i) != #[trigger] b.pre(j) by {
        assert(a.pre(i) != a.pre(j));
    }
    assert forall|pats: Seq<(Seq<char>, usize)>| a.covered_by(pats) implies b.covered_by(pats) by {
        assert forall|i: int| 0 <= i < b.len() implies in_trie(pats, #[trigger] b.pre(i)) by {
            assert(in_trie(pats, a.pre(i)));
        }
    }
}

impl Trie {
    pub open spec fn len(&self) -> int {
        self.nodes@.len() as int
    }

    pub open spec fn pre(&self, i: int) -> Seq<char> {
        self.prefixes@[i]
    }

    pub open spec fn child(&self, i: int, k: int) -> (char, usize) {
        self.nodes@[i].children@[k]
    }

    pub open spec fn degree(&self, i: int) -> int {
        self.nodes@[i].children@.len() as int
    }

    /// Node `i` has an edge labelled `c`.
    pub open spec fn has_child(&self, i: int, c: char) -> bool {
        exists|k: int| 0 <= k < self.degree(i) && (#[trigger] self.child(i, k)).0 == c
    }

    /// Some edge of the arena leads to node `j`.
    pub open spec fn has_parent(&self, j: int) -> bool {
        exists|i: int, k: int|
            0 <= i < self.len() && 0 <= k < self.degree(i) && (#[trigger] self.child(i, k)).1 == j
    }

    /// The arena is a tree: edges point forward into the arena (a child comes after its
    /// parent) and extend the prefix by their character, sibling edges differ, prefixes are unique, and each non-root node hangs
    /// below some node.
    pub open spec fn shape_ok(&self) -> bool {
        &&& self.prefixes@.len() == self.len()
        &&& self.len() >= 1
        &&& self.pre(0).len() == 0
        &&& forall|i: int, k: int|
            0 <= i < self.len() && 0 <= k < self.degree(i) ==> {
                &&& i < (#[trigger] self.child(i, k)).1 < self.len()
                &&& self.pre(self.child(i, k).1 as int) == self.pre(i).push(self.child(i, k).0)
            }
        &&& forall|i: int, k1: int, k2: int|
            0 <= i < self.len() && 0 <= k1 < self.degree(i) && 0 <= k2 < self.degree(i) && k1
                != k2 ==> (#[trigger] self.child(i, k1)).0 != (#[trigger] self.child(i, k2)).0
        &&& forall|i: int, j: int|
            0 <= i < self.len() && 0 <= j < self.len() && i != j ==> #[trigger] self.pre(i)
                != #[trigger] self.pre(j)
        &&& forall|j: int| 0 < j < self.len() ==> #[trigger] self.has_parent(j)
    }

    /// Every node stands for a prefix of some pattern of `pats`.
    pub open spec fn covered_by(&self, pats: Seq<(Seq<char>, usize)>) -> bool {
        forall|i: int| 0 <= i < self.len() ==> in_trie(pats, #[trigger] self.pre(i))
    }

    /// Every one-character extension of a node that is a prefix of a pattern of `pats` is
    /// an edge, but for those that are prefixes of `p` longer than `m`.
    pub open spec fn complete_but(&self, pats: Seq<(Seq<char>, usize)>, p: Seq<char>, m: int) -> bool {
        forall|i: int, c: char|
            0 <= i < self.len() && #[trigger] in_trie(pats, self.pre(i).push(c)) && !(is_prefix(
                self.pre(i).push(c),
                p,
            ) && self.pre(i).len() >= m) ==> self.has_child(i, c)
    }

    /// Every node holds the value that `pats` gives its prefix.
    pub open spec fn values_ok(&self, pats: Seq<(Seq<char>, usize)>) -> bool {
        forall|i: int| 0 <= i < self.len() ==> (#[trigger] self.nodes@[i]).value == value_of(pats, self.pre(i))
    }

    /// The tree is exactly the prefix tree of its pattern set.
    pub open spec fn wf(&self) -> bool {
        let pats = self.patterns@;
        &&& self.shape_ok()
        &&& patterns_ok(pats)
        &&& self.covered_by(pats)
        &&& self.complete_but(pats, Seq::empty(), 1)
        &&& self.values_ok(pats)
    }

    /// A tree holding only the root.
    pub fn new() -> (r: Trie)
        ensures
            r.wf(),
            r.patterns@ == no_patterns(),
            r.len() == 1,
    {
        let root = TrieNode { children: Vec::new(), value: None };
        let mut nodes: Vec<TrieNode> = Vec::new();
        nodes.push(root);
        let ghost prefixes = seq![Seq::<char>::empty()];
        let r = Trie { nodes, prefixes: Ghost(prefixes), patterns: Ghost(no_patterns()) };
        assert(r.pre(0) =~= Seq::<char>::empty());
        r
    }

    /// Node `node` has no outgoing edge.
    pub fn is_leaf(&self, node: usize) -> (r: bool)
        requires
            node < self.len(),
        ensures
            r == (self.degree(node as int) == 0),
    {
        self.nodes[node].children.len() == 0
    }

    /// The child of `node` along the edge labelled `c`.
    pub fn find_child(&self, node: usize, c: char) -> (r: Option<usize>)
        requires
            node < self.len(),
        ensures
            r is None <==> !self.has_child(node as int, c),
            r matches Some(j) ==> exists|k: int|
                0 <= k < self.degree(node as int) && #[trigger] self.child(node as int, k) == (c, j),
    {
        let children = &self.nodes[node].children;
        let mut k: usize = 0;
        while k < children.len()
            invariant
                children == &self.nodes@[node as int].children,
                k <= children@.len(),
                forall|k2: int| 0 <= k2 < k ==> (#[trigger] self.child(node as int, k2)).0 != c,
            decreases children@.len() - k,
        {
            if children[k].0 == c {
                assert(self.child(node as int, k as int) == (c, children[k as int].1));
                return Some(children[k].1);
            }
            k += 1;
        }
        None
    }

    /// Adds the pattern `pattern` with the value `value`: the path of its characters is
    /// created where missing, and its last node takes the value, replacing an earlier one.
    pub fn insert(&mut self, pattern: &Vec<char>, value: usize)
        requires
            old(self).wf(),
            pattern@.len() > 0,
        ensures
            final(self).wf(),
            final(self).patterns@ == old(self).patterns@.push((pattern@, value)),
    {
        let ghost pats = self.patterns@;
        let ghost p = pattern@;
        let ghost pats2 = pats.push((p, value));
        let ghost old_len = self.len();
        assert forall|i: int| 0 <= i < self.len() implies in_trie(pats2, #[trigger] self.pre(i)) by {
            let q = self.pre(i);
            assert(in_trie(pats, q));
            if q.len() > 0 {
                let t = choose|t: int| 0 <= t < pats.len() && is_prefix(q, #[trigger] pats[t].0);
                assert(pats2[t] == pats[t]);
            }
        }
        assert(self.covered_by(pats2));
        assert(self.complete_but(pats2, p, 0)) by {
            assert forall|i: int, c: char|
                0 <= i < self.len() && #[trigger] in_trie(pats2, self.pre(i).push(c)) && !(is_prefix(
                    self.pre(i).push(c),
                    p,
                ) && self.pre(i).len() >= 0) implies self.has_child(i, c) by {
                let t = choose|t: int| 0 <= t < pats2.len() && is_prefix(self.pre(i).push(c), #[trigger] pats2[t].0);
                if t == pats.len() {
                    assert(pats2[t].0 == p);
                }
                assert(pats2[t] == pats[t]);
                assert(in_trie(pats, self.pre(i).push(c)));
                assert(!is_prefix(self.pre(i).push(c), Seq::<char>::empty()));
            }
        }
        let mut node: usize = 0;
        let mut idx: usize = 0;
        assert(self.pre(0) =~= p.subrange(0, 0));
        while idx < pattern.len()
            invariant
                0 <= idx <= p.len(),
                p == pattern@,
                p.len() > 0,
                pats2 == pats.push((p, value)),
                self.patterns@ == pats,
                patterns_ok(pats),
                self.shape_ok(),
                old_len <= self.len(),
                node < self.len(),
                self.pre(node as int) == p.subrange(0, idx as int),
                self.covered_by(pats2),
                self.complete_but(pats, Seq::empty(), 1),
                forall|j: int| old_len <= j < self.len() ==> !in_trie(pats, #[trigger] self.pre(j)),
                self.complete_but(pats2, p, idx as int),
                self.values_ok(pats),
            decreases p.len() - idx,
        {
            let c = pattern[idx];
            assert(p.subrange(0, idx + 1) =~= p.subrange(0, idx as int).push(c));
            match self.find_child(node, c) {
                Some(j) => {
                    proof {
                        let k = choose|k: int|
                            0 <= k < self.degree(node as int) && #[trigger] self.child(node as int, k) == (c, j);
                        assert(self.pre(j as int) == self.pre(node as int).push(c));
                        assert forall|i: int, c2: char|
                            0 <= i < self.len() && #[trigger] in_trie(pats2, self.pre(i).push(c2)) && !(is_prefix(
                                self.pre(i).push(c2),
                                p,
                            ) && self.pre(i).len() >= idx + 1) implies self.has_child(i, c2) by {
                            if is_prefix(self.pre(i).push(c2), p) && self.pre(i).len() >= idx {
                                lemma_prefix_push(self.pre(i), c2, p);
                                assert(self.pre(i) == self.pre(node as int));
                                assert(i == node);
                                assert(self.child(node as int, k).0 == c2);
                            }
                        }
                    }
                    node = j;
                },
                None => {
                    let j = self.nodes.len();
                    let ghost old_self = *self;
                    let ghost np = self.pre(node as int).push(c);
                    proof {
                        if in_trie(pats, np) {
                            assert(!(is_prefix(np, Seq::<char>::empty())));
                            assert(self.has_child(node as int, c));
                        }
                        if value_of(pats, np) is Some {
                            lemma_value_of_some(pats, np);
                            let t = choose|t: int| 0 <= t < pats.len() && (#[trigger] pats[t]).0 == np;
                            assert(is_prefix(np, pats[t].0)) by {
                                assert(pats[t].0.subrange(0, np.len() as int) =~= np);
                            }
                        }
                    }
                    self.nodes.push(TrieNode { children: Vec::new(), value: None });
                    self.nodes[node].children.push((c, j));
                    self.prefixes = Ghost(self.prefixes@.push(np));
                    proof {
                        assert(!in_trie(pats, np));
                        assert(self.len() == old_self.len() + 1);
                        assert(self.pre(j as int) == np);
                        assert forall|i: int| 0 <= i < old_self.len() implies #[trigger] self.pre(i) == old_self.pre(i) by {
                            assert(self.prefixes@ == old_self.prefixes@.push(np));
                        }
                        assert(in_trie(pats2, np)) by {
                            assert(is_prefix(np, pats2[pats.len() as int].0)) by {
                                assert(p.subrange(0, np.len() as int) =~= np);
                            }
                        }
                        assert forall|i: int| 0 <= i < old_self.len() && i != node implies
                            #[trigger] self.nodes@[i] == old_self.nodes@[i] by {}
                        assert forall|i: int, k: int| 0 <= i < old_self.len() && 0 <= k < old_self.degree(i)
                            implies #[trigger] self.child(i, k) == old_self.child(i, k) by {
                            if i == node {
                                assert(self.nodes@[i].children@ == old_self.nodes@[i].children@.push((c, j)));
                            }
                        }
                        assert(self.child(node as int, old_self.degree(node as int)) == (c, j));
                        assert forall|i: int, c2: char| 0 <= i < old_self.len() && old_self.has_child(i, c2)
                            implies #[trigger] self.has_child(i, c2) by {
                            let k = choose|k: int| 0 <= k < old_self.degree(i) && (#[trigger] old_self.child(i, k)).0 == c2;
                            assert(self.child(i, k) == old_self.child(i, k));
                        }
                        assert(self.has_child(node as int, c));
                        // the shape of the tree
                        assert forall|i: int, k: int|
                            0 <= i < self.len() && 0 <= k < self.degree(i) implies {
                                &&& i < (#[trigger] self.child(i, k)).1 < self.len()
                                &&& self.pre(self.child(i, k).1 as int) == self.pre(i).push(self.child(i, k).0)
                            } by {
                            if i < old_self.len() && k < old_self.degree(i) {
                                assert(self.child(i, k) == old_self.child(i, k));
                                assert(self.pre(self.child(i, k).1 as int) == old_self.pre(self.child(i, k).1 as int));
                            }
                        }
                        assert forall|i: int, k1: int, k2: int|
                            0 <= i < self.len() && 0 <= k1 < self.degree(i) && 0 <= k2 < self.degree(i) && k1
                                != k2 implies (#[trigger] self.child(i, k1)).0 != (#[trigger] self.child(i, k2)).0 by {
                            if i == node {
                                if k1 < old_self.degree(i) && k2 < old_self.degree(i) {
                                    assert(self.child(i, k1) == old_self.child(i, k1));
                                    assert(self.child(i, k2) == old_self.child(i, k2));
                                } else if k1 < old_self.degree(i) {
                                    assert(self.child(i, k1) == old_self.child(i, k1));
                                } else if k2 < old_self.degree(i) {
                                    assert(self.child(i, k2) == old_self.child(i, k2));
                                }
                            }
                        }
                        assert forall|i: int, i2: int|
                            0 <= i < self.len() && 0 <= i2 < self.len() && i != i2 implies #[trigger] self.pre(i)
                                != #[trigger] self.pre(i2) by {
                            if i == j || i2 == j {
                                let o = if i == j { i2 } else { i };
                                if self.pre(o) == np {
                                    assert(o != 0);
                                    assert(old_self.has_parent(o));
                                    let (pi, pk) = choose|pi: int, pk: int|
                                        0 <= pi < old_self.len() && 0 <= pk < old_self.degree(pi)
                                            && (#[trigger] old_self.child(pi, pk)).1 == o;
                                    let cc = old_self.child(pi, pk).0;
                                    assert(old_self.pre(o) == self.pre(o));
                                    assert(old_self.pre(o) == old_self.pre(pi).push(cc));
                                    assert(np.last() == c);
                                    assert(old_self.pre(pi).push(cc).last() == cc);
                                    assert(old_self.pre(pi) =~= np.drop_last());
                                    assert(old_self.pre(node as int) =~= np.drop_last());
                                    assert(pi == node);
                                    assert(cc == c);
                                    assert(old_self.has_child(node as int, c));
                                }
                            }
                        }
                        assert forall|o: int| 0 < o < self.len() implies #[trigger] self.has_parent(o) by {
                            if o == j {
                                assert(self.child(node as int, old_self.degree(node as int)).1 == o);
                            } else {
                                assert(old_self.has_parent(o));
                                let (pi, pk) = choose|pi: int, pk: int|
                                    0 <= pi < old_self.len() && 0 <= pk < old_self.degree(pi)
                                        && (#[trigger] old_self.child(pi, pk)).1 == o;
                                assert(self.child(pi, pk) == old_self.child(pi, pk));
                            }
                        }
                        assert(self.shape_ok());
                        // the patterns
                        assert(is_prefix(np, pats2[pats.len() as int].0)) by {
                            assert(p.subrange(0, np.len() as int) =~= np);
                        }
                        assert(self.covered_by(pats2));
                        assert forall|i: int, c2: char|
                            0 <= i < self.len() && #[trigger] in_trie(pats, self.pre(i).push(c2)) && !(is_prefix(
                                self.pre(i).push(c2),
                                Seq::<char>::empty(),
                            ) && self.pre(i).len() >= 1) implies self.has_child(i, c2) by {
                            if i == j {
                                lemma_in_trie_parent(pats, np, c2);
                            }
                        }
                        assert forall|i: int, c2: char|
                            0 <= i < self.len() && #[trigger] in_trie(pats2, self.pre(i).push(c2)) && !(is_prefix(
                                self.pre(i).push(c2),
                                p,
                            ) && self.pre(i).len() >= idx + 1) implies self.has_child(i, c2) by {
                            if i == j {
                                let t = choose|t: int| 0 <= t < pats2.len() && is_prefix(self.pre(i).push(c2), #[trigger] pats2[t].0);
                                if t == pats.len() {
                                    assert(false);
                                }
                                assert(pats2[t] == pats[t]);
                                assert(in_trie(pats, np.push(c2)));
                                lemma_in_trie_parent(pats, np, c2);
                            } else if is_prefix(self.pre(i).push(c2), p) && self.pre(i).len() >= idx {
                                lemma_prefix_push(self.pre(i), c2, p);
                                assert(self.pre(i) == self.pre(node as int));
                                assert(i == node);
                            } else {
                                assert(old_self.pre(i) == self.pre(i));
                            }
                        }
                        assert(self.values_ok(pats));
                    }
                    node = j;
                },
            }
            idx += 1;
        }
        assert(p.subrange(0, p.len() as int) =~= p);
        let ghost before = *self;
        self.patterns = Ghost(pats2);
        self.nodes[node].value = Some(value);
        proof {
            assert(self.prefixes@ == before.prefixes@);
            assert(self.len() == before.len());
            assert(self.nodes@[node as int].children == before.nodes@[node as int].children);
            assert forall|i: int| 0 <= i < self.len() implies (#[trigger] self.nodes@[i]).value == value_of(pats2, self.pre(i)) by {
                lemma_value_of_push(pats, p, value, self.pre(i));
                if i != node {
                    assert(self.nodes@[i] == before.nodes@[i]);
                }
            }
            assert forall|i: int| 0 <= i < self.len()
                implies #[trigger] self.degree(i) == before.degree(i) && self.pre(i) == before.pre(i) by {
                if i != node {
                    assert(self.nodes@[i] == before.nodes@[i]);
                }
            }
            assert forall|i: int, k: int| 0 <= i < self.len() && 0 <= k < self.degree(i)
                implies #[trigger] self.child(i, k) == before.child(i, k) by {
                if i != node {
                    assert(self.nodes@[i] == before.nodes@[i]);
                }
            }
            assert forall|i: int, c2: char| 0 <= i < self.len() && before.has_child(i, c2)
                implies #[trigger] self.has_child(i, c2) by {
                let k = choose|k: int| 0 <= k < before.degree(i) && (#[trigger] before.child(i, k)).0 == c2;
                assert(self.child(i, k) == before.child(i, k));
            }
            assert forall|j: int| 0 < j < self.len() implies #[trigger] self.has_parent(j) by {
                assert(before.has_parent(j));
                let (pi, pk) = choose|pi: int, pk: int|
                    0 <= pi < before.len() && 0 <= pk < before.degree(pi)
                        && (#[trigger] before.child(pi, pk)).1 == j;
                assert(self.child(pi, pk) == before.child(pi, pk));
            }
            assert forall|i: int, c2: char|
                0 <= i < self.len() && #[trigger] in_trie(pats2, self.pre(i).push(c2)) && !(is_prefix(
                    self.pre(i).push(c2),
                    Seq::<char>::empty(),
                ) && self.pre(i).len() >= 1) implies self.has_child(i, c2) by {
                assert(self.pre(i) == before.pre(i));
                assert(in_trie(pats2, before.pre(i).push(c2)));
                assert(!(is_prefix(before.pre(i).push(c2), p) && before.pre(i).len() >= idx));
                assert(before.has_child(i, c2));
            }
            assert forall|t: int| 0 <= t < pats2.len() implies (#[trigger] pats2[t]).0.len() > 0 by {
                if t < pats.len() {
                    assert(pats2[t] == pats[t]);
                }
            }
            lemma_same_tree(before, *self);
            assert(self.covered_by(pats2));
            assert(self.shape_ok());
            assert(self.complete_but(pats2, Seq::empty(), 1));
            assert(self.values_ok(pats2));
        }
    }

    /// A node has children exactly when its prefix is a state: the root, or a strict
    /// prefix of some pattern.
    pub proof fn lemma_inner_is_state(&self, i: int)
        requires
            self.wf(),
            0 <= i < self.len(),
        ensures
            (i == 0 || self.degree(i) > 0) == is_state(self.patterns@, self.pre(i)),
    {
        let pats = self.patterns@;
        let q = self.pre(i);
        if i != 0 {
            assert(self.pre(i) != self.pre(0));
            if q.len() == 0 {
                assert(q =~= self.pre(0));
            }
        }
        if self.degree(i) > 0 {
            let (c, j) = self.child(i, 0);
            assert(self.pre(j as int) == q.push(c));
            assert(in_trie(pats, q.push(c)));
            let t = choose|t: int| 0 <= t < pats.len() && is_prefix(q.push(c), #[trigger] pats[t].0);
            assert(pats[t].0.subrange(0, q.len() as int) =~= q.push(c).subrange(0, q.len() as int));
            assert(q.push(c).subrange(0, q.len() as int) =~= q);
            assert(is_prefix(q, pats[t].0));
        }
        if q.len() > 0 && is_state(pats, q) {
            let t = choose|t: int|
                0 <= t < pats.len() && q.len() < pats[t].0.len() && is_prefix(q, #[trigger] pats[t].0);
            let c = pats[t].0[q.len() as int];
            assert(pats[t].0.subrange(0, q.len() + 1 as int) =~= q.push(c));
            assert(in_trie(pats, q.push(c)));
            assert(!is_prefix(q.push(c), Seq::<char>::empty()));
            assert(self.has_child(i, c));
        }
    }

    /// A one-character extension of a node that is not an edge continues no pattern and
    /// completes none.
    pub proof fn lemma_no_child(&self, i: int, c: char)
        requires
            self.wf(),
            0 <= i < self.len(),
            !self.has_child(i, c),
        ensures
            !is_state(self.patterns@, self.pre(i).push(c)),
            value_of(self.patterns@, self.pre(i).push(c)) is None,
    {
        let pats = self.patterns@;
        let r = self.pre(i).push(c);
        assert(!is_prefix(r, Seq::<char>::empty()));
        assert(!in_trie(pats, r));
        if value_of(pats, r) is Some {
            lemma_value_of_some(pats, r);
            let t = choose|t: int| 0 <= t < pats.len() && (#[trigger] pats[t]).0 == r;
            assert(pats[t].0.subrange(0, r.len() as int) =~= r);
        }
    }

    /// A node without children other than the root ends a pattern.
    pub proof fn lemma_leaf_has_value(&self, j: int)
        requires
            self.wf(),
            0 < j < self.len(),
            self.degree(j) == 0,
        ensures
            self.nodes@[j].value is Some,
            !is_state(self.patterns@, self.pre(j)),
    {
        let pats = self.patterns@;
        let q = self.pre(j);
        self.lemma_inner_is_state(j);
        assert(self.pre(j) != self.pre(0));
        if q.len() == 0 {
            assert(q =~= self.pre(0));
        }
        assert(in_trie(pats, q));
        let t = choose|t: int| 0 <= t < pats.len() && is_prefix(q, #[trigger] pats[t].0);
        assert(pats[t].0.len() == q.len());
        assert(pats[t].0 =~= pats[t].0.subrange(0, q.len() as int));
        lemma_value_of_pattern(pats, t);
    }

    /// The prefix tree of a pattern set, inserted in order so that a later value for a
    /// literal replaces an earlier one; fails on the first empty pattern.
    pub fn build(patterns: &Vec<(Vec<char>, usize)>) -> (r: Result<Trie, BuildError>)
        ensures
            r is Err <==> exists|t: int| 0 <= t < patterns@.len() && (#[trigger] patterns@[t]).0@.len() == 0,
            r matches Err(BuildError::EmptyPattern(i)) ==> i < patterns@.len() && patterns@[i as int].0@.len() == 0
                && forall|t: int| 0 <= t < i ==> (#[trigger] patterns@[t]).0@.len() > 0,
            r matches Ok(trie) ==> trie.wf() && trie.patterns@ == pattern_set(patterns@),
    {
        let mut trie = Trie::new();
        let mut i: usize = 0;
        assert(pattern_set(patterns@.subrange(0, 0)) =~= no_patterns());
        while i < patterns.len()
            invariant
                i <= patterns@.len(),
                trie.wf(),
                trie.patterns@ == pattern_set(patterns@.subrange(0, i as int)),
                forall|t: int| 0 <= t < i ==> (#[trigger] patterns@[t]).0@.len() > 0,
            decreases patterns@.len() - i,
        {
            if patterns[i].0.len() == 0 {
                return Err(BuildError::EmptyPattern(i));
            }
            trie.insert(&patterns[i].0, patterns[i].1);
            assert(pattern_set(patterns@.subrange(0, i + 1)) =~= pattern_set(patterns@.subrange(0, i as int)).push(
                (patterns@[i as int].0@, patterns@[i as int].1),
            ));
            i += 1;
        }
        assert(patterns@.subrange(0, i as int) =~= patterns@);
        Ok(trie)
    }
}

} // verus!
