use vstd::prelude::*;
use crate::model::{lemma_failed_stays, run_over, step, tokens_of, value_of, Run, Transition};
use crate::trie::{pattern_set, BuildError, Trie};

verus! {

/// The result of one matcher call.
#[derive(Debug, Clone, Copy, PartialEq, Eq, Structural)]
pub enum Outcome {
    /// Consume the character and continue in this state.
    Advance(usize),
    /// A match completed with this value; the flag says whether the character belongs to
    /// it (else it is to be offered again from the initial state).
    Emit(usize, bool),
}

/// A character arrived in a state that it can neither continue, complete nor fall back from.
#[derive(Debug, Clone, Copy, PartialEq, Eq, Structural)]
pub enum MatchError {
    Unmatched,
}

/// The transitions of one state: its node in the prefix tree, one rule per outgoing edge,
/// and the value emitted (without consuming) on any other character, if the state's
/// prefix is itself a pattern.
pub struct Row {
    pub node: usize,
    pub edges: Vec<(char, Outcome)>,
    pub fallback: Option<usize>,
}

/// The compiled matcher: a table of states, state 0 being the initial state.
pub struct Matcher {
    pub trie: Trie,
    pub rows: Vec<Row>,
}

/// The rule compiled for the edge to node `j`, where state `s` stands for node `nodes[s]`.
pub open spec fn rule_ok(trie: Trie, nodes: Seq<usize>, o: Outcome, j: int) -> bool {
    match o {
        Outcome::Advance(s2) => 0 <= s2 < nodes.len() && nodes[s2 as int] == j && trie.degree(j) > 0,
        Outcome::Emit(v, b) => b && trie.degree(j) == 0 && trie.nodes@[j].value == Some(v),
    }
}

/// The rules of state `s` follow the edges of its node, and its fallback is the value of
/// its prefix.
pub open spec fn row_fits(trie: Trie, nodes: Seq<usize>, row: Row, s: int) -> bool {
    let i = row.node as int;
    &&& 0 <= i < trie.len()
    &&& (s == 0) == (i == 0)
    &&& row.edges@.len() == trie.degree(i)
    &&& forall|k: int| 0 <= k < row.edges@.len() ==> {
        &&& (#[trigger] row.edges@[k]).0 == trie.child(i, k).0
        &&& rule_ok(trie, nodes, row.edges@[k].1, trie.child(i, k).1 as int)
    }
    &&& row.fallback == trie.nodes@[i].value
}

/// The number of rules among the first `k` of `edges` that advance to a state.
pub open spec fn advances_before(edges: Seq<(char, Outcome)>, k: int) -> nat
    decreases k,
{
    if k <= 0 {
        0
    } else {
        advances_before(edges, k - 1) + if edges[k - 1].1 is Advance {
            1nat
        } else {
            0nat
        }
    }
}

/// `v` followed by `x`.
fn extended(v: &Vec<usize>, x: usize) -> (r: Vec<usize>)
    ensures
        r@ == v@.push(x),
{
    let mut r: Vec<usize> = Vec::new();
    let mut i: usize = 0;
    while i < v.len()
        invariant
            i <= v@.len(),
            r@ == v@.subrange(0, i as int),
        decreases v@.len() - i,
    {
        r.push(v[i]);
        i += 1;
    }
    r.push(x);
    assert(v@.subrange(0, i as int) =~= v@);
    r
}

/// The initial state.
pub const INITIAL: usize = 0;

impl Matcher {
    /// The pattern set the matcher was compiled from.
    pub open spec fn patterns(&self) -> Seq<(Seq<char>, usize)> {
        self.trie.patterns@
    }

    pub open spec fn num_states(&self) -> int {
        self.rows@.len() as int
    }

    /// The prefix matched so far in state `s`.
    pub open spec fn prefix_of(&self, s: int) -> Seq<char> {
        self.trie.pre(self.rows@[s].node as int)
    }

    /// The node of each state.
    pub open spec fn state_nodes(&self) -> Seq<usize> {
        self.rows@.map_values(|r: Row| r.node)
    }

    pub open spec fn row_ok(&self, s: int) -> bool {
        row_fits(self.trie, self.state_nodes(), self.rows@[s], s)
    }

    pub open spec fn wf(&self) -> bool {
        &&& self.trie.wf()
        &&& self.num_states() >= 1
        &&& forall|s: int| 0 <= s < self.num_states() ==> #[trigger] self.row_ok(s)
        &&& forall|s1: int, s2: int|
            0 <= s1 < s2 < self.num_states() ==> (#[trigger] self.rows@[s1]).node < (#[trigger] self.rows@[s2]).node
    }

    /// The number of states, the initial one included.
    pub fn state_count(&self) -> (r: usize)
        ensures
            r == self.num_states(),
    {
        self.rows.len()
    }

    /// One matcher call: what to do with the character `c` in state `state`.
    pub fn next(&self, state: usize, c: char) -> (r: Result<Outcome, MatchError>)
        requires
            self.wf(),
            state < self.num_states(),
        ensures
            match step(self.patterns(), self.prefix_of(state as int), c) {
                Transition::Advance(q) => r matches Ok(Outcome::Advance(s2)) && s2 < self.num_states()
                    && self.prefix_of(s2 as int) == q,
                Transition::Emit(v, b) => r == Ok::<Outcome, MatchError>(Outcome::Emit(v, b)),
                Transition::Fail => r == Err::<Outcome, MatchError>(MatchError::Unmatched),
            },
    {
        let row = &self.rows[state];
        let ghost i = row.node as int;
        let ghost q = self.prefix_of(state as int);
        let ghost pats = self.patterns();
        assert(self.row_ok(state as int));
        let mut k: usize = 0;
        while k < row.edges.len()
            invariant
                row == &self.rows@[state as int],
                self.wf(),
                state < self.num_states(),
                i == row.node as int,
                q == self.prefix_of(state as int),
                pats == self.patterns(),
                self.row_ok(state as int),
                k <= row.edges@.len(),
                forall|k2: int| 0 <= k2 < k ==> (#[trigger] row.edges@[k2]).0 != c,
            decreases row.edges@.len() - k,
        {
            if row.edges[k].0 == c {
                let o = row.edges[k].1;
                proof {
                    let j = self.trie.child(i, k as int).1 as int;
                    assert(row.edges@[k as int].0 == self.trie.child(i, k as int).0);
                    assert(self.trie.shape_ok());
                    assert(0 <= i < self.trie.len() && 0 <= k < self.trie.degree(i));
                    assert(j < self.trie.len());
                    assert(self.trie.pre(j) == q.push(c));
                    if j == 0 {
                        assert(self.trie.pre(j).len() == 0);
                    }
                    self.trie.lemma_inner_is_state(j);
                    if self.trie.degree(j) == 0 {
                        self.trie.lemma_leaf_has_value(j);
                    }
                }
                return Ok(o);
            }
            k += 1;
        }
        proof {
            assert forall|k2: int| 0 <= k2 < self.trie.degree(i) implies (#[trigger] self.trie.child(i, k2)).0 != c by {
                assert(row.edges@[k2].0 == self.trie.child(i, k2).0);
            }
            self.trie.lemma_no_child(i, c);
            if i != 0 {
                assert(self.trie.pre(i) != self.trie.pre(0));
                if q.len() == 0 {
                    assert(q =~= self.trie.pre(0));
                }
            }
        }
        match row.fallback {
            Some(v) => Ok(Outcome::Emit(v, false)),
            None => {
                if row.node == 0 {
                    Ok(Outcome::Advance(INITIAL))
                } else {
                    Err(MatchError::Unmatched)
                }
            },
        }
    }

    /// The value to emit when the input ends in state `state`: that of the pattern its
    /// prefix completes, if any.
    pub fn finish(&self, state: usize) -> (r: Option<usize>)
        requires
            self.wf(),
            state < self.num_states(),
        ensures
            r == value_of(self.patterns(), self.prefix_of(state as int)),
    {
        assert(self.row_ok(state as int));
        self.rows[state].fallback
    }

    /// Compiles a built prefix tree: every node with children (and the root) becomes a
    /// state, numbered in the order of the arena, and each state gets one rule per edge
    /// and the fallback of its prefix.
    pub fn from_trie(trie: Trie) -> (m: Matcher)
        requires
            trie.wf(),
        ensures
            m.wf(),
            m.trie == trie,
    {
        let n = trie.nodes.len();
        let mut state_of: Vec<Option<usize>> = Vec::new();
        let mut node_of: Vec<usize> = Vec::new();
        let mut i: usize = 0;
        while i < n
            invariant
                n == trie.len(),
                trie.wf(),
                i <= n,
                state_of@.len() == i,
                i > 0 ==> node_of@.len() >= 1,
                i == 0 ==> node_of@.len() == 0,
                forall|s1: int, s2: int| 0 <= s1 < s2 < node_of@.len() ==> #[trigger] node_of@[s1] < #[trigger] node_of@[s2],
                forall|s: int| 0 <= s < node_of@.len() ==> {
                    &&& #[trigger] node_of@[s] < i
                    &&& (node_of@[s] == 0) == (s == 0)
                    &&& node_of@[s] == 0 || trie.degree(node_of@[s] as int) > 0
                },
                forall|x: int| 0 <= x < i ==> {
                    &&& (#[trigger] state_of@[x] is Some) == (x == 0 || trie.degree(x) > 0)
                    &&& state_of@[x] matches Some(s) ==> s < node_of@.len() && node_of@[s as int] == x
                },
            decreases n - i,
        {
            if i == 0 || !trie.is_leaf(i) {
                state_of.push(Some(node_of.len()));
                node_of.push(i);
            } else {
                state_of.push(None);
            }
            i += 1;
        }
        let count = node_of.len();
        let mut rows: Vec<Row> = Vec::new();
        let mut s: usize = 0;
        while s < count
            invariant
                n == trie.len(),
                trie.wf(),
                count == node_of@.len(),
                count >= 1,
                forall|s1: int, s2: int| 0 <= s1 < s2 < count ==> #[trigger] node_of@[s1] < #[trigger] node_of@[s2],
                state_of@.len() == n,
                forall|s2: int| 0 <= s2 < count ==> {
                    &&& #[trigger] node_of@[s2] < n
                    &&& (node_of@[s2] == 0) == (s2 == 0)
                    &&& node_of@[s2] == 0 || trie.degree(node_of@[s2] as int) > 0
                },
                forall|x: int| 0 <= x < n ==> {
                    &&& (#[trigger] state_of@[x] is Some) == (x == 0 || trie.degree(x) > 0)
                    &&& state_of@[x] matches Some(s2) ==> s2 < count && node_of@[s2 as int] == x
                },
                s <= count,
                rows@.len() == s,
                forall|s2: int| 0 <= s2 < s ==> (#[trigger] rows@[s2]).node == node_of@[s2]
                    && row_fits(trie, node_of@, rows@[s2], s2),
            decreases count - s,
        {
            let node = node_of[s];
            let children = &trie.nodes[node].children;
            let mut edges: Vec<(char, Outcome)> = Vec::new();
            let mut k: usize = 0;
            while k < children.len()
                invariant
                    n == trie.len(),
                    trie.wf(),
                    node < n,
                    children == &trie.nodes@[node as int].children,
                    count == node_of@.len(),
                    state_of@.len() == n,
                    forall|x: int| 0 <= x < n ==> {
                        &&& (#[trigger] state_of@[x] is Some) == (x == 0 || trie.degree(x) > 0)
                        &&& state_of@[x] matches Some(s2) ==> s2 < count && node_of@[s2 as int] == x
                    },
                    k <= children@.len(),
                    edges@.len() == k,
                    forall|k2: int| 0 <= k2 < k ==> {
                        &&& (#[trigger] edges@[k2]).0 == trie.child(node as int, k2).0
                        &&& rule_ok(trie, node_of@, edges@[k2].1, trie.child(node as int, k2).1 as int)
                    },
                decreases children@.len() - k,
            {
                let (c, j) = children[k];
                proof {
                    assert(trie.child(node as int, k as int) == (c, j));
                    assert(trie.pre(j as int) == trie.pre(node as int).push(c));
                    if j == 0 {
                        assert(trie.pre(0).len() == 0);
                    }
                }
                if trie.is_leaf(j) {
                    proof {
                        trie.lemma_leaf_has_value(j as int);
                    }
                    let v = trie.nodes[j].value.unwrap();
                    edges.push((c, Outcome::Emit(v, true)));
                } else {
                    let s2 = state_of[j].unwrap();
                    edges.push((c, Outcome::Advance(s2)));
                }
                k += 1;
            }
            let row = Row { node, edges, fallback: trie.nodes[node].value };
            rows.push(row);
            proof {
                assert(rows@[s as int] == row);
                assert(row_fits(trie, node_of@, row, s as int));
            }
            s += 1;
        }
        let m = Matcher { trie, rows };
        proof {
            assert(m.state_nodes() =~= node_of@);
            assert forall|s2: int| 0 <= s2 < m.num_states() implies #[trigger] m.row_ok(s2) by {
                assert(row_fits(trie, node_of@, rows@[s2], s2));
            }
        }
        m
    }

    /// The initial state stands for the empty prefix, every other state for a non-empty one.
    proof fn lemma_initial(&self, state: int)
        requires
            self.wf(),
            0 <= state < self.num_states(),
        ensures
            self.prefix_of(0) == Seq::<char>::empty(),
            (state == 0) == (self.prefix_of(state).len() == 0),
    {
        assert(self.row_ok(0));
        assert(self.row_ok(state));
        assert(self.prefix_of(0) =~= Seq::<char>::empty());
        let i = self.rows@[state].node as int;
        if state != 0 {
            assert(self.trie.pre(i) != self.trie.pre(0));
            if self.prefix_of(state).len() == 0 {
                assert(self.prefix_of(state) =~= self.trie.pre(0));
            }
        }
    }

    /// Runs the matcher over `input` as a driver does: on `Advance` it moves on, on a
    /// consuming `Emit` it records the value and restarts, on a non-consuming one it records
    /// the value and offers the same character again from the initial state; at the end a
    /// partial match is flushed through its fallback. Fails on a mismatch, and on input
    /// that ends inside a partial match that completes no pattern.
    pub fn tokenize(&self, input: &Vec<char>) -> (r: Result<Vec<usize>, MatchError>)
        requires
            self.wf(),
        ensures
            r is Ok <==> tokens_of(self.patterns(), input@) is Some,
            r matches Ok(v) ==> tokens_of(self.patterns(), input@) == Some(v@),
    {
        let ghost pats = self.patterns();
        let mut out: Vec<usize> = Vec::new();
        let mut state: usize = INITIAL;
        let mut i: usize = 0;
        proof {
            self.lemma_initial(0);
            assert(input@.subrange(0, 0).len() == 0);
        }
        while i < input.len()
            invariant
                self.wf(),
                pats == self.patterns(),
                i <= input@.len(),
                state < self.num_states(),
                run_over(pats, input@.subrange(0, i as int)) == (Run {
                    state: self.prefix_of(state as int),
                    out: out@,
                    failed: false,
                }),
            decreases input@.len() - i,
        {
            let c = input[i];
            let ghost before = run_over(pats, input@.subrange(0, i as int));
            assert(input@.subrange(0, i + 1).drop_last() =~= input@.subrange(0, i as int));
            assert(input@.subrange(0, i + 1).last() == c);
            proof {
                self.lemma_initial(0);
            }
            match self.next(state, c) {
                Ok(Outcome::Advance(s2)) => {
                    state = s2;
                },
                Ok(Outcome::Emit(v, true)) => {
                    out.push(v);
                    state = INITIAL;
                },
                Ok(Outcome::Emit(v, false)) => {
                    out.push(v);
                    match self.next(INITIAL, c) {
                        Ok(Outcome::Advance(s2)) => {
                            state = s2;
                        },
                        Ok(Outcome::Emit(w, _)) => {
                            out.push(w);
                            state = INITIAL;
                        },
                        Err(e) => {
                            proof {
                                lemma_failed_stays(pats, input@, i + 1);
                            }
                            return Err(e);
                        },
                    }
                },
                Err(e) => {
                    proof {
                        lemma_failed_stays(pats, input@, i + 1);
                    }
                    return Err(e);
                },
            }
            i += 1;
        }
        assert(input@.subrange(0, i as int) =~= input@);
        proof {
            self.lemma_initial(state as int);
        }
        if state == INITIAL {
            Ok(out)
        } else {
            match self.finish(state) {
                Some(v) => {
                    out.push(v);
                    Ok(out)
                },
                None => Err(MatchError::Unmatched),
            }
        }
    }

    /// A state is reached along one edge only.
    proof fn lemma_one_parent(&self, s1: int, k1: int, s2: int, k2: int)
        requires
            self.wf(),
            0 <= s1 < self.num_states(),
            0 <= s2 < self.num_states(),
            0 <= k1 < self.rows@[s1].edges@.len(),
            0 <= k2 < self.rows@[s2].edges@.len(),
            self.rows@[s1].edges@[k1].1 is Advance,
            self.rows@[s1].edges@[k1].1 == self.rows@[s2].edges@[k2].1,
        ensures
            s1 == s2 && k1 == k2,
    {
        assert(self.row_ok(s1));
        assert(self.row_ok(s2));
        let i1 = self.rows@[s1].node as int;
        let i2 = self.rows@[s2].node as int;
        let (c1, j1) = self.trie.child(i1, k1);
        let (c2, j2) = self.trie.child(i2, k2);
        assert(self.rows@[s1].edges@[k1].0 == c1);
        assert(self.rows@[s2].edges@[k2].0 == c2);
        assert(j1 == j2);
        assert(self.trie.pre(j1 as int) == self.trie.pre(i1).push(c1));
        assert(self.trie.pre(j2 as int) == self.trie.pre(i2).push(c2));
        assert(self.trie.pre(i1) =~= self.trie.pre(j1 as int).drop_last());
        assert(self.trie.pre(i2) =~= self.trie.pre(j2 as int).drop_last());
        assert(i1 == i2);
        assert(self.trie.pre(i1).push(c1).last() == c1);
        assert(self.trie.pre(i2).push(c2).last() == c2);
        if s1 < s2 {
            assert(self.rows@[s1].node < self.rows@[s2].node);
        } else if s2 < s1 {
            assert(self.rows@[s2].node < self.rows@[s1].node);
        }
    }

    /// The name of every state, as a path of indices: the initial state's name is empty,
    /// and the state reached along an edge of state `s` is named by the name of `s`
    /// followed by its index, counted from 1, among the edges of `s` that lead to states.
    pub fn state_names(&self) -> (r: Vec<Vec<usize>>)
        requires
            self.wf(),
        ensures
            r@.len() == self.num_states(),
            r@[0]@ == Seq::<usize>::empty(),
            forall|s: int, k: int|
                0 <= s < self.num_states() && 0 <= k < self.rows@[s].edges@.len() && (
                #[trigger] self.rows@[s].edges@[k]).1 is Advance ==> r@[self.rows@[s].edges@[k].1->Advance_0 as int]@
                    == r@[s]@.push((advances_before(self.rows@[s].edges@, k) + 1) as usize),
    {
        let count = self.rows.len();
        let mut names: Vec<Vec<usize>> = Vec::new();
        let mut s: usize = 0;
        while s < count
            invariant
                count == self.num_states(),
                s <= count,
                names@.len() == s,
                forall|x: int| 0 <= x < s ==> (#[trigger] names@[x])@ == Seq::<usize>::empty(),
            decreases count - s,
        {
            names.push(Vec::new());
            s += 1;
        }
        s = 0;
        while s < count
            invariant
                self.wf(),
                count == self.num_states(),
                s <= count,
                names@.len() == count,
                names@[0]@ == Seq::<usize>::empty(),
                forall|s2: int, k: int|
                    0 <= s2 < s && 0 <= k < self.rows@[s2].edges@.len() && (
                    #[trigger] self.rows@[s2].edges@[k]).1 is Advance ==> names@[self.rows@[s2].edges@[k].1->Advance_0 as int]@
                        == names@[s2]@.push((advances_before(self.rows@[s2].edges@, k) + 1) as usize),
            decreases count - s,
        {
            let edges = &self.rows[s].edges;
            assert(self.row_ok(s as int));
            let mut k: usize = 0;
            let mut seen: usize = 0;
            while k < edges.len()
                invariant
                    self.wf(),
                    count == self.num_states(),
                    s < count,
                    edges == &self.rows@[s as int].edges,
                    k <= edges@.len(),
                    seen == advances_before(edges@, k as int),
                    seen <= k,
                    names@.len() == count,
                    names@[0]@ == Seq::<usize>::empty(),
                    forall|s2: int, k2: int|
                        0 <= s2 < self.num_states() && 0 <= k2 < self.rows@[s2].edges@.len() && (s2 < s || (
                        s2 == s && k2 < k)) && (#[trigger] self.rows@[s2].edges@[k2]).1 is Advance
                            ==> names@[self.rows@[s2].edges@[k2].1->Advance_0 as int]@ == names@[s2]@.push(
                            (advances_before(self.rows@[s2].edges@, k2) + 1) as usize,
                        ),
                decreases edges@.len() - k,
            {
                if let Outcome::Advance(t) = edges[k].1 {
                    let ghost old_names = names@;
                    proof {
                        assert(self.row_ok(s as int));
                        let i = self.rows@[s as int].node as int;
                        assert(self.trie.child(i, k as int).1 as int > i);
                        if t <= s {
                            if t < s {
                                assert(self.rows@[t as int].node < self.rows@[s as int].node);
                            }
                        }
                        assert(t > s);
                        assert(t != 0);
                    }
                    let name = extended(&names[s], seen + 1);
                    names[t] = name;
                    proof {
                        assert forall|s2: int, k2: int|
                            0 <= s2 < self.num_states() && 0 <= k2 < self.rows@[s2].edges@.len() && (s2 < s || (
                            s2 == s && k2 < k + 1)) && (#[trigger] self.rows@[s2].edges@[k2]).1 is Advance implies
                            names@[self.rows@[s2].edges@[k2].1->Advance_0 as int]@ == names@[s2]@.push(
                                (advances_before(self.rows@[s2].edges@, k2) + 1) as usize,
                            ) by {
                            let t2 = self.rows@[s2].edges@[k2].1->Advance_0 as int;
                            assert(self.row_ok(s2));
                            assert(0 <= t2 < self.state_nodes().len());
                            if s2 == s && k2 == k {
                            } else {
                                if t2 == t {
                                    self.lemma_one_parent(s2, k2, s as int, k as int);
                                }
                                assert(names@[t2] == old_names[t2]);
                            }
                            assert(names@[s2] == old_names[s2]);
                        }
                    }
                    seen += 1;
                }
                k += 1;
            }
            s += 1;
        }
        names
    }
}

/// Compiles a pattern set, an ordered list of (literal, value) pairs in which a later
/// value for a literal replaces an earlier one, into a matcher; fails on the first empty
/// pattern.
pub fn build_trie(patterns: &Vec<(Vec<char>, usize)>) -> (r: Result<Matcher, BuildError>)
    ensures
        r is Err <==> exists|t: int| 0 <= t < patterns@.len() && (#[trigger] patterns@[t]).0@.len() == 0,
        r matches Err(BuildError::EmptyPattern(i)) ==> i < patterns@.len() && patterns@[i as int].0@.len() == 0
            && forall|t: int| 0 <= t < i ==> (#[trigger] patterns@[t]).0@.len() > 0,
        r matches Ok(m) ==> m.wf() && m.patterns() == pattern_set(patterns@),
{
    match Trie::build(patterns) {
        Ok(trie) => Ok(Matcher::from_trie(trie)),
        Err(e) => Err(e),
    }
}

} // verus!
