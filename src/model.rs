use vstd::prelude::*;

verus! {

/// `q` is a prefix of `p` (possibly all of it).
pub open spec fn is_prefix(q: Seq<char>, p: Seq<char>) -> bool {
    q.len() <= p.len() && p.subrange(0, q.len() as int) == q
}

/// Every pattern of the set is non-empty.
pub open spec fn patterns_ok(pats: Seq<(Seq<char>, usize)>) -> bool {
    forall|t: int| 0 <= t < pats.len() ==> (#[trigger] pats[t]).0.len() > 0
}

/// `q` is a node of the prefix tree of `pats`: the root, or a prefix of some pattern.
pub open spec fn in_trie(pats: Seq<(Seq<char>, usize)>, q: Seq<char>) -> bool {
    q.len() == 0 || exists|t: int| 0 <= t < pats.len() && is_prefix(q, #[trigger] pats[t].0)
}

/// `q` is a strict prefix of some pattern: a node with children, hence a matcher state
/// (the empty prefix is the initial state).
pub open spec fn is_state(pats: Seq<(Seq<char>, usize)>, q: Seq<char>) -> bool {
    q.len() == 0 || exists|t: int|
        0 <= t < pats.len() && q.len() < pats[t].0.len() && is_prefix(q, #[trigger] pats[t].0)
}

/// The value last associated with the literal `q` in the pattern set, if any.
pub open spec fn value_of(pats: Seq<(Seq<char>, usize)>, q: Seq<char>) -> Option<usize>
    decreases pats.len(),
{
    if pats.len() == 0 {
        None
    } else if pats.last().0 == q {
        Some(pats.last().1)
    } else {
        value_of(pats.drop_last(), q)
    }
}

/// What the matcher does with one character, with states named by the prefix they stand for.
pub enum Transition {
    Advance(Seq<char>),
    Emit(usize, bool),
    Fail,
}

/// One step of the matcher from the partial match `q` on the character `c`: an exact rule
/// first (continue into a longer pattern, or complete one), then the fallback to the
/// pattern that `q` itself completes, then silent absorption at the initial state.
pub open spec fn step(pats: Seq<(Seq<char>, usize)>, q: Seq<char>, c: char) -> Transition {
    let r = q.push(c);
    if is_state(pats, r) {
        Transition::Advance(r)
    } else if value_of(pats, r) is Some {
        Transition::Emit(value_of(pats, r)->0, true)
    } else if value_of(pats, q) is Some {
        Transition::Emit(value_of(pats, q)->0, false)
    } else if q.len() == 0 {
        Transition::Advance(q)
    } else {
        Transition::Fail
    }
}

/// The driver's position after some input: the partial match, the values emitted so far,
/// and whether an unrecoverable mismatch happened.
pub struct Run {
    pub state: Seq<char>,
    pub out: Seq<usize>,
    pub failed: bool,
}

/// The driver after the step from the initial state on `c`, having emitted `out` before it.
pub open spec fn restart(pats: Seq<(Seq<char>, usize)>, out: Seq<usize>, c: char) -> Run {
    match step(pats, Seq::empty(), c) {
        Transition::Advance(q) => Run { state: q, out, failed: false },
        Transition::Emit(w, _) => Run { state: Seq::empty(), out: out.push(w), failed: false },
        Transition::Fail => Run { state: Seq::empty(), out, failed: true },
    }
}

/// The driver protocol for one character: advance, emit and consume, or emit and
/// re-offer the character from the initial state.
pub open spec fn feed(pats: Seq<(Seq<char>, usize)>, r: Run, c: char) -> Run {
    if r.failed {
        r
    } else {
        match step(pats, r.state, c) {
            Transition::Advance(q) => Run { state: q, out: r.out, failed: false },
            Transition::Emit(v, true) => Run {
                state: Seq::empty(),
                out: r.out.push(v),
                failed: false,
            },
            Transition::Emit(v, false) => restart(pats, r.out.push(v), c),
            Transition::Fail => Run { state: r.state, out: r.out, failed: true },
        }
    }
}

/// The driver after feeding every character of `input` from the initial state.
pub open spec fn run_over(pats: Seq<(Seq<char>, usize)>, input: Seq<char>) -> Run
    decreases input.len(),
{
    if input.len() == 0 {
        Run { state: Seq::empty(), out: Seq::empty(), failed: false }
    } else {
        feed(pats, run_over(pats, input.drop_last()), input.last())
    }
}

/// The tokens of `input`, after the end-of-input flush; `None` where the input holds a
/// mismatch or ends inside a partial match that completes no pattern.
pub open spec fn tokens_of(pats: Seq<(Seq<char>, usize)>, input: Seq<char>) -> Option<Seq<usize>> {
    let r = run_over(pats, input);
    if r.failed {
        None
    } else if r.state.len() == 0 {
        Some(r.out)
    } else {
        match value_of(pats, r.state) {
            Some(v) => Some(r.out.push(v)),
            None => None,
        }
    }
}

/// The tree of prefixes is closed under taking prefixes.
pub proof fn lemma_in_trie_parent(pats: Seq<(Seq<char>, usize)>, q: Seq<char>, c: char)
    requires
        in_trie(pats, q.push(c)),
    ensures
        in_trie(pats, q),
{
    if q.len() > 0 {
        let t = choose|t: int| 0 <= t < pats.len() && is_prefix(q.push(c), #[trigger] pats[t].0);
        assert(pats[t].0.subrange(0, q.len() as int) =~= q.push(c).subrange(0, q.len() as int));
        assert(q.push(c).subrange(0, q.len() as int) =~= q);
    }
}

/// A one-character extension of `q` that is a prefix of `p`, with `q` of length `m`, is
/// the prefix of `p` of length `m + 1`.
pub proof fn lemma_prefix_push(q: Seq<char>, c: char, p: Seq<char>)
    requires
        is_prefix(q.push(c), p),
    ensures
        q == p.subrange(0, q.len() as int),
        c == p[q.len() as int],
{
    assert(p.subrange(0, q.len() as int) =~= q.push(c).subrange(0, q.len() as int));
    assert(q.push(c).subrange(0, q.len() as int) =~= q);
    assert(q.push(c)[q.len() as int] == c);
    assert(p.subrange(0, q.len() + 1 as int)[q.len() as int] == p[q.len() as int]);
}

/// Once the driver has met a mismatch, the rest of the input changes nothing.
pub proof fn lemma_failed_stays(pats: Seq<(Seq<char>, usize)>, input: Seq<char>, i: int)
    requires
        0 <= i <= input.len(),
        run_over(pats, input.subrange(0, i)).failed,
    ensures
        run_over(pats, input).failed,
    decreases input.len() - i,
{
    if i < input.len() {
        assert(input.subrange(0, i + 1).drop_last() =~= input.subrange(0, i));
        lemma_failed_stays(pats, input, i + 1);
    } else {
        assert(input.subrange(0, i) =~= input);
    }
}

/// A literal with a value in the set is one of its patterns.
pub proof fn lemma_value_of_some(pats: Seq<(Seq<char>, usize)>, q: Seq<char>)
    requires
        value_of(pats, q) is Some,
    ensures
        exists|t: int| 0 <= t < pats.len() && (#[trigger] pats[t]).0 == q,
    decreases pats.len(),
{
    if pats.last().0 == q {
        assert(pats[pats.len() - 1].0 == q);
    } else {
        lemma_value_of_some(pats.drop_last(), q);
        let t = choose|t: int| 0 <= t < pats.drop_last().len() && (#[trigger] pats.drop_last()[t]).0 == q;
        assert(pats[t] == pats.drop_last()[t]);
    }
}

/// A pattern of the set has a value.
pub proof fn lemma_value_of_pattern(pats: Seq<(Seq<char>, usize)>, t: int)
    requires
        0 <= t < pats.len(),
    ensures
        value_of(pats, pats[t].0) is Some,
    decreases pats.len(),
{
    if pats.last().0 != pats[t].0 {
        assert(t != pats.len() - 1);
        assert(pats.drop_last()[t] == pats[t]);
        lemma_value_of_pattern(pats.drop_last(), t);
    }
}

/// Adding a pattern changes the value of that literal alone.
pub proof fn lemma_value_of_push(pats: Seq<(Seq<char>, usize)>, p: Seq<char>, v: usize, q: Seq<char>)
    ensures
        value_of(pats.push((p, v)), q) == (if q == p { Some(v) } else { value_of(pats, q) }),
{
    assert(pats.push((p, v)).drop_last() == pats);
}

} // verus!
