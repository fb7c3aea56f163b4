use vstd::prelude::*;
use crate::model::{
    feed, in_trie, is_prefix, is_state, lemma_value_of_pattern, lemma_value_of_some, patterns_ok,
    run_over, step, tokens_of, value_of, Run, Transition,
};

verus! {

/// Feeding the characters of a pattern that no other pattern extends, from the initial
/// state, advances on every character but the last, and the last one emits the value
/// that the set gives the pattern last, consuming the character.
pub proof fn lemma_pattern_matches(pats: Seq<(Seq<char>, usize)>, t: int)
    requires
        patterns_ok(pats),
        0 <= t < pats.len(),
        forall|u: int|
            0 <= u < pats.len() ==> !(pats[t].0.len() < (#[trigger] pats[u]).0.len() && is_prefix(
                pats[t].0,
                pats[u].0,
            )),
    ensures
        forall|k: int|
            0 <= k < pats[t].0.len() - 1 ==> step(pats, pats[t].0.subrange(0, k), #[trigger] pats[t].0[k])
                == Transition::Advance(pats[t].0.subrange(0, k + 1)),
        value_of(pats, pats[t].0) is Some,
        step(pats, pats[t].0.drop_last(), pats[t].0.last()) == Transition::Emit(
            value_of(pats, pats[t].0)->0,
            true,
        ),
{
    let p = pats[t].0;
    assert(p.len() > 0);
    assert forall|k: int| 0 <= k < p.len() - 1 implies step(pats, p.subrange(0, k), #[trigger] p[k])
        == Transition::Advance(p.subrange(0, k + 1)) by {
        let r = p.subrange(0, k).push(p[k]);
        assert(r =~= p.subrange(0, k + 1));
        assert(p.subrange(0, r.len() as int) =~= r);
        assert(is_state(pats, r));
    }
    lemma_value_of_pattern(pats, t);
    assert(p.drop_last().push(p.last()) =~= p);
    if is_state(pats, p) {
        let u = choose|u: int|
            0 <= u < pats.len() && p.len() < pats[u].0.len() && is_prefix(p, #[trigger] pats[u].0);
        assert(false);
    }
}

/// Where a pattern `pats[a]` is a strict prefix of a pattern `pats[b]`, feeding it
/// advances on each character; a following character `c` other than the next one of
/// `pats[b]`, such that no pattern continues `pats[a]` with `c`, emits the value of
/// `pats[a]` without consuming `c`; and the driver then treats `c` exactly as at the start
/// of a fresh match.
pub proof fn lemma_prefix_falls_back(
    pats: Seq<(Seq<char>, usize)>,
    a: int,
    b: int,
    c: char,
    out: Seq<usize>,
)
    requires
        patterns_ok(pats),
        0 <= a < pats.len(),
        0 <= b < pats.len(),
        pats[a].0.len() < pats[b].0.len(),
        is_prefix(pats[a].0, pats[b].0),
        c != pats[b].0[pats[a].0.len() as int],
        !in_trie(pats, pats[a].0.push(c)),
    ensures
        forall|k: int|
            0 <= k < pats[a].0.len() ==> step(pats, pats[a].0.subrange(0, k), #[trigger] pats[a].0[k])
                == Transition::Advance(pats[a].0.subrange(0, k + 1)),
        value_of(pats, pats[a].0) is Some,
        step(pats, pats[a].0, c) == Transition::Emit(value_of(pats, pats[a].0)->0, false),
        ({
            let fresh = feed(pats, Run { state: Seq::empty(), out: Seq::empty(), failed: false }, c);
            feed(pats, Run { state: pats[a].0, out, failed: false }, c) == (Run {
                state: fresh.state,
                out: out.push(value_of(pats, pats[a].0)->0) + fresh.out,
                failed: fresh.failed,
            })
        }),
{
    let p = pats[a].0;
    let q = pats[b].0;
    assert forall|k: int| 0 <= k < p.len() implies step(pats, p.subrange(0, k), #[trigger] p[k])
        == Transition::Advance(p.subrange(0, k + 1)) by {
        let r = p.subrange(0, k).push(p[k]);
        assert(r =~= p.subrange(0, k + 1));
        assert(q.subrange(0, p.len() as int) == p);
        assert(q.subrange(0, r.len() as int) =~= r);
        assert(is_state(pats, r));
    }
    lemma_value_of_pattern(pats, a);
    let r = p.push(c);
    if is_state(pats, r) {
        let u = choose|u: int|
            0 <= u < pats.len() && r.len() < pats[u].0.len() && is_prefix(r, #[trigger] pats[u].0);
        assert(in_trie(pats, r));
    }
    if value_of(pats, r) is Some {
        lemma_value_of_some(pats, r);
        let u = choose|u: int| 0 <= u < pats.len() && (#[trigger] pats[u]).0 == r;
        assert(pats[u].0.subrange(0, r.len() as int) =~= r);
        assert(in_trie(pats, r));
    }
    let v = value_of(pats, p)->0;
    let fresh = feed(pats, Run { state: Seq::empty(), out: Seq::empty(), failed: false }, c);
    if value_of(pats, Seq::empty()) is Some {
        lemma_value_of_some(pats, Seq::empty());
        let u = choose|u: int| 0 <= u < pats.len() && (#[trigger] pats[u]).0 == Seq::<char>::empty();
        assert(pats[u].0.len() > 0);
    }
    match step(pats, Seq::empty(), c) {
        Transition::Emit(w, _) => {
            assert(out.push(v).push(w) =~= out.push(v) + Seq::<usize>::empty().push(w));
        },
        _ => {
            assert(out.push(v) =~= out.push(v) + Seq::<usize>::empty());
        },
    }
}

/// Two pattern sets that give every literal the same value (the same literals, whatever
/// their order and however often each was given) compile to the same behaviour: every
/// step, and the tokens of every input.
pub proof fn lemma_same_values_same_matcher(
    p1: Seq<(Seq<char>, usize)>,
    p2: Seq<(Seq<char>, usize)>,
)
    requires
        forall|q: Seq<char>| #[trigger] value_of(p1, q) == value_of(p2, q),
    ensures
        forall|q: Seq<char>, c: char| #[trigger] step(p1, q, c) == step(p2, q, c),
        forall|input: Seq<char>| #[trigger] tokens_of(p1, input) == tokens_of(p2, input),
{
    assert forall|r: Seq<char>| #[trigger] is_state(p1, r) implies is_state(p2, r) by {
        lemma_state_transfers(p1, p2, r);
    }
    assert forall|r: Seq<char>| #[trigger] is_state(p2, r) implies is_state(p1, r) by {
        lemma_state_transfers(p2, p1, r);
    }
    assert forall|q: Seq<char>, c: char| #[trigger] step(p1, q, c) == step(p2, q, c) by {
        assert(is_state(p1, q.push(c)) == is_state(p2, q.push(c)));
        assert(value_of(p1, q.push(c)) == value_of(p2, q.push(c)));
        assert(value_of(p1, q) == value_of(p2, q));
    }
    assert forall|input: Seq<char>| #[trigger] tokens_of(p1, input) == tokens_of(p2, input) by {
        lemma_same_runs(p1, p2, input);
    }
}

proof fn lemma_state_transfers(p1: Seq<(Seq<char>, usize)>, p2: Seq<(Seq<char>, usize)>, r: Seq<char>)
    requires
        forall|q: Seq<char>| #[trigger] value_of(p1, q) == value_of(p2, q),
        is_state(p1, r),
    ensures
        is_state(p2, r),
{
    if r.len() > 0 {
        let t = choose|t: int| 0 <= t < p1.len() && r.len() < p1[t].0.len() && is_prefix(r, #[trigger] p1[t].0);
        lemma_value_of_pattern(p1, t);
        assert(value_of(p2, p1[t].0) is Some);
        lemma_value_of_some(p2, p1[t].0);
        let u = choose|u: int| 0 <= u < p2.len() && (#[trigger] p2[u]).0 == p1[t].0;
        assert(is_prefix(r, p2[u].0));
    }
}

proof fn lemma_same_runs(p1: Seq<(Seq<char>, usize)>, p2: Seq<(Seq<char>, usize)>, input: Seq<char>)
    requires
        forall|q: Seq<char>, c: char| #[trigger] step(p1, q, c) == step(p2, q, c),
        forall|q: Seq<char>| #[trigger] value_of(p1, q) == value_of(p2, q),
    ensures
        run_over(p1, input) == run_over(p2, input),
        tokens_of(p1, input) == tokens_of(p2, input),
    decreases input.len(),
{
    if input.len() > 0 {
        lemma_same_runs(p1, p2, input.drop_last());
        let r = run_over(p1, input.drop_last());
        let c = input.last();
        assert(step(p1, r.state, c) == step(p2, r.state, c));
        assert(step(p1, Seq::empty(), c) == step(p2, Seq::empty(), c));
    }
    let r = run_over(p1, input);
    assert(value_of(p1, r.state) == value_of(p2, r.state));
}

} // verus!
