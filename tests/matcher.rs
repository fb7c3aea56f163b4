use build_trie::matcher::{build_trie, MatchError, Matcher, Outcome, INITIAL};
use build_trie::tokens::{
    symbol_patterns, symbol_token, Tokens, ARROW_FUNCTION, ASSIGN, CLOSE_BRACE, EQUAL,
    OPEN_BRACE, STRICT_EQUAL,
};
use build_trie::trie::{BuildError, Trie};

fn set(list: &[(&str, usize)]) -> Vec<(Vec<char>, usize)> {
    list.iter().map(|(s, v)| (s.chars().collect(), *v)).collect()
}

fn chars(s: &str) -> Vec<char> {
    s.chars().collect()
}

fn compile(list: &[(&str, usize)]) -> Matcher {
    build_trie(&set(list)).expect("non-empty patterns compile")
}

/// Feeds `s` from the initial state and returns the state reached; panics on an emission.
fn walk(m: &Matcher, s: &str) -> usize {
    let mut state = INITIAL;
    for c in s.chars() {
        match m.next(state, c) {
            Ok(Outcome::Advance(s2)) => state = s2,
            other => panic!("unexpected {:?}", other),
        }
    }
    state
}

#[test]
fn scenario_symbols_with_spaces() {
    let m = build_trie(&symbol_patterns()).unwrap();
    assert_eq!(
        m.tokenize(&chars("== = === =>")),
        Ok(vec![EQUAL, ASSIGN, STRICT_EQUAL, ARROW_FUNCTION])
    );
}

#[test]
fn scenario_assign_then_letter() {
    let m = build_trie(&symbol_patterns()).unwrap();
    assert_eq!(m.tokenize(&chars("=a")), Ok(vec![ASSIGN]));
    let s = walk(&m, "=");
    assert_eq!(m.next(s, 'a'), Ok(Outcome::Emit(ASSIGN, false)));
    assert_eq!(m.next(INITIAL, 'a'), Ok(Outcome::Advance(INITIAL)));
}

#[test]
fn scenario_truncated_input() {
    let m = compile(&[("{{", 7)]);
    assert_eq!(m.tokenize(&chars("{")), Err(MatchError::Unmatched));
    let s = walk(&m, "{");
    assert_eq!(m.finish(s), None);
    assert_eq!(m.next(s, '\0'), Err(MatchError::Unmatched));
    assert_eq!(m.tokenize(&chars("{{")), Ok(vec![7]));
}

#[test]
fn overlap_precedence() {
    let m = compile(&[("{", 1), ("{{", 2)]);
    assert_eq!(m.tokenize(&chars("{{")), Ok(vec![2]));
    assert_eq!(m.tokenize(&chars("{x")), Ok(vec![1]));
    let s = walk(&m, "{");
    assert_eq!(m.next(s, 'x'), Ok(Outcome::Emit(1, false)));
    assert_eq!(m.next(s, '{'), Ok(Outcome::Emit(2, true)));
    assert_eq!(m.tokenize(&chars("{")), Ok(vec![1]));
    assert_eq!(m.tokenize(&chars("{{{")), Ok(vec![2, 1]));
}

#[test]
fn each_unextended_pattern_matches_exactly() {
    let m = build_trie(&symbol_patterns()).unwrap();
    for (p, v) in [("{", OPEN_BRACE), ("}", CLOSE_BRACE), ("=>", ARROW_FUNCTION), ("===", STRICT_EQUAL)] {
        let cs = chars(p);
        let last = cs.len() - 1;
        let s = walk(&m, &p[..last]);
        assert_eq!(m.next(s, cs[last]), Ok(Outcome::Emit(v, true)));
    }
}

#[test]
fn prefix_pattern_falls_back() {
    let m = build_trie(&symbol_patterns()).unwrap();
    let s = walk(&m, "=");
    assert_eq!(m.next(s, ' '), Ok(Outcome::Emit(ASSIGN, false)));
    assert_eq!(m.next(INITIAL, ' '), Ok(Outcome::Advance(INITIAL)));
    let s = walk(&m, "==");
    assert_eq!(m.next(s, '{'), Ok(Outcome::Emit(EQUAL, false)));
    assert_eq!(m.next(INITIAL, '{'), Ok(Outcome::Emit(OPEN_BRACE, true)));
    assert_eq!(m.tokenize(&chars("=={")), Ok(vec![EQUAL, OPEN_BRACE]));
}

#[test]
fn compile_order_does_not_matter() {
    let a = compile(&[("=", 5), ("==", 3), ("===", 4), ("=>", 2), ("{", 0), ("}", 1)]);
    let b = compile(&[("}", 1), ("===", 9), ("{", 0), ("=>", 2), ("==", 3), ("=", 5), ("===", 4)]);
    let c = build_trie(&symbol_patterns()).unwrap();
    for input in ["== = === =>", "=a", "{}{=>}", "====", "=", "=>=", "x{y}z", ""] {
        let expected = c.tokenize(&chars(input));
        assert_eq!(a.tokenize(&chars(input)), expected);
        assert_eq!(b.tokenize(&chars(input)), expected);
    }
    assert_eq!(a.state_count(), b.state_count());
}

#[test]
fn later_duplicate_wins() {
    let m = compile(&[("ab", 1), ("ab", 2)]);
    assert_eq!(m.tokenize(&chars("ab")), Ok(vec![2]));
    let s = walk(&m, "a");
    assert_eq!(m.next(s, 'b'), Ok(Outcome::Emit(2, true)));
}

#[test]
fn empty_pattern_is_rejected() {
    assert!(matches!(
        build_trie(&set(&[("a", 0), ("", 1), ("", 2)])),
        Err(BuildError::EmptyPattern(1))
    ));
    assert!(matches!(Trie::build(&set(&[("", 0)])), Err(BuildError::EmptyPattern(0))));
}

#[test]
fn empty_set_absorbs_everything() {
    let m = compile(&[]);
    assert_eq!(m.state_count(), 1);
    assert_eq!(m.next(INITIAL, 'x'), Ok(Outcome::Advance(INITIAL)));
    assert_eq!(m.tokenize(&chars("abc")), Ok(vec![]));
    assert_eq!(m.finish(INITIAL), None);
}

#[test]
fn unknown_character_in_partial_match_is_fatal() {
    let m = compile(&[("ab", 1)]);
    assert_eq!(m.tokenize(&chars("ac")), Err(MatchError::Unmatched));
    let s = walk(&m, "a");
    assert_eq!(m.next(s, 'c'), Err(MatchError::Unmatched));
    assert_eq!(m.tokenize(&chars("cab")), Ok(vec![1]));
}

#[test]
fn states_are_the_nodes_with_children() {
    // "=", "==", "===" and "=>": the root, "=" and "==" have children.
    let m = build_trie(&symbol_patterns()).unwrap();
    assert_eq!(m.state_count(), 3);
    let one = walk(&m, "=");
    let two = walk(&m, "==");
    assert!(one != INITIAL && two != INITIAL && one != two);
    assert_eq!(m.finish(one), Some(ASSIGN));
    assert_eq!(m.finish(two), Some(EQUAL));
}

#[test]
fn trie_leaves() {
    let t = Trie::build(&set(&[("ab", 1), ("ac", 2)])).unwrap();
    assert_eq!(t.nodes.len(), 4);
    assert!(!t.is_leaf(0));
    assert!(!t.is_leaf(1));
    assert!(t.is_leaf(2));
    assert!(t.is_leaf(3));
    assert_eq!(t.find_child(0, 'a'), Some(1));
    assert_eq!(t.find_child(0, 'b'), None);
    assert_eq!(t.nodes[2].value, Some(1));
    assert_eq!(t.nodes[1].value, None);
}

#[test]
fn symbol_tokens() {
    assert!(matches!(symbol_token(OPEN_BRACE), Some(Tokens::OpenBrace)));
    assert!(matches!(symbol_token(CLOSE_BRACE), Some(Tokens::CloseBrace)));
    assert!(matches!(symbol_token(ARROW_FUNCTION), Some(Tokens::ArrowFunction)));
    assert!(matches!(symbol_token(EQUAL), Some(Tokens::Equal)));
    assert!(matches!(symbol_token(STRICT_EQUAL), Some(Tokens::StrictEqual)));
    assert!(matches!(symbol_token(ASSIGN), Some(Tokens::Assign)));
    assert!(symbol_token(6).is_none());
}

#[test]
fn state_names_follow_the_tree() {
    let m = build_trie(&symbol_patterns()).unwrap();
    let names = m.state_names();
    assert_eq!(names.len(), 3);
    assert_eq!(names[INITIAL], Vec::<usize>::new());
    assert_eq!(names[walk(&m, "=")], vec![1]);
    assert_eq!(names[walk(&m, "==")], vec![1, 1]);

    let m = compile(&[("ab", 1), ("c", 2), ("de", 3), ("dfg", 4)]);
    let names = m.state_names();
    assert_eq!(names[walk(&m, "a")], vec![1]);
    assert_eq!(names[walk(&m, "d")], vec![2]);
    assert_eq!(names[walk(&m, "df")], vec![2, 1]);
}
