use vstd::prelude::*;
use crate::trie::pattern_set;

verus! {

/// The tokens of a small brace-and-equals language: its symbols, matched by the compiled
/// matcher, and runs of letters.
#[derive(Debug)]
pub enum Tokens {
    OpenBrace,
    CloseBrace,
    ArrowFunction,
    Equal,
    StrictEqual,
    Assign,
    Literal(String),
}

pub const OPEN_BRACE: usize = 0;

pub const CLOSE_BRACE: usize = 1;

pub const ARROW_FUNCTION: usize = 2;

pub const EQUAL: usize = 3;

pub const STRICT_EQUAL: usize = 4;

pub const ASSIGN: usize = 5;

/// The symbols of the language as a pattern set, each with the value that stands for its
/// token.
pub open spec fn symbol_set() -> Seq<(Seq<char>, usize)> {
    seq![
        (seq!['{'], OPEN_BRACE),
        (seq!['}'], CLOSE_BRACE),
        (seq!['=', '>'], ARROW_FUNCTION),
        (seq!['=', '='], EQUAL),
        (seq!['=', '=', '='], STRICT_EQUAL),
        (seq!['='], ASSIGN),
    ]
}

/// The pattern set of the language's symbols.
pub fn symbol_patterns() -> (r: Vec<(Vec<char>, usize)>)
    ensures
        pattern_set(r@) == symbol_set(),
{
    let r = vec![
        (vec!['{'], OPEN_BRACE),
        (vec!['}'], CLOSE_BRACE),
        (vec!['=', '>'], ARROW_FUNCTION),
        (vec!['=', '='], EQUAL),
        (vec!['=', '=', '='], STRICT_EQUAL),
        (vec!['='], ASSIGN),
    ];
    assert(r@[0].0@ =~= seq!['{']);
    assert(r@[1].0@ =~= seq!['}']);
    assert(r@[2].0@ =~= seq!['=', '>']);
    assert(r@[3].0@ =~= seq!['=', '=']);
    assert(r@[4].0@ =~= seq!['=', '=', '=']);
    assert(r@[5].0@ =~= seq!['=']);
    assert(pattern_set(r@) =~= symbol_set());
    r
}

/// The token that a symbol value stands for.
pub fn symbol_token(v: usize) -> (r: Option<Tokens>)
    ensures
        r is Some <==> v <= ASSIGN,
        v == OPEN_BRACE ==> r matches Some(Tokens::OpenBrace),
        v == CLOSE_BRACE ==> r matches Some(Tokens::CloseBrace),
        v == ARROW_FUNCTION ==> r matches Some(Tokens::ArrowFunction),
        v == EQUAL ==> r matches Some(Tokens::Equal),
        v == STRICT_EQUAL ==> r matches Some(Tokens::StrictEqual),
        v == ASSIGN ==> r matches Some(Tokens::Assign),
{
    if v == OPEN_BRACE {
        Some(Tokens::OpenBrace)
    } else if v == CLOSE_BRACE {
        Some(Tokens::CloseBrace)
    } else if v == ARROW_FUNCTION {
        Some(Tokens::ArrowFunction)
    } else if v == EQUAL {
        Some(Tokens::Equal)
    } else if v == STRICT_EQUAL {
        Some(Tokens::StrictEqual)
    } else if v == ASSIGN {
        Some(Tokens::Assign)
    } else {
        None
    }
}

} // verus!
