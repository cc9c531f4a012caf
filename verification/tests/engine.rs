use tiny_regex::CompileError;
use tiny_regex::SyntaxError;
use tiny_regex::Token;
use tiny_regex::compile;
use tiny_regex::follow_epsilons;
use tiny_regex::match_pattern;
use tiny_regex::parse;

#[test]
fn postfix_single_literal() {
    assert_eq!(parse("a").unwrap(), vec![Token::Literal('a')]);
}

#[test]
fn postfix_concat() {
    assert_eq!(
        parse("ab").unwrap(),
        vec![Token::Literal('a'), Token::Literal('b'), Token::Concat]
    );
}

#[test]
fn postfix_alternation() {
    assert_eq!(
        parse("a|b").unwrap(),
        vec![Token::Literal('a'), Token::Literal('b'), Token::Alt]
    );
}

#[test]
fn postfix_star() {
    assert_eq!(parse("a*").unwrap(), vec![Token::Literal('a'), Token::Star]);
}

#[test]
fn postfix_group_star() {
    // "a(bb)*a" is a . ((b.b))* . a with concatenation made explicit.
    assert_eq!(
        parse("a(bb)*a").unwrap(),
        vec![
            Token::Literal('a'),
            Token::Literal('b'),
            Token::Literal('b'),
            Token::Concat,
            Token::Star,
            Token::Concat,
            Token::Literal('a'),
            Token::Concat,
        ]
    );
}

#[test]
fn concat_inserted_between_groups() {
    assert_eq!(
        parse("(a)(b)").unwrap(),
        vec![Token::Literal('a'), Token::Literal('b'), Token::Concat]
    );
}

#[test]
fn unmatched_close_rejected() {
    assert_eq!(parse("a)"), Err(SyntaxError::UnmatchedParenthesis));
}

#[test]
fn unmatched_open_rejected() {
    assert_eq!(parse("(a"), Err(SyntaxError::UnmatchedParenthesis));
}

#[test]
fn empty_pattern_parses_but_does_not_compile() {
    let post = parse("").unwrap();
    assert_eq!(post, vec![]);
    assert!(matches!(compile(&post), Err(CompileError::MalformedExpression)));
}

#[test]
fn compile_missing_operand() {
    assert!(matches!(compile(&vec![Token::Concat]), Err(CompileError::MissingOperand)));
    assert!(matches!(compile(&vec![Token::Alt]), Err(CompileError::MissingOperand)));
    assert!(matches!(compile(&vec![Token::Star]), Err(CompileError::MissingOperand)));
    assert!(matches!(
        compile(&vec![Token::Literal('a'), Token::Concat]),
        Err(CompileError::MissingOperand)
    ));
}

#[test]
fn compile_leftover_fragments() {
    assert!(matches!(
        compile(&vec![Token::Literal('a'), Token::Literal('b')]),
        Err(CompileError::MalformedExpression)
    ));
}

#[test]
fn compile_of_parsed_pattern_succeeds_and_accept_is_sentinel() {
    let post = parse("a(bb)*a").unwrap();
    let nfa = compile(&post).unwrap();
    let accept = &nfa.states[nfa.accept];
    assert!(accept.out1.is_none());
    assert!(accept.out2.is_none());
}

#[test]
fn match_even_bs() {
    let post = parse("a(bb)*a").unwrap();
    let nfa = compile(&post).unwrap();
    let m = match_pattern("abbbbbbbba", &nfa).unwrap();
    assert_eq!(m.start, 0);
    assert_eq!(m.end, 10);
    assert_eq!(m.text, "abbbbbbbba");
}

#[test]
fn no_match_odd_bs() {
    let post = parse("a(bb)*a").unwrap();
    let nfa = compile(&post).unwrap();
    assert!(match_pattern("abbbbba", &nfa).is_none());
}

#[test]
fn match_inside_larger_text() {
    let post = parse("a(bb)*a").unwrap();
    let nfa = compile(&post).unwrap();
    let hay = "This string should match: abbbbbbbba. This string should not match: abbbbba";
    let m = match_pattern(hay, &nfa).unwrap();
    assert_eq!(m.start, 26);
    assert_eq!(m.end, 36);
    assert_eq!(m.text, "abbbbbbbba");
}

#[test]
fn alternation_inside_star_matches() {
    let post = parse("a((bb)|(cc))*a").unwrap();
    let nfa = compile(&post).unwrap();
    let m = match_pattern("abbbbccbba", &nfa).unwrap();
    assert_eq!(m.start, 0);
    assert_eq!(m.end, 10);
    assert_eq!(m.text, "abbbbccbba");
}

#[test]
fn alternation_inside_star_rejects_stray() {
    let post = parse("a((bb)|(cc))*a").unwrap();
    let nfa = compile(&post).unwrap();
    assert!(match_pattern("abbcbbba", &nfa).is_none());
}

#[test]
fn leftmost_shortest_star() {
    // Zero-length completions are never reported: "a*" against "baa" matches
    // one "a" at the first offset where a nonempty completion exists.
    let post = parse("a*").unwrap();
    let nfa = compile(&post).unwrap();
    let m = match_pattern("baa", &nfa).unwrap();
    assert_eq!(m.start, 1);
    assert_eq!(m.end, 2);
    assert_eq!(m.text, "a");
}

#[test]
fn star_needs_one_character() {
    let post = parse("a*").unwrap();
    let nfa = compile(&post).unwrap();
    assert!(match_pattern("bbb", &nfa).is_none());
}

#[test]
fn shortest_completion_wins() {
    // "ab*" completes after the "a" alone, before any "b" is consumed.
    let post = parse("ab*").unwrap();
    let nfa = compile(&post).unwrap();
    let m = match_pattern("abbb", &nfa).unwrap();
    assert_eq!(m.start, 0);
    assert_eq!(m.end, 1);
    assert_eq!(m.text, "a");
}

#[test]
fn leftmost_offset_wins() {
    let post = parse("b").unwrap();
    let nfa = compile(&post).unwrap();
    let m = match_pattern("abab", &nfa).unwrap();
    assert_eq!(m.start, 1);
    assert_eq!(m.end, 2);
    assert_eq!(m.text, "b");
}

#[test]
fn nested_star_terminates() {
    // The epsilon graph of "(a*)*" is cyclic; the closure's visited set
    // keeps the matcher from looping.
    let post = parse("(a*)*").unwrap();
    let nfa = compile(&post).unwrap();
    let m = match_pattern("ba", &nfa).unwrap();
    assert_eq!(m.start, 1);
    assert_eq!(m.end, 2);
    assert!(match_pattern("bbb", &nfa).is_none());
}

#[test]
fn multibyte_offsets_are_character_positions() {
    let post = parse("é").unwrap();
    let nfa = compile(&post).unwrap();
    let m = match_pattern("xé", &nfa).unwrap();
    assert_eq!(m.start, 1);
    assert_eq!(m.end, 2);
    assert_eq!(m.text, "é");
}

#[test]
fn compile_twice_identical() {
    let post = parse("a(bb)*a").unwrap();
    let n1 = compile(&post).unwrap();
    let n2 = compile(&post).unwrap();
    assert_eq!(n1.states, n2.states);
    assert_eq!(n1.start, n2.start);
    assert_eq!(n1.accept, n2.accept);
}

#[test]
fn closure_collects_character_states_and_sees_accept() {
    // "a*" compiles to: 0 = character 'a' -> 1, 1 = epsilon -> 2 (the
    // split), 2 = split -> 0 and -> 3, 3 = accept.  From the start state
    // the closure reaches the one character state, and the accept state.
    let post = parse("a*").unwrap();
    let nfa = compile(&post).unwrap();
    assert_eq!(nfa.start, 2);
    assert_eq!(nfa.accept, 3);
    let (chars, saw_accept) = follow_epsilons(&nfa, &vec![nfa.start]);
    assert_eq!(chars, vec![0]);
    assert!(saw_accept);
}
