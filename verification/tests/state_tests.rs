use schoolmarm::{Grammar, GrammarState};

#[test]
fn test_init_simple() {
    let g = Grammar::new(r#"root ::= "a""#).unwrap();
    let state = GrammarState::new(g).unwrap();
    assert!(state.is_valid());
    assert!(!state.is_accepting()); // haven't consumed 'a' yet
}

#[test]
fn test_accept_simple() {
    let g = Grammar::new(r#"root ::= "a""#).unwrap();
    let mut state = GrammarState::new(g).unwrap();
    state.accept_token("a").unwrap();
    assert!(state.is_accepting());
}

#[test]
fn test_accept_reject() {
    let g = Grammar::new(r#"root ::= "a""#).unwrap();
    let mut state = GrammarState::new(g).unwrap();
    let result = state.accept_token("b");
    assert!(result.is_err());
}

#[test]
fn test_accept_sequence() {
    let g = Grammar::new(r#"root ::= "abc""#).unwrap();
    let mut state = GrammarState::new(g).unwrap();
    // Accept as one token
    state.accept_token("abc").unwrap();
    assert!(state.is_accepting());
}

#[test]
fn test_accept_sequence_char_by_char() {
    let g = Grammar::new(r#"root ::= "abc""#).unwrap();
    let mut state = GrammarState::new(g).unwrap();
    state.accept_token("a").unwrap();
    assert!(!state.is_accepting());
    state.accept_token("b").unwrap();
    assert!(!state.is_accepting());
    state.accept_token("c").unwrap();
    assert!(state.is_accepting());
}

#[test]
fn test_alternates() {
    let g = Grammar::new(r#"root ::= "a" | "b" | "c""#).unwrap();
    let mut state = GrammarState::new(g).unwrap();
    state.accept_token("b").unwrap();
    assert!(state.is_accepting());
}

#[test]
fn test_char_range() {
    let g = Grammar::new(r#"root ::= [a-z]+"#).unwrap();
    let mut state = GrammarState::new(g).unwrap();
    state.accept_token("h").unwrap();
    state.accept_token("e").unwrap();
    state.accept_token("l").unwrap();
    state.accept_token("l").unwrap();
    state.accept_token("o").unwrap();
    assert!(state.is_accepting());
}

#[test]
fn test_star_empty() {
    let g = Grammar::new(r#"root ::= "a"*"#).unwrap();
    let state = GrammarState::new(g).unwrap();
    // * allows empty match
    assert!(state.is_accepting());
}

#[test]
fn test_star_multiple() {
    let g = Grammar::new(r#"root ::= "a"*"#).unwrap();
    let mut state = GrammarState::new(g).unwrap();
    state.accept_token("a").unwrap();
    state.accept_token("a").unwrap();
    state.accept_token("a").unwrap();
    assert!(state.is_accepting());
}

#[test]
fn test_plus_nonempty() {
    let g = Grammar::new(r#"root ::= "a"+"#).unwrap();
    let state = GrammarState::new(g).unwrap();
    assert!(!state.is_accepting()); // + requires at least one
}

#[test]
fn test_allowed_tokens_simple() {
    let g = Grammar::new(r#"root ::= "a" | "b""#).unwrap();
    let state = GrammarState::new(g).unwrap();
    let vocab = vec!["a", "b", "c", "ab"];
    let allowed = state.allowed_tokens(&vocab);
    assert!(allowed[0]); // "a"
    assert!(allowed[1]); // "b"
    assert!(!allowed[2]); // "c"
    assert!(!allowed[3]); // "ab" — would need to match exactly, but grammar only accepts single char
}

#[test]
fn test_allowed_tokens_sequence() {
    let g = Grammar::new(r#"root ::= "ab""#).unwrap();
    let state = GrammarState::new(g).unwrap();
    let vocab = vec!["a", "b", "ab", "abc", "ba"];
    let allowed = state.allowed_tokens(&vocab);
    assert!(allowed[0]); // "a" — partial match is ok
    assert!(!allowed[1]); // "b" — doesn't match start
    assert!(allowed[2]); // "ab" — full match
    assert!(!allowed[3]); // "abc" — too long
    assert!(!allowed[4]); // "ba" — wrong order
}

#[test]
fn test_left_recursion_detected() {
    let result = Grammar::new(r#"root ::= "a" | root "a""#);
    assert!(result.is_err());
}

#[test]
fn test_left_recursion_indirect() {
    let result = Grammar::new("root ::= asdf\nasdf ::= \"a\" | asdf \"a\"");
    assert!(result.is_err());
}

#[test]
fn test_left_recursion_via_empty() {
    let result = Grammar::new(
        "root ::= asdf\nasdf ::= \"a\" | foo \"b\"\nfoo ::= \"c\" | empty asdf \"d\" | \"e\"\nempty ::= \"blah\" | ",
    );
    assert!(result.is_err());
}

#[test]
fn test_dot_any_char() {
    let g = Grammar::new(r#"root ::= ... "abc" ..."#).unwrap();
    let mut state = GrammarState::new(g).unwrap();
    // 3 any + "abc" + 3 any = 9 chars
    state.accept_token("x").unwrap();
    state.accept_token("y").unwrap();
    state.accept_token("z").unwrap();
    state.accept_token("a").unwrap();
    state.accept_token("b").unwrap();
    state.accept_token("c").unwrap();
    state.accept_token("1").unwrap();
    state.accept_token("2").unwrap();
    state.accept_token("3").unwrap();
    assert!(state.is_accepting());
}

#[test]
fn test_negated_range() {
    let g = Grammar::new(r#"root ::= [^0-9]+"#).unwrap();
    let mut state = GrammarState::new(g).unwrap();
    state.accept_token("a").unwrap();
    state.accept_token("b").unwrap();
    assert!(state.is_accepting());
}

#[test]
fn test_negated_range_fails() {
    let g = Grammar::new(r#"root ::= [^0-9]+"#).unwrap();
    let mut state = GrammarState::new(g).unwrap();
    let result = state.accept_token("5");
    assert!(result.is_err());
}

#[test]
fn state_test_expression_grammar() {
    let g = Grammar::new(
        r#"root ::= expr
expr ::= term ("+" term)*
term ::= number
number ::= [0-9]+"#,
    )
    .unwrap();
    let mut state = GrammarState::new(g).unwrap();
    // "42"
    state.accept_token("4").unwrap();
    state.accept_token("2").unwrap();
    assert!(state.is_accepting());
}

#[test]
fn test_expression_grammar_complex() {
    let g = Grammar::new(
        r#"root ::= expr
expr ::= term ("+" term)*
term ::= number
number ::= [0-9]+"#,
    )
    .unwrap();
    let mut state = GrammarState::new(g).unwrap();
    // "1+2+3"
    for c in "1+2+3".chars() {
        state.accept_token(&c.to_string()).unwrap();
    }
    assert!(state.is_accepting());
}

#[test]
fn test_expression_grammar_trailing_plus_fails() {
    let g = Grammar::new(
        r#"root ::= expr
expr ::= term ("+" term)*
term ::= number
number ::= [0-9]+"#,
    )
    .unwrap();
    let mut state = GrammarState::new(g).unwrap();
    // "42+" — should not accept (trailing operator)
    for c in "42+".chars() {
        let _ = state.accept_token(&c.to_string());
    }
    assert!(!state.is_accepting());
}

#[test]
fn test_quantifier_exact() {
    let g = Grammar::new(r#"root ::= [ab]{4}"#).unwrap();
    let mut state = GrammarState::new(g).unwrap();
    for c in "abab".chars() {
        state.accept_token(&c.to_string()).unwrap();
    }
    assert!(state.is_accepting());
}

#[test]
fn test_quantifier_min() {
    let g = Grammar::new(r#"root ::= [ab]{4,}"#).unwrap();
    let mut state = GrammarState::new(g).unwrap();
    for c in "ababab".chars() {
        state.accept_token(&c.to_string()).unwrap();
    }
    assert!(state.is_accepting());
}

#[test]
fn test_quantifier_range() {
    let g = Grammar::new(r#"root ::= [ab]{0,4}"#).unwrap();
    let state = GrammarState::new(g).unwrap();
    // 0 should be fine
    assert!(state.is_accepting());
}

#[test]
fn test_reset() {
    let g = Grammar::new(r#"root ::= "a""#).unwrap();
    let mut state = GrammarState::new(g).unwrap();
    state.accept_token("a").unwrap();
    assert!(state.is_accepting());
    state.reset().unwrap();
    assert!(!state.is_accepting());
}
