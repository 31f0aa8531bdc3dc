use schoolmarm::parse::{decode_utf8_string, parse};
use schoolmarm::{Element, ElementType, Grammar, GrammarError, GrammarState};

fn state_of(grammar: &str) -> GrammarState {
    GrammarState::new(Grammar::new(grammar).unwrap()).unwrap()
}

#[test]
fn readme_usage_example() {
    let grammar = Grammar::new(r#"root ::= "hello" | "world""#).unwrap();
    let mut state = GrammarState::new(grammar).unwrap();
    let vocab = vec!["hello", "world", "foo", "hel"];
    assert_eq!(state.allowed_tokens(&vocab), vec![true, true, false, true]);
    state.accept_token("hello").unwrap();
    assert!(state.is_accepting());
}

#[test]
fn empty_grammar_is_refused() {
    assert!(matches!(parse(""), Err(GrammarError::EmptyGrammar)));
    assert!(matches!(parse("  # only a comment\n"), Err(GrammarError::EmptyGrammar)));
}

#[test]
fn missing_root_is_refused() {
    assert!(matches!(Grammar::new(r#"start ::= "a""#), Err(GrammarError::NoRootRule)));
}

#[test]
fn custom_root_name() {
    let g = Grammar::with_root(r#"start ::= "a" b
b ::= "b""#, "start")
    .unwrap();
    assert_eq!(g.num_rules(), 2);
    let mut state = GrammarState::new(g).unwrap();
    state.accept_token("ab").unwrap();
    assert!(state.is_accepting());
}

#[test]
fn undefined_rule_names_the_rule() {
    match Grammar::new("root ::= foo") {
        Err(e) => {
            assert!(matches!(&e, GrammarError::UndefinedRule(n) if n == "foo"));
            assert_eq!(e.to_string(), "undefined rule: 'foo'");
        }
        Ok(_) => panic!("grammar with an undefined rule was accepted"),
    }
}

#[test]
fn left_recursion_names_the_rule_index() {
    match Grammar::new(r#"root ::= "x"
expr ::= expr "+""#) {
        Err(e) => {
            assert!(matches!(e, GrammarError::LeftRecursion(1)));
            assert_eq!(e.to_string(), "left recursion detected at rule index 1");
        }
        Ok(_) => panic!("left-recursive grammar was accepted"),
    }
}

#[test]
fn parse_error_messages_give_positions() {
    let e = parse(r#"root = "a""#).unwrap_err();
    assert_eq!(e.to_string(), "parse error: expecting '::=' at position 5");
    let e = parse(r#"root ::= "\q""#).unwrap_err();
    assert_eq!(e.to_string(), "parse error: unknown escape '\\q' at position 10");
    let e = parse("root ::= [a-z").unwrap_err();
    assert!(matches!(e, GrammarError::ParseError(_)));
}

#[test]
fn repetition_with_max_below_min_is_refused() {
    let e = parse(r#"root ::= "a"{3,1}"#).unwrap_err();
    assert_eq!(e.to_string(), "parse error: repetition maximum is less than minimum");
}

#[test]
fn error_display_texts() {
    assert_eq!(GrammarError::ParseError("x".to_string()).to_string(), "parse error: x");
    assert_eq!(GrammarError::NoRootRule.to_string(), "grammar does not contain a 'root' rule");
    assert_eq!(GrammarError::EmptyGrammar.to_string(), "grammar is empty");
    assert_eq!(GrammarError::InvalidState("s".to_string()).to_string(), "invalid state: s");
    assert_eq!(GrammarError::InvalidStartRule(42).to_string(), "start rule index 42 out of bounds");
    assert_eq!(GrammarError::LeftRecursion(0).to_string(), "left recursion detected at rule index 0");
}

#[test]
fn rejected_token_reports_the_character() {
    let mut state = state_of(r#"root ::= "ab""#);
    let e = state.accept_token("b").unwrap_err();
    assert_eq!(e.to_string(), "invalid state: no valid stacks after accepting character U+0062 in 'b'");
    let e = state.accept_token("a\u{1F600}").unwrap_err();
    assert_eq!(
        e.to_string(),
        "invalid state: no valid stacks after accepting character U+1F600 in 'a\u{1F600}'"
    );
}

#[test]
fn rejected_token_leaves_state_unchanged() {
    let mut state = state_of(r#"root ::= "ab" | "ac""#);
    state.accept_token("a").unwrap();
    let before = state.stacks().clone();
    assert!(state.accept_token("ax").is_err());
    assert_eq!(state.stacks(), &before);
    state.accept_token("c").unwrap();
    assert!(state.is_accepting());
}

#[test]
fn token_in_pieces_equals_token_whole() {
    let grammar = r#"root ::= [a-c]+ "-" [0-9]{2,3}"#;
    let mut whole = state_of(grammar);
    let mut pieces = state_of(grammar);
    whole.accept_token("ab-12").unwrap();
    pieces.accept_token("a").unwrap();
    pieces.accept_token("b-").unwrap();
    pieces.accept_token("12").unwrap();
    assert_eq!(whole.stacks(), pieces.stacks());
    assert!(whole.is_accepting());
}

#[test]
fn empty_token_changes_nothing() {
    let mut state = state_of(r#"root ::= "a" "b"?"#);
    let before = state.stacks().clone();
    state.accept_token("").unwrap();
    assert_eq!(state.stacks(), &before);
    assert_eq!(state.allowed_tokens(&[""]), vec![false]);
    state.accept_token("a").unwrap();
    assert_eq!(state.allowed_tokens(&[""]), vec![true]);
}

#[test]
fn accepted_token_was_allowed() {
    let vocab = ["1", "12", "+", "1+", "+1", "x", "(", ")"];
    let grammar = r#"root ::= expr
expr ::= term ("+" term)*
term ::= [0-9]+ | "(" expr ")""#;
    let state = state_of(grammar);
    let allowed = state.allowed_tokens(&vocab);
    for (i, tok) in vocab.iter().enumerate() {
        let mut probe = state.clone();
        let ok = probe.accept_token(tok).is_ok();
        assert_eq!(ok, allowed[i], "token {:?}", tok);
    }
}

#[test]
fn reset_returns_to_the_start() {
    let mut state = state_of(r#"root ::= "a" | "b" "c""#);
    let start = state.stacks().clone();
    assert_eq!(state.num_stacks(), 2);
    state.accept_token("b").unwrap();
    assert_eq!(state.num_stacks(), 1);
    state.reset().unwrap();
    assert_eq!(state.stacks(), &start);
}

#[test]
fn stacks_hold_no_duplicates() {
    let state = state_of(r#"root ::= x | x
x ::= "a""#);
    let stacks = state.stacks();
    for i in 0..stacks.len() {
        for j in 0..i {
            assert_ne!(stacks[i], stacks[j]);
        }
    }
    assert_eq!(state.num_stacks(), 1);
}

#[test]
fn dead_state_is_not_valid() {
    let mut state = state_of(r#"root ::= "a""#);
    assert!(state.is_valid());
    state.accept_token("a").unwrap();
    assert!(state.is_valid());
    assert!(state.is_accepting());
    assert_eq!(state.allowed_tokens(&["a", ""]), vec![false, true]);
}

#[test]
fn cloned_state_is_independent() {
    let state = state_of(r#"root ::= "ab""#);
    let mut other = state.clone();
    other.accept_token("a").unwrap();
    assert_ne!(state.stacks(), other.stacks());
    assert!(!other.is_accepting());
}

#[test]
fn decode_utf8_string_appends_terminator() {
    assert_eq!(decode_utf8_string(""), vec![0]);
    assert_eq!(decode_utf8_string("a\u{e9}\u{20AC}\u{1F600}"), vec![0x61, 0xE9, 0x20AC, 0x1F600, 0]);
}

#[test]
fn parsed_grammar_symbols_and_root() {
    let parsed = parse(r#"root ::= item+
item ::= [a-z]"#)
    .unwrap();
    assert_eq!(parsed.root_index(), Some(0));
    assert_eq!(parsed.symbol_ids.get("root"), Some(&0));
    assert_eq!(parsed.symbol_ids.get("item"), Some(&1));
    assert!(parsed.symbol_ids.contains_key("item"));
    assert!(!parsed.symbol_ids.contains_key("missing"));
    assert_eq!(parsed.symbol_ids.len(), parsed.rules.len());
    let no_root = parse(r#"start ::= "a""#).unwrap();
    assert_eq!(no_root.root_index(), None);
}

#[test]
fn hex_and_unicode_escapes() {
    let mut state = state_of(r#"root ::= "\x41" "\u00e9" "\U0001F600""#);
    state.accept_token("A\u{e9}\u{1F600}").unwrap();
    assert!(state.is_accepting());
}

#[test]
fn element_constructors() {
    assert_eq!(Element::char_(97), Element::new(ElementType::Char, 97));
    assert_eq!(Element::rule_ref(3).value, 3);
    assert_eq!(Element::rule_ref(3).etype, ElementType::RuleRef);
    assert!(Element::char_not(1).is_char_element());
    assert!(Element::char_any().is_char_element());
    assert!(Element::char_rng_upper(5).is_char_element());
    assert!(Element::char_alt(5).is_char_element());
    assert!(!Element::rule_ref(0).is_char_element());
    assert!(Element::end().is_end_of_sequence());
    assert!(Element::alt().is_end_of_sequence());
    assert!(!Element::char_(0).is_end_of_sequence());
}

#[test]
fn clones_keep_contents() {
    let e = GrammarError::UndefinedRule("x".to_string());
    assert_eq!(e.clone().to_string(), "undefined rule: 'x'");
    let parsed = parse(r#"root ::= "a" b
b ::= [0-9]"#)
    .unwrap();
    let copy = parsed.clone();
    assert_eq!(copy.rules, parsed.rules);
    assert_eq!(copy.symbol_ids.get("b"), Some(&1));
    assert_eq!(copy.symbol_ids.len(), 2);
    let g = Grammar::new(r#"root ::= "a""#).unwrap();
    let g2 = g.clone();
    assert_eq!(g2.num_rules(), g.num_rules());
}

#[test]
fn left_recursion_through_indirectly_empty_rule_is_not_reported() {
    // `b` has no empty alternative of its own, only through `d`, so the
    // leftmost `root` after it is not followed.
    let g = Grammar::new(r#"root ::= b root | "x"
b ::= d
d ::= """#);
    assert!(g.is_ok());
}

#[test]
fn rule_names_may_hold_underscores() {
    let parsed = parse(r#"root ::= my_rule
my_rule ::= "a""#)
    .unwrap();
    assert_eq!(parsed.symbol_ids.get("my_rule"), Some(&1));
    let mut state = state_of(r#"root ::= my_rule
my_rule ::= "a""#);
    state.accept_token("a").unwrap();
    assert!(state.is_accepting());
}

#[test]
fn repetition_without_item_is_refused() {
    let e = parse("root ::= *").unwrap_err();
    assert_eq!(e.to_string(), "parse error: expecting preceding item for repetition operator");
}

#[test]
fn parsed_rules_end_once_and_sets_are_contiguous() {
    let parsed = parse(r#"root ::= [a-c0-9_]+ "x" | item{2,3}
item ::= [^"] | ."#)
    .unwrap();
    for rule in &parsed.rules {
        assert!(!rule.is_empty());
        assert_eq!(rule[rule.len() - 1].etype, ElementType::End);
        for i in 0..rule.len() - 1 {
            assert_ne!(rule[i].etype, ElementType::End);
            if rule[i].etype == ElementType::CharAlt || rule[i].etype == ElementType::CharRngUpper {
                assert!(i > 0);
                assert!(rule[i - 1].is_char_element());
                assert_ne!(rule[i - 1].etype, ElementType::CharAny);
            }
        }
    }
}

#[test]
fn every_prefix_of_a_sentence_is_accepted() {
    let grammar = r#"root ::= "[" item ("," item)* "]"
item ::= [0-9]+ | "x"{2,3}"#;
    let sentence = "[12,xx,7,xxx]";
    let mut state = state_of(grammar);
    let chars: Vec<char> = sentence.chars().collect();
    for (i, c) in chars.iter().enumerate() {
        let tok = c.to_string();
        assert!(state.allowed_tokens(&[tok.as_str()])[0], "char {} of {}", i, sentence);
        state.accept_token(&tok).unwrap();
        assert_eq!(state.is_accepting(), i == chars.len() - 1);
    }
    let mut fresh = state_of(grammar);
    assert!(fresh.accept_token("[12,xxxx]").is_err());
}
