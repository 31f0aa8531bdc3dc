use schoolmarm::parse::parse;
use schoolmarm::{Element, ElementType};

#[test]
fn test_parse_simple() {
    let g = parse(r#"root ::= "a""#).unwrap();
    assert_eq!(g.rules.len(), 1);
    assert_eq!(g.rules[0].len(), 2); // CHAR('a'), END
    assert_eq!(g.rules[0][0], Element::char_(b'a' as u32));
    assert_eq!(g.rules[0][1], Element::end());
}

#[test]
fn test_parse_alternates() {
    let g = parse(r#"root ::= "a" | [bdx-z] | [^1-3]"#).unwrap();
    assert_eq!(g.rules.len(), 1);
    let r = &g.rules[0];
    // "a" | [bdx-z] | [^1-3]
    assert_eq!(r[0], Element::char_(b'a' as u32));
    assert_eq!(r[1], Element::alt());
    assert_eq!(r[2], Element::new(ElementType::Char, b'b' as u32));
    assert_eq!(r[3], Element::char_alt(b'd' as u32));
    assert_eq!(r[4], Element::char_alt(b'x' as u32));
    assert_eq!(r[5], Element::char_rng_upper(b'z' as u32));
    assert_eq!(r[6], Element::alt());
    assert_eq!(r[7], Element::char_not(b'1' as u32));
    assert_eq!(r[8], Element::char_rng_upper(b'3' as u32));
    assert_eq!(r[9], Element::end());
}

#[test]
fn test_parse_plus_rule_ref() {
    // root ::= a+
    // a    ::= "a"
    let g = parse("root ::= a+\na ::= \"a\"").unwrap();
    assert_eq!(g.symbol_ids.len(), 3); // a, root, root_2
    assert!(g.symbol_ids.contains_key("a"));
    assert!(g.symbol_ids.contains_key("root"));
}

#[test]
fn test_parse_plus_literal() {
    let g = parse("root ::= \"a\"+").unwrap();
    assert_eq!(g.symbol_ids.len(), 2); // root, root_1
    let root = &g.rules[*g.symbol_ids.get("root").unwrap() as usize];
    // CHAR('a'), RULE_REF(root_1), END
    assert_eq!(root[0], Element::char_(b'a' as u32));
    assert_eq!(root[1].etype, ElementType::RuleRef);
    assert_eq!(root[2], Element::end());
}

#[test]
fn test_parse_optional() {
    let g = parse("root ::= \"a\"?").unwrap();
    assert_eq!(g.symbol_ids.len(), 2); // root, root_1
    let root = &g.rules[*g.symbol_ids.get("root").unwrap() as usize];
    // RULE_REF(root_1), END
    assert_eq!(root[0].etype, ElementType::RuleRef);
    assert_eq!(root[1], Element::end());
    // root_1: CHAR('a'), ALT, END
    let r1 = &g.rules[root[0].value as usize];
    assert_eq!(r1[0], Element::char_(b'a' as u32));
    assert_eq!(r1[1], Element::alt());
    assert_eq!(r1[2], Element::end());
}

#[test]
fn test_parse_star() {
    let g = parse("root ::= \"a\"*").unwrap();
    let root = &g.rules[*g.symbol_ids.get("root").unwrap() as usize];
    // RULE_REF(root_1), END
    assert_eq!(root[0].etype, ElementType::RuleRef);
    assert_eq!(root[1], Element::end());
    // root_1: CHAR('a'), RULE_REF(self), ALT, END
    let r1 = &g.rules[root[0].value as usize];
    assert_eq!(r1[0], Element::char_(b'a' as u32));
    assert_eq!(r1[1].etype, ElementType::RuleRef);
    assert_eq!(r1[1].value, root[0].value); // self-referential
    assert_eq!(r1[2], Element::alt());
    assert_eq!(r1[3], Element::end());
}

#[test]
fn test_parse_exact_repetition() {
    let g = parse("root ::= \"a\"{2}").unwrap();
    let root = &g.rules[*g.symbol_ids.get("root").unwrap() as usize];
    assert_eq!(root[0], Element::char_(b'a' as u32));
    assert_eq!(root[1], Element::char_(b'a' as u32));
    assert_eq!(root[2], Element::end());
}

#[test]
fn test_parse_min_repetition() {
    let g = parse("root ::= \"a\"{2,}").unwrap();
    let root = &g.rules[*g.symbol_ids.get("root").unwrap() as usize];
    // CHAR('a'), CHAR('a'), RULE_REF(root_1), END
    assert_eq!(root[0], Element::char_(b'a' as u32));
    assert_eq!(root[1], Element::char_(b'a' as u32));
    assert_eq!(root[2].etype, ElementType::RuleRef);
    assert_eq!(root[3], Element::end());
}

#[test]
fn test_parse_range_repetition() {
    let g = parse("root ::= \"a\"{2,4}").unwrap();
    let root = &g.rules[*g.symbol_ids.get("root").unwrap() as usize];
    // CHAR('a'), CHAR('a'), RULE_REF(root_2), END
    assert_eq!(root[0], Element::char_(b'a' as u32));
    assert_eq!(root[1], Element::char_(b'a' as u32));
    assert_eq!(root[2].etype, ElementType::RuleRef);
    assert_eq!(root[3], Element::end());
}

#[test]
fn test_undefined_rule_error() {
    let result = parse("root ::= foo\nbar ::= \"b\"");
    assert!(result.is_err());
}

#[test]
fn test_failure_missing_comma() {
    assert!(parse("root ::= \"a\"{,}").is_err());
}

#[test]
fn test_failure_missing_comma_with_max() {
    assert!(parse("root ::= \"a\"{,10}").is_err());
}

#[test]
fn test_json_grammar() {
    let json_grammar = r#"root   ::= object
value  ::= object | array | string | number | ("true" | "false" | "null") ws
object ::=
  "{" ws (
            string ":" ws value
    ("," ws string ":" ws value)*
  )? "}" ws
array  ::=
  "[" ws (
            value
    ("," ws value)*
  )? "]" ws
string ::=
  "\"" (
    [^"\\\x7F\x00-\x1F] |
    "\\" (["\\bfnrt] | "u" [0-9a-fA-F]{4})
  )* "\"" ws
number ::= ("-"? ([0-9] | [1-9] [0-9]{0,15})) ("." [0-9]+)? ([eE] [-+]? [0-9] [1-9]{0,15})? ws
ws ::= | " " | "\n" [ \t]{0,20}"#;
    let g = parse(json_grammar).unwrap();
    assert!(g.symbol_ids.contains_key("root"));
    assert!(g.symbol_ids.contains_key("value"));
    assert!(g.symbol_ids.contains_key("object"));
    assert!(g.symbol_ids.contains_key("array"));
    assert!(g.symbol_ids.contains_key("string"));
    assert!(g.symbol_ids.contains_key("number"));
    assert!(g.symbol_ids.contains_key("ws"));
}

#[test]
fn parse_test_expression_grammar() {
    let g = parse(
        r#"root  ::= (expr "=" term "\n")+
expr  ::= term ([-+*/] term)*
term  ::= [0-9]+"#,
    )
    .unwrap();
    assert!(g.symbol_ids.contains_key("root"));
    assert!(g.symbol_ids.contains_key("expr"));
    assert!(g.symbol_ids.contains_key("term"));
}
