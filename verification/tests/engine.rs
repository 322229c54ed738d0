//! End-to-end parsing scenarios for the PEG engine.

use camxes_rs::grammar::Peg;
use camxes_rs::parsing::{ErrorKind, ParseNode, ParseResult, Span};
use camxes_rs::rule::Rule;

fn root_of(result: &ParseResult) -> &ParseNode {
    match &result.2 {
        Ok(nodes) => {
            assert_eq!(nodes.len(), 1, "expected a single root node");
            &nodes[0]
        },
        Err(e) => panic!("expected success, got error at {}", e.position),
    }
}

#[test]
fn hello_world_spans() {
    let peg = Peg::new("start", "start <- 'hello' ' ' 'world'").unwrap();
    let result = peg.parse("hello world");
    assert_eq!(result.1, 11);
    match root_of(&result) {
        ParseNode::NonTerminal { name, span, children } => {
            assert_eq!(name, "start");
            assert_eq!(*span, Span(0, 11));
            assert_eq!(children.len(), 3);
            assert_eq!(children[0], ParseNode::Terminal { span: Span(0, 5) });
            assert_eq!(children[1], ParseNode::Terminal { span: Span(5, 6) });
            assert_eq!(children[2], ParseNode::Terminal { span: Span(6, 11) });
        },
        other => panic!("expected a non-terminal root, got {:?}", other),
    }
}

#[test]
fn one_or_more_consumes_all() {
    let peg = Peg::new("start", "start <- 'a'+").unwrap();
    let result = peg.parse("aaaa");
    assert_eq!(result.1, 4);
    match root_of(&result) {
        ParseNode::NonTerminal { name, span, children } => {
            assert_eq!(name, "start");
            assert_eq!(*span, Span(0, 4));
            assert_eq!(children.len(), 4);
            for (i, child) in children.iter().enumerate() {
                assert_eq!(*child, ParseNode::Terminal { span: Span(i, i + 1) });
            }
        },
        other => panic!("expected a non-terminal root, got {:?}", other),
    }
}

#[test]
fn choice_failure_reports_position_zero() {
    let peg = Peg::new("start", "start <- 'a' / 'b'").unwrap();
    let result = peg.parse("c");
    assert_eq!(result.1, 0);
    match &result.2 {
        Err(outer) => {
            assert_eq!(outer.position, 0);
            assert!(matches!(outer.error, ErrorKind::NonTerminalDoesNotMatch));
            let cause = outer.cause.as_ref().expect("the choice failure is the cause");
            assert_eq!(cause.position, 0);
            assert!(matches!(cause.error, ErrorKind::ExpressionDoesNotMatch));
        },
        Ok(_) => panic!("expected a failure"),
    }
}

#[test]
fn negative_lookahead_then_any() {
    let peg = Peg::new("start", "start <- !'a' .").unwrap();
    let result = peg.parse("b");
    assert_eq!(result.1, 1);
    match root_of(&result) {
        ParseNode::NonTerminal { name, span, children } => {
            assert_eq!(name, "start");
            assert_eq!(*span, Span(0, 1));
            assert_eq!(children.len(), 1);
            assert_eq!(children[0], ParseNode::Terminal { span: Span(0, 1) });
        },
        other => panic!("expected a non-terminal root, got {:?}", other),
    }
}

#[test]
fn greedy_class_stops_at_mismatch() {
    let peg = Peg::new("start", "start <- [a-z]+").unwrap();
    let result = peg.parse("abc9");
    assert_eq!(result.1, 3);
    match root_of(&result) {
        ParseNode::NonTerminal { name, span, children } => {
            assert_eq!(name, "start");
            assert_eq!(*span, Span(0, 3));
            assert_eq!(children.len(), 3);
        },
        other => panic!("expected a non-terminal root, got {:?}", other),
    }
}

#[test]
fn nested_nonterminal_frames() {
    let peg = Peg::new("start", "start <- foo\nfoo <- 'x'").unwrap();
    let result = peg.parse("x");
    assert_eq!(result.1, 1);
    match root_of(&result) {
        ParseNode::NonTerminal { name, span, children } => {
            assert_eq!(name, "start");
            assert_eq!(*span, Span(0, 1));
            assert_eq!(children.len(), 1);
            match &children[0] {
                ParseNode::NonTerminal { name, span, children } => {
                    assert_eq!(name, "foo");
                    assert_eq!(*span, Span(0, 1));
                    assert_eq!(children.len(), 1);
                    assert_eq!(children[0], ParseNode::Terminal { span: Span(0, 1) });
                },
                other => panic!("expected the foo frame, got {:?}", other),
            }
        },
        other => panic!("expected a non-terminal root, got {:?}", other),
    }
}

#[test]
fn parse_twice_is_identical() {
    let peg = Peg::new("start", "start <- [a-z]+ '!'?").unwrap();
    let first = peg.parse("hey!");
    let second = peg.parse("hey!");
    assert_eq!(first, second);
    let failing_first = peg.parse("123");
    let failing_second = peg.parse("123");
    assert_eq!(failing_first, failing_second);
}

#[test]
fn lookahead_consumes_nothing() {
    let peg = Peg::new("start", "start <- &'ab' 'a'").unwrap();
    let result = peg.parse("ab");
    assert_eq!(result.1, 1);
    match root_of(&result) {
        ParseNode::NonTerminal { span, children, .. } => {
            assert_eq!(*span, Span(0, 1));
            assert_eq!(children.len(), 1);
        },
        other => panic!("expected a non-terminal root, got {:?}", other),
    }
}

#[test]
fn sequence_failure_does_not_consume() {
    let peg = Peg::new("start", "start <- 'ab' 'cd'").unwrap();
    let result = peg.parse("abzz");
    assert_eq!(result.1, 0, "a failing sequence returns its starting offset");
    assert!(result.2.is_err());
}

#[test]
fn empty_input_and_empty_rule() {
    let peg = Peg::new("start", "start <- 'a'?").unwrap();
    let result = peg.parse("");
    assert_eq!(result.1, 0);
    match root_of(&result) {
        ParseNode::NonTerminal { span, children, .. } => {
            assert_eq!(*span, Span(0, 0));
            assert_eq!(children.len(), 0);
        },
        other => panic!("expected a non-terminal root, got {:?}", other),
    }
}

#[test]
fn any_at_end_of_input_fails() {
    let peg = Peg::new("start", "start <- .").unwrap();
    let result = peg.parse("");
    assert_eq!(result.1, 0);
    match &result.2 {
        Err(outer) => {
            let cause = outer.cause.as_ref().expect("the dot failure is the cause");
            assert!(matches!(cause.error, ErrorKind::UnexpectedEndOfInput));
        },
        Ok(_) => panic!("expected a failure"),
    }
}

#[test]
fn unknown_start_symbol_fails_cleanly() {
    let peg = Peg::new("nope", "start <- 'a'").unwrap();
    let result = peg.parse("a");
    assert_eq!(result.1, 0);
    match &result.2 {
        Err(outer) => match &outer.error {
            ErrorKind::NonTerminalDoesNotExist(name) => assert_eq!(name, "nope"),
            other => panic!("expected a missing-rule failure, got {:?}", other),
        },
        Ok(_) => panic!("expected a failure"),
    }
}

#[test]
fn rule_parse_standalone() {
    let peg = Peg { rules: Vec::new(), start: String::from("start") };
    let rule = Rule::Literal(String::from("ab"));
    let result = rule.parse(&peg, "abc", 0);
    assert_eq!(result.1, 2);
    match &result.2 {
        Ok(nodes) => assert_eq!(nodes[0], ParseNode::Terminal { span: Span(0, 2) }),
        Err(_) => panic!("expected success"),
    }
}

#[test]
fn rule_parse_mid_input() {
    let peg = Peg { rules: Vec::new(), start: String::from("start") };
    let rule = Rule::Range(String::from("a"), String::from("z"));
    let result = rule.parse(&peg, "9q", 1);
    assert_eq!(result.1, 2);
    assert!(result.2.is_ok());
}

#[test]
fn boxed_and_character_class_builders() {
    let inner = Rule::Literal(String::from("x"));
    let boxed = inner.boxed();
    assert_eq!(*boxed, Rule::Literal(String::from("x")));
    let class = Rule::create_character_class(&["a", "b"]);
    assert_eq!(class, Rule::Class(vec![String::from("a"), String::from("b")]));
}

#[test]
fn character_class_drops_repeated_members() {
    let class = Rule::create_character_class(&["a", "b", "a", "b", "c"]);
    assert_eq!(
        class,
        Rule::Class(vec![String::from("a"), String::from("b"), String::from("c")])
    );
    let peg = Peg { rules: Vec::new(), start: String::from("start") };
    assert_eq!(class.parse(&peg, "b", 0).1, 1);
    assert!(class.parse(&peg, "z", 0).2.is_err());
}

#[test]
fn escaped_quote_in_literal() {
    let peg = Peg::new("start", "start <- '\\''").unwrap();
    let result = peg.parse("'");
    assert_eq!(result.1, 1);
    assert!(result.2.is_ok());
}

#[test]
fn literal_backslash_escape() {
    let peg = Peg::new("start", "start <- '\\\\'").unwrap();
    let result = peg.parse("\\");
    assert_eq!(result.1, 1);
    assert!(result.2.is_ok());
}

#[test]
fn grouped_expression() {
    let peg = Peg::new("start", "start <- ('a' / 'b') 'c'").unwrap();
    assert_eq!(peg.parse("ac").1, 2);
    assert_eq!(peg.parse("bc").1, 2);
    assert!(peg.parse("cc").2.is_err());
}

#[test]
fn partial_parse_is_success() {
    let peg = Peg::new("start", "start <- 'ab'").unwrap();
    let result = peg.parse("abextra");
    assert_eq!(result.1, 2, "a parse need not consume all input");
    assert!(result.2.is_ok());
}
