//! Compiling grammars, the canonical display, and the error surface.

use camxes_rs::grammar::{GrammarError, Peg};
use camxes_rs::parsing::{ErrorKind, ParseError, ParseNode, Span};
use camxes_rs::rule::Rule;
use camxes_rs::transformer::{TransformError, Transformer};

const META_GRAMMAR: &str = "text <- Spacing Definition* EndOfFile
Definition <- Identifier LEFTARROW Expression
Expression <- Sequence (SLASH Sequence)*
Sequence <- (Prefix Primary Suffix)*
Prefix <- (AND / NOT)?
Suffix <- (QUESTION / STAR / PLUS)?
Primary <- Identifier !LEFTARROW / OPEN Expression CLOSE / Literal / Class / DOT
Identifier <- [a-zA-Z_] [a-zA-Z_0-9]* Spacing
Literal <- '\\'' (!'\\'' Char)* '\\'' Spacing / '\"' (!'\"' Char)* '\"' Spacing
Class <- '[' (!']' ClassMember)* ']' Spacing
ClassMember <- Range / Char
Range <- Char '-' Char
Char <- '\\\\' [nrt'\"[\\]\\\\] / '\\\\' [0-9]+ ';' / !'\\\\' .
LEFTARROW <- '<-' Spacing
SLASH <- '/' Spacing
AND <- '&' Spacing
NOT <- '!' Spacing
QUESTION <- '?' Spacing
STAR <- '*' Spacing
PLUS <- '+' Spacing
OPEN <- '(' Spacing
CLOSE <- ')' Spacing
DOT <- '.' Spacing
Spacing <- (' ' / '\\n' / '\\r\\n')*
EndOfFile <- !.
";

#[test]
fn bootstrap_self_describes() {
    let peg = Peg::new("text", META_GRAMMAR).expect("the meta-grammar describes itself");
    assert_eq!(peg.start, "text");
    assert_eq!(peg.rules.len(), 25);
}

#[test]
fn display_round_trip_small() {
    let peg = Peg::new("start", "start <- 'ab' [a-z] foo?\nfoo <- '!' / 'x' 'y'").unwrap();
    let first = peg.display();
    let again = Peg::new("start", &first).expect("the display parses back");
    let second = again.display();
    assert_eq!(first, second);
}

#[test]
fn display_round_trip_meta() {
    let peg = Peg::new("text", META_GRAMMAR).unwrap();
    let first = peg.display();
    let again = Peg::new("text", &first).expect("the displayed meta-grammar parses back");
    let second = again.display();
    assert_eq!(first, second);
}

#[test]
fn round_trip_preserves_behavior() {
    let source = "start <- [a-z]+ '!'?";
    let peg = Peg::new("start", source).unwrap();
    let again = Peg::new("start", &peg.display()).unwrap();
    for input in ["hey!", "hey", "HEY", "", "a!b"] {
        assert_eq!(peg.parse(input), again.parse(input));
    }
}

#[test]
fn display_sorts_rule_names() {
    let peg = Peg::new("b", "b <- 'y'\na <- 'x'").unwrap();
    assert_eq!(peg.display(), "a <- 'x'\nb <- 'y'\n");
}

#[test]
fn rule_display_escapes() {
    let rule = Rule::Literal(String::from("a\nb'c\\d"));
    assert_eq!(rule.display(), "'a\\nb\\'c\\\\d'");
}

#[test]
fn rule_display_forms() {
    assert_eq!(Rule::Empty.display(), "()");
    assert_eq!(Rule::Any.display(), ".");
    assert_eq!(Rule::NonTerminal(String::from("foo")).display(), "foo");
    assert_eq!(
        Rule::Range(String::from("a"), String::from("z")).display(),
        "[a-z]"
    );
    assert_eq!(
        Rule::Class(vec![String::from("x"), String::from("]")]).display(),
        "[x\\]]"
    );
    let choice = Rule::Choice(vec![
        Rule::Literal(String::from("a")),
        Rule::Literal(String::from("b")),
    ]);
    assert_eq!(choice.display(), "('a' / 'b')");
    let sequence = Rule::Sequence(vec![
        Rule::Literal(String::from("a")),
        Rule::Literal(String::from("b")),
    ]);
    assert_eq!(sequence.display(), "('a' 'b')");
    assert_eq!(
        Rule::ZeroOrMore(Rule::Literal(String::from("a")).boxed()).display(),
        "'a'*"
    );
    assert_eq!(
        Rule::OneOrMore(Rule::Literal(String::from("a")).boxed()).display(),
        "'a'+"
    );
    assert_eq!(
        Rule::Optional(Rule::Literal(String::from("a")).boxed()).display(),
        "'a'?"
    );
    assert_eq!(Rule::And(Rule::Any.boxed()).display(), "&.");
    assert_eq!(Rule::Not(Rule::Any.boxed()).display(), "!.");
    assert_eq!(
        Rule::Group(Rule::Any.boxed()).display(),
        "(.)"
    );
}

#[test]
fn undefined_reference_is_rejected() {
    match Peg::new("start", "start <- foo bar\nbar <- 'x'") {
        Err(GrammarError::Transform(TransformError::AmbiguousNonTerminal(msg))) => {
            assert_eq!(msg, "Missing rules: [foo]!");
        },
        other => panic!("expected the missing-rule error, got {:?}", other),
    }
}

#[test]
fn several_undefined_references_in_order() {
    match Peg::new("start", "start <- zz aa zz") {
        Err(GrammarError::Transform(TransformError::AmbiguousNonTerminal(msg))) => {
            assert_eq!(msg, "Missing rules: [zz, aa]!");
        },
        other => panic!("expected the missing-rule error, got {:?}", other),
    }
}

#[test]
fn malformed_grammar_is_a_parse_error() {
    match Peg::new("start", "start < 'a'") {
        Err(GrammarError::Parse(e)) => {
            assert_eq!(e.position, 0);
        },
        other => panic!("expected a parse error, got {:?}", other),
    }
}

#[test]
fn duplicate_definition_last_wins() {
    let peg = Peg::new("start", "start <- 'a'\nstart <- 'b'").unwrap();
    assert!(peg.parse("b").2.is_ok());
    assert!(peg.parse("a").2.is_err());
}

#[test]
fn transformer_rejects_wrong_root() {
    let transformer = Transformer { source: "" };
    let cst = vec![ParseNode::NonTerminal {
        name: String::from("foo"),
        span: Span(0, 0),
        children: Vec::new(),
    }];
    match transformer.build("start", cst) {
        Err(TransformError::CstShouldStartWithGrammar(msg)) => {
            assert_eq!(msg, "Found 'foo' instead!");
        },
        other => panic!("expected the wrong-root error, got {:?}", other),
    }
}

#[test]
fn transformer_rejects_multiple_roots() {
    let transformer = Transformer { source: "" };
    let cst = vec![
        ParseNode::Terminal { span: Span(0, 0) },
        ParseNode::Terminal { span: Span(0, 0) },
    ];
    match transformer.build("start", cst) {
        Err(TransformError::CstShouldOnlyHaveOneRoot(msg)) => {
            assert_eq!(msg, "Invalid root structure");
        },
        other => panic!("expected the one-root error, got {:?}", other),
    }
}

#[test]
fn transformer_rejects_empty_identifier() {
    let transformer = Transformer { source: "x" };
    let identifier = ParseNode::NonTerminal {
        name: String::from("Identifier"),
        span: Span(0, 0),
        children: vec![ParseNode::NonTerminal {
            name: String::from("Spacing"),
            span: Span(0, 0),
            children: Vec::new(),
        }],
    };
    match transformer.extract_identifier(&identifier) {
        Err(TransformError::EmptyIdentifier) => {},
        other => panic!("expected the empty-identifier error, got {:?}", other),
    }
}

#[test]
fn transformer_rejects_short_definition() {
    let transformer = Transformer { source: "" };
    let definition = ParseNode::NonTerminal {
        name: String::from("Definition"),
        span: Span(0, 0),
        children: vec![ParseNode::Terminal { span: Span(0, 0) }],
    };
    match transformer.process_rule(&definition) {
        Err(TransformError::WrongNumberOfTokens(msg)) => {
            assert_eq!(msg, "Definition needs 3 tokens");
        },
        other => panic!("expected the arity error, got {:?}", other),
    }
}

#[test]
fn transformer_token_helpers() {
    let node = ParseNode::NonTerminal {
        name: String::from("Primary"),
        span: Span(0, 2),
        children: vec![ParseNode::Terminal { span: Span(0, 2) }],
    };
    assert!(Transformer::is_token("Primary", &node));
    assert!(!Transformer::is_token("Suffix", &node));
    assert_eq!(Transformer::get_name(&node).unwrap(), "Primary");
    let tokens = Transformer::get_tokens("Primary", &node).unwrap();
    assert_eq!(tokens.len(), 1);
    match Transformer::get_tokens("Suffix", &node) {
        Err(TransformError::UnExpectedToken(msg)) => {
            assert_eq!(msg, "Expected Suffix, got Primary");
        },
        other => panic!("expected the name-mismatch error, got {:?}", other),
    }
}

#[test]
fn error_messages_render() {
    assert_eq!(ErrorKind::UnexpectedEndOfInput.display(), "Unexpected end of input");
    assert_eq!(
        ErrorKind::NonTerminalDoesNotExist(String::from("foo")).display(),
        "Non-terminal rule 'foo' does not exist"
    );
    let inner = ParseError {
        position: 2,
        expression: Rule::Literal(String::from("a")),
        error: ErrorKind::ExpressionDoesNotMatch,
        cause: None,
    };
    let outer = ParseError {
        position: 12,
        expression: Rule::NonTerminal(String::from("start")),
        error: ErrorKind::NonTerminalDoesNotMatch,
        cause: Some(Box::new(inner)),
    };
    assert_eq!(
        outer.display(),
        "Encountered Non-terminal does not match @ 12 for 'start'\n\tCaused by: Encountered Expression does not match @ 2 for ''a''"
    );
    let grammar_err = GrammarError::Transform(TransformError::EmptyIdentifier);
    assert_eq!(grammar_err.display(), "Transform error: Empty identifier");
}

#[test]
fn bootstrap_parses_a_grammar_directly() {
    let meta = Peg::bootstrap();
    let result = meta.parse("start <- 'a'\n");
    assert!(result.2.is_ok());
    assert_eq!(result.1, 13);
}

#[test]
fn numeric_escape_is_recognized_but_not_interpreted() {
    let peg = Peg::new("start", "start <- '\\\\65;'").unwrap();
    assert!(peg.parse("\\65;").2.is_ok());
    assert!(peg.parse("A").2.is_err());
}

#[test]
fn class_with_ranges_and_characters() {
    let peg = Peg::new("start", "start <- [a-cxy]+").unwrap();
    let result = peg.parse("abxyc");
    assert_eq!(result.1, 5);
    assert!(peg.parse("q").2.is_err());
}

#[test]
fn empty_right_hand_side_is_the_empty_rule() {
    let peg = Peg::new("start", "start <- ").unwrap();
    let result = peg.parse("anything");
    assert_eq!(result.1, 0);
    assert!(result.2.is_ok());
    assert_eq!(peg.display(), "start <- ()\n");
    let again = Peg::new("start", &peg.display()).unwrap();
    assert_eq!(again.display(), "start <- ()\n");
}

#[test]
fn deep_clone_copies_structurally() {
    let rule = Rule::Choice(vec![
        Rule::Sequence(vec![Rule::Literal(String::from("a")), Rule::Any]),
        Rule::Not(Rule::Range(String::from("0"), String::from("9")).boxed()),
    ]);
    let copy = rule.deep_clone();
    assert_eq!(copy, rule);
}

#[test]
fn not_did_match_reports_node_count() {
    let peg = Peg::new("start", "start <- !'ab' .").unwrap();
    let result = peg.parse("ab");
    match &result.2 {
        Err(outer) => {
            let cause = outer.cause.as_ref().expect("the lookahead failure is the cause");
            match &cause.error {
                ErrorKind::NotDidMatch(nodes) => {
                    assert_eq!(nodes.len(), 1);
                    assert_eq!(cause.display(), format!("Encountered Not predicate matched 1 nodes @ 0 for '{}'", cause.expression.display()));
                },
                other => panic!("expected the lookahead failure, got {:?}", other),
            }
        },
        Ok(_) => panic!("expected a failure"),
    }
}
