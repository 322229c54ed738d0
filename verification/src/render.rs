//! Canonical textual forms: rules in PEG syntax, grammars as sorted rule
//! definitions, and errors as readable messages.

use vstd::prelude::*;
use crate::grammar::{lookup_rule, GrammarError, Peg};
use crate::parsing::{ErrorKind, ParseError};
use crate::rule::{lsize, rsize, rule_views, Rule, RuleExpr};
use crate::transformer::TransformError;

verus! {

/// One character, escaped: a backslash doubles, the two special characters
/// are written as a backslash before their printed form, anything else is
/// itself.
pub open spec fn esc_char(c: char, c1: char, p1: Seq<char>, c2: char, p2: Seq<char>) -> Seq<
    char,
> {
    if c == '\\' {
        seq!['\\', '\\']
    } else if c == c1 {
        seq!['\\'] + p1
    } else if c == c2 {
        seq!['\\'] + p2
    } else {
        seq![c]
    }
}

/// A whole text, escaped character by character.
pub open spec fn escaped_with(
    s: Seq<char>,
    c1: char,
    p1: Seq<char>,
    c2: char,
    p2: Seq<char>,
) -> Seq<char>
    decreases s.len(),
{
    if s.len() == 0 {
        Seq::empty()
    } else {
        esc_char(s[0], c1, p1, c2, p2) + escaped_with(s.drop_first(), c1, p1, c2, p2)
    }
}

/// A literal body, with `\\`, `\n` and `\'` written as escapes.
pub open spec fn lit_escaped(s: Seq<char>) -> Seq<char> {
    escaped_with(s, '\n', "n"@, '\'', "'"@)
}

/// A class member, with `\\`, `\[` and `\]` written as escapes.
pub open spec fn class_escaped(s: Seq<char>) -> Seq<char> {
    escaped_with(s, '[', "["@, ']', "]"@)
}

/// Escapes `s` character by character.
fn escape_with(s: &String, c1: char, p1: &str, c2: char, p2: &str) -> (r: String)
    ensures
        r@ == escaped_with(s@, c1, p1@, c2, p2@),
{
    let n = s.as_str().unicode_len();
    let mut out = String::new();
    let mut i: usize = 0;
    proof {
        assert(s@.skip(0) =~= s@);
        assert(out@ + escaped_with(s@, c1, p1@, c2, p2@) =~= escaped_with(s@, c1, p1@, c2, p2@));
    }
    while i < n
        invariant
            i <= n,
            n == s@.len(),
            out@ + escaped_with(s@.skip(i as int), c1, p1@, c2, p2@) == escaped_with(
                s@,
                c1,
                p1@,
                c2,
                p2@,
            ),
        decreases n - i,
    {
        let c = s.as_str().get_char(i);
        let ghost out0 = out@;
        let ghost rest = s@.skip(i as int);
        proof {
            assert(rest[0] == s@[i as int]);
            assert(rest.drop_first() =~= s@.skip(i + 1));
        }
        if c == '\\' {
            out.append("\\\\");
            proof {
                reveal_strlit("\\\\");
                assert("\\\\"@ =~= seq!['\\', '\\']);
            }
        } else if c == c1 {
            out.append("\\");
            out.append(p1);
            proof {
                reveal_strlit("\\");
                assert("\\"@ =~= seq!['\\']);
                assert((out0 + "\\"@) + p1@ =~= out0 + (seq!['\\'] + p1@));
            }
        } else if c == c2 {
            out.append("\\");
            out.append(p2);
            proof {
                reveal_strlit("\\");
                assert("\\"@ =~= seq!['\\']);
                assert((out0 + "\\"@) + p2@ =~= out0 + (seq!['\\'] + p2@));
            }
        } else {
            let piece = s.as_str().substring_char(i, i + 1);
            out.append(piece);
            proof {
                assert(piece@ =~= seq![s@[i as int]]);
            }
        }
        proof {
            let e = esc_char(rest[0], c1, p1@, c2, p2@);
            assert(escaped_with(rest, c1, p1@, c2, p2@) == e + escaped_with(
                s@.skip(i + 1),
                c1,
                p1@,
                c2,
                p2@,
            ));
            assert(out@ =~= out0 + e);
            assert((out0 + e) + escaped_with(s@.skip(i + 1), c1, p1@, c2, p2@) =~= out0 + (e
                + escaped_with(s@.skip(i + 1), c1, p1@, c2, p2@)));
        }
        i = i + 1;
    }
    proof {
        assert(s@.skip(n as int) =~= Seq::<char>::empty());
        assert(out@ + Seq::<char>::empty() =~= out@);
    }
    out
}

/// All members of a class, escaped and joined without separators.
pub open spec fn class_members_text(ms: Seq<Seq<char>>) -> Seq<char>
    decreases ms.len(),
{
    if ms.len() == 0 {
        Seq::empty()
    } else {
        class_escaped(ms[0]) + class_members_text(ms.drop_first())
    }
}

/// The canonical PEG text of a rule.
pub open spec fn rule_text(r: RuleExpr) -> Seq<char>
    decreases rsize(r), 1int,
    via rule_text_decreases
{
    match r {
        RuleExpr::Empty => "()"@,
        RuleExpr::Any => "."@,
        RuleExpr::Literal(s) => "'"@ + lit_escaped(s) + "'"@,
        RuleExpr::NonTerminal(n) => n,
        RuleExpr::Range(lo, hi) => "["@ + lo + "-"@ + hi + "]"@,
        RuleExpr::Class(ms) => "["@ + class_members_text(ms) + "]"@,
        RuleExpr::Group(b) => "("@ + rule_text(*b) + ")"@,
        RuleExpr::ZeroOrMore(b) => rule_text(*b) + "*"@,
        RuleExpr::OneOrMore(b) => rule_text(*b) + "+"@,
        RuleExpr::Optional(b) => rule_text(*b) + "?"@,
        RuleExpr::And(b) => "&"@ + rule_text(*b),
        RuleExpr::Not(b) => "!"@ + rule_text(*b),
        RuleExpr::Choice(cs) => if cs.len() > 1 {
            "("@ + rules_joined(cs, " / "@) + ")"@
        } else {
            rules_joined(cs, " / "@)
        },
        RuleExpr::Sequence(ss) => if ss.len() > 1 {
            "("@ + rules_joined(ss, " "@) + ")"@
        } else {
            rules_joined(ss, " "@)
        },
    }
}

/// The texts of the rules, joined with the separator.
pub open spec fn rules_joined(rs: Seq<RuleExpr>, sep: Seq<char>) -> Seq<char>
    decreases lsize(rs), 0int,
    via rules_joined_decreases
{
    if rs.len() == 0 {
        Seq::empty()
    } else if rs.len() == 1 {
        rule_text(rs[0])
    } else {
        rule_text(rs[0]) + sep + rules_joined(rs.drop_first(), sep)
    }
}

#[via_fn]
proof fn rule_text_decreases(r: RuleExpr) {
    crate::rule::lemma_rsize_pos(r);
}

#[via_fn]
proof fn rules_joined_decreases(rs: Seq<RuleExpr>, sep: Seq<char>) {
    crate::rule::lemma_lsize_pos(rs);
}

/// The decimal digit character for a value below ten.
pub open spec fn digit_char(d: nat) -> char {
    if d == 0 {
        '0'
    } else if d == 1 {
        '1'
    } else if d == 2 {
        '2'
    } else if d == 3 {
        '3'
    } else if d == 4 {
        '4'
    } else if d == 5 {
        '5'
    } else if d == 6 {
        '6'
    } else if d == 7 {
        '7'
    } else if d == 8 {
        '8'
    } else {
        '9'
    }
}

/// The decimal digits of a number, most significant first.
pub open spec fn dec_text(n: nat) -> Seq<char>
    decreases n,
{
    if n < 10 {
        seq![digit_char(n)]
    } else {
        dec_text(n / 10) + seq![digit_char(n % 10)]
    }
}

/// One decimal digit as text.
fn digit_str(d: usize) -> (r: &'static str)
    requires
        d < 10,
    ensures
        r@ == seq![digit_char(d as nat)],
{
    proof {
        reveal_strlit("0");
        reveal_strlit("1");
        reveal_strlit("2");
        reveal_strlit("3");
        reveal_strlit("4");
        reveal_strlit("5");
        reveal_strlit("6");
        reveal_strlit("7");
        reveal_strlit("8");
        reveal_strlit("9");
    }
    if d == 0 {
        "0"
    } else if d == 1 {
        "1"
    } else if d == 2 {
        "2"
    } else if d == 3 {
        "3"
    } else if d == 4 {
        "4"
    } else if d == 5 {
        "5"
    } else if d == 6 {
        "6"
    } else if d == 7 {
        "7"
    } else if d == 8 {
        "8"
    } else {
        "9"
    }
}

/// The decimal text of a number.
pub fn usize_text(n: usize) -> (r: String)
    ensures
        r@ == dec_text(n as nat),
    decreases n,
{
    if n < 10 {
        digit_str(n).to_owned()
    } else {
        let high = usize_text(n / 10);
        high.concat(digit_str(n % 10))
    }
}

impl Rule {
    /// The rule in canonical PEG syntax.
    pub fn display(&self) -> (r: String)
        ensures
            r@ == rule_text(self@),
        decreases rsize(self@), 1int,
    {
        match self {
            Rule::Empty => String::from_str("()"),
            Rule::Any => String::from_str("."),
            Rule::Literal(s) => {
                let mut out = String::from_str("'");
                let body = escape_with(s, '\n', "n", '\'', "'");
                out.append(body.as_str());
                out.append("'");
                proof {
                    assert(out@ == "'"@ + lit_escaped(s@) + "'"@);
                }
                out
            },
            Rule::NonTerminal(n) => n.clone(),
            Rule::Range(lo, hi) => {
                let mut out = String::from_str("[");
                out.append(lo.as_str());
                out.append("-");
                out.append(hi.as_str());
                out.append("]");
                out
            },
            Rule::Class(ms) => {
                let mut out = String::from_str("[");
                let mut i: usize = 0;
                let ghost msv = Seq::new(ms@.len(), |k: int| ms@[k]@);
                proof {
                    assert(msv.skip(0) =~= msv);
                }
                while i < ms.len()
                    invariant
                        i <= ms@.len(),
                        msv == Seq::new(ms@.len(), |k: int| ms@[k]@),
                        out@ + class_members_text(msv.skip(i as int)) == "["@
                            + class_members_text(msv),
                    decreases ms@.len() - i,
                {
                    let ghost out0 = out@;
                    let ghost rest = msv.skip(i as int);
                    let body = escape_with(&ms[i], '[', "[", ']', "]");
                    out.append(body.as_str());
                    proof {
                        assert(rest[0] == msv[i as int]);
                        assert(rest.drop_first() =~= msv.skip(i + 1));
                        assert(class_members_text(rest) == class_escaped(rest[0])
                            + class_members_text(msv.skip(i + 1)));
                        assert((out0 + body@) + class_members_text(msv.skip(i + 1)) =~= out0 + (
                        body@ + class_members_text(msv.skip(i + 1))));
                    }
                    i = i + 1;
                }
                proof {
                    assert(msv.skip(ms@.len() as int) =~= Seq::<Seq<char>>::empty());
                    assert(out@ + Seq::<char>::empty() =~= out@);
                }
                out.append("]");
                out
            },
            Rule::Group(b) => {
                let mut out = String::from_str("(");
                let body = b.display();
                out.append(body.as_str());
                out.append(")");
                out
            },
            Rule::ZeroOrMore(b) => {
                let body = b.display();
                body.concat("*")
            },
            Rule::OneOrMore(b) => {
                let body = b.display();
                body.concat("+")
            },
            Rule::Optional(b) => {
                let body = b.display();
                body.concat("?")
            },
            Rule::And(b) => {
                let body = b.display();
                String::from_str("&").concat(body.as_str())
            },
            Rule::Not(b) => {
                let body = b.display();
                String::from_str("!").concat(body.as_str())
            },
            Rule::Choice(cs) => {
                proof {
                    crate::rule::lemma_lsize_pos(rule_views(cs@));
                    crate::rule::lemma_rule_views(cs@);
                    assert(rule_views(cs@).skip(0) =~= rule_views(cs@));
                }
                let joined = Self::display_joined_from(cs, 0, " / ");
                if cs.len() > 1 {
                    let mut out = String::from_str("(");
                    out.append(joined.as_str());
                    out.append(")");
                    out
                } else {
                    joined
                }
            },
            Rule::Sequence(ss) => {
                proof {
                    crate::rule::lemma_lsize_pos(rule_views(ss@));
                    crate::rule::lemma_rule_views(ss@);
                    assert(rule_views(ss@).skip(0) =~= rule_views(ss@));
                }
                let joined = Self::display_joined_from(ss, 0, " ");
                if ss.len() > 1 {
                    let mut out = String::from_str("(");
                    out.append(joined.as_str());
                    out.append(")");
                    out
                } else {
                    joined
                }
            },
        }
    }

    /// The texts of `rs[i..]` joined with the separator.
    fn display_joined_from(rs: &Vec<Rule>, i: usize, sep: &str) -> (r: String)
        requires
            i <= rs@.len(),
        ensures
            r@ == rules_joined(rule_views(rs@).skip(i as int), sep@),
        decreases lsize(rule_views(rs@).skip(i as int)), 0int,
    {
        let ghost suffix = rule_views(rs@).skip(i as int);
        proof {
            crate::rule::lemma_rule_views(rs@);
        }
        if i == rs.len() {
            proof {
                assert(suffix =~= Seq::<RuleExpr>::empty());
            }
            String::new()
        } else if i + 1 == rs.len() {
            proof {
                assert(suffix[0] == rs@[i as int]@);
                crate::rule::lemma_lsize_pos(suffix);
            }
            rs[i].display()
        } else {
            proof {
                assert(suffix[0] == rs@[i as int]@);
                assert(suffix.drop_first() =~= rule_views(rs@).skip(i + 1));
                crate::rule::lemma_lsize_pos(suffix);
            }
            let mut out = rs[i].display();
            out.append(sep);
            let rest = Self::display_joined_from(rs, i + 1, sep);
            out.concat(rest.as_str())
        }
    }
}

/// The message of an error kind.
pub open spec fn kind_text(k: crate::parsing::KindExpr) -> Seq<char> {
    match k {
        crate::parsing::KindExpr::UnexpectedEndOfInput => "Unexpected end of input"@,
        crate::parsing::KindExpr::ExpressionDoesNotMatch => "Expression does not match"@,
        crate::parsing::KindExpr::NotDidMatch(ns) => "Not predicate matched "@ + dec_text(
            ns.len(),
        ) + " nodes"@,
        crate::parsing::KindExpr::NonTerminalDoesNotMatch => "Non-terminal does not match"@,
        crate::parsing::KindExpr::NonTerminalDoesNotExist(n) => "Non-terminal rule '"@ + n
            + "' does not exist"@,
    }
}

/// The message of a parse error, with its cause chain indented below it.
pub open spec fn err_text(e: crate::parsing::ErrExpr) -> Seq<char>
    decreases e,
{
    let head = "Encountered "@ + kind_text(e.kind) + " @ "@ + dec_text(
        if e.position >= 0 {
            e.position as nat
        } else {
            0
        },
    ) + " for '"@ + rule_text(e.expression) + "'"@;
    match e.cause {
        Option::None => head,
        Option::Some(b) => head + "\n\tCaused by: "@ + err_text(*b),
    }
}

impl ErrorKind {
    /// The kind as a readable message.
    pub fn display(&self) -> (r: String)
        ensures
            r@ == kind_text(self@),
    {
        match self {
            ErrorKind::UnexpectedEndOfInput => String::from_str("Unexpected end of input"),
            ErrorKind::ExpressionDoesNotMatch => String::from_str("Expression does not match"),
            ErrorKind::NotDidMatch(ns) => {
                let mut out = String::from_str("Not predicate matched ");
                let count = usize_text(ns.len());
                out.append(count.as_str());
                out.append(" nodes");
                proof {
                    crate::parsing::lemma_node_views(ns@);
                }
                out
            },
            ErrorKind::NonTerminalDoesNotMatch => String::from_str("Non-terminal does not match"),
            ErrorKind::NonTerminalDoesNotExist(n) => {
                let mut out = String::from_str("Non-terminal rule '");
                out.append(n.as_str());
                out.append("' does not exist");
                out
            },
        }
    }
}

impl ParseError {
    /// The error and its cause chain as a readable message.
    pub fn display(&self) -> (r: String)
        ensures
            r@ == err_text(self@),
        decreases self,
    {
        let mut out = String::from_str("Encountered ");
        let kind = self.error.display();
        out.append(kind.as_str());
        out.append(" @ ");
        let position = usize_text(self.position);
        out.append(position.as_str());
        out.append(" for '");
        let expression = self.expression.display();
        out.append(expression.as_str());
        out.append("'");
        match &self.cause {
            Option::None => out,
            Option::Some(inner) => {
                out.append("\n\tCaused by: ");
                let rest = inner.display();
                out.concat(rest.as_str())
            },
        }
    }
}

/// The message of a transform error.
pub open spec fn trans_err_text(e: crate::transformer::TransErrExpr) -> Seq<char> {
    match e {
        crate::transformer::TransErrExpr::CstShouldOnlyHaveOneRoot(msg) =>
            "CST should have exactly one root: "@ + msg,
        crate::transformer::TransErrExpr::CstShouldStartWithGrammar(msg) =>
            "CST should start with grammar: "@ + msg,
        crate::transformer::TransErrExpr::UnExpectedToken(t) => "Unexpected token: "@ + t,
        crate::transformer::TransErrExpr::AmbiguousNonTerminal(msg) =>
            "Ambiguous non-terminal reference: "@ + msg,
        crate::transformer::TransErrExpr::EmptyIdentifier => "Empty identifier"@,
        crate::transformer::TransErrExpr::WrongNumberOfTokens(msg) =>
            "Wrong number of tokens: "@ + msg,
    }
}

impl TransformError {
    /// The error as a readable message.
    pub fn display(&self) -> (r: String)
        ensures
            r@ == trans_err_text(self@),
    {
        match self {
            TransformError::CstShouldOnlyHaveOneRoot(msg) => {
                let mut out = String::from_str("CST should have exactly one root: ");
                out.append(msg.as_str());
                out
            },
            TransformError::CstShouldStartWithGrammar(msg) => {
                let mut out = String::from_str("CST should start with grammar: ");
                out.append(msg.as_str());
                out
            },
            TransformError::UnExpectedToken(t) => {
                let mut out = String::from_str("Unexpected token: ");
                out.append(t.as_str());
                out
            },
            TransformError::AmbiguousNonTerminal(msg) => {
                let mut out = String::from_str("Ambiguous non-terminal reference: ");
                out.append(msg.as_str());
                out
            },
            TransformError::EmptyIdentifier => String::from_str("Empty identifier"),
            TransformError::WrongNumberOfTokens(msg) => {
                let mut out = String::from_str("Wrong number of tokens: ");
                out.append(msg.as_str());
                out
            },
        }
    }
}

/// The message of a grammar error.
pub open spec fn grammar_err_text(e: crate::grammar::GrammarErrExpr) -> Seq<char> {
    match e {
        crate::grammar::GrammarErrExpr::Parse(pe) => "Parse error: "@ + err_text(pe),
        crate::grammar::GrammarErrExpr::Transform(te) => "Transform error: "@ + trans_err_text(
            te,
        ),
    }
}

impl GrammarError {
    /// The error as a readable message.
    pub fn display(&self) -> (r: String)
        ensures
            r@ == grammar_err_text(self@),
    {
        match self {
            GrammarError::Parse(e) => {
                let msg = e.display();
                String::from_str("Parse error: ").concat(msg.as_str())
            },
            GrammarError::Transform(e) => {
                let msg = e.display();
                String::from_str("Transform error: ").concat(msg.as_str())
            },
        }
    }
}

/// Lexicographic order on texts, by code point.
pub open spec fn lex_leq(a: Seq<char>, b: Seq<char>) -> bool
    decreases a.len(),
{
    if a.len() == 0 {
        true
    } else if b.len() == 0 {
        false
    } else if (a[0] as u32) < (b[0] as u32) {
        true
    } else if (a[0] as u32) > (b[0] as u32) {
        false
    } else {
        lex_leq(a.drop_first(), b.drop_first())
    }
}

/// The order is total: one of the two directions always holds.
pub proof fn lemma_lex_total(a: Seq<char>, b: Seq<char>)
    ensures
        lex_leq(a, b) || lex_leq(b, a),
    decreases a.len(),
{
    if a.len() > 0 && b.len() > 0 && (a[0] as u32) == (b[0] as u32) {
        lemma_lex_total(a.drop_first(), b.drop_first());
    }
}

/// Whether `a` comes no later than `b` in lexicographic order.
fn lex_le(a: &String, b: &String) -> (r: bool)
    ensures
        r == lex_leq(a@, b@),
{
    let na = a.as_str().unicode_len();
    let nb = b.as_str().unicode_len();
    let mut j: usize = 0;
    proof {
        assert(a@.skip(0) =~= a@);
        assert(b@.skip(0) =~= b@);
    }
    while j < na && j < nb
        invariant
            j <= na,
            j <= nb,
            na == a@.len(),
            nb == b@.len(),
            lex_leq(a@, b@) == lex_leq(a@.skip(j as int), b@.skip(j as int)),
        decreases na - j,
    {
        let ca = a.as_str().get_char(j);
        let cb = b.as_str().get_char(j);
        proof {
            assert(a@.skip(j as int)[0] == a@[j as int]);
            assert(b@.skip(j as int)[0] == b@[j as int]);
            assert(a@.skip(j as int).drop_first() =~= a@.skip(j + 1));
            assert(b@.skip(j as int).drop_first() =~= b@.skip(j + 1));
        }
        if (ca as u32) < (cb as u32) {
            return true;
        }
        if (ca as u32) > (cb as u32) {
            return false;
        }
        j = j + 1;
    }
    proof {
        if j == na {
            assert(a@.skip(j as int) =~= Seq::<char>::empty());
        } else {
            assert(b@.skip(j as int) =~= Seq::<char>::empty());
            assert(a@.skip(j as int).len() > 0);
        }
    }
    j == na
}

/// One definition per line, each name followed by its rule.
pub open spec fn grammar_lines(
    names: Seq<Seq<char>>,
    rules: Map<Seq<char>, RuleExpr>,
) -> Seq<char>
    decreases names.len(),
{
    if names.len() == 0 {
        Seq::empty()
    } else {
        names[0] + " <- "@ + rule_text(rules[names[0]]) + "\n"@ + grammar_lines(
            names.drop_first(),
            rules,
        )
    }
}

impl Peg {
    /// The grammar in canonical PEG syntax: one definition per line as
    /// `<name> <- <rule>`, the names in lexicographic order without
    /// repetition, covering exactly the rule map. The text parses back
    /// under the meta-grammar.
    pub fn display(&self) -> (r: String)
        ensures
            exists|names: Seq<Seq<char>>|
                {
                    &&& r@ == #[trigger] grammar_lines(names, self.rules_model())
                    &&& names.no_duplicates()
                    &&& forall|n: Seq<char>|
                        names.contains(n) <==> self.rules_model().contains_key(n)
                    &&& forall|i: int, j: int|
                        0 <= i < j < names.len() ==> lex_leq(#[trigger] names[i], #[trigger] names[j])
                },
    {
        let names = collect_names(&self.rules);
        let sorted = sort_names(names);
        let ghost sortedv = crate::transformer::refs_view(sorted@);
        let mut out = String::new();
        let mut i: usize = 0;
        proof {
            assert(sortedv.skip(0) =~= sortedv);
            assert(out@ + grammar_lines(sortedv, self.rules_model()) =~= grammar_lines(
                sortedv,
                self.rules_model(),
            ));
        }
        while i < sorted.len()
            invariant
                i <= sorted@.len(),
                sortedv == crate::transformer::refs_view(sorted@),
                forall|n: Seq<char>| sortedv.contains(n) ==> self.rules_model().contains_key(n),
                out@ + grammar_lines(sortedv.skip(i as int), self.rules_model()) == grammar_lines(
                    sortedv,
                    self.rules_model(),
                ),
            decreases sorted@.len() - i,
        {
            let ghost out0 = out@;
            let ghost rest = sortedv.skip(i as int);
            proof {
                assert(rest[0] == sorted@[i as int]@);
                assert(rest.drop_first() =~= sortedv.skip(i + 1));
                assert(sortedv.contains(sortedv[i as int]));
            }
            let rule = match lookup_rule(&self.rules, &sorted[i]) {
                Option::Some(rule) => rule,
                Option::None => {
                    proof {
                        assert(false);
                    }
                    return String::new();
                },
            };
            out.append(sorted[i].as_str());
            out.append(" <- ");
            let body = rule.display();
            out.append(body.as_str());
            out.append("\n");
            proof {
                assert(self.rules_model()[rest[0]] == rule@);
                assert(grammar_lines(rest, self.rules_model()) == rest[0] + " <- "@ + rule_text(
                    self.rules_model()[rest[0]],
                ) + "\n"@ + grammar_lines(sortedv.skip(i + 1), self.rules_model()));
                assert(out@ =~= out0 + (rest[0] + " <- "@ + rule_text(
                    self.rules_model()[rest[0]],
                ) + "\n"@));
                assert((out0 + (rest[0] + " <- "@ + rule_text(self.rules_model()[rest[0]])
                    + "\n"@)) + grammar_lines(sortedv.skip(i + 1), self.rules_model()) =~= out0 + ((
                rest[0] + " <- "@ + rule_text(self.rules_model()[rest[0]]) + "\n"@)
                    + grammar_lines(sortedv.skip(i + 1), self.rules_model())));
            }
            i = i + 1;
        }
        proof {
            assert(sortedv.skip(sorted@.len() as int) =~= Seq::<Seq<char>>::empty());
            assert(out@ + Seq::<char>::empty() =~= out@);
        }
        out
    }
}

/// The first binding of each name, in binding order.
fn collect_names(rules: &Vec<(String, Rule)>) -> (names: Vec<String>)
    ensures
        crate::transformer::refs_view(names@).no_duplicates(),
        forall|n: Seq<char>|
            crate::transformer::refs_view(names@).contains(n) <==> crate::grammar::rule_map(
                crate::grammar::pairs_view(rules@),
            ).contains_key(n),
{
    let mut names: Vec<String> = Vec::new();
    let mut i: usize = 0;
    while i < rules.len()
        invariant
            i <= rules@.len(),
            crate::transformer::refs_view(names@).no_duplicates(),
            forall|n: Seq<char>|
                crate::transformer::refs_view(names@).contains(n) <==> exists|k: int|
                    0 <= k < i && (#[trigger] rules@[k]).0@ == n,
        decreases rules@.len() - i,
    {
        let ghost nv0 = crate::transformer::refs_view(names@);
        let mut seen = false;
        let mut j: usize = 0;
        while j < names.len()
            invariant
                i < rules@.len(),
                j <= names@.len(),
                nv0 == crate::transformer::refs_view(names@),
                seen ==> nv0.contains(rules@[i as int].0@),
                !seen ==> forall|k: int| 0 <= k < j ==> (#[trigger] names@[k])@ != rules@[
                    i as int
                ].0@,
            decreases names@.len() - j,
        {
            if names[j].eq(&rules[i].0) {
                proof {
                    assert(nv0[j as int] == rules@[i as int].0@);
                }
                seen = true;
            }
            j = j + 1;
        }
        if !seen {
            proof {
                if nv0.contains(rules@[i as int].0@) {
                    let k = choose|k: int| 0 <= k < nv0.len() && nv0[k] == rules@[i as int].0@;
                    assert(names@[k]@ == rules@[i as int].0@);
                    assert(false);
                }
            }
            names.push(rules[i].0.clone());
            proof {
                let nv = crate::transformer::refs_view(names@);
                assert(nv =~= nv0.push(rules@[i as int].0@));
                assert forall|p: int, q: int|
                    0 <= p < nv.len() && 0 <= q < nv.len() && p != q implies nv[p] != nv[q] by {
                    if p < nv.len() - 1 && q < nv.len() - 1 {
                        assert(nv[p] == nv0[p] && nv[q] == nv0[q]);
                    } else if q == nv.len() - 1 && p < q {
                        if nv[p] == nv[q] {
                            assert(nv0[p] == rules@[i as int].0@);
                            assert(nv0.contains(rules@[i as int].0@));
                        }
                    } else if p == nv.len() - 1 && q < p {
                        if nv[p] == nv[q] {
                            assert(nv0[q] == rules@[i as int].0@);
                            assert(nv0.contains(rules@[i as int].0@));
                        }
                    }
                }
                assert(nv.no_duplicates());
            }
        }
        proof {
            let nv = crate::transformer::refs_view(names@);
            assert forall|n: Seq<char>| nv.contains(n) implies exists|k: int|
                0 <= k < i + 1 && (#[trigger] rules@[k]).0@ == n by {
                if nv0.contains(n) {
                } else {
                    assert(n == rules@[i as int].0@);
                }
            }
            assert forall|n: Seq<char>|
                (exists|k: int| 0 <= k < i + 1 && (#[trigger] rules@[k]).0@ == n) implies nv
                .contains(n) by {
                let k = choose|k: int| 0 <= k < i + 1 && (#[trigger] rules@[k]).0@ == n;
                if k < i {
                    assert(nv0.contains(n));
                    let q = choose|q: int| 0 <= q < nv0.len() && nv0[q] == n;
                    assert(nv[q] == n);
                } else {
                    if seen {
                        let q = choose|q: int| 0 <= q < nv0.len() && nv0[q] == n;
                        assert(nv[q] == n);
                    } else {
                        assert(nv[nv.len() - 1] == n);
                    }
                }
            }
        }
        i = i + 1;
    }
    proof {
        let nv = crate::transformer::refs_view(names@);
        let m = crate::grammar::rule_map(crate::grammar::pairs_view(rules@));
        assert forall|n: Seq<char>| nv.contains(n) implies m.contains_key(n) by {
            let k = choose|k: int| 0 <= k < rules@.len() && (#[trigger] rules@[k]).0@ == n;
            lemma_assoc_found(crate::grammar::pairs_view(rules@), n, k);
        }
        assert forall|n: Seq<char>| m.contains_key(n) implies nv.contains(n) by {
            lemma_assoc_some_index(crate::grammar::pairs_view(rules@), n);
            let k = choose|k: int|
                0 <= k < crate::grammar::pairs_view(rules@).len() && crate::grammar::pairs_view(
                    rules@,
                )[k].0 == n;
            assert(rules@[k].0@ == n);
        }
    }
    names
}

/// If some binding matches, the lookup finds one.
proof fn lemma_assoc_found(rs: Seq<(Seq<char>, RuleExpr)>, n: Seq<char>, k: int)
    requires
        0 <= k < rs.len(),
        rs[k].0 == n,
    ensures
        crate::grammar::assoc(rs, n) is Some,
    decreases rs,
{
    if rs[0].0 != n {
        lemma_assoc_found(rs.drop_first(), n, k - 1);
    }
}

/// If the lookup finds something, some binding matches.
proof fn lemma_assoc_some_index(rs: Seq<(Seq<char>, RuleExpr)>, n: Seq<char>)
    requires
        crate::grammar::assoc(rs, n) is Some,
    ensures
        exists|k: int| 0 <= k < rs.len() && (#[trigger] rs[k]).0 == n,
    decreases rs,
{
    if rs.len() > 0 {
        if rs[0].0 == n {
            assert(rs[0].0 == n);
        } else {
            lemma_assoc_some_index(rs.drop_first(), n);
            let k = choose|k: int|
                0 <= k < rs.drop_first().len() && (#[trigger] rs.drop_first()[k]).0 == n;
            assert(rs[k + 1].0 == n);
        }
    }
}

/// The order is transitive.
pub proof fn lemma_lex_trans(a: Seq<char>, b: Seq<char>, c: Seq<char>)
    requires
        lex_leq(a, b),
        lex_leq(b, c),
    ensures
        lex_leq(a, c),
    decreases a.len(),
{
    if a.len() > 0 && b.len() > 0 && c.len() > 0 {
        if (a[0] as u32) == (b[0] as u32) && (b[0] as u32) == (c[0] as u32) {
            lemma_lex_trans(a.drop_first(), b.drop_first(), c.drop_first());
        }
    }
}

/// Swapping two positions keeps which names occur and keeps them unrepeated.
proof fn lemma_swap_props(s: Seq<Seq<char>>, p: int, q: int)
    requires
        0 <= p < q < s.len(),
    ensures
        forall|x: Seq<char>|
            s.update(p, s[q]).update(q, s[p]).contains(x) <==> s.contains(x),
        s.no_duplicates() ==> s.update(p, s[q]).update(q, s[p]).no_duplicates(),
{
    let t = s.update(p, s[q]).update(q, s[p]);
    assert forall|x: Seq<char>| t.contains(x) implies s.contains(x) by {
        let i = choose|i: int| 0 <= i < t.len() && t[i] == x;
        if i == p {
            assert(s[q] == x);
        } else if i == q {
            assert(s[p] == x);
        } else {
            assert(s[i] == x);
        }
    }
    assert forall|x: Seq<char>| s.contains(x) implies t.contains(x) by {
        let i = choose|i: int| 0 <= i < s.len() && s[i] == x;
        if i == p {
            assert(t[q] == x);
        } else if i == q {
            assert(t[p] == x);
        } else {
            assert(t[i] == x);
        }
    }
    if s.no_duplicates() {
        assert forall|i: int, j: int|
            0 <= i < t.len() && 0 <= j < t.len() && i != j implies t[i] != t[j] by {
            let si = if i == p { q } else if i == q { p } else { i };
            let sj = if j == p { q } else if j == q { p } else { j };
            assert(t[i] == s[si] && t[j] == s[sj] && si != sj);
        }
    }
}

/// The names in lexicographic order; the same names, none lost or added.
fn sort_names(names: Vec<String>) -> (sorted: Vec<String>)
    ensures
        forall|n: Seq<char>|
            crate::transformer::refs_view(sorted@).contains(n) <==> crate::transformer::refs_view(
                names@,
            ).contains(n),
        crate::transformer::refs_view(names@).no_duplicates() ==> crate::transformer::refs_view(
            sorted@,
        ).no_duplicates(),
        forall|i: int, j: int|
            0 <= i < j < sorted@.len() ==> lex_leq(
                (#[trigger] sorted@[i])@,
                (#[trigger] sorted@[j])@,
            ),
{
    let ghost orig = crate::transformer::refs_view(names@);
    let mut names = names;
    let n = names.len();
    if n <= 1 {
        return names;
    }
    let mut i: usize = 1;
    while i < n
        invariant
            1 <= i <= n,
            n == names@.len(),
            forall|p: int, q: int|
                0 <= p < q < i ==> lex_leq(
                    (#[trigger] names@[p])@,
                    (#[trigger] names@[q])@,
                ),
            forall|x: Seq<char>| crate::transformer::refs_view(names@).contains(x) <==> orig.contains(x),
            orig.no_duplicates() ==> crate::transformer::refs_view(names@).no_duplicates(),
        decreases n - i,
    {
        let mut j: usize = i;
        let mut done = false;
        while j > 0 && !done
            invariant
                0 <= j <= i < n,
                n == names@.len(),
                forall|p: int, q: int|
                    0 <= p < q <= i && q != j ==> lex_leq(
                        (#[trigger] names@[p])@,
                        (#[trigger] names@[q])@,
                    ),
                forall|q: int|
                    j < q <= i ==> lex_leq((names@[j as int])@, (#[trigger] names@[q])@),
                done ==> j > 0 && lex_leq(names@[j - 1]@, names@[j as int]@),
                forall|x: Seq<char>| crate::transformer::refs_view(names@).contains(x) <==> orig.contains(x),
                orig.no_duplicates() ==> crate::transformer::refs_view(names@).no_duplicates(),
            decreases j + (if done { 0int } else { 1int }),
        {
            if lex_le(&names[j - 1], &names[j]) {
                done = true;
            } else {
                proof {
                    lemma_lex_total(names@[j - 1]@, names@[j as int]@);
                    lemma_swap_props(crate::transformer::refs_view(names@), j - 1, j as int);
                }
                let ghost before = names@;
                let moved = names.remove(j - 1);
                names.insert(j, moved);
                proof {
                    assert(names@ =~= before.update(j - 1, before[j as int]).update(
                        j as int,
                        before[j - 1],
                    ));
                    assert(crate::transformer::refs_view(names@) =~= crate::transformer::refs_view(
                        before,
                    ).update(j - 1, crate::transformer::refs_view(before)[j as int]).update(
                        j as int,
                        crate::transformer::refs_view(before)[j - 1],
                    ));
                }
                j = j - 1;
            }
        }
        proof {
            assert forall|p: int, q: int| 0 <= p < q <= i implies lex_leq(
                (#[trigger] names@[p])@,
                (#[trigger] names@[q])@,
            ) by {
                if q == j && j > 0 {
                    assert(lex_leq(names@[j - 1]@, names@[j as int]@));
                    if p < j - 1 {
                        lemma_lex_trans(names@[p]@, names@[j - 1]@, names@[j as int]@);
                    }
                }
            }
        }
        i = i + 1;
    }
    names
}

} // verus!
