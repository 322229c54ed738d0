//! The hand-built rule map that describes PEG syntax itself.
//!
//! It is used only to parse user grammars; its start symbol is `text`. The
//! model of every rule is stated as a spec constant, and [`Peg::bootstrap`]
//! is proved to build exactly [`bootstrap_rules`].

use vstd::prelude::*;
use crate::grammar::{pairs_view, rule_map, Peg};
use crate::rule::{rule_views, Rule, RuleExpr};

verus! {

/// `Spacing <- (' ' / '\n' / '\r\n')*`
pub open spec fn boot_spacing() -> RuleExpr {
    RuleExpr::ZeroOrMore(
        Box::new(
            RuleExpr::Choice(
                seq![
                    RuleExpr::Literal(" "@),
                    RuleExpr::Literal("\n"@),
                    RuleExpr::Literal("\r\n"@),
                ],
            ),
        ),
    )
}

/// An operator token: its symbol followed by `Spacing`.
pub open spec fn boot_op(sym: Seq<char>) -> RuleExpr {
    RuleExpr::Sequence(seq![RuleExpr::Literal(sym), RuleExpr::NonTerminal("Spacing"@)])
}

/// `EndOfFile <- !.`
pub open spec fn boot_eof() -> RuleExpr {
    RuleExpr::Not(Box::new(RuleExpr::Any))
}

/// The characters an escape may name.
pub open spec fn boot_escape_class() -> RuleExpr {
    RuleExpr::Class(seq!["n"@, "r"@, "t"@, "'"@, "\""@, "["@, "]"@, "\\"@])
}

/// `Char <- '\\' [nrt'"[\]\\] / '\\' [0-9]+ ';' / !'\\' .`
pub open spec fn boot_char() -> RuleExpr {
    RuleExpr::Choice(
        seq![
            RuleExpr::Sequence(seq![RuleExpr::Literal("\\"@), boot_escape_class()]),
            RuleExpr::Sequence(
                seq![
                    RuleExpr::Literal("\\"@),
                    RuleExpr::OneOrMore(Box::new(RuleExpr::Range("0"@, "9"@))),
                    RuleExpr::Literal(";"@),
                ],
            ),
            RuleExpr::Sequence(
                seq![RuleExpr::Not(Box::new(RuleExpr::Literal("\\"@))), RuleExpr::Any],
            ),
        ],
    )
}

/// `Range <- Char '-' Char`
pub open spec fn boot_range_rule() -> RuleExpr {
    RuleExpr::Sequence(
        seq![
            RuleExpr::NonTerminal("Char"@),
            RuleExpr::Literal("-"@),
            RuleExpr::NonTerminal("Char"@),
        ],
    )
}

/// `ClassMember <- Range / Char`
pub open spec fn boot_class_member() -> RuleExpr {
    RuleExpr::Choice(seq![RuleExpr::NonTerminal("Range"@), RuleExpr::NonTerminal("Char"@)])
}

/// `Identifier <- [a-zA-Z_] [a-zA-Z_0-9]* Spacing`
pub open spec fn boot_identifier() -> RuleExpr {
    RuleExpr::Sequence(
        seq![
            RuleExpr::Choice(
                seq![
                    RuleExpr::Range("a"@, "z"@),
                    RuleExpr::Range("A"@, "Z"@),
                    RuleExpr::Literal("_"@),
                ],
            ),
            RuleExpr::ZeroOrMore(
                Box::new(
                    RuleExpr::Choice(
                        seq![
                            RuleExpr::Range("a"@, "z"@),
                            RuleExpr::Range("A"@, "Z"@),
                            RuleExpr::Literal("_"@),
                            RuleExpr::Range("0"@, "9"@),
                        ],
                    ),
                ),
            ),
            RuleExpr::NonTerminal("Spacing"@),
        ],
    )
}

/// A quoted literal: the quote, characters other than it, the quote, spacing.
pub open spec fn boot_quoted(q: Seq<char>) -> RuleExpr {
    RuleExpr::Sequence(
        seq![
            RuleExpr::Literal(q),
            RuleExpr::ZeroOrMore(
                Box::new(
                    RuleExpr::Sequence(
                        seq![
                            RuleExpr::Not(Box::new(RuleExpr::Literal(q))),
                            RuleExpr::NonTerminal("Char"@),
                        ],
                    ),
                ),
            ),
            RuleExpr::Literal(q),
            RuleExpr::NonTerminal("Spacing"@),
        ],
    )
}

/// `Literal <- "'" (!"'" Char)* "'" Spacing / '"' (!'"' Char)* '"' Spacing`
pub open spec fn boot_literal() -> RuleExpr {
    RuleExpr::Choice(seq![boot_quoted("'"@), boot_quoted("\""@)])
}

/// `Class <- '[' (!']' ClassMember)* ']' Spacing`
pub open spec fn boot_class() -> RuleExpr {
    RuleExpr::Sequence(
        seq![
            RuleExpr::Literal("["@),
            RuleExpr::ZeroOrMore(
                Box::new(
                    RuleExpr::Sequence(
                        seq![
                            RuleExpr::Not(Box::new(RuleExpr::Literal("]"@))),
                            RuleExpr::NonTerminal("ClassMember"@),
                        ],
                    ),
                ),
            ),
            RuleExpr::Literal("]"@),
            RuleExpr::NonTerminal("Spacing"@),
        ],
    )
}

/// `Primary <- Identifier !LEFTARROW / OPEN Expression CLOSE / Literal / Class / DOT`
pub open spec fn boot_primary() -> RuleExpr {
    RuleExpr::Choice(
        seq![
            RuleExpr::Sequence(
                seq![
                    RuleExpr::NonTerminal("Identifier"@),
                    RuleExpr::Not(Box::new(RuleExpr::NonTerminal("LEFTARROW"@))),
                ],
            ),
            RuleExpr::Sequence(
                seq![
                    RuleExpr::NonTerminal("OPEN"@),
                    RuleExpr::NonTerminal("Expression"@),
                    RuleExpr::NonTerminal("CLOSE"@),
                ],
            ),
            RuleExpr::NonTerminal("Literal"@),
            RuleExpr::NonTerminal("Class"@),
            RuleExpr::NonTerminal("DOT"@),
        ],
    )
}

/// `Suffix <- (QUESTION / STAR / PLUS)?`
pub open spec fn boot_suffix() -> RuleExpr {
    RuleExpr::Optional(
        Box::new(
            RuleExpr::Choice(
                seq![
                    RuleExpr::NonTerminal("QUESTION"@),
                    RuleExpr::NonTerminal("STAR"@),
                    RuleExpr::NonTerminal("PLUS"@),
                ],
            ),
        ),
    )
}

/// `Prefix <- (AND / NOT)?`
pub open spec fn boot_prefix() -> RuleExpr {
    RuleExpr::Optional(
        Box::new(
            RuleExpr::Choice(
                seq![RuleExpr::NonTerminal("AND"@), RuleExpr::NonTerminal("NOT"@)],
            ),
        ),
    )
}

/// `Sequence <- (Prefix Primary Suffix)*`
pub open spec fn boot_sequence() -> RuleExpr {
    RuleExpr::ZeroOrMore(
        Box::new(
            RuleExpr::Sequence(
                seq![
                    RuleExpr::NonTerminal("Prefix"@),
                    RuleExpr::NonTerminal("Primary"@),
                    RuleExpr::NonTerminal("Suffix"@),
                ],
            ),
        ),
    )
}

/// `Expression <- Sequence (SLASH Sequence)*`
pub open spec fn boot_expression() -> RuleExpr {
    RuleExpr::Sequence(
        seq![
            RuleExpr::NonTerminal("Sequence"@),
            RuleExpr::ZeroOrMore(
                Box::new(
                    RuleExpr::Sequence(
                        seq![
                            RuleExpr::NonTerminal("SLASH"@),
                            RuleExpr::NonTerminal("Sequence"@),
                        ],
                    ),
                ),
            ),
        ],
    )
}

/// `Definition <- Identifier LEFTARROW Expression`
pub open spec fn boot_definition() -> RuleExpr {
    RuleExpr::Sequence(
        seq![
            RuleExpr::NonTerminal("Identifier"@),
            RuleExpr::NonTerminal("LEFTARROW"@),
            RuleExpr::NonTerminal("Expression"@),
        ],
    )
}

/// `text <- Spacing Definition* EndOfFile`
pub open spec fn boot_text() -> RuleExpr {
    RuleExpr::Sequence(
        seq![
            RuleExpr::NonTerminal("Spacing"@),
            RuleExpr::ZeroOrMore(Box::new(RuleExpr::NonTerminal("Definition"@))),
            RuleExpr::NonTerminal("EndOfFile"@),
        ],
    )
}

/// The whole meta-grammar: every rule of the bootstrap by name.
pub open spec fn bootstrap_rules() -> Map<Seq<char>, RuleExpr> {
    Map::<Seq<char>, RuleExpr>::empty()
        .insert("Spacing"@, boot_spacing())
        .insert("LEFTARROW"@, boot_op("<-"@))
        .insert("SLASH"@, boot_op("/"@))
        .insert("AND"@, boot_op("&"@))
        .insert("NOT"@, boot_op("!"@))
        .insert("QUESTION"@, boot_op("?"@))
        .insert("STAR"@, boot_op("*"@))
        .insert("PLUS"@, boot_op("+"@))
        .insert("OPEN"@, boot_op("("@))
        .insert("CLOSE"@, boot_op(")"@))
        .insert("DOT"@, boot_op("."@))
        .insert("EndOfFile"@, boot_eof())
        .insert("Char"@, boot_char())
        .insert("Range"@, boot_range_rule())
        .insert("ClassMember"@, boot_class_member())
        .insert("Identifier"@, boot_identifier())
        .insert("Literal"@, boot_literal())
        .insert("Class"@, boot_class())
        .insert("Primary"@, boot_primary())
        .insert("Suffix"@, boot_suffix())
        .insert("Prefix"@, boot_prefix())
        .insert("Sequence"@, boot_sequence())
        .insert("Expression"@, boot_expression())
        .insert("Definition"@, boot_definition())
        .insert("text"@, boot_text())
}

/// Builds up a rule map one named rule at a time.
pub struct RuleBuilder {
    pub rules: Vec<(String, Rule)>,
}

impl RuleBuilder {
    /// The rule map built so far.
    pub open spec fn model(&self) -> Map<Seq<char>, RuleExpr> {
        rule_map(pairs_view(self.rules@))
    }

    /// An empty builder.
    pub fn new() -> (gb: RuleBuilder)
        ensures
            gb.model() == Map::<Seq<char>, RuleExpr>::empty(),
    {
        let gb = RuleBuilder { rules: Vec::new() };
        proof {
            assert(pairs_view(gb.rules@) =~= Seq::<(Seq<char>, RuleExpr)>::empty());
            assert(gb.model() =~= Map::<Seq<char>, RuleExpr>::empty());
        }
        gb
    }

    /// Binds `name` to `expr`, shadowing any earlier binding, and returns a
    /// reference to the rule.
    pub fn add_rule(&mut self, name: &str, expr: Rule) -> (r: Rule)
        ensures
            final(self).model() == old(self).model().insert(name@, expr@),
            r@ == RuleExpr::NonTerminal(name@),
    {
        let ghost oldpairs = pairs_view(self.rules@);
        let ghost ev = expr@;
        self.rules.insert(0, (name.to_owned(), expr));
        proof {
            assert(pairs_view(self.rules@) =~= seq![(name@, ev)] + oldpairs);
            assert forall|n: Seq<char>|
                crate::grammar::assoc(pairs_view(self.rules@), n) == (if n == name@ {
                    Option::Some(ev)
                } else {
                    crate::grammar::assoc(oldpairs, n)
                }) by {
                assert((seq![(name@, ev)] + oldpairs).drop_first() =~= oldpairs);
            }
            assert(self.model() =~= rule_map(oldpairs).insert(name@, ev));
        }
        Rule::NonTerminal(name.to_owned())
    }

    /// A sequence of the given rules.
    pub fn seq(&self, exprs: Vec<Rule>) -> (r: Rule)
        ensures
            r@ == RuleExpr::Sequence(rule_views(exprs@)),
    {
        Rule::Sequence(exprs)
    }

    /// An ordered choice of the given rules; a one-rule choice is that rule.
    pub fn choice(&self, exprs: Vec<Rule>) -> (r: Rule)
        ensures
            r@ == if exprs@.len() == 1 {
                rule_views(exprs@)[0]
            } else {
                RuleExpr::Choice(rule_views(exprs@))
            },
    {
        if exprs.len() == 1 {
            let ghost orig = exprs@;
            let mut exprs = exprs;
            let first = exprs.remove(0);
            proof {
                crate::rule::lemma_rule_views(orig);
                assert(rule_views(orig)[0] == orig[0]@);
            }
            first
        } else {
            Rule::Choice(exprs)
        }
    }

    /// Greedy repetition, zero or more times.
    pub fn zero_or_more(&self, expr: Rule) -> (r: Rule)
        ensures
            r@ == RuleExpr::ZeroOrMore(Box::new(expr@)),
    {
        Rule::ZeroOrMore(expr.boxed())
    }

    /// Greedy repetition, at least once.
    pub fn one_or_more(&self, expr: Rule) -> (r: Rule)
        ensures
            r@ == RuleExpr::OneOrMore(Box::new(expr@)),
    {
        Rule::OneOrMore(expr.boxed())
    }

    /// The rule or nothing.
    pub fn optional(&self, expr: Rule) -> (r: Rule)
        ensures
            r@ == RuleExpr::Optional(Box::new(expr@)),
    {
        Rule::Optional(expr.boxed())
    }

    /// Negative lookahead.
    pub fn not(&self, expr: Rule) -> (r: Rule)
        ensures
            r@ == RuleExpr::Not(Box::new(expr@)),
    {
        Rule::Not(expr.boxed())
    }

    /// The rule for a literal quoted by `quote`: see [`boot_quoted`].
    pub fn build_quoted_literal(&self, quote: &str, spacing: &Rule) -> (r: Rule)
        requires
            spacing@ == RuleExpr::NonTerminal("Spacing"@),
        ensures
            r@ == boot_quoted(quote@),
    {
        let inner = self.seq(
            rlist2(self.not(lit(quote)), nt("Char")),
        );
        let r = self.seq(
            rlist4(lit(quote), self.zero_or_more(inner), lit(quote), spacing.deep_clone()),
        );
        r
    }
}

/// A literal rule for the given text.
fn lit(s: &str) -> (r: Rule)
    ensures
        r@ == RuleExpr::Literal(s@),
{
    Rule::Literal(s.to_owned())
}

/// A reference to the named rule.
fn nt(name: &str) -> (r: Rule)
    ensures
        r@ == RuleExpr::NonTerminal(name@),
{
    Rule::NonTerminal(name.to_owned())
}

/// A two-rule list.
fn rlist2(a: Rule, b: Rule) -> (v: Vec<Rule>)
    ensures
        v@.len() == 2,
        rule_views(v@) == seq![a@, b@],
{
    let ghost av = a@;
    let ghost bv = b@;
    let mut v: Vec<Rule> = Vec::new();
    v.push(a);
    v.push(b);
    proof {
        crate::rule::lemma_rule_views(v@);
        assert(v@[0]@ == av);
        assert(v@[1]@ == bv);
        assert(rule_views(v@) =~= seq![av, bv]);
    }
    v
}

/// A three-rule list.
fn rlist3(a: Rule, b: Rule, c: Rule) -> (v: Vec<Rule>)
    ensures
        v@.len() == 3,
        rule_views(v@) == seq![a@, b@, c@],
{
    let ghost av = a@;
    let ghost bv = b@;
    let ghost cv = c@;
    let mut v: Vec<Rule> = Vec::new();
    v.push(a);
    v.push(b);
    v.push(c);
    proof {
        crate::rule::lemma_rule_views(v@);
        assert(v@[0]@ == av);
        assert(v@[1]@ == bv);
        assert(v@[2]@ == cv);
        assert(rule_views(v@) =~= seq![av, bv, cv]);
    }
    v
}

/// A four-rule list.
fn rlist4(a: Rule, b: Rule, c: Rule, d: Rule) -> (v: Vec<Rule>)
    ensures
        v@.len() == 4,
        rule_views(v@) == seq![a@, b@, c@, d@],
{
    let ghost av = a@;
    let ghost bv = b@;
    let ghost cv = c@;
    let ghost dv = d@;
    let mut v: Vec<Rule> = Vec::new();
    v.push(a);
    v.push(b);
    v.push(c);
    v.push(d);
    proof {
        crate::rule::lemma_rule_views(v@);
        assert(v@[0]@ == av);
        assert(v@[1]@ == bv);
        assert(v@[2]@ == cv);
        assert(v@[3]@ == dv);
        assert(rule_views(v@) =~= seq![av, bv, cv, dv]);
    }
    v
}

/// A five-rule list.
fn rlist5(a: Rule, b: Rule, c: Rule, d: Rule, e: Rule) -> (v: Vec<Rule>)
    ensures
        v@.len() == 5,
        rule_views(v@) == seq![a@, b@, c@, d@, e@],
{
    let ghost av = a@;
    let ghost bv = b@;
    let ghost cv = c@;
    let ghost dv = d@;
    let ghost ev = e@;
    let mut v: Vec<Rule> = Vec::new();
    v.push(a);
    v.push(b);
    v.push(c);
    v.push(d);
    v.push(e);
    proof {
        crate::rule::lemma_rule_views(v@);
        assert(v@[0]@ == av);
        assert(v@[1]@ == bv);
        assert(v@[2]@ == cv);
        assert(v@[3]@ == dv);
        assert(v@[4]@ == ev);
        assert(rule_views(v@) =~= seq![av, bv, cv, dv, ev]);
    }
    v
}

/// Defines `Spacing`, the operator tokens, and `EndOfFile`.
pub fn define_operators(gb: &mut RuleBuilder)
    ensures
        final(gb).model() == old(gb).model()
            .insert("Spacing"@, boot_spacing())
            .insert("LEFTARROW"@, boot_op("<-"@))
            .insert("SLASH"@, boot_op("/"@))
            .insert("AND"@, boot_op("&"@))
            .insert("NOT"@, boot_op("!"@))
            .insert("QUESTION"@, boot_op("?"@))
            .insert("STAR"@, boot_op("*"@))
            .insert("PLUS"@, boot_op("+"@))
            .insert("OPEN"@, boot_op("("@))
            .insert("CLOSE"@, boot_op(")"@))
            .insert("DOT"@, boot_op("."@))
            .insert("EndOfFile"@, boot_eof()),
{
    let spacing_body = gb.zero_or_more(
        gb.choice(rlist3(lit(" "), lit("\n"), lit("\r\n"))),
    );
    let spacing = gb.add_rule("Spacing", spacing_body);
    add_op(gb, "LEFTARROW", "<-");
    add_op(gb, "SLASH", "/");
    add_op(gb, "AND", "&");
    add_op(gb, "NOT", "!");
    add_op(gb, "QUESTION", "?");
    add_op(gb, "STAR", "*");
    add_op(gb, "PLUS", "+");
    add_op(gb, "OPEN", "(");
    add_op(gb, "CLOSE", ")");
    add_op(gb, "DOT", ".");
    let eof = gb.not(Rule::Any);
    gb.add_rule("EndOfFile", eof);
    let _ = spacing;
}

/// Defines one operator token rule: its symbol followed by `Spacing`.
fn add_op(gb: &mut RuleBuilder, name: &str, symbol: &str)
    ensures
        final(gb).model() == old(gb).model().insert(name@, boot_op(symbol@)),
{
    let body = gb.seq(rlist2(lit(symbol), nt("Spacing")));
    gb.add_rule(name, body);
}

/// Defines `Char`, `Range`, and `ClassMember`.
pub fn define_character_rules(gb: &mut RuleBuilder)
    ensures
        final(gb).model() == old(gb).model()
            .insert("Char"@, boot_char())
            .insert("Range"@, boot_range_rule())
            .insert("ClassMember"@, boot_class_member()),
{
    let escape = Rule::create_character_class(&["n", "r", "t", "'", "\"", "[", "]", "\\"]);
    proof {
        reveal_strlit("n");
        reveal_strlit("r");
        reveal_strlit("t");
        reveal_strlit("'");
        reveal_strlit("\"");
        reveal_strlit("[");
        reveal_strlit("]");
        reveal_strlit("\\");
        let chars: Seq<&str> = seq!["n", "r", "t", "'", "\"", "[", "]", "\\"];
        let views = Seq::new(chars.len(), |i: int| chars[i]@);
        assert(views =~= seq!["n"@, "r"@, "t"@, "'"@, "\""@, "["@, "]"@, "\\"@]);
        assert((Seq::<Seq<char>>::empty() + views).no_duplicates()) by {
            assert(Seq::<Seq<char>>::empty() + views =~= views);
            assert forall|i: int, j: int|
                0 <= i < views.len() && 0 <= j < views.len() && i != j implies views[i]
                != views[j] by {
                assert(views[i][0] != views[j][0]);
            }
        }
        crate::transformer::lemma_dedup_append_distinct(Seq::empty(), views);
        assert(Seq::<Seq<char>>::empty() + views =~= views);
        assert(escape@ =~= boot_escape_class());
    }
    let char_rule = gb.choice(
        rlist3(
            gb.seq(rlist2(lit("\\"), escape)),
            gb.seq(
                rlist3(
                    lit("\\"),
                    gb.one_or_more(Rule::Range("0".to_owned(), "9".to_owned())),
                    lit(";"),
                ),
            ),
            gb.seq(rlist2(gb.not(lit("\\")), Rule::Any)),
        ),
    );
    gb.add_rule("Char", char_rule);

    let range = gb.seq(rlist3(nt("Char"), lit("-"), nt("Char")));
    let range_ref = gb.add_rule("Range", range);

    let member = gb.choice(rlist2(range_ref, nt("Char")));
    gb.add_rule("ClassMember", member);
}

/// Defines `Identifier`.
pub fn define_identifier_rule(gb: &mut RuleBuilder, spacing: &Rule) -> (r: Rule)
    requires
        spacing@ == RuleExpr::NonTerminal("Spacing"@),
    ensures
        final(gb).model() == old(gb).model().insert("Identifier"@, boot_identifier()),
        r@ == RuleExpr::NonTerminal("Identifier"@),
{
    let head = gb.choice(
        rlist3(
            Rule::Range("a".to_owned(), "z".to_owned()),
            Rule::Range("A".to_owned(), "Z".to_owned()),
            lit("_"),
        ),
    );
    let tail = gb.zero_or_more(
        gb.choice(
            rlist4(
                Rule::Range("a".to_owned(), "z".to_owned()),
                Rule::Range("A".to_owned(), "Z".to_owned()),
                lit("_"),
                Rule::Range("0".to_owned(), "9".to_owned()),
            ),
        ),
    );
    let body = gb.seq(rlist3(head, tail, spacing.deep_clone()));
    gb.add_rule("Identifier", body)
}

/// Defines `Literal`.
pub fn define_literal_rule(gb: &mut RuleBuilder, spacing: &Rule) -> (r: Rule)
    requires
        spacing@ == RuleExpr::NonTerminal("Spacing"@),
    ensures
        final(gb).model() == old(gb).model().insert("Literal"@, boot_literal()),
        r@ == RuleExpr::NonTerminal("Literal"@),
{
    let single = gb.build_quoted_literal("'", spacing);
    let double = gb.build_quoted_literal("\"", spacing);
    let body = gb.choice(rlist2(single, double));
    gb.add_rule("Literal", body)
}

/// Defines `Class`.
pub fn define_class_rule(gb: &mut RuleBuilder) -> (r: Rule)
    ensures
        final(gb).model() == old(gb).model().insert("Class"@, boot_class()),
        r@ == RuleExpr::NonTerminal("Class"@),
{
    let inner = gb.seq(rlist2(gb.not(lit("]")), nt("ClassMember")));
    let body = gb.seq(
        rlist4(lit("["), gb.zero_or_more(inner), lit("]"), nt("Spacing")),
    );
    gb.add_rule("Class", body)
}

/// Defines `Identifier`, `Literal`, `Class`, `Primary`, `Suffix`, `Prefix`,
/// `Sequence`, and `Expression`.
pub fn define_nonterminal_rules(gb: &mut RuleBuilder)
    ensures
        final(gb).model() == old(gb).model()
            .insert("Identifier"@, boot_identifier())
            .insert("Literal"@, boot_literal())
            .insert("Class"@, boot_class())
            .insert("Primary"@, boot_primary())
            .insert("Suffix"@, boot_suffix())
            .insert("Prefix"@, boot_prefix())
            .insert("Sequence"@, boot_sequence())
            .insert("Expression"@, boot_expression()),
{
    let spacing = nt("Spacing");
    let identifier = define_identifier_rule(gb, &spacing);
    let literal = define_literal_rule(gb, &spacing);
    let class = define_class_rule(gb);

    let primary_body = gb.choice(
        rlist5(
            gb.seq(rlist2(identifier, gb.not(nt("LEFTARROW")))),
            gb.seq(rlist3(nt("OPEN"), nt("Expression"), nt("CLOSE"))),
            literal,
            class,
            nt("DOT"),
        ),
    );
    let primary = gb.add_rule("Primary", primary_body);

    let suffix_body = gb.optional(
        gb.choice(rlist3(nt("QUESTION"), nt("STAR"), nt("PLUS"))),
    );
    let suffix = gb.add_rule("Suffix", suffix_body);

    let prefix_body = gb.optional(gb.choice(rlist2(nt("AND"), nt("NOT"))));
    let prefix = gb.add_rule("Prefix", prefix_body);

    let sequence_body = gb.zero_or_more(gb.seq(rlist3(prefix, primary, suffix)));
    let sequence = gb.add_rule("Sequence", sequence_body);

    let expression_body = gb.seq(
        rlist2(
            sequence.deep_clone(),
            gb.zero_or_more(gb.seq(rlist2(nt("SLASH"), sequence))),
        ),
    );
    gb.add_rule("Expression", expression_body);
}

/// Defines `Definition` and `text`.
pub fn define_grammar_rules(gb: &mut RuleBuilder)
    ensures
        final(gb).model() == old(gb).model()
            .insert("Definition"@, boot_definition())
            .insert("text"@, boot_text()),
{
    let definition_body = gb.seq(
        rlist3(nt("Identifier"), nt("LEFTARROW"), nt("Expression")),
    );
    let definition = gb.add_rule("Definition", definition_body);

    let text_body = gb.seq(
        rlist3(nt("Spacing"), gb.zero_or_more(definition), nt("EndOfFile")),
    );
    gb.add_rule("text", text_body);
}

impl Peg {
    /// The grammar of grammars: the hand-built rule map of the PEG
    /// meta-syntax, with start symbol `text`.
    pub fn bootstrap() -> (peg: Peg)
        ensures
            peg.rules_model() == bootstrap_rules(),
            peg.start_model() == "text"@,
    {
        let mut gb = RuleBuilder::new();
        define_operators(&mut gb);
        define_character_rules(&mut gb);
        define_nonterminal_rules(&mut gb);
        define_grammar_rules(&mut gb);
        let peg = Peg { rules: gb.rules, start: "text".to_owned() };
        proof {
            assert(peg.rules_model() == bootstrap_rules());
        }
        peg
    }
}

} // verus!
