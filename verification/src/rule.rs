//! The compiled form of a grammar expression.
//!
//! A [`Rule`] is an immutable tree; grammars refer to one another only through
//! the [`Rule::NonTerminal`] variant, which is resolved by name in the owning
//! grammar's rule map. The mathematical model of a rule is [`RuleExpr`], a
//! mirror of the tree over `Seq<char>`.

use vstd::prelude::*;

verus! {

/// A parsing expression, the only compiled form of a grammar expression.
#[derive(Debug, PartialEq)]
pub enum Rule {
    /// Always matches, consumes nothing.
    Empty,
    /// Matches one character if any remains.
    Any,
    /// Matches the exact string at the current position.
    Literal(String),
    /// Dereferences into the rule map of the grammar being interpreted.
    NonTerminal(String),
    /// Matches one character `c` with `lo <= c <= hi`, where `lo` and `hi`
    /// are the first characters of the two bounds.
    Range(String, String),
    /// Matches the first member (in order) that the input starts with.
    Class(Vec<String>),
    /// Transparent wrapper, parses like its child.
    Group(Box<Rule>),
    /// Greedy repetition, zero or more times; always succeeds.
    ZeroOrMore(Box<Rule>),
    /// Greedy repetition, at least once.
    OneOrMore(Box<Rule>),
    /// Matches the child or nothing.
    Optional(Box<Rule>),
    /// Positive lookahead: succeeds iff the child matches; consumes nothing.
    And(Box<Rule>),
    /// Negative lookahead: succeeds iff the child fails; consumes nothing.
    Not(Box<Rule>),
    /// Ordered alternation; the first match wins.
    Choice(Vec<Rule>),
    /// All children must match in order.
    Sequence(Vec<Rule>),
}

/// The mathematical model of a [`Rule`]: the same tree over `Seq<char>`.
#[verifier::ext_equal]
pub enum RuleExpr {
    Empty,
    Any,
    Literal(Seq<char>),
    NonTerminal(Seq<char>),
    Range(Seq<char>, Seq<char>),
    Class(Seq<Seq<char>>),
    Group(Box<RuleExpr>),
    ZeroOrMore(Box<RuleExpr>),
    OneOrMore(Box<RuleExpr>),
    Optional(Box<RuleExpr>),
    And(Box<RuleExpr>),
    Not(Box<RuleExpr>),
    Choice(Seq<RuleExpr>),
    Sequence(Seq<RuleExpr>),
}

/// The model of one rule.
pub open spec fn rule_view(r: Rule) -> RuleExpr
    decreases r,
{
    match r {
        Rule::Empty => RuleExpr::Empty,
        Rule::Any => RuleExpr::Any,
        Rule::Literal(s) => RuleExpr::Literal(s@),
        Rule::NonTerminal(s) => RuleExpr::NonTerminal(s@),
        Rule::Range(lo, hi) => RuleExpr::Range(lo@, hi@),
        Rule::Class(ms) => RuleExpr::Class(Seq::new(ms@.len(), |i: int| ms@[i]@)),
        Rule::Group(b) => RuleExpr::Group(Box::new(rule_view(*b))),
        Rule::ZeroOrMore(b) => RuleExpr::ZeroOrMore(Box::new(rule_view(*b))),
        Rule::OneOrMore(b) => RuleExpr::OneOrMore(Box::new(rule_view(*b))),
        Rule::Optional(b) => RuleExpr::Optional(Box::new(rule_view(*b))),
        Rule::And(b) => RuleExpr::And(Box::new(rule_view(*b))),
        Rule::Not(b) => RuleExpr::Not(Box::new(rule_view(*b))),
        Rule::Choice(rs) => RuleExpr::Choice(rule_views(rs@)),
        Rule::Sequence(rs) => RuleExpr::Sequence(rule_views(rs@)),
    }
}

impl View for Rule {
    type V = RuleExpr;

    open spec fn view(&self) -> RuleExpr {
        rule_view(*self)
    }
}

/// The models of a list of rules, in order.
pub open spec fn rule_views(rs: Seq<Rule>) -> Seq<RuleExpr>
    decreases rs,
{
    if rs.len() == 0 {
        Seq::empty()
    } else {
        seq![rule_view(rs[0])] + rule_views(rs.drop_first())
    }
}

/// `rule_views` maps the list elementwise.
pub proof fn lemma_rule_views(rs: Seq<Rule>)
    ensures
        rule_views(rs).len() == rs.len(),
        forall|i: int| 0 <= i < rs.len() ==> rule_views(rs)[i] == #[trigger] rs[i]@,
    decreases rs,
{
    if rs.len() > 0 {
        lemma_rule_views(rs.drop_first());
        assert forall|i: int| 0 <= i < rs.len() implies rule_views(rs)[i] == #[trigger] rs[i]@ by {
            if i == 0 {
                assert(rule_views(rs)[0] == rule_view(rs[0]));
            } else {
                assert(rule_views(rs)[i] == rule_views(rs.drop_first())[i - 1]);
                assert(rs.drop_first()[i - 1] == rs[i]);
            }
        }
    }
}

/// Structural size of a rule model; drives termination of the semantics.
pub open spec fn rsize(r: RuleExpr) -> nat
    decreases r,
{
    match r {
        RuleExpr::Empty => 1,
        RuleExpr::Any => 1,
        RuleExpr::Literal(_) => 1,
        RuleExpr::NonTerminal(_) => 1,
        RuleExpr::Range(_, _) => 1,
        RuleExpr::Class(_) => 1,
        RuleExpr::Group(b) => rsize(*b) + 1,
        RuleExpr::ZeroOrMore(b) => rsize(*b) + 1,
        RuleExpr::OneOrMore(b) => rsize(*b) + 1,
        RuleExpr::Optional(b) => rsize(*b) + 1,
        RuleExpr::And(b) => rsize(*b) + 1,
        RuleExpr::Not(b) => rsize(*b) + 1,
        RuleExpr::Choice(s) => lsize(s) + 1,
        RuleExpr::Sequence(s) => lsize(s) + 1,
    }
}

/// Structural size of a list of rule models; always at least 1.
pub open spec fn lsize(s: Seq<RuleExpr>) -> nat
    decreases s,
{
    if s.len() == 0 {
        1
    } else {
        rsize(s[0]) + lsize(s.drop_first())
    }
}

/// `rule_views` distributes over `push`.
pub proof fn lemma_rule_views_push(s: Seq<Rule>, x: Rule)
    ensures
        rule_views(s.push(x)) == rule_views(s).push(rule_view(x)),
{
    lemma_rule_views(s.push(x));
    lemma_rule_views(s);
    assert forall|j: int| 0 <= j < s.len() + 1 implies rule_views(s.push(x))[j] == rule_views(
        s,
    ).push(rule_view(x))[j] by {
        assert(rule_views(s.push(x))[j] == s.push(x)[j]@);
        if j < s.len() {
            assert(s.push(x)[j] == s[j]);
            assert(rule_views(s)[j] == s[j]@);
        } else {
            assert(s.push(x)[j] == x);
        }
    }
    assert(rule_views(s.push(x)) =~= rule_views(s).push(rule_view(x)));
}

/// Every rule has positive size.
pub proof fn lemma_rsize_pos(r: RuleExpr)
    ensures
        rsize(r) >= 1,
{
}

/// Every list of rules has positive size, and a head smaller than the whole.
pub proof fn lemma_lsize_pos(s: Seq<RuleExpr>)
    ensures
        lsize(s) >= 1,
        s.len() > 0 ==> rsize(s[0]) < lsize(s) && lsize(s.drop_first()) < lsize(s),
    decreases s,
{
    if s.len() > 0 {
        lemma_lsize_pos(s.drop_first());
        lemma_rsize_pos(s[0]);
    }
}

impl Rule {
    /// Wraps the rule in the shared handle used by the recursive variants.
    pub fn boxed(self) -> (r: Box<Rule>)
        ensures
            *r == self,
    {
        Box::new(self)
    }

    /// Builds a `Class` of the given single-character strings, keeping the
    /// first occurrence of each distinct member.
    pub fn create_character_class(chars: &[&str]) -> (r: Rule)
        ensures
            r@ == RuleExpr::Class(
                crate::transformer::dedup_append(
                    Seq::empty(),
                    Seq::new(chars@.len(), |i: int| chars@[i]@),
                ),
            ),
    {
        let mut all: Vec<String> = Vec::new();
        let mut i: usize = 0;
        while i < chars.len()
            invariant
                i <= chars@.len(),
                all@.len() == i,
                forall|j: int| 0 <= j < i ==> all@[j]@ == #[trigger] chars@[j]@,
            decreases chars@.len() - i,
        {
            all.push(chars[i].to_owned());
            i = i + 1;
        }
        let ghost allv = all@;
        let members = crate::transformer::dedup_names(all);
        let r = Rule::Class(members);
        proof {
            assert(crate::transformer::refs_view(allv) =~= Seq::new(
                chars@.len(),
                |i: int| chars@[i]@,
            ));
            assert(Seq::new(members@.len(), |i: int| members@[i]@)
                =~= crate::transformer::refs_view(members@));
        }
        r
    }

    /// A structural copy of the rule; the copy has the same model.
    pub fn deep_clone(&self) -> (r: Rule)
        ensures
            r@ == self@,
        decreases self,
    {
        match self {
            Rule::Empty => Rule::Empty,
            Rule::Any => Rule::Any,
            Rule::Literal(s) => Rule::Literal(s.clone()),
            Rule::NonTerminal(s) => Rule::NonTerminal(s.clone()),
            Rule::Range(lo, hi) => Rule::Range(lo.clone(), hi.clone()),
            Rule::Class(ms) => {
                let mut out: Vec<String> = Vec::new();
                let mut i: usize = 0;
                while i < ms.len()
                    invariant
                        i <= ms@.len(),
                        out@.len() == i,
                        forall|j: int| 0 <= j < i ==> out@[j]@ == #[trigger] ms@[j]@,
                    decreases ms@.len() - i,
                {
                    out.push(ms[i].clone());
                    i = i + 1;
                }
                let r = Rule::Class(out);
                proof {
                    assert(Seq::new(out@.len(), |i: int| out@[i]@) =~= Seq::new(
                        ms@.len(),
                        |i: int| ms@[i]@,
                    ));
                }
                r
            },
            Rule::Group(b) => Rule::Group(Box::new(b.deep_clone())),
            Rule::ZeroOrMore(b) => Rule::ZeroOrMore(Box::new(b.deep_clone())),
            Rule::OneOrMore(b) => Rule::OneOrMore(Box::new(b.deep_clone())),
            Rule::Optional(b) => Rule::Optional(Box::new(b.deep_clone())),
            Rule::And(b) => Rule::And(Box::new(b.deep_clone())),
            Rule::Not(b) => Rule::Not(Box::new(b.deep_clone())),
            Rule::Choice(rs) => Rule::Choice(Self::deep_clone_list(rs)),
            Rule::Sequence(rs) => Rule::Sequence(Self::deep_clone_list(rs)),
        }
    }

    /// Structural copies of a list of rules, in order.
    fn deep_clone_list(rs: &Vec<Rule>) -> (out: Vec<Rule>)
        ensures
            rule_views(out@) == rule_views(rs@),
        decreases rs,
    {
        let mut out: Vec<Rule> = Vec::new();
        let mut i: usize = 0;
        while i < rs.len()
            invariant
                i <= rs@.len(),
                out@.len() == i,
                forall|j: int| 0 <= j < i ==> out@[j]@ == #[trigger] rs@[j]@,
            decreases rs@.len() - i,
        {
            let c = rs[i].deep_clone();
            out.push(c);
            i = i + 1;
        }
        proof {
            lemma_rule_views(out@);
            lemma_rule_views(rs@);
            assert forall|j: int| 0 <= j < rs@.len() implies rule_views(out@)[j] == rule_views(
                rs@,
            )[j] by {
                assert(rule_views(out@)[j] == out@[j]@);
                assert(rule_views(rs@)[j] == rs@[j]@);
            }
            assert(rule_views(out@) =~= rule_views(rs@));
        }
        out
    }
}

} // verus!
