//! A compiled grammar: a rule map keyed by non-terminal name plus a start
//! symbol, and the errors that compiling a grammar can produce.

use vstd::prelude::*;
use crate::parsing::{ParseError, ParseResult};
use crate::rule::{Rule, RuleExpr};
use crate::transformer::TransformError;

verus! {

/// A compiled grammar. The rule list is an association list with the first
/// binding of a name shadowing any later one; its model is the map
/// [`Peg::rules_model`]. Parsing never mutates a grammar: the packrat cache
/// lives only for the duration of one parse call.
#[derive(Debug, PartialEq)]
pub struct Peg {
    pub rules: Vec<(String, Rule)>,
    pub start: String,
}

/// The models of the bindings, in order.
pub open spec fn pairs_view(rs: Seq<(String, Rule)>) -> Seq<(Seq<char>, RuleExpr)> {
    Seq::new(rs.len(), |i: int| (rs[i].0@, rs[i].1@))
}

/// First-match lookup in an association list.
pub open spec fn assoc(rs: Seq<(Seq<char>, RuleExpr)>, n: Seq<char>) -> Option<RuleExpr>
    decreases rs,
{
    if rs.len() == 0 {
        Option::None
    } else if rs[0].0 == n {
        Option::Some(rs[0].1)
    } else {
        assoc(rs.drop_first(), n)
    }
}

/// The map an association list stands for.
pub open spec fn rule_map(rs: Seq<(Seq<char>, RuleExpr)>) -> Map<Seq<char>, RuleExpr> {
    Map::new(|n: Seq<char>| assoc(rs, n) is Some, |n: Seq<char>| assoc(rs, n).unwrap())
}

/// Skipping bindings that do not match leaves the lookup unchanged.
pub proof fn lemma_assoc_skip(rs: Seq<(Seq<char>, RuleExpr)>, n: Seq<char>, i: int)
    requires
        0 <= i <= rs.len(),
        forall|j: int| 0 <= j < i ==> #[trigger] rs[j].0 != n,
    ensures
        assoc(rs, n) == assoc(rs.skip(i), n),
    decreases i,
{
    if i > 0 {
        lemma_assoc_skip(rs.drop_first(), n, i - 1);
        assert(rs.drop_first().skip(i - 1) =~= rs.skip(i));
    } else {
        assert(rs.skip(0) =~= rs);
    }
}

/// Binding a name at the front of an association list is insertion into its
/// map.
pub proof fn lemma_prepend_insert(rs: Seq<(Seq<char>, RuleExpr)>, name: Seq<char>, r: RuleExpr)
    ensures
        rule_map(seq![(name, r)] + rs) == rule_map(rs).insert(name, r),
{
    let ext = seq![(name, r)] + rs;
    assert forall|n: Seq<char>|
        assoc(ext, n) == (if n == name {
            Option::Some(r)
        } else {
            assoc(rs, n)
        }) by {
        assert(ext[0] == (name, r));
        assert(ext.drop_first() =~= rs);
    }
    assert(rule_map(ext) =~= rule_map(rs).insert(name, r));
}

/// The map of a reversed association list takes the last binding of each
/// name, as inserting the bindings in order does.
pub proof fn lemma_map_of_reverse(defs: Seq<(Seq<char>, RuleExpr)>)
    ensures
        rule_map(defs.reverse()) == crate::transformer::map_of_defs(defs),
    decreases defs.len(),
{
    if defs.len() == 0 {
        assert(defs.reverse() =~= defs);
        assert forall|n: Seq<char>| assoc(defs, n) == Option::<RuleExpr>::None by {}
        assert(rule_map(defs.reverse()) =~= Map::<Seq<char>, RuleExpr>::empty());
    } else {
        let d = defs.last();
        lemma_map_of_reverse(defs.drop_last());
        assert(defs.reverse() =~= seq![d] + defs.drop_last().reverse());
        lemma_prepend_insert(defs.drop_last().reverse(), d.0, d.1);
    }
}

impl Peg {
    /// The rule map this grammar stands for.
    pub open spec fn rules_model(&self) -> Map<Seq<char>, RuleExpr> {
        rule_map(pairs_view(self.rules@))
    }

    /// The model of the start symbol.
    pub open spec fn start_model(&self) -> Seq<char> {
        self.start@
    }
}

/// Looks a name up in the rule list, first binding wins.
pub(crate) fn lookup_rule<'a>(rules: &'a Vec<(String, Rule)>, name: &String) -> (res: Option<
    &'a Rule,
>)
    ensures
        match res {
            Option::Some(r) => assoc(pairs_view(rules@), name@) == Option::Some(r@),
            Option::None => assoc(pairs_view(rules@), name@) is None,
        },
{
    let ghost rsv = pairs_view(rules@);
    let mut i: usize = 0;
    while i < rules.len()
        invariant
            i <= rules@.len(),
            rsv == pairs_view(rules@),
            forall|j: int| 0 <= j < i ==> #[trigger] rsv[j].0 != name@,
        decreases rules@.len() - i,
    {
        let pair = &rules[i];
        if pair.0.eq(name) {
            proof {
                lemma_assoc_skip(rsv, name@, i as int);
                assert(rsv.skip(i as int)[0] == rsv[i as int]);
            }
            return Option::Some(&pair.1);
        }
        i = i + 1;
    }
    proof {
        lemma_assoc_skip(rsv, name@, i as int);
    }
    Option::None
}

impl Peg {
    /// Compiles `grammar` into a grammar with start symbol `start`: the
    /// text is parsed by the bootstrap meta-grammar and its syntax tree is
    /// lowered into a rule map.
    ///
    /// On success the rule map is exactly what the transformer's mirror
    /// assigns to the parsed tree; a text the meta-grammar rejects gives the
    /// parse error, and a tree that does not lower gives the transform
    /// error. The meta-grammar is not left-recursive, so its evaluation
    /// converges on every text; the last arm below, for a meta-parse whose
    /// recursion bound ran out, therefore demands divergence at every fuel
    /// amount and can never actually be taken.
    pub fn new(start: &str, grammar: &str) -> (res: Result<Peg, GrammarError>)
        ensures
            match res {
                Result::Ok(peg) => exists|pr: crate::parsing::ResultExpr|
                    {
                        &&& #[trigger] crate::semantics::evals(
                            crate::bootstrap::bootstrap_rules(),
                            RuleExpr::NonTerminal("text"@),
                            grammar@,
                            0,
                            pr,
                        )
                        &&& pr.outcome matches Result::Ok(cst)
                        &&& crate::transformer::lowered(pr.outcome->Ok_0, grammar@) matches
                            Result::Ok(defs)
                        &&& peg.rules_model() == crate::transformer::map_of_defs(defs)
                        &&& peg.start@ == start@
                    },
                Result::Err(ge) => (exists|pr: crate::parsing::ResultExpr|
                    {
                        &&& #[trigger] crate::semantics::evals(
                            crate::bootstrap::bootstrap_rules(),
                            RuleExpr::NonTerminal("text"@),
                            grammar@,
                            0,
                            pr,
                        )
                        &&& match ge@ {
                            GrammarErrExpr::Parse(e) => pr.outcome == Result::<
                                Seq<crate::parsing::NodeExpr>,
                                crate::parsing::ErrExpr,
                            >::Err(e),
                            GrammarErrExpr::Transform(te) => pr.outcome is Ok
                                && crate::transformer::lowered(pr.outcome->Ok_0, grammar@)
                                == Result::<
                                Seq<(Seq<char>, RuleExpr)>,
                                crate::transformer::TransErrExpr,
                            >::Err(te),
                        }
                    }) || (ge@ == GrammarErrExpr::Parse(
                    crate::semantics::fail_at(
                        RuleExpr::NonTerminal("text"@),
                        0,
                        crate::parsing::KindExpr::ExpressionDoesNotMatch,
                    ).outcome->Err_0,
                ) && forall|f: nat|
                    f <= usize::MAX as nat ==> crate::semantics::eval(
                        crate::bootstrap::bootstrap_rules(),
                        RuleExpr::NonTerminal("text"@),
                        grammar@,
                        0,
                        f,
                    ) is None),
            },
    {
        let parser = Peg::bootstrap();
        let result = parser.parse(grammar);
        let ghost rv = result@;
        let ParseResult(_, _, outcome) = result;
        match outcome {
            Result::Ok(tokens) => {
                let transformer = crate::transformer::Transformer { source: grammar };
                match transformer.build(start, tokens) {
                    Result::Ok(peg) => Result::Ok(peg),
                    Result::Err(e) => Result::Err(GrammarError::Transform(e)),
                }
            },
            Result::Err(e) => Result::Err(GrammarError::Parse(e)),
        }
    }

    /// Parses `input` from its start: evaluates the start non-terminal of
    /// this grammar at offset 0. The result is the one the semantics
    /// assigns; on success its nodes exactly tile the consumed prefix of
    /// the input and every node is well-formed. A start symbol the rule map
    /// does not bind fails with `NonTerminalDoesNotExist`. Only when the
    /// semantics diverges at every fuel amount the interpreter can spend —
    /// that is, when the grammar is left-recursive from the start symbol on
    /// this input — the result is instead the failure
    /// [`crate::semantics::fail_at`] describes.
    pub fn parse(&self, input: &str) -> (res: ParseResult)
        ensures
            crate::semantics::evals(
                self.rules_model(),
                RuleExpr::NonTerminal(self.start@),
                input@,
                0,
                res@,
            ) && crate::semantics::result_shape(input@, 0, res@) || (res@
                == crate::semantics::fail_at(
                RuleExpr::NonTerminal(self.start@),
                0,
                crate::parsing::KindExpr::ExpressionDoesNotMatch,
            ) && forall|f: nat|
                f <= usize::MAX as nat ==> crate::semantics::eval(
                    self.rules_model(),
                    RuleExpr::NonTerminal(self.start@),
                    input@,
                    0,
                    f,
                ) is None),
    {
        let rule = Rule::NonTerminal(self.start.clone());
        rule.parse(self, input, 0)
    }
}

/// Why a grammar failed to compile: its text did not parse as a grammar, or
/// its syntax tree did not lower to a valid rule map.
#[derive(Debug, PartialEq)]
pub enum GrammarError {
    Parse(ParseError),
    Transform(TransformError),
}

/// Model of a [`GrammarError`].
#[verifier::ext_equal]
pub enum GrammarErrExpr {
    Parse(crate::parsing::ErrExpr),
    Transform(crate::transformer::TransErrExpr),
}

impl View for GrammarError {
    type V = GrammarErrExpr;

    open spec fn view(&self) -> GrammarErrExpr {
        match self {
            GrammarError::Parse(e) => GrammarErrExpr::Parse(e@),
            GrammarError::Transform(e) => GrammarErrExpr::Transform(e@),
        }
    }
}

} // verus!
