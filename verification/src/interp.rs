//! The interpreter: a backtracking recursive-descent evaluator with packrat
//! memoization, proved to return what [`crate::semantics::eval`] converges to.
//!
//! The packrat cache is created afresh for every call of [`Rule::parse`] and
//! threaded through the evaluation; only non-terminal results are cached. Its
//! invariant is that every entry holds the one result that the semantics
//! assigns to that `(name, position)` pair, which makes a cache hit
//! indistinguishable from a recomputation.
//!
//! Recursion is bounded by a fuel amount spent only on non-terminal
//! expansions; it is large enough that running out is impossible in practice,
//! and a run that did would report a failure at the starting position.

use vstd::prelude::*;
use crate::grammar::{lookup_rule, Peg};
use crate::parsing::{
    lemma_node_views_concat, node_views, ErrorKind, ParseError, ParseNode, ParseResult, Span,
};
use crate::rule::{lemma_lsize_pos, lemma_rule_views, lsize, rsize, rule_views, Rule, RuleExpr};
use crate::semantics::{
    alts_from, eval, eval_alts, eval_from, eval_list, eval_star, evals, evals_alts, evals_list,
    evals_star, fail_at, lemma_class_first_skip, lemma_nodes_wf_concat, lemma_tiles_concat,
    list_from, nodes_wf, prefix_at, result_shape, star_from, terminal_ok, tiles,
};

verus! {

/// The semantics assigns `res` to the non-terminal `name` at `pos`, and
/// `res` has the shape every result has.
pub open spec fn entry_ok(
    rules: Map<Seq<char>, RuleExpr>,
    input: Seq<char>,
    name: Seq<char>,
    pos: int,
    res: crate::parsing::ResultExpr,
) -> bool {
    &&& evals(rules, RuleExpr::NonTerminal(name), input, pos, res)
    &&& result_shape(input, pos, res)
}

/// The packrat cache of one parse: results of non-terminal evaluations,
/// keyed by name and starting offset.
struct MemoTable {
    entries: Vec<(String, usize, ParseResult)>,
}

impl MemoTable {
    /// Every entry holds what the semantics assigns to its key.
    closed spec fn inv(&self, rules: Map<Seq<char>, RuleExpr>, input: Seq<char>) -> bool {
        forall|i: int|
            0 <= i < self.entries@.len() ==> entry_ok(
                rules,
                input,
                (#[trigger] self.entries@[i]).0@,
                self.entries@[i].1 as int,
                self.entries@[i].2@,
            )
    }

    /// An empty cache.
    fn new() -> (res: MemoTable)
        ensures
            res.entries@.len() == 0,
    {
        MemoTable { entries: Vec::new() }
    }

    /// A copy of the cached result for `(name, pos)`, if one is present.
    fn get_clone(&self, name: &String, pos: usize) -> (res: Option<ParseResult>)
        ensures
            match res {
                Option::Some(r) => exists|i: int|
                    0 <= i < self.entries@.len() && (#[trigger] self.entries@[i]).0@ == name@
                        && self.entries@[i].1 == pos && self.entries@[i].2@ == r@,
                Option::None => true,
            },
    {
        let mut i: usize = 0;
        while i < self.entries.len()
            invariant
                i <= self.entries@.len(),
            decreases self.entries@.len() - i,
        {
            let e = &self.entries[i];
            if e.0.eq(name) && e.1 == pos {
                let r = e.2.deep_clone();
                proof {
                    assert(self.entries@[i as int].0@ == name@ && self.entries@[i as int].1 == pos
                        && self.entries@[i as int].2@ == r@);
                }
                return Option::Some(r);
            }
            i = i + 1;
        }
        Option::None
    }

    /// Caches a result; the caller shows it is the one the semantics assigns.
    fn put(&mut self, name: String, pos: usize, res: ParseResult)
        ensures
            final(self).entries@ == old(self).entries@.push((name, pos, res)),
    {
        self.entries.push((name, pos, res));
    }
}

/// The characters of a string as a vector.
fn chars_of(s: &str) -> (v: Vec<char>)
    ensures
        v@ == s@,
{
    let n = s.unicode_len();
    let mut v: Vec<char> = Vec::new();
    let mut i: usize = 0;
    while i < n
        invariant
            i <= n,
            n == s@.len(),
            v@ =~= s@.subrange(0, i as int),
        decreases n - i,
    {
        v.push(s.get_char(i));
        proof {
            assert(v@ =~= s@.subrange(0, i + 1 as int));
        }
        i = i + 1;
    }
    proof {
        assert(s@.subrange(0, n as int) =~= s@);
    }
    v
}

/// Whether the input starts with `s` at offset `pos`.
fn starts_with_at(input: &Vec<char>, pos: usize, s: &str) -> (b: bool)
    requires
        pos <= input@.len(),
    ensures
        b == prefix_at(input@, pos as int, s@),
{
    let n = s.unicode_len();
    if n > input.len() - pos {
        return false;
    }
    let mut j: usize = 0;
    while j < n
        invariant
            j <= n,
            n == s@.len(),
            pos + n <= input@.len(),
            forall|k: int| 0 <= k < j ==> input@[pos + k] == s@[k],
        decreases n - j,
    {
        proof {
            assert(pos + j < input@.len());
            assert(input@.len() == input.len());
        }
        if input[pos + j] != s.get_char(j) {
            proof {
                assert(input@.subrange(pos as int, pos + n) != s@) by {
                    assert(input@.subrange(pos as int, pos + n)[j as int] == input@[pos + j]);
                }
            }
            return false;
        }
        j = j + 1;
    }
    proof {
        assert(input@.subrange(pos as int, pos + n) =~= s@);
    }
    true
}

/// A terminal result consuming `[pos, hi)`.
fn make_terminal(pos: usize, hi: usize) -> (res: ParseResult)
    requires
        pos <= hi,
    ensures
        res@ == terminal_ok(pos as int, hi as int),
        res.1 == hi,
        res.2 is Ok,
        tiles(
            seq![crate::parsing::NodeExpr::Terminal { lo: pos as int, hi: hi as int }],
            pos as int,
            hi as int,
        ),
        nodes_wf(seq![crate::parsing::NodeExpr::Terminal { lo: pos as int, hi: hi as int }]),
{
    let mut ns: Vec<ParseNode> = Vec::new();
    ns.push(ParseNode::Terminal { span: Span(pos, hi) });
    let res = ParseResult(1, hi, Result::Ok(ns));
    proof {
        crate::parsing::lemma_node_views_one(ns@);
        assert(node_views(ns@) =~= seq![
            crate::parsing::NodeExpr::Terminal { lo: pos as int, hi: hi as int },
        ]);
        crate::semantics::lemma_single_node(
            crate::parsing::NodeExpr::Terminal { lo: pos as int, hi: hi as int },
            pos as int,
            hi as int,
        );
    }
    res
}

/// A failure of `expr` at `pos` with the given kind and no deeper cause.
fn make_fail(expr: &Rule, pos: usize, kind: ErrorKind) -> (res: ParseResult)
    ensures
        res@ == fail_at(expr@, pos as int, kind@),
        res.1 == pos,
        res.2 is Err,
{
    ParseResult(
        1,
        pos,
        Result::Err(
            ParseError {
                position: pos,
                expression: expr.deep_clone(),
                error: kind,
                cause: Option::None,
            },
        ),
    )
}

/// Evaluates `rule` at offset `pos`; `None` means the fuel ran out.
#[verifier::rlimit(100)]
fn eval_rule(
    peg: &Peg,
    rule: &Rule,
    input: &Vec<char>,
    pos: usize,
    fuel: usize,
    memo: &mut MemoTable,
) -> (res: Option<ParseResult>)
    requires
        pos <= input@.len(),
        old(memo).inv(peg.rules_model(), input@),
    ensures
        final(memo).inv(peg.rules_model(), input@),
        res matches Option::Some(pr) ==> evals(peg.rules_model(), rule@, input@, pos as int, pr@)
            && result_shape(input@, pos as int, pr@),
        res is None ==> eval(peg.rules_model(), rule@, input@, pos as int, fuel as nat) is None,
    decreases fuel, rsize(rule@), 1int, 0int,
{
    let ghost rules = peg.rules_model();
    let ghost inp = input@;
    let ghost posi = pos as int;
    let ghost rv = rule@;
    match rule {
        Rule::Empty => {
            let res = ParseResult(1, pos, Result::Ok(Vec::new()));
            proof {
                assert(node_views(Seq::<ParseNode>::empty()) =~= Seq::<
                    crate::parsing::NodeExpr,
                >::empty());
                assert(eval_from(rules, rv, inp, posi, 0, res@));
            }
            Option::Some(res)
        },
        Rule::Any => {
            if pos < input.len() {
                let res = make_terminal(pos, pos + 1);
                proof {
                    assert(eval_from(rules, rv, inp, posi, 0, res@));
                }
                Option::Some(res)
            } else {
                let res = make_fail(rule, pos, ErrorKind::UnexpectedEndOfInput);
                proof {
                    assert(eval_from(rules, rv, inp, posi, 0, res@));
                }
                Option::Some(res)
            }
        },
        Rule::Literal(pattern) => {
            if starts_with_at(input, pos, pattern.as_str()) {
                let n = pattern.as_str().unicode_len();
                proof {
                    assert(input@.len() == input.len());
                }
                let res = make_terminal(pos, pos + n);
                proof {
                    assert(eval_from(rules, rv, inp, posi, 0, res@));
                }
                Option::Some(res)
            } else {
                let res = make_fail(rule, pos, ErrorKind::ExpressionDoesNotMatch);
                proof {
                    assert(eval_from(rules, rv, inp, posi, 0, res@));
                }
                Option::Some(res)
            }
        },
        Rule::Range(lo, hi) => {
            let mut matched = false;
            if pos < input.len() {
                if !lo.as_str().is_empty() && !hi.as_str().is_empty() {
                    let c = input[pos];
                    let cl = lo.as_str().get_char(0);
                    let ch = hi.as_str().get_char(0);
                    if cl as u32 <= c as u32 && c as u32 <= ch as u32 {
                        matched = true;
                    }
                }
            }
            if matched {
                let res = make_terminal(pos, pos + 1);
                proof {
                    assert(eval_from(rules, rv, inp, posi, 0, res@));
                }
                Option::Some(res)
            } else {
                let res = make_fail(rule, pos, ErrorKind::ExpressionDoesNotMatch);
                proof {
                    assert(eval_from(rules, rv, inp, posi, 0, res@));
                }
                Option::Some(res)
            }
        },
        Rule::Class(members) => {
            let ghost msv = Seq::new(members@.len(), |k: int| members@[k]@);
            let mut i: usize = 0;
            while i < members.len()
                invariant
                    i <= members@.len(),
                    inp == input@,
                    posi == pos as int,
                    rules == peg.rules_model(),
                    rv == rule@,
                    rv == RuleExpr::Class(msv),
                    pos <= inp.len(),
                    memo.inv(rules, inp),
                    msv == Seq::new(members@.len(), |k: int| members@[k]@),
                    forall|j: int| 0 <= j < i ==> !prefix_at(inp, pos as int, #[trigger] msv[j]),
                decreases members@.len() - i,
            {
                if starts_with_at(input, pos, members[i].as_str()) {
                    let n = members[i].as_str().unicode_len();
                    proof {
                        assert(input@.len() == input.len());
                        assert(prefix_at(inp, pos as int, msv[i as int]));
                    }
                    let res = make_terminal(pos, pos + n);
                    proof {
                        lemma_class_first_skip(msv, inp, posi, i as int);
                        assert(msv.skip(i as int)[0] == msv[i as int]);
                        assert(crate::semantics::class_first(msv, inp, posi) == Option::Some(
                            msv[i as int],
                        ));
                        assert(eval_from(rules, rv, inp, posi, 0, res@));
                    }
                    return Option::Some(res);
                }
                i = i + 1;
            }
            let res = make_fail(rule, pos, ErrorKind::ExpressionDoesNotMatch);
            proof {
                lemma_class_first_skip(msv, inp, posi, i as int);
                assert(msv.skip(i as int).len() == 0);
                assert(crate::semantics::class_first(msv, inp, posi) is None);
                assert(eval_from(rules, rv, inp, posi, 0, res@));
            }
            Option::Some(res)
        },
        Rule::NonTerminal(name) => {
            if let Option::Some(cached) = memo.get_clone(name, pos) {
                return Option::Some(cached);
            }
            match lookup_rule(&peg.rules, name) {
                Option::None => {
                    let res = make_fail(
                        rule,
                        pos,
                        ErrorKind::NonTerminalDoesNotExist(name.clone()),
                    );
                    proof {
                        assert(!rules.contains_key(name@));
                        assert(eval_from(rules, rv, inp, posi, 0, res@));
                    }
                    let copy = res.deep_clone();
                    memo.put(name.clone(), pos, copy);
                    Option::Some(res)
                },
                Option::Some(body) => {
                    if fuel == 0 {
                        proof {
                            assert(rules.contains_key(name@));
                            assert(eval(rules, rv, inp, posi, fuel as nat) is None);
                        }
                        return Option::None;
                    }
                    let ghost bodyv = body@;
                    proof {
                        assert(rules.contains_key(name@) && rules[name@] == bodyv);
                    }
                    match eval_rule(peg, body, input, pos, fuel - 1, memo) {
                        Option::None => {
                            proof {
                                assert(eval(rules, bodyv, inp, posi, (fuel - 1) as nat) is None);
                                assert(eval(rules, rv, inp, posi, fuel as nat) is None);
                            }
                            Option::None
                        },
                        Option::Some(pr) => {
                            let ghost prv = pr@;
                            let ghost f1 = choose|f0: nat|
                                eval_from(rules, bodyv, inp, posi, f0, prv);
                            let ParseResult(cost, p1, out1) = pr;
                            match out1 {
                                Result::Ok(children) => {
                                    let mut ns: Vec<ParseNode> = Vec::new();
                                    ns.push(
                                        ParseNode::NonTerminal {
                                            name: name.clone(),
                                            span: Span(pos, p1),
                                            children,
                                        },
                                    );
                                    let res = ParseResult(cost, p1, Result::Ok(ns));
                                    proof {
                                        crate::parsing::lemma_node_views_one(ns@);
                                        assert(node_views(ns@) =~= seq![ns@[0]@]);
                                        assert forall|f: nat| f >= f1 + 1 implies eval(
                                            rules,
                                            rv,
                                            inp,
                                            posi,
                                            f,
                                        ) == Option::Some(res@) by {
                                            assert(eval(rules, bodyv, inp, posi, (f - 1) as nat)
                                                == Option::Some(prv));
                                        }
                                        assert(eval_from(rules, rv, inp, posi, (f1 + 1) as nat, res@));
                                        crate::semantics::lemma_single_node(
                                            ns@[0]@,
                                            posi,
                                            p1 as int,
                                        );
                                        assert(tiles(node_views(ns@), posi, p1 as int));
                                        assert(entry_ok(rules, inp, name@, posi, res@));
                                    }
                                    let copy = res.deep_clone();
                                    memo.put(name.clone(), pos, copy);
                                    Option::Some(res)
                                },
                                Result::Err(inner) => {
                                    let res = ParseResult(
                                        cost,
                                        pos,
                                        Result::Err(
                                            ParseError {
                                                position: pos,
                                                expression: rule.deep_clone(),
                                                error: ErrorKind::NonTerminalDoesNotMatch,
                                                cause: Option::Some(Box::new(inner)),
                                            },
                                        ),
                                    );
                                    proof {
                                        assert forall|f: nat| f >= f1 + 1 implies eval(
                                            rules,
                                            rv,
                                            inp,
                                            posi,
                                            f,
                                        ) == Option::Some(res@) by {
                                            assert(eval(rules, bodyv, inp, posi, (f - 1) as nat)
                                                == Option::Some(prv));
                                        }
                                        assert(eval_from(rules, rv, inp, posi, (f1 + 1) as nat, res@));
                                        assert(entry_ok(rules, inp, name@, posi, res@));
                                    }
                                    let copy = res.deep_clone();
                                    memo.put(name.clone(), pos, copy);
                                    Option::Some(res)
                                },
                            }
                        },
                    }
                },
            }
        },
        Rule::Group(b) => {
            match eval_rule(peg, b, input, pos, fuel, memo) {
                Option::None => {
                    proof {
                        assert(eval(rules, b@, inp, posi, fuel as nat) is None);
                        assert(eval(rules, rv, inp, posi, fuel as nat) is None);
                    }
                    Option::None
                },
                Option::Some(pr) => {
                    proof {
                        let f1 = choose|f0: nat| eval_from(rules, b@, inp, posi, f0, pr@);
                        assert forall|f: nat| f >= f1 implies eval(rules, rv, inp, posi, f)
                            == Option::Some(pr@) by {
                            assert(eval(rules, b@, inp, posi, f) == Option::Some(pr@));
                        }
                        assert(eval_from(rules, rv, inp, posi, f1, pr@));
                    }
                    Option::Some(pr)
                },
            }
        },
        Rule::ZeroOrMore(b) => {
            match eval_rule_star(peg, b, input, pos, fuel, memo) {
                Option::None => {
                    proof {
                        assert(eval_star(rules, b@, inp, posi, fuel as nat) is None);
                        assert(eval(rules, rv, inp, posi, fuel as nat) is None);
                    }
                    Option::None
                },
                Option::Some((q, ns)) => {
                    let ghost nsv = node_views(ns@);
                    let ghost starv = (q as int, nsv);
                    let ghost f1 = choose|f0: nat| star_from(rules, b@, inp, posi, f0, starv);
                    let res = ParseResult(1, q, Result::Ok(ns));
                    proof {
                        assert forall|f: nat| f >= f1 implies eval(rules, rv, inp, posi, f)
                            == Option::Some(res@) by {
                            assert(eval_star(rules, b@, inp, posi, f) == Option::Some(
                                (q as int, nsv),
                            ));
                        }
                        assert(eval_from(rules, rv, inp, posi, f1, res@));
                    }
                    Option::Some(res)
                },
            }
        },
        Rule::OneOrMore(b) => {
            match eval_rule(peg, b, input, pos, fuel, memo) {
                Option::None => {
                    proof {
                        assert(eval(rules, b@, inp, posi, fuel as nat) is None);
                        assert(eval(rules, rv, inp, posi, fuel as nat) is None);
                    }
                    Option::None
                },
                Option::Some(pr) => {
                    let ghost prv = pr@;
                    let ghost f1 = choose|f0: nat| eval_from(rules, b@, inp, posi, f0, prv);
                    let ParseResult(_, p1, out1) = pr;
                    match out1 {
                        Result::Err(e) => {
                            let res = ParseResult(1, pos, Result::Err(e));
                            proof {
                                assert forall|f: nat| f >= f1 implies eval(rules, rv, inp, posi, f)
                                    == Option::Some(res@) by {
                                    assert(eval(rules, b@, inp, posi, f) == Option::Some(prv));
                                }
                                assert(eval_from(rules, rv, inp, posi, f1, res@));
                            }
                            Option::Some(res)
                        },
                        Result::Ok(mut ns) => {
                            match eval_rule_star(peg, b, input, p1, fuel, memo) {
                                Option::None => {
                                    proof {
                                        assert(eval_star(rules, b@, inp, p1 as int, fuel as nat)
                                            is None);
                                        match eval(rules, b@, inp, posi, fuel as nat) {
                                            Option::None => {},
                                            Option::Some(x) => {
                                                crate::laws::lemma_eval_agrees(
                                                    rules,
                                                    b@,
                                                    inp,
                                                    posi,
                                                    fuel as nat,
                                                    prv,
                                                );
                                            },
                                        }
                                        assert(eval(rules, rv, inp, posi, fuel as nat) is None);
                                    }
                                    Option::None
                                },
                                Option::Some((q, mut more)) => {
                                    let ghost a = ns@;
                                    let ghost bseq = more@;
                                    let ghost ns1 = node_views(a);
                                    let ghost ns2 = node_views(bseq);
                                    let ghost p1i = p1 as int;
                                    let ghost starv = (q as int, ns2);
                                    let ghost f2 = choose|f0: nat|
                                        star_from(rules, b@, inp, p1i, f0, starv);
                                    ns.append(&mut more);
                                    let res = ParseResult(1, q, Result::Ok(ns));
                                    proof {
                                        lemma_node_views_concat(a, bseq);
                                        assert(node_views(ns@) == ns1 + ns2);
                                        assert forall|f: nat| f >= f1 + f2 implies eval(
                                            rules,
                                            rv,
                                            inp,
                                            posi,
                                            f,
                                        ) == Option::Some(res@) by {
                                            assert(eval(rules, b@, inp, posi, f) == Option::Some(
                                                prv,
                                            ));
                                            assert(eval_star(rules, b@, inp, p1 as int, f)
                                                == Option::Some((q as int, ns2)));
                                        }
                                        assert(eval_from(rules, rv, inp, posi, (f1 + f2) as nat, res@));
                                        lemma_tiles_concat(
                                            ns1,
                                            ns2,
                                            posi,
                                            p1 as int,
                                            q as int,
                                        );
                                        lemma_nodes_wf_concat(ns1, ns2);
                                    }
                                    Option::Some(res)
                                },
                            }
                        },
                    }
                },
            }
        },
        Rule::Optional(b) => {
            match eval_rule(peg, b, input, pos, fuel, memo) {
                Option::None => {
                    proof {
                        assert(eval(rules, b@, inp, posi, fuel as nat) is None);
                        assert(eval(rules, rv, inp, posi, fuel as nat) is None);
                    }
                    Option::None
                },
                Option::Some(pr) => {
                    let ghost prv = pr@;
                    let ghost f1 = choose|f0: nat| eval_from(rules, b@, inp, posi, f0, prv);
                    let ParseResult(_, p1, out1) = pr;
                    let res = match out1 {
                        Result::Ok(ns) => ParseResult(1, p1, Result::Ok(ns)),
                        Result::Err(_) => ParseResult(1, pos, Result::Ok(Vec::new())),
                    };
                    proof {
                        assert(node_views(Seq::<ParseNode>::empty()) =~= Seq::<
                            crate::parsing::NodeExpr,
                        >::empty());
                        assert forall|f: nat| f >= f1 implies eval(rules, rv, inp, posi, f)
                            == Option::Some(res@) by {
                            assert(eval(rules, b@, inp, posi, f) == Option::Some(prv));
                        }
                        assert(eval_from(rules, rv, inp, posi, f1, res@));
                    }
                    Option::Some(res)
                },
            }
        },
        Rule::And(b) => {
            match eval_rule(peg, b, input, pos, fuel, memo) {
                Option::None => {
                    proof {
                        assert(eval(rules, b@, inp, posi, fuel as nat) is None);
                        assert(eval(rules, rv, inp, posi, fuel as nat) is None);
                    }
                    Option::None
                },
                Option::Some(pr) => {
                    let ghost prv = pr@;
                    let ghost f1 = choose|f0: nat| eval_from(rules, b@, inp, posi, f0, prv);
                    let ParseResult(_, _, out1) = pr;
                    let res = match out1 {
                        Result::Ok(_) => ParseResult(1, pos, Result::Ok(Vec::new())),
                        Result::Err(e) => ParseResult(1, pos, Result::Err(e)),
                    };
                    proof {
                        assert(node_views(Seq::<ParseNode>::empty()) =~= Seq::<
                            crate::parsing::NodeExpr,
                        >::empty());
                        assert forall|f: nat| f >= f1 implies eval(rules, rv, inp, posi, f)
                            == Option::Some(res@) by {
                            assert(eval(rules, b@, inp, posi, f) == Option::Some(prv));
                        }
                        assert(eval_from(rules, rv, inp, posi, f1, res@));
                    }
                    Option::Some(res)
                },
            }
        },
        Rule::Not(b) => {
            match eval_rule(peg, b, input, pos, fuel, memo) {
                Option::None => {
                    proof {
                        assert(eval(rules, b@, inp, posi, fuel as nat) is None);
                        assert(eval(rules, rv, inp, posi, fuel as nat) is None);
                    }
                    Option::None
                },
                Option::Some(pr) => {
                    let ghost prv = pr@;
                    let ghost f1 = choose|f0: nat| eval_from(rules, b@, inp, posi, f0, prv);
                    let ParseResult(_, _, out1) = pr;
                    let res = match out1 {
                        Result::Ok(ns) => ParseResult(
                            1,
                            pos,
                            Result::Err(
                                ParseError {
                                    position: pos,
                                    expression: rule.deep_clone(),
                                    error: ErrorKind::NotDidMatch(ns),
                                    cause: Option::None,
                                },
                            ),
                        ),
                        Result::Err(_) => ParseResult(1, pos, Result::Ok(Vec::new())),
                    };
                    proof {
                        assert(node_views(Seq::<ParseNode>::empty()) =~= Seq::<
                            crate::parsing::NodeExpr,
                        >::empty());
                        assert forall|f: nat| f >= f1 implies eval(rules, rv, inp, posi, f)
                            == Option::Some(res@) by {
                            assert(eval(rules, b@, inp, posi, f) == Option::Some(prv));
                        }
                        assert(eval_from(rules, rv, inp, posi, f1, res@));
                    }
                    Option::Some(res)
                },
            }
        },
        Rule::Choice(alts) => {
            proof {
                assert(rule_views(alts@).skip(0) =~= rule_views(alts@));
                lemma_lsize_pos(rule_views(alts@));
            }
            match eval_rule_alts(peg, rule, alts, 0, input, pos, fuel, memo) {
                Option::None => {
                    proof {
                        assert(eval_alts(
                            rules,
                            rv,
                            rule_views(alts@).skip(0),
                            inp,
                            posi,
                            fuel as nat,
                        ) is None);
                        assert(eval(rules, rv, inp, posi, fuel as nat) is None);
                    }
                    Option::None
                },
                Option::Some(pr) => {
                    proof {
                        let f1 = choose|f0: nat|
                            alts_from(rules, rv, rule_views(alts@), inp, posi, f0, pr@);
                        assert forall|f: nat| f >= f1 implies eval(rules, rv, inp, posi, f)
                            == Option::Some(pr@) by {
                            assert(eval_alts(rules, rv, rule_views(alts@), inp, posi, f)
                                == Option::Some(pr@));
                        }
                        assert(eval_from(rules, rv, inp, posi, f1, pr@));
                    }
                    Option::Some(pr)
                },
            }
        },
        Rule::Sequence(items) => {
            proof {
                assert(rule_views(items@).skip(0) =~= rule_views(items@));
                lemma_lsize_pos(rule_views(items@));
            }
            match eval_rule_list(peg, items, 0, input, pos, fuel, memo) {
                Option::None => {
                    proof {
                        assert(eval_list(
                            rules,
                            rule_views(items@).skip(0),
                            inp,
                            posi,
                            fuel as nat,
                        ) is None);
                        assert(eval(rules, rv, inp, posi, fuel as nat) is None);
                    }
                    Option::None
                },
                Option::Some(out) => {
                    let ghost outv = match out {
                        Result::Ok((p, ref ns)) => Result::<
                            (int, Seq<crate::parsing::NodeExpr>),
                            crate::parsing::ErrExpr,
                        >::Ok((p as int, node_views(ns@))),
                        Result::Err(ref e) => Result::Err(e@),
                    };
                    let ghost f1 = choose|f0: nat|
                        list_from(rules, rule_views(items@), inp, posi, f0, outv);
                    let res = match out {
                        Result::Ok((p, ns)) => ParseResult(1, p, Result::Ok(ns)),
                        Result::Err(e) => ParseResult(1, pos, Result::Err(e)),
                    };
                    proof {
                        assert forall|f: nat| f >= f1 implies eval(rules, rv, inp, posi, f)
                            == Option::Some(res@) by {
                            assert(eval_list(rules, rule_views(items@), inp, posi, f)
                                == Option::Some(outv));
                        }
                        assert(eval_from(rules, rv, inp, posi, f1, res@));
                    }
                    Option::Some(res)
                },
            }
        },
    }
}

/// Evaluates the alternatives of `whole` from index `i` on; the first
/// success wins.
#[allow(clippy::too_many_arguments)]
fn eval_rule_alts(
    peg: &Peg,
    whole: &Rule,
    alts: &Vec<Rule>,
    i: usize,
    input: &Vec<char>,
    pos: usize,
    fuel: usize,
    memo: &mut MemoTable,
) -> (res: Option<ParseResult>)
    requires
        i <= alts@.len(),
        pos <= input@.len(),
        old(memo).inv(peg.rules_model(), input@),
    ensures
        final(memo).inv(peg.rules_model(), input@),
        res matches Option::Some(pr) ==> evals_alts(
            peg.rules_model(),
            whole@,
            rule_views(alts@).skip(i as int),
            input@,
            pos as int,
            pr@,
        ) && result_shape(input@, pos as int, pr@),
        res is None ==> eval_alts(
            peg.rules_model(),
            whole@,
            rule_views(alts@).skip(i as int),
            input@,
            pos as int,
            fuel as nat,
        ) is None,
    decreases fuel, lsize(rule_views(alts@).skip(i as int)), 1int, 0int,
{
    let ghost rules = peg.rules_model();
    let ghost inp = input@;
    let ghost posi = pos as int;
    let ghost suffix = rule_views(alts@).skip(i as int);
    proof {
        lemma_rule_views(alts@);
    }
    if i == alts.len() {
        let res = make_fail(whole, pos, ErrorKind::ExpressionDoesNotMatch);
        proof {
            assert(suffix.len() == 0);
            assert forall|f: nat| f >= 0 implies eval_alts(rules, whole@, suffix, inp, posi, f)
                == Option::Some(res@) by {}
            assert(alts_from(rules, whole@, suffix, inp, posi, 0, res@));
        }
        Option::Some(res)
    } else {
        proof {
            assert(suffix[0] == alts@[i as int]@);
            lemma_lsize_pos(suffix);
        }
        match eval_rule(peg, &alts[i], input, pos, fuel, memo) {
            Option::None => {
                proof {
                    assert(eval(rules, suffix[0], inp, posi, fuel as nat) is None);
                    assert(eval_alts(rules, whole@, suffix, inp, posi, fuel as nat) is None);
                }
                Option::None
            },
            Option::Some(pr) => {
                let ghost prv = pr@;
                let ghost f1 = choose|f0: nat|
                    eval_from(rules, alts@[i as int]@, inp, posi, f0, prv);
                if pr.2.is_ok() {
                    proof {
                        assert forall|f: nat| f >= f1 implies eval_alts(
                            rules,
                            whole@,
                            suffix,
                            inp,
                            posi,
                            f,
                        ) == Option::Some(prv) by {
                            assert(eval(rules, suffix[0], inp, posi, f) == Option::Some(prv));
                        }
                        assert(alts_from(rules, whole@, suffix, inp, posi, f1, prv));
                    }
                    Option::Some(pr)
                } else {
                    proof {
                        assert(suffix.drop_first() =~= rule_views(alts@).skip(i + 1));
                    }
                    match eval_rule_alts(peg, whole, alts, i + 1, input, pos, fuel, memo) {
                        Option::None => {
                            proof {
                                assert(eval_alts(
                                    rules,
                                    whole@,
                                    rule_views(alts@).skip(i + 1),
                                    inp,
                                    posi,
                                    fuel as nat,
                                ) is None);
                                match eval(rules, suffix[0], inp, posi, fuel as nat) {
                                    Option::None => {},
                                    Option::Some(x) => {
                                        crate::laws::lemma_eval_agrees(
                                            rules,
                                            suffix[0],
                                            inp,
                                            posi,
                                            fuel as nat,
                                            prv,
                                        );
                                    },
                                }
                                assert(eval_alts(rules, whole@, suffix, inp, posi, fuel as nat)
                                    is None);
                            }
                            Option::None
                        },
                        Option::Some(out) => {
                            let ghost suf2 = rule_views(alts@).skip(i + 1);
                            let ghost outv = out@;
                            let ghost f2 = choose|f0: nat|
                                alts_from(rules, whole@, suf2, inp, posi, f0, outv);
                            proof {
                                assert forall|f: nat| f >= f1 + f2 implies eval_alts(
                                    rules,
                                    whole@,
                                    suffix,
                                    inp,
                                    posi,
                                    f,
                                ) == Option::Some(out@) by {
                                    assert(eval(rules, suffix[0], inp, posi, f) == Option::Some(
                                        prv,
                                    ));
                                    assert(eval_alts(
                                        rules,
                                        whole@,
                                        rule_views(alts@).skip(i + 1),
                                        inp,
                                        posi,
                                        f,
                                    ) == Option::Some(out@));
                                }
                                assert(alts_from(
                                    rules,
                                    whole@,
                                    suffix,
                                    inp,
                                    posi,
                                    (f1 + f2) as nat,
                                    out@,
                                ));
                            }
                            Option::Some(out)
                        },
                    }
                }
            },
        }
    }
}

/// Evaluates the items of a sequence from index `i` on, starting at `pos`,
/// concatenating the nodes of the successful items.
fn eval_rule_list(
    peg: &Peg,
    items: &Vec<Rule>,
    i: usize,
    input: &Vec<char>,
    pos: usize,
    fuel: usize,
    memo: &mut MemoTable,
) -> (res: Option<Result<(usize, Vec<ParseNode>), ParseError>>)
    requires
        i <= items@.len(),
        pos <= input@.len(),
        old(memo).inv(peg.rules_model(), input@),
    ensures
        final(memo).inv(peg.rules_model(), input@),
        res matches Option::Some(out) ==> {
            let outv = match out {
                Result::Ok((p, ns)) => Result::<
                    (int, Seq<crate::parsing::NodeExpr>),
                    crate::parsing::ErrExpr,
                >::Ok((p as int, node_views(ns@))),
                Result::Err(e) => Result::Err(e@),
            };
            &&& evals_list(
                peg.rules_model(),
                rule_views(items@).skip(i as int),
                input@,
                pos as int,
                outv,
            )
            &&& (out matches Result::Ok((p, ns)) ==> pos <= p <= input@.len() && tiles(
                node_views(ns@),
                pos as int,
                p as int,
            ) && nodes_wf(node_views(ns@)))
        },
        res is None ==> eval_list(
            peg.rules_model(),
            rule_views(items@).skip(i as int),
            input@,
            pos as int,
            fuel as nat,
        ) is None,
    decreases fuel, lsize(rule_views(items@).skip(i as int)), 1int, 0int,
{
    let ghost rules = peg.rules_model();
    let ghost inp = input@;
    let ghost posi = pos as int;
    let ghost suffix = rule_views(items@).skip(i as int);
    proof {
        lemma_rule_views(items@);
    }
    if i == items.len() {
        let out: Result<(usize, Vec<ParseNode>), ParseError> = Result::Ok((pos, Vec::new()));
        proof {
            assert(suffix.len() == 0);
            assert(node_views(Seq::<ParseNode>::empty()) =~= Seq::<
                crate::parsing::NodeExpr,
            >::empty());
            assert forall|f: nat| f >= 0 implies eval_list(rules, suffix, inp, posi, f)
                == Option::Some(
                Result::<(int, Seq<crate::parsing::NodeExpr>), crate::parsing::ErrExpr>::Ok(
                    (posi, Seq::empty()),
                ),
            ) by {}
            assert(list_from(
                rules,
                suffix,
                inp,
                posi,
                0,
                Result::Ok((posi, Seq::<crate::parsing::NodeExpr>::empty())),
            ));
        }
        Option::Some(out)
    } else {
        proof {
            assert(suffix[0] == items@[i as int]@);
            lemma_lsize_pos(suffix);
        }
        match eval_rule(peg, &items[i], input, pos, fuel, memo) {
            Option::None => {
                proof {
                    assert(eval(rules, suffix[0], inp, posi, fuel as nat) is None);
                    assert(eval_list(rules, suffix, inp, posi, fuel as nat) is None);
                }
                Option::None
            },
            Option::Some(pr) => {
                let ghost prv = pr@;
                let ghost f1 = choose|f0: nat|
                    eval_from(rules, items@[i as int]@, inp, posi, f0, prv);
                let ParseResult(_, p1, out1) = pr;
                match out1 {
                    Result::Err(e) => {
                        let ghost ev = e@;
                        proof {
                            assert forall|f: nat| f >= f1 implies eval_list(
                                rules,
                                suffix,
                                inp,
                                posi,
                                f,
                            ) == Option::Some(
                                Result::<
                                    (int, Seq<crate::parsing::NodeExpr>),
                                    crate::parsing::ErrExpr,
                                >::Err(ev),
                            ) by {
                                assert(eval(rules, suffix[0], inp, posi, f) == Option::Some(prv));
                            }
                            assert(list_from(rules, suffix, inp, posi, f1, Result::Err(ev)));
                        }
                        Option::Some(Result::Err(e))
                    },
                    Result::Ok(mut ns) => {
                        proof {
                            assert(suffix.drop_first() =~= rule_views(items@).skip(i + 1));
                        }
                        match eval_rule_list(peg, items, i + 1, input, p1, fuel, memo) {
                            Option::None => {
                                proof {
                                    assert(eval_list(
                                        rules,
                                        rule_views(items@).skip(i + 1),
                                        inp,
                                        p1 as int,
                                        fuel as nat,
                                    ) is None);
                                    match eval(rules, suffix[0], inp, posi, fuel as nat) {
                                        Option::None => {},
                                        Option::Some(x) => {
                                            crate::laws::lemma_eval_agrees(
                                                rules,
                                                suffix[0],
                                                inp,
                                                posi,
                                                fuel as nat,
                                                prv,
                                            );
                                        },
                                    }
                                    assert(eval_list(rules, suffix, inp, posi, fuel as nat)
                                        is None);
                                }
                                Option::None
                            },
                            Option::Some(rest) => {
                                let ghost ns1 = node_views(ns@);
                                match rest {
                                    Result::Err(e) => {
                                        let ghost ev = Result::<
                                            (int, Seq<crate::parsing::NodeExpr>),
                                            crate::parsing::ErrExpr,
                                        >::Err(e@);
                                        let ghost suf2 = rule_views(items@).skip(i + 1);
                                        let ghost p1i = p1 as int;
                                        let ghost f2 = choose|f0: nat|
                                            list_from(rules, suf2, inp, p1i, f0, ev);
                                        proof {
                                            assert forall|f: nat| f >= f1 + f2 implies eval_list(
                                                rules,
                                                suffix,
                                                inp,
                                                posi,
                                                f,
                                            ) == Option::Some(ev) by {
                                                assert(eval(rules, suffix[0], inp, posi, f)
                                                    == Option::Some(prv));
                                                assert(eval_list(rules, suf2, inp, p1i, f)
                                                    == Option::Some(ev));
                                            }
                                            assert(list_from(
                                                rules,
                                                suffix,
                                                inp,
                                                posi,
                                                (f1 + f2) as nat,
                                                ev,
                                            ));
                                        }
                                        Option::Some(Result::Err(e))
                                    },
                                    Result::Ok((p2, mut ns2)) => {
                                        let ghost a = ns@;
                                        let ghost bseq = ns2@;
                                        let ghost nsv2 = node_views(bseq);
                                        let ghost okv = Result::<
                                            (int, Seq<crate::parsing::NodeExpr>),
                                            crate::parsing::ErrExpr,
                                        >::Ok((p2 as int, nsv2));
                                        let ghost suf2 = rule_views(items@).skip(i + 1);
                                        let ghost p1i = p1 as int;
                                        let ghost f2 = choose|f0: nat|
                                            list_from(rules, suf2, inp, p1i, f0, okv);
                                        ns.append(&mut ns2);
                                        proof {
                                            lemma_node_views_concat(a, bseq);
                                            assert(node_views(ns@) == ns1 + nsv2);
                                            assert forall|f: nat| f >= f1 + f2 implies eval_list(
                                                rules,
                                                suffix,
                                                inp,
                                                posi,
                                                f,
                                            ) == Option::Some(
                                                Result::<
                                                    (int, Seq<crate::parsing::NodeExpr>),
                                                    crate::parsing::ErrExpr,
                                                >::Ok((p2 as int, ns1 + nsv2)),
                                            ) by {
                                                assert(eval(rules, suffix[0], inp, posi, f)
                                                    == Option::Some(prv));
                                                assert(eval_list(
                                                    rules,
                                                    rule_views(items@).skip(i + 1),
                                                    inp,
                                                    p1 as int,
                                                    f,
                                                ) == Option::Some(
                                                    Result::<
                                                        (int, Seq<crate::parsing::NodeExpr>),
                                                        crate::parsing::ErrExpr,
                                                    >::Ok((p2 as int, nsv2)),
                                                ));
                                            }
                                            assert(list_from(
                                                rules,
                                                suffix,
                                                inp,
                                                posi,
                                                (f1 + f2) as nat,
                                                Result::Ok((p2 as int, ns1 + nsv2)),
                                            ));
                                            lemma_tiles_concat(
                                                ns1,
                                                nsv2,
                                                posi,
                                                p1 as int,
                                                p2 as int,
                                            );
                                            lemma_nodes_wf_concat(ns1, nsv2);
                                        }
                                        Option::Some(Result::Ok((p2, ns)))
                                    },
                                }
                            },
                        }
                    },
                }
            },
        }
    }
}

/// Greedily repeats `child` from `pos`; stops at the first failure or the
/// first round that consumed nothing. Never fails.
fn eval_rule_star(
    peg: &Peg,
    child: &Rule,
    input: &Vec<char>,
    pos: usize,
    fuel: usize,
    memo: &mut MemoTable,
) -> (res: Option<(usize, Vec<ParseNode>)>)
    requires
        pos <= input@.len(),
        old(memo).inv(peg.rules_model(), input@),
    ensures
        final(memo).inv(peg.rules_model(), input@),
        res matches Option::Some((q, ns)) ==> evals_star(
            peg.rules_model(),
            child@,
            input@,
            pos as int,
            (q as int, node_views(ns@)),
        ) && pos <= q <= input@.len() && tiles(node_views(ns@), pos as int, q as int) && nodes_wf(
            node_views(ns@),
        ),
        res is None ==> eval_star(peg.rules_model(), child@, input@, pos as int, fuel as nat)
            is None,
    decreases fuel, rsize(child@) + 1, 0int, input@.len() - pos,
{
    let ghost rules = peg.rules_model();
    let ghost inp = input@;
    let ghost posi = pos as int;
    match eval_rule(peg, child, input, pos, fuel, memo) {
        Option::None => {
            proof {
                assert(eval(rules, child@, inp, posi, fuel as nat) is None);
                assert(eval_star(rules, child@, inp, posi, fuel as nat) is None);
            }
            Option::None
        },
        Option::Some(pr) => {
            let ghost prv = pr@;
            let ghost f1 = choose|f0: nat| eval_from(rules, child@, inp, posi, f0, prv);
            let ParseResult(_, p1, out1) = pr;
            match out1 {
                Result::Err(_) => {
                    let out: (usize, Vec<ParseNode>) = (pos, Vec::new());
                    proof {
                        assert(node_views(Seq::<ParseNode>::empty()) =~= Seq::<
                            crate::parsing::NodeExpr,
                        >::empty());
                        assert forall|f: nat| f >= f1 implies eval_star(rules, child@, inp, posi, f)
                            == Option::Some((posi, Seq::<crate::parsing::NodeExpr>::empty())) by {
                            assert(eval(rules, child@, inp, posi, f) == Option::Some(prv));
                        }
                        assert(star_from(
                            rules,
                            child@,
                            inp,
                            posi,
                            f1,
                            (posi, Seq::<crate::parsing::NodeExpr>::empty()),
                        ));
                    }
                    Option::Some(out)
                },
                Result::Ok(mut ns) => {
                    if p1 > pos {
                        match eval_rule_star(peg, child, input, p1, fuel, memo) {
                            Option::None => {
                                proof {
                                    assert(eval_star(rules, child@, inp, p1 as int, fuel as nat)
                                        is None);
                                    match eval(rules, child@, inp, posi, fuel as nat) {
                                        Option::None => {},
                                        Option::Some(x) => {
                                            crate::laws::lemma_eval_agrees(
                                                rules,
                                                child@,
                                                inp,
                                                posi,
                                                fuel as nat,
                                                prv,
                                            );
                                        },
                                    }
                                    assert(eval_star(rules, child@, inp, posi, fuel as nat)
                                        is None);
                                }
                                Option::None
                            },
                            Option::Some((q, mut more)) => {
                                let ghost a = ns@;
                                let ghost bseq = more@;
                                let ghost ns1 = node_views(a);
                                let ghost ns2 = node_views(bseq);
                                let ghost p1i = p1 as int;
                                let ghost starv = (q as int, ns2);
                                let ghost f2 = choose|f0: nat|
                                    star_from(rules, child@, inp, p1i, f0, starv);
                                ns.append(&mut more);
                                proof {
                                    lemma_node_views_concat(a, bseq);
                                    assert(node_views(ns@) == ns1 + ns2);
                                    assert forall|f: nat| f >= f1 + f2 implies eval_star(
                                        rules,
                                        child@,
                                        inp,
                                        posi,
                                        f,
                                    ) == Option::Some((q as int, ns1 + ns2)) by {
                                        assert(eval(rules, child@, inp, posi, f) == Option::Some(
                                            prv,
                                        ));
                                        assert(eval_star(rules, child@, inp, p1 as int, f)
                                            == Option::Some((q as int, ns2)));
                                    }
                                    assert(star_from(
                                        rules,
                                        child@,
                                        inp,
                                        posi,
                                        (f1 + f2) as nat,
                                        (q as int, ns1 + ns2),
                                    ));
                                    lemma_tiles_concat(ns1, ns2, posi, p1 as int, q as int);
                                    lemma_nodes_wf_concat(ns1, ns2);
                                }
                                Option::Some((q, ns))
                            },
                        }
                    } else {
                        let out: (usize, Vec<ParseNode>) = (pos, Vec::new());
                        proof {
                            assert(node_views(Seq::<ParseNode>::empty()) =~= Seq::<
                                crate::parsing::NodeExpr,
                            >::empty());
                            assert forall|f: nat| f >= f1 implies eval_star(
                                rules,
                                child@,
                                inp,
                                posi,
                                f,
                            ) == Option::Some((posi, Seq::<crate::parsing::NodeExpr>::empty())) by {
                                assert(eval(rules, child@, inp, posi, f) == Option::Some(prv));
                            }
                            assert(star_from(
                                rules,
                                child@,
                                inp,
                                posi,
                                f1,
                                (posi, Seq::<crate::parsing::NodeExpr>::empty()),
                            ));
                        }
                        Option::Some(out)
                    }
                },
            }
        },
    }
}

impl Rule {
    /// Evaluates this rule at offset `position` of `input` against the rule
    /// map of `peg`, with a fresh packrat cache.
    ///
    /// Returns the one result the semantics assigns; only when the semantics
    /// diverges here at every fuel amount the interpreter can spend — that
    /// is, when the grammar is left-recursive from this point — the result
    /// is instead the failure [`fail_at`] describes.
    pub fn parse(&self, peg: &Peg, input: &str, position: usize) -> (res: ParseResult)
        requires
            position <= input@.len(),
        ensures
            evals(peg.rules_model(), self@, input@, position as int, res@) && result_shape(
                input@,
                position as int,
                res@,
            ) || (res@ == fail_at(
                self@,
                position as int,
                crate::parsing::KindExpr::ExpressionDoesNotMatch,
            ) && forall|f: nat|
                f <= usize::MAX as nat ==> eval(
                    peg.rules_model(),
                    self@,
                    input@,
                    position as int,
                    f,
                ) is None),
    {
        let chars = chars_of(input);
        let mut memo = MemoTable::new();
        match eval_rule(peg, self, &chars, position, usize::MAX, &mut memo) {
            Option::Some(r) => r,
            Option::None => {
                proof {
                    let rules = peg.rules_model();
                    assert(eval(rules, self@, input@, position as int, usize::MAX as nat)
                        is None);
                    assert forall|f: nat| f <= usize::MAX as nat implies eval(
                        rules,
                        self@,
                        input@,
                        position as int,
                        f,
                    ) is None by {
                        if eval(rules, self@, input@, position as int, f) is Some {
                            crate::laws::lemma_eval_mono(
                                rules,
                                self@,
                                input@,
                                position as int,
                                f,
                                usize::MAX as nat,
                            );
                        }
                    }
                }
                make_fail(self, position, ErrorKind::ExpressionDoesNotMatch)
            },
        }
    }
}

} // verus!

