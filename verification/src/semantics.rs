//! The meaning of a rule: a fuel-indexed evaluation function.
//!
//! [`eval`] gives the outcome of evaluating a rule model at a character
//! offset of an input, against a map from non-terminal names to rule models.
//! Fuel is spent only when a non-terminal reference is expanded; `None` means
//! the fuel ran out, which on a given input happens for every fuel amount
//! exactly when the grammar is left-recursive from that point. [`evals`]
//! abstracts the fuel away: it holds of the one result that every
//! sufficiently large fuel amount agrees on.
//!
//! Greedy repetition stops as soon as one round of its child succeeds without
//! consuming anything, since every further round would do the same forever.

use vstd::prelude::*;
use crate::parsing::{ErrExpr, KindExpr, NodeExpr, ResultExpr};
use crate::rule::{lsize, rsize, RuleExpr};

verus! {

/// The input starts with `s` at offset `pos`.
pub open spec fn prefix_at(input: Seq<char>, pos: int, s: Seq<char>) -> bool {
    &&& 0 <= pos
    &&& pos + s.len() <= input.len()
    &&& input.subrange(pos, pos + s.len()) == s
}

/// The first member of `ms` that the input starts with at `pos`, if any.
pub open spec fn class_first(ms: Seq<Seq<char>>, input: Seq<char>, pos: int) -> Option<Seq<char>>
    decreases ms,
{
    if ms.len() == 0 {
        Option::None
    } else if prefix_at(input, pos, ms[0]) {
        Option::Some(ms[0])
    } else {
        class_first(ms.drop_first(), input, pos)
    }
}

/// Skipping members that do not match leaves the class lookup unchanged.
pub proof fn lemma_class_first_skip(ms: Seq<Seq<char>>, input: Seq<char>, pos: int, i: int)
    requires
        0 <= i <= ms.len(),
        forall|j: int| 0 <= j < i ==> !prefix_at(input, pos, #[trigger] ms[j]),
    ensures
        class_first(ms, input, pos) == class_first(ms.skip(i), input, pos),
    decreases i,
{
    if i > 0 {
        lemma_class_first_skip(ms.drop_first(), input, pos, i - 1);
        assert(ms.drop_first().skip(i - 1) =~= ms.skip(i));
    } else {
        assert(ms.skip(0) =~= ms);
    }
}

/// A failure of `r` at `pos` with the given kind and no deeper cause.
pub open spec fn fail_at(r: RuleExpr, pos: int, kind: KindExpr) -> ResultExpr {
    ResultExpr {
        cost: 1,
        pos: pos,
        outcome: Result::Err(ErrExpr { position: pos, expression: r, kind: kind, cause: Option::None }),
    }
}

/// A success consuming `[pos, hi)` as a single terminal node.
pub open spec fn terminal_ok(pos: int, hi: int) -> ResultExpr {
    ResultExpr {
        cost: 1,
        pos: hi,
        outcome: Result::Ok(seq![NodeExpr::Terminal { lo: pos, hi: hi }]),
    }
}

/// Evaluates rule `r` at offset `pos` of `input`; `None` means the fuel ran out.
pub open spec fn eval(
    rules: Map<Seq<char>, RuleExpr>,
    r: RuleExpr,
    input: Seq<char>,
    pos: int,
    fuel: nat,
) -> Option<ResultExpr>
    decreases fuel, rsize(r), 1int, 0int,
{
    match r {
        RuleExpr::Empty => Option::Some(
            ResultExpr { cost: 1, pos: pos, outcome: Result::Ok(Seq::empty()) },
        ),
        RuleExpr::Any => if 0 <= pos < input.len() {
            Option::Some(terminal_ok(pos, pos + 1))
        } else {
            Option::Some(fail_at(r, pos, KindExpr::UnexpectedEndOfInput))
        },
        RuleExpr::Literal(s) => if prefix_at(input, pos, s) {
            Option::Some(terminal_ok(pos, pos + s.len()))
        } else {
            Option::Some(fail_at(r, pos, KindExpr::ExpressionDoesNotMatch))
        },
        RuleExpr::Range(lo, hi) => if 0 <= pos < input.len() && lo.len() > 0 && hi.len() > 0
            && lo[0] as u32 <= input[pos] as u32 && input[pos] as u32 <= hi[0] as u32 {
            Option::Some(terminal_ok(pos, pos + 1))
        } else {
            Option::Some(fail_at(r, pos, KindExpr::ExpressionDoesNotMatch))
        },
        RuleExpr::Class(ms) => match class_first(ms, input, pos) {
            Option::Some(m) => Option::Some(terminal_ok(pos, pos + m.len())),
            Option::None => Option::Some(fail_at(r, pos, KindExpr::ExpressionDoesNotMatch)),
        },
        RuleExpr::NonTerminal(n) => if !rules.contains_key(n) {
            Option::Some(fail_at(r, pos, KindExpr::NonTerminalDoesNotExist(n)))
        } else if fuel == 0 {
            Option::None
        } else {
            match eval(rules, rules[n], input, pos, (fuel - 1) as nat) {
                Option::None => Option::None,
                Option::Some(rr) => match rr.outcome {
                    Result::Ok(ns) => Option::Some(
                        ResultExpr {
                            cost: rr.cost,
                            pos: rr.pos,
                            outcome: Result::Ok(
                                seq![
                                    NodeExpr::NonTerminal {
                                        name: n,
                                        lo: pos,
                                        hi: rr.pos,
                                        children: ns,
                                    }
                                ],
                            ),
                        },
                    ),
                    Result::Err(inner) => Option::Some(
                        ResultExpr {
                            cost: rr.cost,
                            pos: pos,
                            outcome: Result::Err(
                                ErrExpr {
                                    position: pos,
                                    expression: r,
                                    kind: KindExpr::NonTerminalDoesNotMatch,
                                    cause: Option::Some(Box::new(inner)),
                                },
                            ),
                        },
                    ),
                },
            }
        },
        RuleExpr::Group(b) => eval(rules, *b, input, pos, fuel),
        RuleExpr::Choice(cs) => eval_alts(rules, r, cs, input, pos, fuel),
        RuleExpr::Sequence(ss) => match eval_list(rules, ss, input, pos, fuel) {
            Option::None => Option::None,
            Option::Some(Result::Ok((p, ns))) => Option::Some(
                ResultExpr { cost: 1, pos: p, outcome: Result::Ok(ns) },
            ),
            Option::Some(Result::Err(e)) => Option::Some(
                ResultExpr { cost: 1, pos: pos, outcome: Result::Err(e) },
            ),
        },
        RuleExpr::ZeroOrMore(b) => match eval_star(rules, *b, input, pos, fuel) {
            Option::None => Option::None,
            Option::Some((p, ns)) => Option::Some(
                ResultExpr { cost: 1, pos: p, outcome: Result::Ok(ns) },
            ),
        },
        RuleExpr::OneOrMore(b) => match eval(rules, *b, input, pos, fuel) {
            Option::None => Option::None,
            Option::Some(rr) => match rr.outcome {
                Result::Err(e) => Option::Some(
                    ResultExpr { cost: 1, pos: pos, outcome: Result::Err(e) },
                ),
                Result::Ok(ns) => if pos <= rr.pos <= input.len() {
                    match eval_star(rules, *b, input, rr.pos, fuel) {
                        Option::None => Option::None,
                        Option::Some((q, more)) => Option::Some(
                            ResultExpr { cost: 1, pos: q, outcome: Result::Ok(ns + more) },
                        ),
                    }
                } else {
                    Option::Some(ResultExpr { cost: 1, pos: rr.pos, outcome: Result::Ok(ns) })
                },
            },
        },
        RuleExpr::Optional(b) => match eval(rules, *b, input, pos, fuel) {
            Option::None => Option::None,
            Option::Some(rr) => match rr.outcome {
                Result::Ok(ns) => Option::Some(
                    ResultExpr { cost: 1, pos: rr.pos, outcome: Result::Ok(ns) },
                ),
                Result::Err(_) => Option::Some(
                    ResultExpr { cost: 1, pos: pos, outcome: Result::Ok(Seq::empty()) },
                ),
            },
        },
        RuleExpr::And(b) => match eval(rules, *b, input, pos, fuel) {
            Option::None => Option::None,
            Option::Some(rr) => match rr.outcome {
                Result::Ok(_) => Option::Some(
                    ResultExpr { cost: 1, pos: pos, outcome: Result::Ok(Seq::empty()) },
                ),
                Result::Err(e) => Option::Some(
                    ResultExpr { cost: 1, pos: pos, outcome: Result::Err(e) },
                ),
            },
        },
        RuleExpr::Not(b) => match eval(rules, *b, input, pos, fuel) {
            Option::None => Option::None,
            Option::Some(rr) => match rr.outcome {
                Result::Ok(ns) => Option::Some(fail_at(r, pos, KindExpr::NotDidMatch(ns))),
                Result::Err(_) => Option::Some(
                    ResultExpr { cost: 1, pos: pos, outcome: Result::Ok(Seq::empty()) },
                ),
            },
        },
    }
}

/// Evaluates the alternatives of the choice `whole` in order; the first
/// success is returned unchanged, and if all fail the choice fails at `pos`
/// without keeping any inner cause.
pub open spec fn eval_alts(
    rules: Map<Seq<char>, RuleExpr>,
    whole: RuleExpr,
    alts: Seq<RuleExpr>,
    input: Seq<char>,
    pos: int,
    fuel: nat,
) -> Option<ResultExpr>
    decreases fuel, lsize(alts), 1int, 0int,
    via eval_alts_decreases
{
    if alts.len() == 0 {
        Option::Some(fail_at(whole, pos, KindExpr::ExpressionDoesNotMatch))
    } else {
        match eval(rules, alts[0], input, pos, fuel) {
            Option::None => Option::None,
            Option::Some(rr) => match rr.outcome {
                Result::Ok(_) => Option::Some(rr),
                Result::Err(_) => eval_alts(rules, whole, alts.drop_first(), input, pos, fuel),
            },
        }
    }
}

/// Evaluates the items of a sequence left to right, concatenating their
/// nodes; the first failing item's error is returned as the sequence's error.
pub open spec fn eval_list(
    rules: Map<Seq<char>, RuleExpr>,
    items: Seq<RuleExpr>,
    input: Seq<char>,
    pos: int,
    fuel: nat,
) -> Option<Result<(int, Seq<NodeExpr>), ErrExpr>>
    decreases fuel, lsize(items), 1int, 0int,
    via eval_list_decreases
{
    if items.len() == 0 {
        Option::Some(Result::Ok((pos, Seq::empty())))
    } else {
        match eval(rules, items[0], input, pos, fuel) {
            Option::None => Option::None,
            Option::Some(rr) => match rr.outcome {
                Result::Err(e) => Option::Some(Result::Err(e)),
                Result::Ok(ns) => match eval_list(rules, items.drop_first(), input, rr.pos, fuel) {
                    Option::None => Option::None,
                    Option::Some(Result::Err(e)) => Option::Some(Result::Err(e)),
                    Option::Some(Result::Ok((p, more))) => Option::Some(Result::Ok((p, ns + more))),
                },
            },
        }
    }
}

/// Greedily repeats `r` from `pos`, concatenating the nodes of the rounds
/// that consumed input; stops at the first failure or at the first round
/// that consumed nothing. Never fails.
pub open spec fn eval_star(
    rules: Map<Seq<char>, RuleExpr>,
    r: RuleExpr,
    input: Seq<char>,
    pos: int,
    fuel: nat,
) -> Option<(int, Seq<NodeExpr>)>
    decreases
        fuel,
        rsize(r) + 1,
        0int,
        (if pos <= input.len() { input.len() - pos } else { 0int }),
{
    match eval(rules, r, input, pos, fuel) {
        Option::None => Option::None,
        Option::Some(rr) => match rr.outcome {
            Result::Err(_) => Option::Some((pos, Seq::empty())),
            Result::Ok(ns) => if pos < rr.pos <= input.len() {
                match eval_star(rules, r, input, rr.pos, fuel) {
                    Option::None => Option::None,
                    Option::Some((q, more)) => Option::Some((q, ns + more)),
                }
            } else {
                Option::Some((pos, Seq::empty()))
            },
        },
    }
}

#[via_fn]
proof fn eval_alts_decreases(
    rules: Map<Seq<char>, RuleExpr>,
    whole: RuleExpr,
    alts: Seq<RuleExpr>,
    input: Seq<char>,
    pos: int,
    fuel: nat,
) {
    crate::rule::lemma_lsize_pos(alts);
}

#[via_fn]
proof fn eval_list_decreases(
    rules: Map<Seq<char>, RuleExpr>,
    items: Seq<RuleExpr>,
    input: Seq<char>,
    pos: int,
    fuel: nat,
) {
    crate::rule::lemma_lsize_pos(items);
}

/// From fuel `f0` upward, evaluating `r` always yields `res`.
pub open spec fn eval_from(
    rules: Map<Seq<char>, RuleExpr>,
    r: RuleExpr,
    input: Seq<char>,
    pos: int,
    f0: nat,
    res: ResultExpr,
) -> bool {
    forall|f: nat| f >= f0 ==> eval(rules, r, input, pos, f) == Option::Some(res)
}

/// Evaluating `r` at `pos` converges to `res`: some fuel amount suffices and
/// every larger one agrees. By [`lemma_evals_unique`] at most one result has
/// this property, so it is the meaning of the rule at this point.
pub open spec fn evals(
    rules: Map<Seq<char>, RuleExpr>,
    r: RuleExpr,
    input: Seq<char>,
    pos: int,
    res: ResultExpr,
) -> bool {
    exists|f0: nat| eval_from(rules, r, input, pos, f0, res)
}

/// From fuel `f0` upward, the repetition helper always yields `res`.
pub open spec fn star_from(
    rules: Map<Seq<char>, RuleExpr>,
    r: RuleExpr,
    input: Seq<char>,
    pos: int,
    f0: nat,
    res: (int, Seq<NodeExpr>),
) -> bool {
    forall|f: nat| f >= f0 ==> eval_star(rules, r, input, pos, f) == Option::Some(res)
}

/// The analogue of [`evals`] for the repetition helper.
pub open spec fn evals_star(
    rules: Map<Seq<char>, RuleExpr>,
    r: RuleExpr,
    input: Seq<char>,
    pos: int,
    res: (int, Seq<NodeExpr>),
) -> bool {
    exists|f0: nat| star_from(rules, r, input, pos, f0, res)
}

/// From fuel `f0` upward, the sequence helper always yields `res`.
pub open spec fn list_from(
    rules: Map<Seq<char>, RuleExpr>,
    items: Seq<RuleExpr>,
    input: Seq<char>,
    pos: int,
    f0: nat,
    res: Result<(int, Seq<NodeExpr>), ErrExpr>,
) -> bool {
    forall|f: nat| f >= f0 ==> eval_list(rules, items, input, pos, f) == Option::Some(res)
}

/// The analogue of [`evals`] for the sequence helper.
pub open spec fn evals_list(
    rules: Map<Seq<char>, RuleExpr>,
    items: Seq<RuleExpr>,
    input: Seq<char>,
    pos: int,
    res: Result<(int, Seq<NodeExpr>), ErrExpr>,
) -> bool {
    exists|f0: nat| list_from(rules, items, input, pos, f0, res)
}

/// From fuel `f0` upward, the alternation helper always yields `res`.
pub open spec fn alts_from(
    rules: Map<Seq<char>, RuleExpr>,
    whole: RuleExpr,
    alts: Seq<RuleExpr>,
    input: Seq<char>,
    pos: int,
    f0: nat,
    res: ResultExpr,
) -> bool {
    forall|f: nat| f >= f0 ==> eval_alts(rules, whole, alts, input, pos, f) == Option::Some(res)
}

/// The analogue of [`evals`] for the alternation helper.
pub open spec fn evals_alts(
    rules: Map<Seq<char>, RuleExpr>,
    whole: RuleExpr,
    alts: Seq<RuleExpr>,
    input: Seq<char>,
    pos: int,
    res: ResultExpr,
) -> bool {
    exists|f0: nat| alts_from(rules, whole, alts, input, pos, f0, res)
}

/// Start of the interval a node covers.
pub open spec fn node_lo(n: NodeExpr) -> int {
    match n {
        NodeExpr::Terminal { lo, .. } => lo,
        NodeExpr::NonTerminal { lo, .. } => lo,
    }
}

/// End of the interval a node covers.
pub open spec fn node_hi(n: NodeExpr) -> int {
    match n {
        NodeExpr::Terminal { hi, .. } => hi,
        NodeExpr::NonTerminal { hi, .. } => hi,
    }
}

/// The nodes cover `[lo, hi)` exactly, contiguously and in order: the first
/// node starts at `lo`, each next node starts where the previous one ended,
/// and the last one ends at `hi`; an empty list covers the empty interval.
pub open spec fn tiles(ns: Seq<NodeExpr>, lo: int, hi: int) -> bool
    decreases ns,
{
    if ns.len() == 0 {
        lo == hi
    } else {
        node_lo(ns[0]) == lo && tiles(ns.drop_first(), node_hi(ns[0]), hi)
    }
}

/// A well-formed node: its interval is ordered, and the children of a
/// non-terminal cover its interval exactly. In particular the end of a
/// non-terminal equals the end of its last child (or its own start if it has
/// no children), and its start equals the start of its first child.
pub open spec fn node_wf(n: NodeExpr) -> bool
    decreases n,
{
    match n {
        NodeExpr::Terminal { lo, hi } => lo <= hi,
        NodeExpr::NonTerminal { name, lo, hi, children } => lo <= hi && tiles(children, lo, hi)
            && nodes_wf(children),
    }
}

/// Every node of the list is well-formed.
pub open spec fn nodes_wf(ns: Seq<NodeExpr>) -> bool
    decreases ns,
{
    if ns.len() == 0 {
        true
    } else {
        node_wf(ns[0]) && nodes_wf(ns.drop_first())
    }
}

/// What every evaluation result looks like: a success consumes forward but
/// never past the end of the input and emits nodes that exactly tile the
/// consumed interval; a failure stays at the starting offset.
pub open spec fn result_shape(input: Seq<char>, pos: int, res: ResultExpr) -> bool {
    match res.outcome {
        Result::Ok(ns) => pos <= res.pos <= input.len() && tiles(ns, pos, res.pos) && nodes_wf(ns),
        Result::Err(_) => res.pos == pos,
    }
}

/// A single well-formed node covering `[lo, hi)` tiles that interval.
pub proof fn lemma_single_node(n: NodeExpr, lo: int, hi: int)
    requires
        node_lo(n) == lo,
        node_hi(n) == hi,
        node_wf(n),
    ensures
        tiles(seq![n], lo, hi),
        nodes_wf(seq![n]),
{
    assert(seq![n].drop_first() =~= Seq::<NodeExpr>::empty());
    assert(tiles(Seq::<NodeExpr>::empty(), hi, hi));
    assert(nodes_wf(Seq::<NodeExpr>::empty()));
}

/// Tilings concatenate: adjacent covered intervals join.
pub proof fn lemma_tiles_concat(a: Seq<NodeExpr>, b: Seq<NodeExpr>, lo: int, mid: int, hi: int)
    requires
        tiles(a, lo, mid),
        tiles(b, mid, hi),
    ensures
        tiles(a + b, lo, hi),
    decreases a,
{
    if a.len() == 0 {
        assert(a + b =~= b);
    } else {
        lemma_tiles_concat(a.drop_first(), b, node_hi(a[0]), mid, hi);
        assert((a + b).drop_first() =~= a.drop_first() + b);
    }
}

/// Well-formedness concatenates.
pub proof fn lemma_nodes_wf_concat(a: Seq<NodeExpr>, b: Seq<NodeExpr>)
    requires
        nodes_wf(a),
        nodes_wf(b),
    ensures
        nodes_wf(a + b),
    decreases a,
{
    if a.len() == 0 {
        assert(a + b =~= b);
    } else {
        lemma_nodes_wf_concat(a.drop_first(), b);
        assert((a + b).drop_first() =~= a.drop_first() + b);
        assert((a + b)[0] == a[0]);
    }
}

/// A rule means at most one thing: two results that evaluation converges to
/// are the same result.
pub proof fn lemma_evals_unique(
    rules: Map<Seq<char>, RuleExpr>,
    r: RuleExpr,
    input: Seq<char>,
    pos: int,
    r1: ResultExpr,
    r2: ResultExpr,
)
    requires
        evals(rules, r, input, pos, r1),
        evals(rules, r, input, pos, r2),
    ensures
        r1 == r2,
{
    let f1 = choose|f1: nat| eval_from(rules, r, input, pos, f1, r1);
    let f2 = choose|f2: nat| eval_from(rules, r, input, pos, f2, r2);
    let f = f1 + f2;
    assert(eval(rules, r, input, pos, f) == Option::Some(r1));
    assert(eval(rules, r, input, pos, f) == Option::Some(r2));
}

} // verus!
