//! What always holds of parsing: determinism, the shape of every result,
//! that failures and lookaheads consume nothing, and that greedy repetition
//! consumes as much as can be consumed.

use vstd::prelude::*;
use crate::parsing::{NodeExpr, ResultExpr};
use crate::rule::{lemma_lsize_pos, lemma_rsize_pos, lsize, rsize, RuleExpr};
use crate::semantics::{
    eval, eval_alts, eval_from, eval_list, eval_star, evals, evals_star, lemma_evals_unique,
    star_from,
};

verus! {

/// At the fixed fuel, a present result moves forward within the input on
/// success and stays at the start on failure.
pub proof fn lemma_eval_shape(
    rules: Map<Seq<char>, RuleExpr>,
    r: RuleExpr,
    input: Seq<char>,
    pos: int,
    fuel: nat,
)
    requires
        0 <= pos <= input.len(),
    ensures
        eval(rules, r, input, pos, fuel) matches Option::Some(res) ==> (match res.outcome {
            Result::Ok(_) => pos <= res.pos <= input.len(),
            Result::Err(_) => res.pos == pos,
        }),
    decreases fuel, rsize(r), 1int, 0int,
{
    match r {
        RuleExpr::Empty => {},
        RuleExpr::Any => {},
        RuleExpr::Literal(_) => {},
        RuleExpr::NonTerminal(n) => {
            if rules.contains_key(n) && fuel > 0 {
                lemma_eval_shape(rules, rules[n], input, pos, (fuel - 1) as nat);
            }
        },
        RuleExpr::Range(_, _) => {},
        RuleExpr::Class(ms) => {
            lemma_class_first_len(ms, input, pos);
        },
        RuleExpr::Group(b) => {
            lemma_eval_shape(rules, *b, input, pos, fuel);
        },
        RuleExpr::ZeroOrMore(b) => {
            lemma_star_shape(rules, *b, input, pos, fuel);
        },
        RuleExpr::OneOrMore(b) => {
            lemma_eval_shape(rules, *b, input, pos, fuel);
            match eval(rules, *b, input, pos, fuel) {
                Option::Some(rr) => match rr.outcome {
                    Result::Ok(_) => {
                        if pos <= rr.pos <= input.len() {
                            lemma_star_shape(rules, *b, input, rr.pos, fuel);
                        }
                    },
                    Result::Err(_) => {},
                },
                Option::None => {},
            }
        },
        RuleExpr::Optional(b) => {
            lemma_eval_shape(rules, *b, input, pos, fuel);
        },
        RuleExpr::And(b) => {
            lemma_eval_shape(rules, *b, input, pos, fuel);
        },
        RuleExpr::Not(b) => {
            lemma_eval_shape(rules, *b, input, pos, fuel);
        },
        RuleExpr::Choice(cs) => {
            lemma_lsize_pos(cs);
            lemma_alts_shape(rules, r, cs, input, pos, fuel);
        },
        RuleExpr::Sequence(ss) => {
            lemma_lsize_pos(ss);
            lemma_list_shape(rules, ss, input, pos, fuel);
        },
    }
}

/// A matching class member fits within the rest of the input.
proof fn lemma_class_first_len(ms: Seq<Seq<char>>, input: Seq<char>, pos: int)
    ensures
        crate::semantics::class_first(ms, input, pos) matches Option::Some(m) ==> 0 <= pos && pos
            + m.len() <= input.len(),
    decreases ms,
{
    if ms.len() > 0 && !crate::semantics::prefix_at(input, pos, ms[0]) {
        lemma_class_first_len(ms.drop_first(), input, pos);
    }
}

/// The alternatives of a choice keep the shape: a success is a child's
/// success, and the final failure stays at the start.
proof fn lemma_alts_shape(
    rules: Map<Seq<char>, RuleExpr>,
    whole: RuleExpr,
    alts: Seq<RuleExpr>,
    input: Seq<char>,
    pos: int,
    fuel: nat,
)
    requires
        0 <= pos <= input.len(),
    ensures
        eval_alts(rules, whole, alts, input, pos, fuel) matches Option::Some(res) ==> (match res
            .outcome {
            Result::Ok(_) => pos <= res.pos <= input.len(),
            Result::Err(_) => res.pos == pos,
        }),
    decreases fuel, lsize(alts), 1int, 0int,
{
    if alts.len() > 0 {
        lemma_lsize_pos(alts);
        lemma_eval_shape(rules, alts[0], input, pos, fuel);
        lemma_alts_shape(rules, whole, alts.drop_first(), input, pos, fuel);
    }
}

/// A sequence's items advance from the starting offset to the final one.
proof fn lemma_list_shape(
    rules: Map<Seq<char>, RuleExpr>,
    items: Seq<RuleExpr>,
    input: Seq<char>,
    pos: int,
    fuel: nat,
)
    requires
        0 <= pos <= input.len(),
    ensures
        eval_list(rules, items, input, pos, fuel) matches Option::Some(out) ==> (out matches
            Result::Ok((p, _)) ==> pos <= p <= input.len()),
    decreases fuel, lsize(items), 1int, 0int,
{
    if items.len() > 0 {
        lemma_lsize_pos(items);
        lemma_eval_shape(rules, items[0], input, pos, fuel);
        match eval(rules, items[0], input, pos, fuel) {
            Option::Some(rr) => match rr.outcome {
                Result::Ok(_) => {
                    lemma_list_shape(rules, items.drop_first(), input, rr.pos, fuel);
                },
                Result::Err(_) => {},
            },
            Option::None => {},
        }
    }
}

/// Repetition only moves forward, and never past the end of the input.
proof fn lemma_star_shape(
    rules: Map<Seq<char>, RuleExpr>,
    r: RuleExpr,
    input: Seq<char>,
    pos: int,
    fuel: nat,
)
    requires
        0 <= pos <= input.len(),
    ensures
        eval_star(rules, r, input, pos, fuel) matches Option::Some(out) ==> pos <= out.0
            <= input.len(),
    decreases fuel, rsize(r) + 1, 0int, input.len() - pos,
{
    lemma_rsize_pos(r);
    lemma_eval_shape(rules, r, input, pos, fuel);
    match eval(rules, r, input, pos, fuel) {
        Option::Some(rr) => match rr.outcome {
            Result::Ok(_) => {
                if pos < rr.pos <= input.len() {
                    lemma_star_shape(rules, r, input, rr.pos, fuel);
                }
            },
            Result::Err(_) => {},
        },
        Option::None => {},
    }
}

/// Parsing means at most one thing: whatever caching or recomputation took
/// place, two results that the semantics converges to for the same grammar,
/// rule and input are the same result. In particular parsing the same input
/// twice yields structurally identical results.
pub proof fn lemma_parse_deterministic(
    rules: Map<Seq<char>, RuleExpr>,
    r: RuleExpr,
    input: Seq<char>,
    pos: int,
    r1: ResultExpr,
    r2: ResultExpr,
)
    requires
        evals(rules, r, input, pos, r1),
        evals(rules, r, input, pos, r2),
    ensures
        r1 == r2,
{
    lemma_evals_unique(rules, r, input, pos, r1, r2);
}

/// A failing evaluation consumes nothing: the returned offset is the one
/// the rule was tried at. In particular a failing sequence or non-terminal
/// reference returns its call-site offset.
pub proof fn lemma_failure_keeps_position(
    rules: Map<Seq<char>, RuleExpr>,
    r: RuleExpr,
    input: Seq<char>,
    pos: int,
    res: ResultExpr,
)
    requires
        0 <= pos <= input.len(),
        evals(rules, r, input, pos, res),
        res.outcome is Err,
    ensures
        res.pos == pos,
{
    let f0 = choose|f0: nat| eval_from(rules, r, input, pos, f0, res);
    assert(eval(rules, r, input, pos, f0) == Option::Some(res));
    lemma_eval_shape(rules, r, input, pos, f0);
}

/// A successful evaluation stays within the input and never moves
/// backward.
pub proof fn lemma_success_in_bounds(
    rules: Map<Seq<char>, RuleExpr>,
    r: RuleExpr,
    input: Seq<char>,
    pos: int,
    res: ResultExpr,
)
    requires
        0 <= pos <= input.len(),
        evals(rules, r, input, pos, res),
        res.outcome is Ok,
    ensures
        pos <= res.pos <= input.len(),
{
    let f0 = choose|f0: nat| eval_from(rules, r, input, pos, f0, res);
    assert(eval(rules, r, input, pos, f0) == Option::Some(res));
    lemma_eval_shape(rules, r, input, pos, f0);
}

/// A successful positive lookahead returns the starting offset and emits
/// no nodes.
pub proof fn lemma_and_consumes_nothing(
    rules: Map<Seq<char>, RuleExpr>,
    b: RuleExpr,
    input: Seq<char>,
    pos: int,
    res: ResultExpr,
)
    requires
        evals(rules, RuleExpr::And(Box::new(b)), input, pos, res),
        res.outcome is Ok,
    ensures
        res.pos == pos,
        res.outcome->Ok_0 == Seq::<NodeExpr>::empty(),
{
    let f0 = choose|f0: nat|
        eval_from(rules, RuleExpr::And(Box::new(b)), input, pos, f0, res);
    assert(eval(rules, RuleExpr::And(Box::new(b)), input, pos, f0) == Option::Some(res));
}

/// A successful negative lookahead returns the starting offset and emits
/// no nodes.
pub proof fn lemma_not_consumes_nothing(
    rules: Map<Seq<char>, RuleExpr>,
    b: RuleExpr,
    input: Seq<char>,
    pos: int,
    res: ResultExpr,
)
    requires
        evals(rules, RuleExpr::Not(Box::new(b)), input, pos, res),
        res.outcome is Ok,
    ensures
        res.pos == pos,
        res.outcome->Ok_0 == Seq::<NodeExpr>::empty(),
{
    let f0 = choose|f0: nat|
        eval_from(rules, RuleExpr::Not(Box::new(b)), input, pos, f0, res);
    assert(eval(rules, RuleExpr::Not(Box::new(b)), input, pos, f0) == Option::Some(res));
}

/// One successful round of `r` carries offset `p` to offset `q`.
pub open spec fn star_step(
    rules: Map<Seq<char>, RuleExpr>,
    r: RuleExpr,
    input: Seq<char>,
    p: int,
    q: int,
) -> bool {
    exists|res: ResultExpr|
        #[trigger] evals(rules, r, input, p, res) && res.outcome is Ok && res.pos == q
}

/// Offset `q` is reachable from `p` by `n` successful rounds of `r`.
pub open spec fn star_reach(
    rules: Map<Seq<char>, RuleExpr>,
    r: RuleExpr,
    input: Seq<char>,
    p: int,
    q: int,
    n: nat,
) -> bool
    decreases n,
{
    if n == 0 {
        p == q
    } else {
        exists|m: int|
            #[trigger] star_step(rules, r, input, p, m) && star_reach(
                rules,
                r,
                input,
                m,
                q,
                (n - 1) as nat,
            )
    }
}

/// From any offset reachable by the child's successful rounds, the
/// repetition ends at the same final offset.
proof fn lemma_star_trajectory(
    rules: Map<Seq<char>, RuleExpr>,
    r: RuleExpr,
    input: Seq<char>,
    pos: int,
    q: int,
    ns: Seq<NodeExpr>,
    q2: int,
    n: nat,
)
    requires
        0 <= pos <= input.len(),
        evals_star(rules, r, input, pos, (q, ns)),
        star_reach(rules, r, input, pos, q2, n),
    ensures
        exists|ns2: Seq<NodeExpr>| #[trigger] evals_star(rules, r, input, q2, (q, ns2)),
        pos <= q2 <= input.len(),
    decreases n,
{
    if n == 0 {
        assert(q2 == pos);
        assert(evals_star(rules, r, input, q2, (q, ns)));
    } else {
        let m = choose|m: int|
            #[trigger] star_step(rules, r, input, pos, m) && star_reach(
                rules,
                r,
                input,
                m,
                q2,
                (n - 1) as nat,
            );
        let res = choose|res: ResultExpr|
            #[trigger] evals(rules, r, input, pos, res) && res.outcome is Ok && res.pos == m;
        let f1 = choose|f1: nat| star_from(rules, r, input, pos, f1, (q, ns));
        let f2 = choose|f2: nat| eval_from(rules, r, input, pos, f2, res);
        let fb = f1 + f2;
        assert(eval_star(rules, r, input, pos, fb) == Option::Some((q, ns)));
        assert(eval(rules, r, input, pos, fb) == Option::Some(res));
        lemma_eval_shape(rules, r, input, pos, fb);
        assert(pos <= m <= input.len());
        if pos < m {
            // the repetition continued after this round, so the repetition
            // from `m` is its tail and ends at the same place
            match eval_star(rules, r, input, m, fb) {
                Option::None => {
                    assert(false);
                },
                Option::Some((qq, mm)) => {
                    assert(qq == q && ns == res.outcome->Ok_0 + mm);
                    assert forall|f: nat| f >= fb implies eval_star(rules, r, input, m, f)
                        == Option::Some((q, mm)) by {
                        lemma_star_mono(rules, r, input, m, fb, f);
                    }
                    assert(star_from(rules, r, input, m, fb, (q, mm)));
                    assert(evals_star(rules, r, input, m, (q, mm)));
                    lemma_star_trajectory(rules, r, input, m, q, mm, q2, (n - 1) as nat);
                },
            }
        } else {
            // an empty round: the repetition stops here, so `m` is `pos`
            // and the repetition from `m` is the whole repetition
            assert(m == pos);
            lemma_star_trajectory(rules, r, input, pos, q, ns, q2, (n - 1) as nat);
        }
    }
}

/// The rest of `whole` after its prefix `head`.
pub open spec fn ns_tail(whole: Seq<NodeExpr>, head: Seq<NodeExpr>) -> Seq<NodeExpr> {
    whole.skip(head.len() as int)
}

/// Greedy repetition is maximal: the offset it returns is reachable by
/// successful rounds of its child, and no offset reachable that way lies
/// beyond it.
pub proof fn lemma_star_greedy_maximal(
    rules: Map<Seq<char>, RuleExpr>,
    r: RuleExpr,
    input: Seq<char>,
    pos: int,
    q: int,
    ns: Seq<NodeExpr>,
    q2: int,
    n: nat,
)
    requires
        0 <= pos <= input.len(),
        evals_star(rules, r, input, pos, (q, ns)),
        star_reach(rules, r, input, pos, q2, n),
    ensures
        q2 <= q,
{
    lemma_star_trajectory(rules, r, input, pos, q, ns, q2, n);
    let ns2 = choose|ns2: Seq<NodeExpr>| #[trigger] evals_star(rules, r, input, q2, (q, ns2));
    let f = choose|f: nat| star_from(rules, r, input, q2, f, (q, ns2));
    assert(eval_star(rules, r, input, q2, f) == Option::Some((q, ns2)));
    lemma_star_shape(rules, r, input, q2, f);
}

/// The final offset of a repetition is itself reachable by its child's
/// successful rounds.
pub proof fn lemma_star_reaches_result(
    rules: Map<Seq<char>, RuleExpr>,
    r: RuleExpr,
    input: Seq<char>,
    pos: int,
    q: int,
    ns: Seq<NodeExpr>,
)
    requires
        0 <= pos <= input.len(),
        evals_star(rules, r, input, pos, (q, ns)),
    ensures
        exists|n: nat| #[trigger] star_reach(rules, r, input, pos, q, n),
    decreases input.len() - pos,
{
    let f = choose|f: nat| star_from(rules, r, input, pos, f, (q, ns));
    assert(eval_star(rules, r, input, pos, f) == Option::Some((q, ns)));
    lemma_star_shape(rules, r, input, pos, f);
    match eval(rules, r, input, pos, f) {
        Option::None => {
            assert(false);
        },
        Option::Some(rr) => {
            match rr.outcome {
                Result::Err(_) => {
                    assert(q == pos);
                    assert(star_reach(rules, r, input, pos, q, 0));
                },
                Result::Ok(_) => {
                    if pos < rr.pos <= input.len() {
                        match eval_star(rules, r, input, rr.pos, f) {
                            Option::None => {
                                assert(false);
                            },
                            Option::Some((qq, mm)) => {
                                assert(qq == q);
                                lemma_eval_mono_from(rules, r, input, pos, f, rr);
                                lemma_star_mono_from(rules, r, input, rr.pos, f, (q, mm));
                                assert(evals_star(rules, r, input, rr.pos, (q, mm)));
                                lemma_star_reaches_result(rules, r, input, rr.pos, q, mm);
                                let n = choose|n: nat|
                                    #[trigger] star_reach(rules, r, input, rr.pos, q, n);
                                assert(evals(rules, r, input, pos, rr));
                                assert(star_step(rules, r, input, pos, rr.pos));
                                assert(((n + 1) as nat - 1) as nat == n);
                                assert(star_reach(rules, r, input, pos, q, (n + 1) as nat));
                            },
                        }
                    } else {
                        assert(q == pos);
                        assert(star_reach(rules, r, input, pos, q, 0));
                    }
                },
            }
        },
    }
}

/// A tiling pins both ends: the first node starts at the interval's start
/// and the last node ends at its end; an empty tiling covers nothing.
pub proof fn lemma_tiles_ends(ns: Seq<NodeExpr>, lo: int, hi: int)
    requires
        crate::semantics::tiles(ns, lo, hi),
    ensures
        ns.len() == 0 ==> lo == hi,
        ns.len() > 0 ==> crate::semantics::node_lo(ns[0]) == lo,
        ns.len() > 0 ==> crate::semantics::node_hi(ns.last()) == hi,
    decreases ns,
{
    if ns.len() > 0 {
        lemma_tiles_ends(ns.drop_first(), crate::semantics::node_hi(ns[0]), hi);
        if ns.len() > 1 {
            assert(ns.drop_first().last() == ns.last());
        }
    }
}

/// The span of every well-formed non-terminal node is delimited by its
/// children: it begins where its first child begins and ends where its
/// last child ends, and covers nothing when it has no children.
pub proof fn lemma_node_span_ends(
    name: Seq<char>,
    lo: int,
    hi: int,
    children: Seq<NodeExpr>,
)
    requires
        crate::semantics::node_wf(NodeExpr::NonTerminal { name, lo, hi, children }),
    ensures
        children.len() == 0 ==> lo == hi,
        children.len() > 0 ==> crate::semantics::node_lo(children[0]) == lo,
        children.len() > 0 ==> crate::semantics::node_hi(children.last()) == hi,
{
    lemma_tiles_ends(children, lo, hi);
}

/// A result the semantics converges to is the result at every fuel amount
/// that yields one at all.
pub proof fn lemma_eval_agrees(
    rules: Map<Seq<char>, RuleExpr>,
    r: RuleExpr,
    input: Seq<char>,
    pos: int,
    f: nat,
    res: ResultExpr,
)
    requires
        evals(rules, r, input, pos, res),
        eval(rules, r, input, pos, f) is Some,
    ensures
        eval(rules, r, input, pos, f) == Option::Some(res),
{
    let x = eval(rules, r, input, pos, f)->Some_0;
    lemma_eval_mono_from(rules, r, input, pos, f, x);
    lemma_evals_unique(rules, r, input, pos, x, res);
}

/// The undefined references of a grammar are exactly the referenced names
/// that no definition binds, kept in order of first reference.
pub proof fn lemma_undefined_refs_exact(
    defs: Seq<(Seq<char>, RuleExpr)>,
    refs: Seq<Seq<char>>,
)
    ensures
        forall|x: Seq<char>|
            #[trigger] crate::transformer::undefined_refs(defs, refs).contains(x) <==> refs
                .contains(x) && !crate::transformer::def_names(defs).contains(x),
        crate::transformer::undefined_refs(defs, refs).len() == 0 <==> (forall|x: Seq<char>|
            refs.contains(x) ==> crate::transformer::def_names(defs).contains(x)),
    decreases refs,
{
    let und = crate::transformer::undefined_refs(defs, refs);
    let dn = crate::transformer::def_names(defs);
    if refs.len() == 0 {
        assert forall|x: Seq<char>| !refs.contains(x) by {}
    } else {
        lemma_undefined_refs_exact(defs, refs.drop_first());
        let drop = refs.drop_first();
        let tail = crate::transformer::undefined_refs(defs, drop);
        assert forall|x: Seq<char>| #[trigger] und.contains(x) <==> refs.contains(x)
            && !dn.contains(x) by {
            assert(tail.contains(x) <==> drop.contains(x) && !dn.contains(x));
            if dn.contains(refs[0]) {
                assert(und == tail);
                if drop.contains(x) {
                    let i = choose|i: int| 0 <= i < drop.len() && drop[i] == x;
                    assert(refs[i + 1] == x);
                    assert(refs.contains(x));
                }
                if refs.contains(x) && !dn.contains(x) {
                    let i = choose|i: int| 0 <= i < refs.len() && refs[i] == x;
                    assert(i > 0);
                    assert(drop[i - 1] == x);
                    assert(drop.contains(x));
                }
            } else {
                assert(und == seq![refs[0]] + tail);
                if und.contains(x) {
                    let i = choose|i: int| 0 <= i < und.len() && und[i] == x;
                    if i == 0 {
                        assert(x == refs[0]);
                        assert(refs.contains(refs[0]));
                    } else {
                        assert(tail[i - 1] == x);
                        assert(tail.contains(x));
                        let j = choose|j: int| 0 <= j < drop.len() && drop[j] == x;
                        assert(refs[j + 1] == x);
                        assert(refs.contains(x));
                    }
                }
                if refs.contains(x) && !dn.contains(x) {
                    let i = choose|i: int| 0 <= i < refs.len() && refs[i] == x;
                    if i == 0 {
                        assert(und[0] == x);
                        assert(und.contains(x));
                    } else {
                        assert(drop[i - 1] == x);
                        assert(drop.contains(x));
                        assert(tail.contains(x));
                        let j = choose|j: int| 0 <= j < tail.len() && tail[j] == x;
                        assert(und[j + 1] == x);
                        assert(und.contains(x));
                    }
                }
            }
        }
    }
    if und.len() > 0 {
        assert(und.contains(und[0]));
    }
    if und.len() == 0 {
        assert forall|x: Seq<char>| refs.contains(x) implies dn.contains(x) by {
            if !dn.contains(x) {
                assert(und.contains(x));
            }
        }
    }
}

/// A grammar that references a name no definition binds fails to lower,
/// with an error naming exactly the missing names in order of first
/// reference; a grammar whose references are all defined lowers to its
/// definitions.
pub proof fn lemma_undefined_reference_detected(
    tokens: Seq<NodeExpr>,
    src: Seq<char>,
    defs: Seq<(Seq<char>, RuleExpr)>,
    refs: Seq<Seq<char>>,
)
    requires
        crate::transformer::definitions_of(
            if tokens.len() == 0 {
                tokens
            } else {
                tokens.drop_first()
            },
            src,
            Seq::empty(),
        ) == Result::<
            (Seq<(Seq<char>, RuleExpr)>, Seq<Seq<char>>),
            crate::transformer::TransErrExpr,
        >::Ok((defs, refs)),
    ensures
        (forall|x: Seq<char>|
            refs.contains(x) ==> crate::transformer::def_names(defs).contains(x))
            ==> crate::transformer::grammar_rules_of(tokens, src) == Result::<
            Seq<(Seq<char>, RuleExpr)>,
            crate::transformer::TransErrExpr,
        >::Ok(defs),
        !(forall|x: Seq<char>|
            refs.contains(x) ==> crate::transformer::def_names(defs).contains(x))
            ==> crate::transformer::grammar_rules_of(tokens, src) == Result::<
            Seq<(Seq<char>, RuleExpr)>,
            crate::transformer::TransErrExpr,
        >::Err(
            crate::transformer::TransErrExpr::AmbiguousNonTerminal(
                "Missing rules: ["@ + crate::transformer::joined_names(
                    crate::transformer::undefined_refs(defs, refs),
                ) + "]!"@,
            ),
        ),
        forall|x: Seq<char>|
            #[trigger] crate::transformer::undefined_refs(defs, refs).contains(x) <==> refs
                .contains(x) && !crate::transformer::def_names(defs).contains(x),
{
    lemma_undefined_refs_exact(defs, refs);
}

/// More fuel never changes a result that was already reached.
pub proof fn lemma_eval_mono(
    rules: Map<Seq<char>, RuleExpr>,
    r: RuleExpr,
    input: Seq<char>,
    pos: int,
    f0: nat,
    f: nat,
)
    requires
        f0 <= f,
        eval(rules, r, input, pos, f0) is Some,
    ensures
        eval(rules, r, input, pos, f) == eval(rules, r, input, pos, f0),
    decreases f0, rsize(r), 1int, 0int,
{
    match r {
        RuleExpr::Empty => {},
        RuleExpr::Any => {},
        RuleExpr::Literal(_) => {},
        RuleExpr::NonTerminal(n) => {
            if rules.contains_key(n) {
                lemma_eval_mono(rules, rules[n], input, pos, (f0 - 1) as nat, (f - 1) as nat);
            }
        },
        RuleExpr::Range(_, _) => {},
        RuleExpr::Class(_) => {},
        RuleExpr::Group(b) => {
            lemma_eval_mono(rules, *b, input, pos, f0, f);
        },
        RuleExpr::ZeroOrMore(b) => {
            lemma_star_mono(rules, *b, input, pos, f0, f);
        },
        RuleExpr::OneOrMore(b) => {
            lemma_eval_mono(rules, *b, input, pos, f0, f);
            match eval(rules, *b, input, pos, f0) {
                Option::Some(rr) => match rr.outcome {
                    Result::Ok(_) => {
                        if pos <= rr.pos <= input.len() {
                            lemma_star_mono(rules, *b, input, rr.pos, f0, f);
                        }
                    },
                    Result::Err(_) => {},
                },
                Option::None => {},
            }
        },
        RuleExpr::Optional(b) => {
            lemma_eval_mono(rules, *b, input, pos, f0, f);
        },
        RuleExpr::And(b) => {
            lemma_eval_mono(rules, *b, input, pos, f0, f);
        },
        RuleExpr::Not(b) => {
            lemma_eval_mono(rules, *b, input, pos, f0, f);
        },
        RuleExpr::Choice(cs) => {
            lemma_lsize_pos(cs);
            lemma_alts_mono(rules, r, cs, input, pos, f0, f);
        },
        RuleExpr::Sequence(ss) => {
            lemma_lsize_pos(ss);
            lemma_list_mono(rules, ss, input, pos, f0, f);
        },
    }
}

/// More fuel never changes an alternation result that was already reached.
pub proof fn lemma_alts_mono(
    rules: Map<Seq<char>, RuleExpr>,
    whole: RuleExpr,
    alts: Seq<RuleExpr>,
    input: Seq<char>,
    pos: int,
    f0: nat,
    f: nat,
)
    requires
        f0 <= f,
        eval_alts(rules, whole, alts, input, pos, f0) is Some,
    ensures
        eval_alts(rules, whole, alts, input, pos, f) == eval_alts(
            rules,
            whole,
            alts,
            input,
            pos,
            f0,
        ),
    decreases f0, lsize(alts), 1int, 0int,
{
    if alts.len() > 0 {
        lemma_lsize_pos(alts);
        lemma_eval_mono(rules, alts[0], input, pos, f0, f);
        match eval(rules, alts[0], input, pos, f0) {
            Option::Some(rr) => match rr.outcome {
                Result::Ok(_) => {},
                Result::Err(_) => {
                    lemma_alts_mono(rules, whole, alts.drop_first(), input, pos, f0, f);
                },
            },
            Option::None => {},
        }
    }
}

/// More fuel never changes a sequence result that was already reached.
pub proof fn lemma_list_mono(
    rules: Map<Seq<char>, RuleExpr>,
    items: Seq<RuleExpr>,
    input: Seq<char>,
    pos: int,
    f0: nat,
    f: nat,
)
    requires
        f0 <= f,
        eval_list(rules, items, input, pos, f0) is Some,
    ensures
        eval_list(rules, items, input, pos, f) == eval_list(rules, items, input, pos, f0),
    decreases f0, lsize(items), 1int, 0int,
{
    if items.len() > 0 {
        lemma_lsize_pos(items);
        lemma_eval_mono(rules, items[0], input, pos, f0, f);
        match eval(rules, items[0], input, pos, f0) {
            Option::Some(rr) => match rr.outcome {
                Result::Ok(_) => {
                    lemma_list_mono(rules, items.drop_first(), input, rr.pos, f0, f);
                },
                Result::Err(_) => {},
            },
            Option::None => {},
        }
    }
}

/// More fuel never changes a repetition result that was already reached.
pub proof fn lemma_star_mono(
    rules: Map<Seq<char>, RuleExpr>,
    r: RuleExpr,
    input: Seq<char>,
    pos: int,
    f0: nat,
    f: nat,
)
    requires
        f0 <= f,
        eval_star(rules, r, input, pos, f0) is Some,
    ensures
        eval_star(rules, r, input, pos, f) == eval_star(rules, r, input, pos, f0),
    decreases f0, rsize(r) + 1, 0int, (if pos <= input.len() { input.len() - pos } else { 0int }),
{
    lemma_rsize_pos(r);
    lemma_eval_mono(rules, r, input, pos, f0, f);
    match eval(rules, r, input, pos, f0) {
        Option::Some(rr) => match rr.outcome {
            Result::Ok(_) => {
                if pos < rr.pos <= input.len() {
                    lemma_star_mono(rules, r, input, rr.pos, f0, f);
                }
            },
            Result::Err(_) => {},
        },
        Option::None => {},
    }
}

/// A result at one fuel amount is the result at every larger one.
pub proof fn lemma_eval_mono_from(
    rules: Map<Seq<char>, RuleExpr>,
    r: RuleExpr,
    input: Seq<char>,
    pos: int,
    f0: nat,
    res: ResultExpr,
)
    requires
        eval(rules, r, input, pos, f0) == Option::Some(res),
    ensures
        eval_from(rules, r, input, pos, f0, res),
{
    assert forall|f: nat| f >= f0 implies eval(rules, r, input, pos, f) == Option::Some(res) by {
        lemma_eval_mono(rules, r, input, pos, f0, f);
    }
}

/// A repetition result at one fuel amount is the result at every larger
/// one.
pub proof fn lemma_star_mono_from(
    rules: Map<Seq<char>, RuleExpr>,
    r: RuleExpr,
    input: Seq<char>,
    pos: int,
    f0: nat,
    out: (int, Seq<NodeExpr>),
)
    requires
        eval_star(rules, r, input, pos, f0) == Option::Some(out),
    ensures
        star_from(rules, r, input, pos, f0, out),
{
    assert forall|f: nat| f >= f0 implies eval_star(rules, r, input, pos, f) == Option::Some(
        out,
    ) by {
        lemma_star_mono(rules, r, input, pos, f0, f);
    }
}

} // verus!
