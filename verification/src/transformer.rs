//! Lowers the syntax tree of a grammar into a validated rule map.
//!
//! Every step of the lowering has a spec mirror over node models; the
//! executable functions are proved to return exactly what their mirrors say.
//! The whole-grammar check is that every referenced non-terminal name is
//! defined; a grammar that fails it is rejected with an error naming the
//! missing rules, in the order they are first referenced.

use vstd::prelude::*;
use crate::parsing::{lemma_node_views, lemma_nssize_elem, lemma_nssize_pos, lemma_nssize_skip,
    node_views, nsize, nssize, NodeExpr, ParseNode};
use crate::rule::{rule_views, Rule, RuleExpr};

verus! {

/// The models of a list of names, in order.
pub open spec fn refs_view(v: Seq<String>) -> Seq<Seq<char>> {
    Seq::new(v.len(), |i: int| v[i]@)
}

/// Why a grammar's syntax tree did not lower to a rule map.
#[derive(Debug, PartialEq)]
pub enum TransformError {
    /// The tree has more than one root.
    CstShouldOnlyHaveOneRoot(String),
    /// The root is not the grammar non-terminal.
    CstShouldStartWithGrammar(String),
    /// A node is not what its place in the tree requires.
    UnExpectedToken(String),
    /// A right-hand side references a name that no definition binds.
    AmbiguousNonTerminal(String),
    /// A definition binds the empty name.
    EmptyIdentifier,
    /// A node has the wrong number of children for its role.
    WrongNumberOfTokens(String),
}

/// Model of a [`TransformError`].
#[verifier::ext_equal]
pub enum TransErrExpr {
    CstShouldOnlyHaveOneRoot(Seq<char>),
    CstShouldStartWithGrammar(Seq<char>),
    UnExpectedToken(Seq<char>),
    AmbiguousNonTerminal(Seq<char>),
    EmptyIdentifier,
    WrongNumberOfTokens(Seq<char>),
}

/// The characters of `src` in `[lo, hi)`; empty when the interval is not
/// within the source.
pub open spec fn slice_of(src: Seq<char>, lo: int, hi: int) -> Seq<char> {
    if 0 <= lo <= hi <= src.len() {
        src.subrange(lo, hi)
    } else {
        Seq::empty()
    }
}

/// The node is a non-terminal with the given name.
pub open spec fn is_named(name: Seq<char>, n: NodeExpr) -> bool {
    match n {
        NodeExpr::NonTerminal { name: nn, .. } => nn == name,
        NodeExpr::Terminal { .. } => false,
    }
}

/// The children of a non-terminal named `name`, or the error for a node
/// that is something else.
pub open spec fn tokens_of(name: Seq<char>, n: NodeExpr) -> Result<Seq<NodeExpr>, TransErrExpr> {
    match n {
        NodeExpr::NonTerminal { name: nn, children, .. } => if nn == name {
            Result::Ok(children)
        } else {
            Result::Err(
                TransErrExpr::UnExpectedToken("Expected "@ + name + ", got "@ + nn),
            )
        },
        NodeExpr::Terminal { .. } => Result::Err(
            TransErrExpr::UnExpectedToken("Expected "@ + name),
        ),
    }
}

/// The name of a non-terminal node.
pub open spec fn name_of(n: NodeExpr) -> Result<Seq<char>, TransErrExpr> {
    match n {
        NodeExpr::NonTerminal { name, .. } => Result::Ok(name),
        NodeExpr::Terminal { .. } => Result::Err(
            TransErrExpr::UnExpectedToken("Expected non-terminal"@),
        ),
    }
}

/// The source text of the leading terminals of an identifier's tokens, up
/// to its trailing `Spacing`.
pub open spec fn ident_chars(tokens: Seq<NodeExpr>, src: Seq<char>) -> Seq<char>
    decreases tokens,
{
    if tokens.len() == 0 {
        Seq::empty()
    } else if is_named("Spacing"@, tokens[0]) {
        Seq::empty()
    } else {
        (match tokens[0] {
            NodeExpr::Terminal { lo, hi } => slice_of(src, lo, hi),
            NodeExpr::NonTerminal { .. } => Seq::empty(),
        }) + ident_chars(tokens.drop_first(), src)
    }
}

/// The identifier a node spells, which must not be empty.
pub open spec fn ident_of(n: NodeExpr, src: Seq<char>) -> Result<Seq<char>, TransErrExpr> {
    match tokens_of("Identifier"@, n) {
        Result::Err(e) => Result::Err(e),
        Result::Ok(tokens) => {
            let s = ident_chars(tokens, src);
            if s.len() == 0 {
                Result::Err(TransErrExpr::EmptyIdentifier)
            } else {
                Result::Ok(s)
            }
        },
    }
}

/// A character `\'`, `\"`, `\[`, `\]` or `\\` may be written escaped.
pub open spec fn is_escapable(c: char) -> bool {
    c == '\'' || c == '"' || c == '[' || c == ']' || c == '\\'
}

/// Replaces each two-character escape by the character it names, in one
/// left-to-right pass; everything else is kept as it is.
pub open spec fn unescaped(s: Seq<char>) -> Seq<char>
    decreases s.len(),
{
    if s.len() == 0 {
        Seq::empty()
    } else if s.len() >= 2 && s[0] == '\\' && is_escapable(s[1]) {
        seq![s[1]] + unescaped(s.skip(2))
    } else {
        seq![s[0]] + unescaped(s.skip(1))
    }
}

/// The unescaped source text of a `Char` node.
pub open spec fn unescaped_char_of(n: NodeExpr, src: Seq<char>) -> Result<
    Seq<char>,
    TransErrExpr,
> {
    match n {
        NodeExpr::NonTerminal { name, lo, hi, .. } => if name == "Char"@ {
            Result::Ok(unescaped(slice_of(src, lo, hi)))
        } else {
            Result::Err(TransErrExpr::UnExpectedToken("Invalid char parse_node"@))
        },
        NodeExpr::Terminal { .. } => Result::Err(
            TransErrExpr::UnExpectedToken("Invalid char parse_node"@),
        ),
    }
}

/// The rule a `Range` node lowers to.
pub open spec fn range_of(n: NodeExpr, src: Seq<char>) -> Result<RuleExpr, TransErrExpr> {
    match tokens_of("Range"@, n) {
        Result::Err(e) => Result::Err(e),
        Result::Ok(tokens) => if tokens.len() != 3 {
            Result::Err(TransErrExpr::WrongNumberOfTokens("Range needs 3 tokens"@))
        } else {
            match unescaped_char_of(tokens[0], src) {
                Result::Err(e) => Result::Err(e),
                Result::Ok(lo) => match unescaped_char_of(tokens[2], src) {
                    Result::Err(e) => Result::Err(e),
                    Result::Ok(hi) => Result::Ok(RuleExpr::Range(lo, hi)),
                },
            }
        },
    }
}

/// Appends `x` unless it is already present; first occurrence wins.
pub open spec fn push_new(acc: Seq<Seq<char>>, x: Seq<char>) -> Seq<Seq<char>> {
    if acc.contains(x) {
        acc
    } else {
        acc.push(x)
    }
}

/// Collects the members of a class, threading range rules and the set of
/// bare characters through the member list.
pub open spec fn class_members_of(
    members: Seq<NodeExpr>,
    src: Seq<char>,
    parts: Seq<RuleExpr>,
    symbols: Seq<Seq<char>>,
) -> Result<(Seq<RuleExpr>, Seq<Seq<char>>), TransErrExpr>
    decreases nssize(members), 1int,
    via class_members_of_decreases
{
    if members.len() == 0 {
        Result::Ok((parts, symbols))
    } else {
        match tokens_of("ClassMember"@, members[0]) {
            Result::Err(e) => Result::Err(e),
            Result::Ok(tokens) => match class_member_tokens(tokens, src, parts, symbols) {
                Result::Err(e) => Result::Err(e),
                Result::Ok((parts2, symbols2)) => class_members_of(
                    members.drop_first(),
                    src,
                    parts2,
                    symbols2,
                ),
            },
        }
    }
}

#[via_fn]
proof fn class_members_of_decreases(
    members: Seq<NodeExpr>,
    src: Seq<char>,
    parts: Seq<RuleExpr>,
    symbols: Seq<Seq<char>>,
) {
    if members.len() > 0 {
        lemma_nssize_pos(members);
        lemma_nssize_elem(members, 0);
    }
}

/// One member's tokens: a bare `Char` joins the symbol set, anything else
/// must be a `Range`.
pub open spec fn class_member_tokens(
    tokens: Seq<NodeExpr>,
    src: Seq<char>,
    parts: Seq<RuleExpr>,
    symbols: Seq<Seq<char>>,
) -> Result<(Seq<RuleExpr>, Seq<Seq<char>>), TransErrExpr>
    decreases nssize(tokens), 0int,
    via class_member_tokens_decreases
{
    if tokens.len() == 0 {
        Result::Ok((parts, symbols))
    } else {
        if is_named("Char"@, tokens[0]) {
            match unescaped_char_of(tokens[0], src) {
                Result::Err(e) => Result::Err(e),
                Result::Ok(s) => class_member_tokens(
                    tokens.drop_first(),
                    src,
                    parts,
                    push_new(symbols, s),
                ),
            }
        } else {
            match range_of(tokens[0], src) {
                Result::Err(e) => Result::Err(e),
                Result::Ok(r) => class_member_tokens(
                    tokens.drop_first(),
                    src,
                    parts.push(r),
                    symbols,
                ),
            }
        }
    }
}

#[via_fn]
proof fn class_member_tokens_decreases(
    tokens: Seq<NodeExpr>,
    src: Seq<char>,
    parts: Seq<RuleExpr>,
    symbols: Seq<Seq<char>>,
) {
    if tokens.len() > 0 {
        lemma_nssize_pos(tokens);
    }
}

/// The rule a `Class` node lowers to: its ranges in order, with one
/// `Class` of the bare characters appended if any were present.
pub open spec fn class_of(n: NodeExpr, src: Seq<char>) -> Result<RuleExpr, TransErrExpr> {
    match tokens_of("Class"@, n) {
        Result::Err(e) => Result::Err(e),
        Result::Ok(tokens) => if tokens.len() < 3 {
            Result::Err(TransErrExpr::WrongNumberOfTokens("Class needs bracket tokens"@))
        } else {
            match class_members_of(
                tokens.subrange(1, tokens.len() - 2),
                src,
                Seq::empty(),
                Seq::empty(),
            ) {
                Result::Err(e) => Result::Err(e),
                Result::Ok((parts, symbols)) => {
                    let all = if symbols.len() > 0 {
                        parts.push(RuleExpr::Class(symbols))
                    } else {
                        parts
                    };
                    if all.len() == 0 {
                        Result::Ok(RuleExpr::Empty)
                    } else if all.len() == 1 {
                        Result::Ok(all[0])
                    } else {
                        Result::Ok(RuleExpr::Choice(all))
                    }
                },
            }
        },
    }
}

/// The concatenated unescaped characters of a literal's inner tokens.
pub open spec fn literal_chars(tokens: Seq<NodeExpr>, src: Seq<char>) -> Result<
    Seq<char>,
    TransErrExpr,
>
    decreases tokens,
{
    if tokens.len() == 0 {
        Result::Ok(Seq::empty())
    } else {
        match unescaped_char_of(tokens[0], src) {
            Result::Err(e) => Result::Err(e),
            Result::Ok(s) => match literal_chars(tokens.drop_first(), src) {
                Result::Err(e) => Result::Err(e),
                Result::Ok(rest) => Result::Ok(s + rest),
            },
        }
    }
}

/// The rule a `Literal` node lowers to.
pub open spec fn literal_of(n: NodeExpr, src: Seq<char>) -> Result<RuleExpr, TransErrExpr> {
    match tokens_of("Literal"@, n) {
        Result::Err(e) => Result::Err(e),
        Result::Ok(tokens) => if tokens.len() < 3 {
            Result::Err(TransErrExpr::WrongNumberOfTokens("Literal needs quote tokens"@))
        } else {
            match literal_chars(tokens.subrange(1, tokens.len() - 2), src) {
                Result::Err(e) => Result::Err(e),
                Result::Ok(content) => Result::Ok(RuleExpr::Literal(content)),
            }
        },
    }
}

/// Wraps `expr` according to a `Prefix` node: `&` for a positive and `!`
/// for a negative lookahead, nothing for an empty prefix.
pub open spec fn prefixed(n: NodeExpr, expr: RuleExpr) -> Result<RuleExpr, TransErrExpr> {
    match tokens_of("Prefix"@, n) {
        Result::Err(e) => Result::Err(e),
        Result::Ok(tokens) => if tokens.len() == 0 {
            Result::Ok(expr)
        } else if is_named("AND"@, tokens[0]) {
            Result::Ok(RuleExpr::And(Box::new(expr)))
        } else if is_named("NOT"@, tokens[0]) {
            Result::Ok(RuleExpr::Not(Box::new(expr)))
        } else {
            Result::Err(TransErrExpr::UnExpectedToken("Expected AND/NOT"@))
        },
    }
}

/// Wraps `expr` according to a `Suffix` node: `?`, `*` or `+`, nothing for
/// an empty suffix.
pub open spec fn suffixed(n: NodeExpr, expr: RuleExpr) -> Result<RuleExpr, TransErrExpr> {
    match tokens_of("Suffix"@, n) {
        Result::Err(e) => Result::Err(e),
        Result::Ok(tokens) => if tokens.len() == 0 {
            Result::Ok(expr)
        } else if is_named("QUESTION"@, tokens[0]) {
            Result::Ok(RuleExpr::Optional(Box::new(expr)))
        } else if is_named("STAR"@, tokens[0]) {
            Result::Ok(RuleExpr::ZeroOrMore(Box::new(expr)))
        } else if is_named("PLUS"@, tokens[0]) {
            Result::Ok(RuleExpr::OneOrMore(Box::new(expr)))
        } else {
            Result::Err(TransErrExpr::UnExpectedToken("Invalid suffix"@))
        },
    }
}

/// The rule a `Primary` node lowers to, with the names it references.
pub open spec fn primary_of(n: NodeExpr, src: Seq<char>) -> Result<
    (RuleExpr, Seq<Seq<char>>),
    TransErrExpr,
>
    decreases nsize(n), 0int,
    via primary_of_decreases
{
    match tokens_of("Primary"@, n) {
        Result::Err(e) => Result::Err(e),
        Result::Ok(tokens) => if tokens.len() == 3 && is_named("OPEN"@, tokens[0]) && is_named(
            "CLOSE"@,
            tokens[2],
        ) {
            expression_of(tokens[1], src)
        } else if tokens.len() == 1 {
            match name_of(tokens[0]) {
                Result::Err(e) => Result::Err(e),
                Result::Ok(name) => if name == "Identifier"@ {
                    match ident_of(tokens[0], src) {
                        Result::Err(e) => Result::Err(e),
                        Result::Ok(id) => Result::Ok((RuleExpr::NonTerminal(id), seq![id])),
                    }
                } else if name == "Literal"@ {
                    match literal_of(tokens[0], src) {
                        Result::Err(e) => Result::Err(e),
                        Result::Ok(r) => Result::Ok((r, Seq::empty())),
                    }
                } else if name == "Class"@ {
                    match class_of(tokens[0], src) {
                        Result::Err(e) => Result::Err(e),
                        Result::Ok(r) => Result::Ok((r, Seq::empty())),
                    }
                } else if name == "DOT"@ {
                    Result::Ok((RuleExpr::Any, Seq::empty()))
                } else {
                    Result::Err(TransErrExpr::UnExpectedToken("Invalid primary"@))
                },
            }
        } else {
            Result::Err(TransErrExpr::WrongNumberOfTokens("Primary needs 1 or 3 tokens"@))
        },
    }
}

#[via_fn]
proof fn primary_of_decreases(n: NodeExpr, src: Seq<char>) {
    match tokens_of("Primary"@, n) {
        Result::Ok(tokens) => {
            if tokens.len() == 3 {
                lemma_nssize_elem(tokens, 1);
            }
        },
        Result::Err(_) => {},
    }
}

/// The chunks of three tokens of a `Sequence` node: prefix, primary,
/// suffix; a trailing partial chunk is ignored.
pub open spec fn sequence_chunks(tokens: Seq<NodeExpr>, src: Seq<char>) -> Result<
    (Seq<RuleExpr>, Seq<Seq<char>>),
    TransErrExpr,
>
    decreases nssize(tokens), 2int,
    via sequence_chunks_decreases
{
    if tokens.len() < 3 {
        Result::Ok((Seq::empty(), Seq::empty()))
    } else {
        match primary_of(tokens[1], src) {
            Result::Err(e) => Result::Err(e),
            Result::Ok((expr0, refs)) => match suffixed(tokens[2], expr0) {
                Result::Err(e) => Result::Err(e),
                Result::Ok(expr1) => match prefixed(tokens[0], expr1) {
                    Result::Err(e) => Result::Err(e),
                    Result::Ok(expr) => match sequence_chunks(tokens.skip(3), src) {
                        Result::Err(e) => Result::Err(e),
                        Result::Ok((exprs, more)) => Result::Ok(
                            (seq![expr] + exprs, refs + more),
                        ),
                    },
                },
            },
        }
    }
}

#[via_fn]
proof fn sequence_chunks_decreases(tokens: Seq<NodeExpr>, src: Seq<char>) {
    if tokens.len() >= 3 {
        lemma_nssize_elem(tokens, 1);
        lemma_nssize_skip(tokens, 3);
    }
}

/// The rule a `Sequence` node lowers to, with the names it references.
pub open spec fn sequence_of(n: NodeExpr, src: Seq<char>) -> Result<
    (RuleExpr, Seq<Seq<char>>),
    TransErrExpr,
>
    decreases nsize(n), 3int,
{
    match tokens_of("Sequence"@, n) {
        Result::Err(e) => Result::Err(e),
        Result::Ok(tokens) => match sequence_chunks(tokens, src) {
            Result::Err(e) => Result::Err(e),
            Result::Ok((exprs, refs)) => if exprs.len() == 0 {
                Result::Ok((RuleExpr::Empty, refs))
            } else if exprs.len() == 1 {
                Result::Ok((exprs[0], refs))
            } else {
                Result::Ok((RuleExpr::Sequence(exprs), refs))
            },
        },
    }
}

/// The chunks of two tokens of an `Expression` node: a sequence, then a
/// `SLASH` before each further sequence.
pub open spec fn expression_chunks(tokens: Seq<NodeExpr>, src: Seq<char>) -> Result<
    (Seq<RuleExpr>, Seq<Seq<char>>),
    TransErrExpr,
>
    decreases nssize(tokens), 4int,
    via expression_chunks_decreases
{
    if tokens.len() == 0 {
        Result::Ok((Seq::empty(), Seq::empty()))
    } else {
        match sequence_of(tokens[0], src) {
            Result::Err(e) => Result::Err(e),
            Result::Ok((expr, refs)) => {
                if tokens.len() >= 2 && !is_named("SLASH"@, tokens[1]) {
                    Result::Err(TransErrExpr::UnExpectedToken("SLASH"@))
                } else {
                    let rest = if tokens.len() >= 2 {
                        tokens.skip(2)
                    } else {
                        Seq::empty()
                    };
                    match expression_chunks(rest, src) {
                        Result::Err(e) => Result::Err(e),
                        Result::Ok((exprs, more)) => Result::Ok(
                            (seq![expr] + exprs, refs + more),
                        ),
                    }
                }
            },
        }
    }
}

#[via_fn]
proof fn expression_chunks_decreases(tokens: Seq<NodeExpr>, src: Seq<char>) {
    if tokens.len() > 0 {
        lemma_nssize_elem(tokens, 0);
        if tokens.len() >= 2 {
            lemma_nssize_skip(tokens, 2);
        }
    }
}

/// The rule an `Expression` node lowers to, with the names it references.
pub open spec fn expression_of(n: NodeExpr, src: Seq<char>) -> Result<
    (RuleExpr, Seq<Seq<char>>),
    TransErrExpr,
>
    decreases nsize(n), 5int,
{
    match tokens_of("Expression"@, n) {
        Result::Err(e) => Result::Err(e),
        Result::Ok(tokens) => match expression_chunks(tokens, src) {
            Result::Err(e) => Result::Err(e),
            Result::Ok((exprs, refs)) => if exprs.len() == 0 {
                Result::Ok((RuleExpr::Empty, refs))
            } else if exprs.len() == 1 {
                Result::Ok((exprs[0], refs))
            } else {
                Result::Ok((RuleExpr::Choice(exprs), refs))
            },
        },
    }
}

/// What one `Definition` node defines: a name, its rule, and the names the
/// rule references.
pub open spec fn definition_of(n: NodeExpr, src: Seq<char>) -> Result<
    (Seq<char>, RuleExpr, Seq<Seq<char>>),
    TransErrExpr,
> {
    match tokens_of("Definition"@, n) {
        Result::Err(e) => Result::Err(e),
        Result::Ok(tokens) => if tokens.len() != 3 {
            Result::Err(TransErrExpr::WrongNumberOfTokens("Definition needs 3 tokens"@))
        } else {
            match ident_of(tokens[0], src) {
                Result::Err(e) => Result::Err(e),
                Result::Ok(name) => if !is_named("LEFTARROW"@, tokens[1]) {
                    Result::Err(TransErrExpr::UnExpectedToken("LEFTARROW"@))
                } else {
                    match expression_of(tokens[2], src) {
                        Result::Err(e) => Result::Err(e),
                        Result::Ok((expr, refs)) => Result::Ok((name, expr, refs)),
                    }
                },
            }
        },
    }
}

/// Appends each element of `new` that `acc` does not hold yet, in order.
pub open spec fn dedup_append(acc: Seq<Seq<char>>, new: Seq<Seq<char>>) -> Seq<Seq<char>>
    decreases new,
{
    if new.len() == 0 {
        acc
    } else {
        dedup_append(push_new(acc, new[0]), new.drop_first())
    }
}

/// Walks the definitions of a grammar's tokens, stopping at `EndOfFile`:
/// the bindings in order, and every referenced name in order of first
/// reference.
pub open spec fn definitions_of(
    tokens: Seq<NodeExpr>,
    src: Seq<char>,
    refs: Seq<Seq<char>>,
) -> Result<(Seq<(Seq<char>, RuleExpr)>, Seq<Seq<char>>), TransErrExpr>
    decreases tokens,
{
    if tokens.len() == 0 {
        Result::Ok((Seq::empty(), refs))
    } else if is_named("EndOfFile"@, tokens[0]) {
        Result::Ok((Seq::empty(), refs))
    } else {
        match definition_of(tokens[0], src) {
            Result::Err(e) => Result::Err(e),
            Result::Ok((name, expr, new_refs)) => {
                match definitions_of(tokens.drop_first(), src, dedup_append(refs, new_refs)) {
                    Result::Err(e) => Result::Err(e),
                    Result::Ok((defs, all_refs)) => Result::Ok(
                        (seq![(name, expr)] + defs, all_refs),
                    ),
                }
            },
        }
    }
}

/// The map of a list of bindings, later bindings shadowing earlier ones.
pub open spec fn map_of_defs(defs: Seq<(Seq<char>, RuleExpr)>) -> Map<Seq<char>, RuleExpr>
    decreases defs,
{
    if defs.len() == 0 {
        Map::empty()
    } else {
        map_of_defs(defs.drop_last()).insert(defs.last().0, defs.last().1)
    }
}

/// The names bound by a list of bindings.
pub open spec fn def_names(defs: Seq<(Seq<char>, RuleExpr)>) -> Seq<Seq<char>> {
    defs.map_values(|d: (Seq<char>, RuleExpr)| d.0)
}

/// The referenced names that no definition binds, in order of first
/// reference.
pub open spec fn undefined_refs(
    defs: Seq<(Seq<char>, RuleExpr)>,
    refs: Seq<Seq<char>>,
) -> Seq<Seq<char>>
    decreases refs,
{
    if refs.len() == 0 {
        Seq::empty()
    } else if def_names(defs).contains(refs[0]) {
        undefined_refs(defs, refs.drop_first())
    } else {
        seq![refs[0]] + undefined_refs(defs, refs.drop_first())
    }
}

/// The names joined with `", "` between them.
pub open spec fn joined_names(names: Seq<Seq<char>>) -> Seq<char>
    decreases names,
{
    if names.len() == 0 {
        Seq::empty()
    } else if names.len() == 1 {
        names[0]
    } else {
        names[0] + ", "@ + joined_names(names.drop_first())
    }
}

/// What the grammar's definition tokens lower to: the rule map, unless a
/// definition is malformed or a referenced name is never defined.
pub open spec fn grammar_rules_of(tokens: Seq<NodeExpr>, src: Seq<char>) -> Result<
    Seq<(Seq<char>, RuleExpr)>,
    TransErrExpr,
> {
    let rest = if tokens.len() == 0 {
        tokens
    } else {
        tokens.drop_first()
    };
    match definitions_of(rest, src, Seq::empty()) {
        Result::Err(e) => Result::Err(e),
        Result::Ok((defs, refs)) => {
            let undefined = undefined_refs(defs, refs);
            if undefined.len() > 0 {
                Result::Err(
                    TransErrExpr::AmbiguousNonTerminal(
                        "Missing rules: ["@ + joined_names(undefined) + "]!"@,
                    ),
                )
            } else {
                Result::Ok(defs)
            }
        },
    }
}

/// What a whole syntax tree lowers to: the bindings of its one `text`
/// root, or the error that says how the root is wrong.
pub open spec fn lowered(cst: Seq<NodeExpr>, src: Seq<char>) -> Result<
    Seq<(Seq<char>, RuleExpr)>,
    TransErrExpr,
> {
    if cst.len() == 1 {
        match cst[0] {
            NodeExpr::NonTerminal { name, children, .. } => if name == "text"@ {
                grammar_rules_of(children, src)
            } else {
                Result::Err(
                    TransErrExpr::CstShouldStartWithGrammar(
                        "Found '"@ + name + "' instead!"@,
                    ),
                )
            },
            NodeExpr::Terminal { .. } => Result::Err(
                TransErrExpr::CstShouldOnlyHaveOneRoot("Invalid root structure"@),
            ),
        }
    } else {
        Result::Err(TransErrExpr::CstShouldOnlyHaveOneRoot("Invalid root structure"@))
    }
}

/// Whether two pieces of text spell the same characters.
fn names_equal(a: &str, b: &str) -> (r: bool)
    ensures
        r == (a@ == b@),
{
    let sa = String::from_str(a);
    let sb = String::from_str(b);
    sa.eq(&sb)
}

/// Lowers the syntax tree the bootstrap produced for a grammar text into a
/// compiled grammar; `source` is that same text, which the tree's spans
/// index into.
pub struct Transformer<'a> {
    pub source: &'a str,
}

impl Transformer<'_> {
    /// The characters of the source in `[lo, hi)`, empty when out of range.
    fn slice_string(&self, lo: usize, hi: usize) -> (r: String)
        ensures
            r@ == slice_of(self.source@, lo as int, hi as int),
    {
        if lo <= hi {
            let n = self.source.unicode_len();
            if hi <= n {
                self.source.substring_char(lo, hi).to_owned()
            } else {
                String::new()
            }
        } else {
            String::new()
        }
    }

    /// Replaces each two-character escape in `s` by the character it names.
    fn unescape_string(&self, s: &String) -> (r: String)
        ensures
            r@ == unescaped(s@),
    {
        let n = s.as_str().unicode_len();
        let mut out = String::new();
        let mut i: usize = 0;
        proof {
            assert(s@.skip(0) =~= s@);
            assert(out@ + unescaped(s@) =~= unescaped(s@));
        }
        while i < n
            invariant
                i <= n,
                n == s@.len(),
                out@ + unescaped(s@.skip(i as int)) == unescaped(s@),
            decreases n - i,
        {
            let c = s.as_str().get_char(i);
            if c == '\\' && i + 1 < n {
                let d = s.as_str().get_char(i + 1);
                if d == '\'' || d == '"' || d == '[' || d == ']' || d == '\\' {
                    let piece = s.as_str().substring_char(i + 1, i + 2);
                    let ghost out0 = out@;
                    out.append(piece);
                    proof {
                        let rest = s@.skip(i as int);
                        assert(rest[0] == s@[i as int]);
                        assert(rest[1] == s@[i + 1]);
                        assert(rest.skip(2) =~= s@.skip(i + 2));
                        assert(unescaped(rest) == seq![rest[1]] + unescaped(s@.skip(i + 2)));
                        assert(piece@ =~= seq![s@[i + 1]]);
                        assert((out0 + piece@) + unescaped(s@.skip(i + 2)) =~= out0 + (piece@
                            + unescaped(s@.skip(i + 2))));
                        assert(piece@ + unescaped(s@.skip(i + 2)) =~= unescaped(rest));
                    }
                    i = i + 2;
                    continue ;
                }
            }
            let piece = s.as_str().substring_char(i, i + 1);
            let ghost out0 = out@;
            out.append(piece);
            proof {
                let rest = s@.skip(i as int);
                assert(rest[0] == s@[i as int]);
                assert(rest.skip(1) =~= s@.skip(i + 1));
                if rest.len() >= 2 && rest[0] == '\\' && is_escapable(rest[1]) {
                    assert(s@[i + 1] == rest[1]);
                    assert(false);
                }
                assert(unescaped(rest) == seq![rest[0]] + unescaped(s@.skip(i + 1)));
                assert(piece@ =~= seq![s@[i as int]]);
                assert((out0 + piece@) + unescaped(s@.skip(i + 1)) =~= out0 + (piece@
                    + unescaped(s@.skip(i + 1))));
                assert(piece@ + unescaped(s@.skip(i + 1)) =~= unescaped(rest));
            }
            i = i + 1;
        }
        proof {
            assert(s@.skip(n as int) =~= Seq::<char>::empty());
            assert(out@ + Seq::<char>::empty() =~= out@);
        }
        out
    }

    /// The children of a non-terminal node named `name`.
    pub fn get_tokens<'x>(name: &str, parse_node: &'x ParseNode) -> (res: Result<
        &'x Vec<ParseNode>,
        TransformError,
    >)
        ensures
            match res {
                Result::Ok(toks) => tokens_of(name@, parse_node@) == Result::<
                    Seq<NodeExpr>,
                    TransErrExpr,
                >::Ok(node_views(toks@)),
                Result::Err(e) => tokens_of(name@, parse_node@) == Result::<
                    Seq<NodeExpr>,
                    TransErrExpr,
                >::Err(e@),
            },
    {
        match parse_node {
            ParseNode::NonTerminal { name: nn, children, .. } => {
                if names_equal(nn.as_str(), name) {
                    Result::Ok(children)
                } else {
                    let mut msg = String::from_str("Expected ");
                    msg.append(name);
                    msg.append(", got ");
                    msg.append(nn.as_str());
                    Result::Err(TransformError::UnExpectedToken(msg))
                }
            },
            ParseNode::Terminal { .. } => {
                let mut msg = String::from_str("Expected ");
                msg.append(name);
                Result::Err(TransformError::UnExpectedToken(msg))
            },
        }
    }

    /// Whether the node is a non-terminal with the given name.
    pub fn is_token(name: &str, parse_node: &ParseNode) -> (r: bool)
        ensures
            r == is_named(name@, parse_node@),
    {
        match parse_node {
            ParseNode::NonTerminal { name: nn, .. } => names_equal(nn.as_str(), name),
            ParseNode::Terminal { .. } => false,
        }
    }

    /// The name of a non-terminal node.
    pub fn get_name<'x>(parse_node: &'x ParseNode) -> (res: Result<&'x str, TransformError>)
        ensures
            match res {
                Result::Ok(n) => name_of(parse_node@) == Result::<
                    Seq<char>,
                    TransErrExpr,
                >::Ok(n@),
                Result::Err(e) => name_of(parse_node@) == Result::<
                    Seq<char>,
                    TransErrExpr,
                >::Err(e@),
            },
    {
        match parse_node {
            ParseNode::NonTerminal { name, .. } => Result::Ok(name.as_str()),
            ParseNode::Terminal { .. } => Result::Err(
                TransformError::UnExpectedToken(String::from_str("Expected non-terminal")),
            ),
        }
    }

    /// The source text of the leading terminals of `tokens[i..]`, up to the
    /// trailing `Spacing`.
    fn ident_chars_from(&self, tokens: &Vec<ParseNode>, i: usize) -> (r: String)
        requires
            i <= tokens@.len(),
        ensures
            r@ == ident_chars(node_views(tokens@).skip(i as int), self.source@),
        decreases tokens@.len() - i,
    {
        proof {
            lemma_node_views(tokens@);
        }
        if i == tokens.len() {
            proof {
                assert(node_views(tokens@).skip(i as int) =~= Seq::<NodeExpr>::empty());
            }
            String::new()
        } else {
            let ghost suffix = node_views(tokens@).skip(i as int);
            proof {
                assert(suffix[0] == tokens@[i as int]@);
                assert(suffix.drop_first() =~= node_views(tokens@).skip(i + 1));
            }
            if Self::is_token("Spacing", &tokens[i]) {
                String::new()
            } else {
                let head = match &tokens[i] {
                    ParseNode::Terminal { span } => self.slice_string(span.0, span.1),
                    ParseNode::NonTerminal { .. } => String::new(),
                };
                let rest = self.ident_chars_from(tokens, i + 1);
                head.concat(rest.as_str())
            }
        }
    }

    /// The identifier a node spells; the empty identifier is an error.
    pub fn extract_identifier(&self, parse_node: &ParseNode) -> (res: Result<
        String,
        TransformError,
    >)
        ensures
            match res {
                Result::Ok(s) => ident_of(parse_node@, self.source@) == Result::<
                    Seq<char>,
                    TransErrExpr,
                >::Ok(s@),
                Result::Err(e) => ident_of(parse_node@, self.source@) == Result::<
                    Seq<char>,
                    TransErrExpr,
                >::Err(e@),
            },
    {
        match Self::get_tokens("Identifier", parse_node) {
            Result::Err(e) => Result::Err(e),
            Result::Ok(tokens) => {
                let s = self.ident_chars_from(tokens, 0);
                proof {
                    assert(node_views(tokens@).skip(0) =~= node_views(tokens@));
                }
                if s.as_str().is_empty() {
                    Result::Err(TransformError::EmptyIdentifier)
                } else {
                    Result::Ok(s)
                }
            },
        }
    }

    /// The unescaped source text of a `Char` node.
    pub fn unescape_char(&self, parse_node: &ParseNode) -> (res: Result<String, TransformError>)
        ensures
            match res {
                Result::Ok(s) => unescaped_char_of(parse_node@, self.source@) == Result::<
                    Seq<char>,
                    TransErrExpr,
                >::Ok(s@),
                Result::Err(e) => unescaped_char_of(parse_node@, self.source@) == Result::<
                    Seq<char>,
                    TransErrExpr,
                >::Err(e@),
            },
    {
        match parse_node {
            ParseNode::NonTerminal { name, span, .. } => {
                if names_equal(name.as_str(), "Char") {
                    let raw = self.slice_string(span.0, span.1);
                    Result::Ok(self.unescape_string(&raw))
                } else {
                    Result::Err(
                        TransformError::UnExpectedToken(
                            String::from_str("Invalid char parse_node"),
                        ),
                    )
                }
            },
            ParseNode::Terminal { .. } => Result::Err(
                TransformError::UnExpectedToken(String::from_str("Invalid char parse_node")),
            ),
        }
    }

    /// The rule a `Range` node lowers to.
    pub fn convert_range(&self, parse_node: &ParseNode) -> (res: Result<Rule, TransformError>)
        ensures
            match res {
                Result::Ok(r) => range_of(parse_node@, self.source@) == Result::<
                    RuleExpr,
                    TransErrExpr,
                >::Ok(r@),
                Result::Err(e) => range_of(parse_node@, self.source@) == Result::<
                    RuleExpr,
                    TransErrExpr,
                >::Err(e@),
            },
    {
        let tokens = match Self::get_tokens("Range", parse_node) {
            Result::Err(e) => {
                return Result::Err(e);
            },
            Result::Ok(t) => t,
        };
        proof {
            lemma_node_views(tokens@);
        }
        if tokens.len() != 3 {
            return Result::Err(
                TransformError::WrongNumberOfTokens(String::from_str("Range needs 3 tokens")),
            );
        }
        let lo = match self.unescape_char(&tokens[0]) {
            Result::Err(e) => {
                return Result::Err(e);
            },
            Result::Ok(s) => s,
        };
        let hi = match self.unescape_char(&tokens[2]) {
            Result::Err(e) => {
                return Result::Err(e);
            },
            Result::Ok(s) => s,
        };
        Result::Ok(Rule::Range(lo, hi))
    }

    /// The concatenated unescaped characters of `tokens[i..end]`.
    fn literal_chars_range(&self, tokens: &Vec<ParseNode>, i: usize, end: usize) -> (res: Result<
        String,
        TransformError,
    >)
        requires
            i <= end <= tokens@.len(),
        ensures
            match res {
                Result::Ok(s) => literal_chars(
                    node_views(tokens@).subrange(i as int, end as int),
                    self.source@,
                ) == Result::<Seq<char>, TransErrExpr>::Ok(s@),
                Result::Err(e) => literal_chars(
                    node_views(tokens@).subrange(i as int, end as int),
                    self.source@,
                ) == Result::<Seq<char>, TransErrExpr>::Err(e@),
            },
        decreases end - i,
    {
        proof {
            lemma_node_views(tokens@);
        }
        if i == end {
            proof {
                assert(node_views(tokens@).subrange(i as int, end as int) =~= Seq::<
                    NodeExpr,
                >::empty());
            }
            Result::Ok(String::new())
        } else {
            let ghost part = node_views(tokens@).subrange(i as int, end as int);
            proof {
                assert(part[0] == tokens@[i as int]@);
                assert(part.drop_first() =~= node_views(tokens@).subrange(i + 1, end as int));
            }
            match self.unescape_char(&tokens[i]) {
                Result::Err(e) => Result::Err(e),
                Result::Ok(s) => match self.literal_chars_range(tokens, i + 1, end) {
                    Result::Err(e) => Result::Err(e),
                    Result::Ok(rest) => Result::Ok(s.concat(rest.as_str())),
                },
            }
        }
    }

    /// The rule a `Literal` node lowers to.
    pub fn convert_literal(&self, parse_node: &ParseNode) -> (res: Result<Rule, TransformError>)
        ensures
            match res {
                Result::Ok(r) => literal_of(parse_node@, self.source@) == Result::<
                    RuleExpr,
                    TransErrExpr,
                >::Ok(r@),
                Result::Err(e) => literal_of(parse_node@, self.source@) == Result::<
                    RuleExpr,
                    TransErrExpr,
                >::Err(e@),
            },
    {
        let tokens = match Self::get_tokens("Literal", parse_node) {
            Result::Err(e) => {
                return Result::Err(e);
            },
            Result::Ok(t) => t,
        };
        proof {
            lemma_node_views(tokens@);
        }
        if tokens.len() < 3 {
            return Result::Err(
                TransformError::WrongNumberOfTokens(
                    String::from_str("Literal needs quote tokens"),
                ),
            );
        }
        match self.literal_chars_range(tokens, 1, tokens.len() - 2) {
            Result::Err(e) => Result::Err(e),
            Result::Ok(content) => Result::Ok(Rule::Literal(content)),
        }
    }

    /// Wraps `expr` according to a `Prefix` node.
    pub fn apply_prefix(&self, parse_node: &ParseNode, expr: Rule) -> (res: Result<
        Rule,
        TransformError,
    >)
        ensures
            match res {
                Result::Ok(r) => prefixed(parse_node@, expr@) == Result::<
                    RuleExpr,
                    TransErrExpr,
                >::Ok(r@),
                Result::Err(e) => prefixed(parse_node@, expr@) == Result::<
                    RuleExpr,
                    TransErrExpr,
                >::Err(e@),
            },
    {
        let tokens = match Self::get_tokens("Prefix", parse_node) {
            Result::Err(e) => {
                return Result::Err(e);
            },
            Result::Ok(t) => t,
        };
        proof {
            lemma_node_views(tokens@);
        }
        if tokens.len() == 0 {
            Result::Ok(expr)
        } else if Self::is_token("AND", &tokens[0]) {
            Result::Ok(Rule::And(expr.boxed()))
        } else if Self::is_token("NOT", &tokens[0]) {
            Result::Ok(Rule::Not(expr.boxed()))
        } else {
            Result::Err(TransformError::UnExpectedToken(String::from_str("Expected AND/NOT")))
        }
    }

    /// Wraps `expr` according to a `Suffix` node.
    pub fn apply_suffix(&self, parse_node: &ParseNode, expr: Rule) -> (res: Result<
        Rule,
        TransformError,
    >)
        ensures
            match res {
                Result::Ok(r) => suffixed(parse_node@, expr@) == Result::<
                    RuleExpr,
                    TransErrExpr,
                >::Ok(r@),
                Result::Err(e) => suffixed(parse_node@, expr@) == Result::<
                    RuleExpr,
                    TransErrExpr,
                >::Err(e@),
            },
    {
        let tokens = match Self::get_tokens("Suffix", parse_node) {
            Result::Err(e) => {
                return Result::Err(e);
            },
            Result::Ok(t) => t,
        };
        proof {
            lemma_node_views(tokens@);
        }
        if tokens.len() == 0 {
            Result::Ok(expr)
        } else if Self::is_token("QUESTION", &tokens[0]) {
            Result::Ok(Rule::Optional(expr.boxed()))
        } else if Self::is_token("STAR", &tokens[0]) {
            Result::Ok(Rule::ZeroOrMore(expr.boxed()))
        } else if Self::is_token("PLUS", &tokens[0]) {
            Result::Ok(Rule::OneOrMore(expr.boxed()))
        } else {
            Result::Err(TransformError::UnExpectedToken(String::from_str("Invalid suffix")))
        }
    }
}

/// Appends `x` to the names unless it is already among them.
fn push_symbol(symbols: Vec<String>, x: String) -> (r: Vec<String>)
    ensures
        refs_view(r@) == push_new(refs_view(symbols@), x@),
{
    let mut i: usize = 0;
    while i < symbols.len()
        invariant
            i <= symbols@.len(),
            forall|j: int| 0 <= j < i ==> (#[trigger] symbols@[j])@ != x@,
        decreases symbols@.len() - i,
    {
        if symbols[i].eq(&x) {
            proof {
                assert(refs_view(symbols@)[i as int] == x@);
                assert(refs_view(symbols@).contains(x@));
            }
            return symbols;
        }
        i = i + 1;
    }
    proof {
        if refs_view(symbols@).contains(x@) {
            let k = choose|k: int|
                0 <= k < refs_view(symbols@).len() && refs_view(symbols@)[k] == x@;
            assert(symbols@[k]@ == x@);
            assert(false);
        }
    }
    let ghost sym0 = symbols@;
    let mut symbols = symbols;
    symbols.push(x);
    proof {
        assert(refs_view(symbols@) =~= push_new(refs_view(sym0), x@));
    }
    symbols
}

impl Transformer<'_> {
    /// Folds the tokens of one class member from index `i` on.
    fn class_member_tokens_from(
        &self,
        tokens: &Vec<ParseNode>,
        i: usize,
        parts: Vec<Rule>,
        symbols: Vec<String>,
    ) -> (res: Result<(Vec<Rule>, Vec<String>), TransformError>)
        requires
            i <= tokens@.len(),
        ensures
            match res {
                Result::Ok(out) => class_member_tokens(
                    node_views(tokens@).skip(i as int),
                    self.source@,
                    rule_views(parts@),
                    refs_view(symbols@),
                ) == Result::<(Seq<RuleExpr>, Seq<Seq<char>>), TransErrExpr>::Ok(
                    (rule_views(out.0@), refs_view(out.1@)),
                ),
                Result::Err(e) => class_member_tokens(
                    node_views(tokens@).skip(i as int),
                    self.source@,
                    rule_views(parts@),
                    refs_view(symbols@),
                ) == Result::<(Seq<RuleExpr>, Seq<Seq<char>>), TransErrExpr>::Err(e@),
            },
        decreases tokens@.len() - i,
    {
        proof {
            lemma_node_views(tokens@);
        }
        if i == tokens.len() {
            proof {
                assert(node_views(tokens@).skip(i as int) =~= Seq::<NodeExpr>::empty());
            }
            Result::Ok((parts, symbols))
        } else {
            let ghost suffix = node_views(tokens@).skip(i as int);
            proof {
                assert(suffix[0] == tokens@[i as int]@);
                assert(suffix.drop_first() =~= node_views(tokens@).skip(i + 1));
            }
            if Self::is_token("Char", &tokens[i]) {
                match self.unescape_char(&tokens[i]) {
                    Result::Err(e) => Result::Err(e),
                    Result::Ok(s) => {
                        let symbols = push_symbol(symbols, s);
                        self.class_member_tokens_from(tokens, i + 1, parts, symbols)
                    },
                }
            } else {
                match self.convert_range(&tokens[i]) {
                    Result::Err(e) => Result::Err(e),
                    Result::Ok(r) => {
                        let ghost rv = r@;
                        let ghost pseq0 = parts@;
                        let mut parts = parts;
                        parts.push(r);
                        proof {
                            assert(parts@ == pseq0.push(parts@.last()));
                            crate::rule::lemma_rule_views_push(pseq0, parts@.last());
                            assert(rule_views(parts@) == rule_views(pseq0).push(rv));
                        }
                        self.class_member_tokens_from(tokens, i + 1, parts, symbols)
                    },
                }
            }
        }
    }

    /// Folds the members `tokens[i..end]` of a class.
    fn class_members_range(
        &self,
        tokens: &Vec<ParseNode>,
        i: usize,
        end: usize,
        parts: Vec<Rule>,
        symbols: Vec<String>,
    ) -> (res: Result<(Vec<Rule>, Vec<String>), TransformError>)
        requires
            i <= end <= tokens@.len(),
        ensures
            match res {
                Result::Ok(out) => class_members_of(
                    node_views(tokens@).subrange(i as int, end as int),
                    self.source@,
                    rule_views(parts@),
                    refs_view(symbols@),
                ) == Result::<(Seq<RuleExpr>, Seq<Seq<char>>), TransErrExpr>::Ok(
                    (rule_views(out.0@), refs_view(out.1@)),
                ),
                Result::Err(e) => class_members_of(
                    node_views(tokens@).subrange(i as int, end as int),
                    self.source@,
                    rule_views(parts@),
                    refs_view(symbols@),
                ) == Result::<(Seq<RuleExpr>, Seq<Seq<char>>), TransErrExpr>::Err(e@),
            },
        decreases end - i,
    {
        proof {
            lemma_node_views(tokens@);
        }
        if i == end {
            proof {
                assert(node_views(tokens@).subrange(i as int, end as int) =~= Seq::<
                    NodeExpr,
                >::empty());
            }
            Result::Ok((parts, symbols))
        } else {
            let ghost part = node_views(tokens@).subrange(i as int, end as int);
            proof {
                assert(part[0] == tokens@[i as int]@);
                assert(part.drop_first() =~= node_views(tokens@).subrange(i + 1, end as int));
            }
            match Self::get_tokens("ClassMember", &tokens[i]) {
                Result::Err(e) => Result::Err(e),
                Result::Ok(member_tokens) => {
                    proof {
                        assert(node_views(member_tokens@).skip(0) =~= node_views(member_tokens@));
                    }
                    match self.class_member_tokens_from(member_tokens, 0, parts, symbols) {
                        Result::Err(e) => Result::Err(e),
                        Result::Ok((parts2, symbols2)) => self.class_members_range(
                            tokens,
                            i + 1,
                            end,
                            parts2,
                            symbols2,
                        ),
                    }
                },
            }
        }
    }

    /// The rule a `Class` node lowers to.
    pub fn convert_class(&self, parse_node: &ParseNode) -> (res: Result<Rule, TransformError>)
        ensures
            match res {
                Result::Ok(r) => class_of(parse_node@, self.source@) == Result::<
                    RuleExpr,
                    TransErrExpr,
                >::Ok(r@),
                Result::Err(e) => class_of(parse_node@, self.source@) == Result::<
                    RuleExpr,
                    TransErrExpr,
                >::Err(e@),
            },
    {
        let tokens = match Self::get_tokens("Class", parse_node) {
            Result::Err(e) => {
                return Result::Err(e);
            },
            Result::Ok(t) => t,
        };
        proof {
            lemma_node_views(tokens@);
        }
        if tokens.len() < 3 {
            return Result::Err(
                TransformError::WrongNumberOfTokens(
                    String::from_str("Class needs bracket tokens"),
                ),
            );
        }
        let empty_parts: Vec<Rule> = Vec::new();
        let empty_symbols: Vec<String> = Vec::new();
        proof {
            assert(rule_views(empty_parts@) =~= Seq::<RuleExpr>::empty());
            assert(refs_view(empty_symbols@) =~= Seq::<Seq<char>>::empty());
        }
        match self.class_members_range(tokens, 1, tokens.len() - 2, empty_parts, empty_symbols) {
            Result::Err(e) => Result::Err(e),
            Result::Ok((parts, symbols)) => {
                let ghost partsv = rule_views(parts@);
                let ghost symbolsv = refs_view(symbols@);
                let ghost symseq = symbols@;
                let mut all = parts;
                if symbols.len() > 0 {
                    let class_rule = Rule::Class(symbols);
                    proof {
                        assert(class_rule@ == RuleExpr::Class(
                            Seq::new(symseq.len(), |k: int| symseq[k]@),
                        ));
                        assert(Seq::new(symseq.len(), |k: int| symseq[k]@) =~= symbolsv);
                    }
                    let ghost allseq0 = all@;
                    all.push(class_rule);
                    proof {
                        assert(all@ == allseq0.push(all@.last()));
                        crate::rule::lemma_rule_views_push(allseq0, all@.last());
                        assert(rule_views(all@) == rule_views(allseq0).push(
                            RuleExpr::Class(symbolsv),
                        ));
                    }
                }
                proof {
                    crate::rule::lemma_rule_views(all@);
                }
                if all.len() == 0 {
                    Result::Ok(Rule::Empty)
                } else if all.len() == 1 {
                    let mut all = all;
                    let first = all.remove(0);
                    Result::Ok(first)
                } else {
                    Result::Ok(Rule::Choice(all))
                }
            },
        }
    }
}

impl Transformer<'_> {
    /// The rule a `Primary` node lowers to, with the names it references.
    pub fn convert_primary(&self, parse_node: &ParseNode) -> (res: Result<
        (Rule, Vec<String>),
        TransformError,
    >)
        ensures
            match res {
                Result::Ok(out) => primary_of(parse_node@, self.source@) == Result::<
                    (RuleExpr, Seq<Seq<char>>),
                    TransErrExpr,
                >::Ok((out.0@, refs_view(out.1@))),
                Result::Err(e) => primary_of(parse_node@, self.source@) == Result::<
                    (RuleExpr, Seq<Seq<char>>),
                    TransErrExpr,
                >::Err(e@),
            },
        decreases nsize(parse_node@), 0int,
    {
        let tokens = match Self::get_tokens("Primary", parse_node) {
            Result::Err(e) => {
                return Result::Err(e);
            },
            Result::Ok(t) => t,
        };
        proof {
            lemma_node_views(tokens@);
            assert(nsize(parse_node@) == nssize(node_views(tokens@)) + 1);
        }
        if tokens.len() == 3 && Self::is_token("OPEN", &tokens[0]) && Self::is_token(
            "CLOSE",
            &tokens[2],
        ) {
            proof {
                lemma_nssize_elem(node_views(tokens@), 1);
            }
            self.convert_rule(&tokens[1])
        } else if tokens.len() == 1 {
            let name = match Self::get_name(&tokens[0]) {
                Result::Err(e) => {
                    return Result::Err(e);
                },
                Result::Ok(n) => n,
            };
            if names_equal(name, "Identifier") {
                match self.extract_identifier(&tokens[0]) {
                    Result::Err(e) => Result::Err(e),
                    Result::Ok(id) => {
                        let ghost idv = id@;
                        let mut refs: Vec<String> = Vec::new();
                        refs.push(id.clone());
                        proof {
                            assert(refs_view(refs@) =~= seq![idv]);
                        }
                        Result::Ok((Rule::NonTerminal(id), refs))
                    },
                }
            } else if names_equal(name, "Literal") {
                match self.convert_literal(&tokens[0]) {
                    Result::Err(e) => Result::Err(e),
                    Result::Ok(r) => {
                        let refs: Vec<String> = Vec::new();
                        proof {
                            assert(refs_view(refs@) =~= Seq::<Seq<char>>::empty());
                        }
                        Result::Ok((r, refs))
                    },
                }
            } else if names_equal(name, "Class") {
                match self.convert_class(&tokens[0]) {
                    Result::Err(e) => Result::Err(e),
                    Result::Ok(r) => {
                        let refs: Vec<String> = Vec::new();
                        proof {
                            assert(refs_view(refs@) =~= Seq::<Seq<char>>::empty());
                        }
                        Result::Ok((r, refs))
                    },
                }
            } else if names_equal(name, "DOT") {
                let refs: Vec<String> = Vec::new();
                proof {
                    assert(refs_view(refs@) =~= Seq::<Seq<char>>::empty());
                }
                Result::Ok((Rule::Any, refs))
            } else {
                Result::Err(
                    TransformError::UnExpectedToken(String::from_str("Invalid primary")),
                )
            }
        } else {
            Result::Err(
                TransformError::WrongNumberOfTokens(
                    String::from_str("Primary needs 1 or 3 tokens"),
                ),
            )
        }
    }

    /// Folds the chunks of three tokens of a `Sequence` node from `i` on.
    fn sequence_chunks_from(&self, tokens: &Vec<ParseNode>, i: usize) -> (res: Result<
        (Vec<Rule>, Vec<String>),
        TransformError,
    >)
        requires
            i <= tokens@.len(),
        ensures
            match res {
                Result::Ok(out) => sequence_chunks(
                    node_views(tokens@).skip(i as int),
                    self.source@,
                ) == Result::<(Seq<RuleExpr>, Seq<Seq<char>>), TransErrExpr>::Ok(
                    (rule_views(out.0@), refs_view(out.1@)),
                ),
                Result::Err(e) => sequence_chunks(
                    node_views(tokens@).skip(i as int),
                    self.source@,
                ) == Result::<(Seq<RuleExpr>, Seq<Seq<char>>), TransErrExpr>::Err(e@),
            },
        decreases nssize(node_views(tokens@).skip(i as int)), 2int,
    {
        let ghost suffix = node_views(tokens@).skip(i as int);
        proof {
            lemma_node_views(tokens@);
        }
        if tokens.len() - i < 3 {
            let exprs: Vec<Rule> = Vec::new();
            let refs: Vec<String> = Vec::new();
            proof {
                assert(rule_views(exprs@) =~= Seq::<RuleExpr>::empty());
                assert(refs_view(refs@) =~= Seq::<Seq<char>>::empty());
            }
            Result::Ok((exprs, refs))
        } else {
            proof {
                assert(suffix[1] == tokens@[i + 1]@);
                lemma_nssize_elem(suffix, 1);
            }
            let (expr0, refs) = match self.convert_primary(&tokens[i + 1]) {
                Result::Err(e) => {
                    return Result::Err(e);
                },
                Result::Ok(p) => p,
            };
            let expr1 = match self.apply_suffix(&tokens[i + 2], expr0) {
                Result::Err(e) => {
                    return Result::Err(e);
                },
                Result::Ok(r) => r,
            };
            let expr = match self.apply_prefix(&tokens[i], expr1) {
                Result::Err(e) => {
                    return Result::Err(e);
                },
                Result::Ok(r) => r,
            };
            proof {
                assert(suffix[0] == tokens@[i as int]@);
                assert(suffix[2] == tokens@[i + 2]@);
                assert(suffix.skip(3) =~= node_views(tokens@).skip(i + 3));
                lemma_nssize_skip(suffix, 3);
            }
            match self.sequence_chunks_from(tokens, i + 3) {
                Result::Err(e) => Result::Err(e),
                Result::Ok((mut exprs, mut more))  => {
                    let ghost ev = expr@;
                    let ghost exprs0 = exprs@;
                    let ghost refs0 = refs@;
                    let ghost more0 = more@;
                    exprs.insert(0, expr);
                    let mut refs = refs;
                    refs.append(&mut more);
                    proof {
                        assert(exprs@ =~= seq![exprs@[0]] + exprs0);
                        assert((seq![exprs@[0]] + exprs0).drop_first() =~= exprs0);
                        assert(rule_views(exprs@) == seq![ev] + rule_views(exprs0));
                        assert(refs_view(refs@) =~= refs_view(refs0) + refs_view(more0));
                    }
                    Result::Ok((exprs, refs))
                },
            }
        }
    }

    /// The rule a `Sequence` node lowers to, with the names it references.
    pub fn convert_sequence(&self, parse_node: &ParseNode) -> (res: Result<
        (Rule, Vec<String>),
        TransformError,
    >)
        ensures
            match res {
                Result::Ok(out) => sequence_of(parse_node@, self.source@) == Result::<
                    (RuleExpr, Seq<Seq<char>>),
                    TransErrExpr,
                >::Ok((out.0@, refs_view(out.1@))),
                Result::Err(e) => sequence_of(parse_node@, self.source@) == Result::<
                    (RuleExpr, Seq<Seq<char>>),
                    TransErrExpr,
                >::Err(e@),
            },
        decreases nsize(parse_node@), 3int,
    {
        let tokens = match Self::get_tokens("Sequence", parse_node) {
            Result::Err(e) => {
                return Result::Err(e);
            },
            Result::Ok(t) => t,
        };
        proof {
            lemma_node_views(tokens@);
            assert(nsize(parse_node@) == nssize(node_views(tokens@)) + 1);
            assert(node_views(tokens@).skip(0) =~= node_views(tokens@));
        }
        match self.sequence_chunks_from(tokens, 0) {
            Result::Err(e) => Result::Err(e),
            Result::Ok((exprs, refs)) => {
                proof {
                    crate::rule::lemma_rule_views(exprs@);
                }
                if exprs.len() == 0 {
                    Result::Ok((Rule::Empty, refs))
                } else if exprs.len() == 1 {
                    let mut exprs = exprs;
                    let first = exprs.remove(0);
                    Result::Ok((first, refs))
                } else {
                    Result::Ok((Rule::Sequence(exprs), refs))
                }
            },
        }
    }

    /// Folds the chunks of two tokens of an `Expression` node from `i` on.
    fn expression_chunks_from(&self, tokens: &Vec<ParseNode>, i: usize) -> (res: Result<
        (Vec<Rule>, Vec<String>),
        TransformError,
    >)
        requires
            i <= tokens@.len(),
        ensures
            match res {
                Result::Ok(out) => expression_chunks(
                    node_views(tokens@).skip(i as int),
                    self.source@,
                ) == Result::<(Seq<RuleExpr>, Seq<Seq<char>>), TransErrExpr>::Ok(
                    (rule_views(out.0@), refs_view(out.1@)),
                ),
                Result::Err(e) => expression_chunks(
                    node_views(tokens@).skip(i as int),
                    self.source@,
                ) == Result::<(Seq<RuleExpr>, Seq<Seq<char>>), TransErrExpr>::Err(e@),
            },
        decreases nssize(node_views(tokens@).skip(i as int)), 4int,
    {
        let ghost suffix = node_views(tokens@).skip(i as int);
        proof {
            lemma_node_views(tokens@);
        }
        if i == tokens.len() {
            let exprs: Vec<Rule> = Vec::new();
            let refs: Vec<String> = Vec::new();
            proof {
                assert(rule_views(exprs@) =~= Seq::<RuleExpr>::empty());
                assert(refs_view(refs@) =~= Seq::<Seq<char>>::empty());
            }
            Result::Ok((exprs, refs))
        } else {
            proof {
                assert(suffix[0] == tokens@[i as int]@);
                lemma_nssize_elem(suffix, 0);
            }
            let (expr, refs) = match self.convert_sequence(&tokens[i]) {
                Result::Err(e) => {
                    return Result::Err(e);
                },
                Result::Ok(p) => p,
            };
            if i + 1 < tokens.len() && !Self::is_token("SLASH", &tokens[i + 1]) {
                proof {
                    assert(suffix[1] == tokens@[i + 1]@);
                }
                return Result::Err(
                    TransformError::UnExpectedToken(String::from_str("SLASH")),
                );
            }
            let next = if tokens.len() - i >= 2 {
                i + 2
            } else {
                i + 1
            };
            proof {
                if tokens@.len() - i >= 2 {
                    assert(suffix[1] == tokens@[i + 1]@);
                    assert(suffix.skip(2) =~= node_views(tokens@).skip(i + 2));
                    lemma_nssize_skip(suffix, 2);
                } else {
                    assert(node_views(tokens@).skip(next as int) =~= Seq::<NodeExpr>::empty());
                    lemma_nssize_elem(suffix, 0);
                    assert(nssize(Seq::<NodeExpr>::empty()) == 1);
                }
            }
            match self.expression_chunks_from(tokens, next) {
                Result::Err(e) => Result::Err(e),
                Result::Ok((mut exprs, mut more)) => {
                    let ghost ev = expr@;
                    let ghost exprs0 = exprs@;
                    let ghost refs0 = refs@;
                    let ghost more0 = more@;
                    exprs.insert(0, expr);
                    let mut refs = refs;
                    refs.append(&mut more);
                    proof {
                        assert(exprs@ =~= seq![exprs@[0]] + exprs0);
                        assert((seq![exprs@[0]] + exprs0).drop_first() =~= exprs0);
                        assert(rule_views(exprs@) == seq![ev] + rule_views(exprs0));
                        assert(refs_view(refs@) =~= refs_view(refs0) + refs_view(more0));
                    }
                    Result::Ok((exprs, refs))
                },
            }
        }
    }

    /// The rule an `Expression` node lowers to, with the names it
    /// references.
    pub fn convert_rule(&self, parse_node: &ParseNode) -> (res: Result<
        (Rule, Vec<String>),
        TransformError,
    >)
        ensures
            match res {
                Result::Ok(out) => expression_of(parse_node@, self.source@) == Result::<
                    (RuleExpr, Seq<Seq<char>>),
                    TransErrExpr,
                >::Ok((out.0@, refs_view(out.1@))),
                Result::Err(e) => expression_of(parse_node@, self.source@) == Result::<
                    (RuleExpr, Seq<Seq<char>>),
                    TransErrExpr,
                >::Err(e@),
            },
        decreases nsize(parse_node@), 5int,
    {
        let tokens = match Self::get_tokens("Expression", parse_node) {
            Result::Err(e) => {
                return Result::Err(e);
            },
            Result::Ok(t) => t,
        };
        proof {
            lemma_node_views(tokens@);
            assert(nsize(parse_node@) == nssize(node_views(tokens@)) + 1);
            assert(node_views(tokens@).skip(0) =~= node_views(tokens@));
        }
        match self.expression_chunks_from(tokens, 0) {
            Result::Err(e) => Result::Err(e),
            Result::Ok((exprs, refs)) => {
                proof {
                    crate::rule::lemma_rule_views(exprs@);
                }
                if exprs.len() == 0 {
                    Result::Ok((Rule::Empty, refs))
                } else if exprs.len() == 1 {
                    let mut exprs = exprs;
                    let first = exprs.remove(0);
                    Result::Ok((first, refs))
                } else {
                    Result::Ok((Rule::Choice(exprs), refs))
                }
            },
        }
    }
}

impl Transformer<'_> {
    /// What one `Definition` node defines.
    pub fn process_rule(&self, parse_node: &ParseNode) -> (res: Result<
        (String, Rule, Vec<String>),
        TransformError,
    >)
        ensures
            match res {
                Result::Ok(out) => definition_of(parse_node@, self.source@) == Result::<
                    (Seq<char>, RuleExpr, Seq<Seq<char>>),
                    TransErrExpr,
                >::Ok((out.0@, out.1@, refs_view(out.2@))),
                Result::Err(e) => definition_of(parse_node@, self.source@) == Result::<
                    (Seq<char>, RuleExpr, Seq<Seq<char>>),
                    TransErrExpr,
                >::Err(e@),
            },
    {
        let tokens = match Self::get_tokens("Definition", parse_node) {
            Result::Err(e) => {
                return Result::Err(e);
            },
            Result::Ok(t) => t,
        };
        proof {
            lemma_node_views(tokens@);
        }
        if tokens.len() != 3 {
            return Result::Err(
                TransformError::WrongNumberOfTokens(
                    String::from_str("Definition needs 3 tokens"),
                ),
            );
        }
        let name = match self.extract_identifier(&tokens[0]) {
            Result::Err(e) => {
                return Result::Err(e);
            },
            Result::Ok(n) => n,
        };
        if !Self::is_token("LEFTARROW", &tokens[1]) {
            return Result::Err(TransformError::UnExpectedToken(String::from_str("LEFTARROW")));
        }
        match self.convert_rule(&tokens[2]) {
            Result::Err(e) => Result::Err(e),
            Result::Ok((expr, refs)) => Result::Ok((name, expr, refs)),
        }
    }

    /// Walks the definitions of `tokens[i..]`, stopping at `EndOfFile`;
    /// returns the rule bindings with the last definition of a name in
    /// front, and every referenced name in order of first reference.
    fn collect_definitions(&self, tokens: &Vec<ParseNode>, i: usize, refs: Vec<String>) -> (res:
        Result<(Vec<(String, Rule)>, Vec<String>), TransformError>)
        requires
            i <= tokens@.len(),
        ensures
            match res {
                Result::Ok(out) => definitions_of(
                    node_views(tokens@).skip(i as int),
                    self.source@,
                    refs_view(refs@),
                ) matches Result::Ok((defs, all)) && crate::grammar::pairs_view(out.0@)
                    == defs.reverse() && refs_view(out.1@) == all,
                Result::Err(e) => definitions_of(
                    node_views(tokens@).skip(i as int),
                    self.source@,
                    refs_view(refs@),
                ) == Result::<
                    (Seq<(Seq<char>, RuleExpr)>, Seq<Seq<char>>),
                    TransErrExpr,
                >::Err(e@),
            },
        decreases tokens@.len() - i,
    {
        let ghost suffix = node_views(tokens@).skip(i as int);
        proof {
            lemma_node_views(tokens@);
        }
        if i == tokens.len() {
            let rules: Vec<(String, Rule)> = Vec::new();
            proof {
                assert(suffix =~= Seq::<NodeExpr>::empty());
                assert(crate::grammar::pairs_view(rules@) =~= Seq::<
                    (Seq<char>, RuleExpr),
                >::empty());
                assert(Seq::<(Seq<char>, RuleExpr)>::empty().reverse() =~= Seq::<
                    (Seq<char>, RuleExpr),
                >::empty());
            }
            Result::Ok((rules, refs))
        } else {
            proof {
                assert(suffix[0] == tokens@[i as int]@);
                assert(suffix.drop_first() =~= node_views(tokens@).skip(i + 1));
            }
            if Self::is_token("EndOfFile", &tokens[i]) {
                let rules: Vec<(String, Rule)> = Vec::new();
                proof {
                    assert(crate::grammar::pairs_view(rules@) =~= Seq::<
                        (Seq<char>, RuleExpr),
                    >::empty());
                    assert(Seq::<(Seq<char>, RuleExpr)>::empty().reverse() =~= Seq::<
                        (Seq<char>, RuleExpr),
                    >::empty());
                }
                Result::Ok((rules, refs))
            } else {
                let (name, expr, new_refs) = match self.process_rule(&tokens[i]) {
                    Result::Err(e) => {
                        return Result::Err(e);
                    },
                    Result::Ok(p) => p,
                };
                let refs = dedup_append_names(refs, new_refs);
                match self.collect_definitions(tokens, i + 1, refs) {
                    Result::Err(e) => Result::Err(e),
                    Result::Ok((mut rules, all)) => {
                        let ghost namev = name@;
                        let ghost exprv = expr@;
                        let ghost rules0 = rules@;
                        rules.push((name, expr));
                        proof {
                            let pv = crate::grammar::pairs_view(rules@);
                            let pv0 = crate::grammar::pairs_view(rules0);
                            assert forall|j: int| 0 <= j < pv.len() implies pv[j] == (if j
                                < pv0.len() {
                                pv0[j]
                            } else {
                                (namev, exprv)
                            }) by {}
                            assert(pv =~= pv0.push((namev, exprv)));
                            let defs_rest = (definitions_of(
                                node_views(tokens@).skip(i + 1),
                                self.source@,
                                refs_view(refs@),
                            )->Ok_0).0;
                            let whole = seq![(namev, exprv)] + defs_rest;
                            assert(whole.drop_first() =~= defs_rest);
                            assert(whole.reverse() =~= defs_rest.reverse().push((namev, exprv)));
                        }
                        Result::Ok((rules, all))
                    },
                }
            }
        }
    }
}

/// Deduplicating changes nothing when the names are already distinct.
pub proof fn lemma_dedup_append_distinct(acc: Seq<Seq<char>>, new: Seq<Seq<char>>)
    requires
        (acc + new).no_duplicates(),
    ensures
        dedup_append(acc, new) == acc + new,
    decreases new,
{
    if new.len() == 0 {
        assert(acc + new =~= acc);
    } else {
        if acc.contains(new[0]) {
            let i = choose|i: int| 0 <= i < acc.len() && acc[i] == new[0];
            assert((acc + new)[i] == (acc + new)[acc.len() as int]);
            assert(false);
        }
        assert(push_new(acc, new[0]) == acc.push(new[0]));
        assert(acc.push(new[0]) + new.drop_first() =~= acc + new);
        lemma_dedup_append_distinct(acc.push(new[0]), new.drop_first());
    }
}

/// The distinct names of `new`, first occurrence of each kept, in order.
pub(crate) fn dedup_names(new: Vec<String>) -> (out: Vec<String>)
    ensures
        refs_view(out@) == dedup_append(Seq::empty(), refs_view(new@)),
{
    let acc: Vec<String> = Vec::new();
    proof {
        assert(refs_view(acc@) =~= Seq::<Seq<char>>::empty());
    }
    dedup_append_names(acc, new)
}

/// Appends each name of `new` that `acc` does not hold yet, in order.
fn dedup_append_names(acc: Vec<String>, new: Vec<String>) -> (r: Vec<String>)
    ensures
        refs_view(r@) == dedup_append(refs_view(acc@), refs_view(new@)),
{
    let ghost goal = dedup_append(refs_view(acc@), refs_view(new@));
    let mut acc = acc;
    let mut i: usize = 0;
    proof {
        assert(refs_view(new@).skip(0) =~= refs_view(new@));
    }
    while i < new.len()
        invariant
            i <= new@.len(),
            dedup_append(refs_view(acc@), refs_view(new@).skip(i as int)) == goal,
        decreases new@.len() - i,
    {
        let ghost acc0 = refs_view(acc@);
        let ghost rest = refs_view(new@).skip(i as int);
        let x = new[i].clone();
        proof {
            assert(rest[0] == new@[i as int]@);
            assert(rest.drop_first() =~= refs_view(new@).skip(i + 1));
        }
        acc = push_symbol(acc, x);
        i = i + 1;
    }
    proof {
        assert(refs_view(new@).skip(new@.len() as int) =~= Seq::<Seq<char>>::empty());
    }
    acc
}

/// Whether some binding of the list binds `name`.
fn name_defined(rules: &Vec<(String, Rule)>, name: &String) -> (b: bool)
    ensures
        b == exists|j: int| 0 <= j < rules@.len() && (#[trigger] rules@[j]).0@ == name@,
{
    let mut j: usize = 0;
    while j < rules.len()
        invariant
            j <= rules@.len(),
            forall|k: int| 0 <= k < j ==> (#[trigger] rules@[k]).0@ != name@,
        decreases rules@.len() - j,
    {
        if rules[j].0.eq(name) {
            proof {
                assert(rules@[j as int].0@ == name@);
            }
            return true;
        }
        j = j + 1;
    }
    false
}

/// The names of `v[i..]` joined with `", "` between them.
fn join_names_from(v: &Vec<String>, i: usize) -> (r: String)
    requires
        i <= v@.len(),
    ensures
        r@ == joined_names(refs_view(v@).skip(i as int)),
    decreases v@.len() - i,
{
    let ghost suffix = refs_view(v@).skip(i as int);
    if i == v.len() {
        proof {
            assert(suffix =~= Seq::<Seq<char>>::empty());
        }
        String::new()
    } else if i + 1 == v.len() {
        proof {
            assert(suffix.len() == 1);
            assert(suffix[0] == v@[i as int]@);
        }
        v[i].clone()
    } else {
        proof {
            assert(suffix[0] == v@[i as int]@);
            assert(suffix.drop_first() =~= refs_view(v@).skip(i + 1));
        }
        let mut s = v[i].clone();
        s.append(", ");
        let rest = join_names_from(v, i + 1);
        s.concat(rest.as_str())
    }
}

impl Transformer<'_> {
    /// Lowers the definition tokens of a grammar into a rule list, with the
    /// last definition of a name in front; a referenced name that no
    /// definition binds fails the whole grammar.
    pub fn build_grammar_rules(&self, tokens: &Vec<ParseNode>) -> (res: Result<
        Vec<(String, Rule)>,
        TransformError,
    >)
        ensures
            match res {
                Result::Ok(rules) => grammar_rules_of(node_views(tokens@), self.source@) matches
                    Result::Ok(defs) && crate::grammar::pairs_view(rules@) == defs.reverse()
                    && crate::grammar::rule_map(crate::grammar::pairs_view(rules@))
                    == map_of_defs(defs),
                Result::Err(e) => grammar_rules_of(node_views(tokens@), self.source@) == Result::<
                    Seq<(Seq<char>, RuleExpr)>,
                    TransErrExpr,
                >::Err(e@),
            },
    {
        let ghost nv = node_views(tokens@);
        proof {
            lemma_node_views(tokens@);
        }
        let start_i: usize = if tokens.len() == 0 {
            0
        } else {
            1
        };
        let ghost rest = if nv.len() == 0 {
            nv
        } else {
            nv.drop_first()
        };
        proof {
            assert(nv.skip(start_i as int) =~= rest);
        }
        let empty_refs: Vec<String> = Vec::new();
        proof {
            assert(refs_view(empty_refs@) =~= Seq::<Seq<char>>::empty());
        }
        match self.collect_definitions(tokens, start_i, empty_refs) {
            Result::Err(e) => Result::Err(e),
            Result::Ok((rules, refs)) => {
                let ghost defs = (definitions_of(rest, self.source@, Seq::empty())->Ok_0).0;
                let ghost allrefs = (definitions_of(rest, self.source@, Seq::empty())->Ok_0).1;
                proof {
                    assert(refs_view(refs@) == allrefs);
                }
                let ghost goal = undefined_refs(defs, refs_view(refs@));
                let mut undefined: Vec<String> = Vec::new();
                let mut k: usize = 0;
                proof {
                    assert(refs_view(refs@).skip(0) =~= refs_view(refs@));
                    assert(refs_view(undefined@) =~= Seq::<Seq<char>>::empty());
                    assert(Seq::<Seq<char>>::empty() + goal =~= goal);
                    if defs.len() == 0 {
                        assert(defs.reverse() =~= Seq::<(Seq<char>, RuleExpr)>::empty());
                    }
                    assert(defs.reverse().len() == defs.len());
                    assert(defs.len() == rules@.len());
                }
                while k < refs.len()
                    invariant
                        k <= refs@.len(),
                        defs.reverse() == crate::grammar::pairs_view(rules@),
                        refs_view(undefined@) + undefined_refs(
                            defs,
                            refs_view(refs@).skip(k as int),
                        ) == goal,
                    decreases refs@.len() - k,
                {
                    let ghost rsuf = refs_view(refs@).skip(k as int);
                    let ghost und0 = refs_view(undefined@);
                    proof {
                        assert(rsuf[0] == refs@[k as int]@);
                        assert(rsuf.drop_first() =~= refs_view(refs@).skip(k + 1));
                        if defs.len() == 0 {
                            assert(defs.reverse() =~= Seq::<(Seq<char>, RuleExpr)>::empty());
                        }
                        assert(defs.reverse().len() == defs.len());
                        assert(defs.len() == rules@.len());
                        assert forall|j: int| 0 <= j < defs.len() implies #[trigger] def_names(
                            defs,
                        )[j] == crate::grammar::pairs_view(rules@)[defs.len() - 1 - j].0 by {
                            assert(defs.reverse()[defs.len() - 1 - j] == defs[j]);
                        }
                    }
                    if name_defined(&rules, &refs[k]) {
                        proof {
                            let j = choose|j: int|
                                0 <= j < rules@.len() && (#[trigger] rules@[j]).0@
                                    == refs@[k as int]@;
                            assert(crate::grammar::pairs_view(rules@)[j].0 == refs@[k as int]@);
                            let jd = defs.len() - 1 - j;
                            assert(def_names(defs)[jd] == crate::grammar::pairs_view(
                                rules@,
                            )[defs.len() - 1 - jd].0);
                            assert(def_names(defs)[jd] == rsuf[0]);
                            assert(def_names(defs).contains(rsuf[0]));
                        }
                    } else {
                        proof {
                            if def_names(defs).contains(rsuf[0]) {
                                let j = choose|j: int|
                                    0 <= j < def_names(defs).len() && def_names(defs)[j]
                                        == rsuf[0];
                                assert(def_names(defs)[j] == crate::grammar::pairs_view(
                                    rules@,
                                )[defs.len() - 1 - j].0);
                                assert(rules@[defs.len() - 1 - j].0@ == refs@[k as int]@);
                                assert(false);
                            }
                        }
                        undefined.push(refs[k].clone());
                        proof {
                            assert(refs_view(undefined@) =~= und0.push(rsuf[0]));
                            assert(und0.push(rsuf[0]) =~= und0 + seq![rsuf[0]]);
                            assert((und0 + seq![rsuf[0]]) + undefined_refs(
                                defs,
                                refs_view(refs@).skip(k + 1),
                            ) =~= und0 + (seq![rsuf[0]] + undefined_refs(
                                defs,
                                refs_view(refs@).skip(k + 1),
                            )));
                        }
                    }
                    k = k + 1;
                }
                proof {
                    assert(refs_view(refs@).skip(refs@.len() as int) =~= Seq::<
                        Seq<char>,
                    >::empty());
                    assert(refs_view(undefined@) + Seq::<Seq<char>>::empty() =~= refs_view(
                        undefined@,
                    ));
                    assert(refs_view(undefined@) == goal);
                }
                if undefined.len() > 0 {
                    let mut msg = String::from_str("Missing rules: [");
                    let joined = join_names_from(&undefined, 0);
                    msg.append(joined.as_str());
                    msg.append("]!");
                    proof {
                        assert(refs_view(undefined@).skip(0) =~= refs_view(undefined@));
                    }
                    Result::Err(TransformError::AmbiguousNonTerminal(msg))
                } else {
                    proof {
                        crate::grammar::lemma_map_of_reverse(defs);
                    }
                    Result::Ok(rules)
                }
            },
        }
    }

    /// Lowers a whole syntax tree: its one `text` root must hold the
    /// grammar's definitions, and `start_rule` becomes the start symbol.
    pub fn build(&self, start_rule: &str, cst: Vec<ParseNode>) -> (res: Result<
        crate::grammar::Peg,
        TransformError,
    >)
        ensures
            match res {
                Result::Ok(peg) => lowered(node_views(cst@), self.source@) matches Result::Ok(
                    defs,
                ) && peg.rules_model() == map_of_defs(defs) && peg.start@ == start_rule@,
                Result::Err(e) => lowered(node_views(cst@), self.source@) == Result::<
                    Seq<(Seq<char>, RuleExpr)>,
                    TransErrExpr,
                >::Err(e@),
            },
    {
        proof {
            lemma_node_views(cst@);
        }
        if cst.len() == 1 {
            proof {
                assert(node_views(cst@)[0] == cst@[0]@);
            }
            match &cst[0] {
                ParseNode::NonTerminal { name, children, .. } => {
                    if names_equal(name.as_str(), "text") {
                        match self.build_grammar_rules(children) {
                            Result::Err(e) => Result::Err(e),
                            Result::Ok(rules) => Result::Ok(
                                crate::grammar::Peg {
                                    rules,
                                    start: String::from_str(start_rule),
                                },
                            ),
                        }
                    } else {
                        let mut msg = String::from_str("Found '");
                        msg.append(name.as_str());
                        msg.append("' instead!");
                        Result::Err(TransformError::CstShouldStartWithGrammar(msg))
                    }
                },
                ParseNode::Terminal { .. } => Result::Err(
                    TransformError::CstShouldOnlyHaveOneRoot(
                        String::from_str("Invalid root structure"),
                    ),
                ),
            }
        } else {
            Result::Err(
                TransformError::CstShouldOnlyHaveOneRoot(
                    String::from_str("Invalid root structure"),
                ),
            )
        }
    }
}

impl View for TransformError {
    type V = TransErrExpr;

    open spec fn view(&self) -> TransErrExpr {
        match self {
            TransformError::CstShouldOnlyHaveOneRoot(s) => TransErrExpr::CstShouldOnlyHaveOneRoot(
                s@,
            ),
            TransformError::CstShouldStartWithGrammar(s) => TransErrExpr::CstShouldStartWithGrammar(
                s@,
            ),
            TransformError::UnExpectedToken(s) => TransErrExpr::UnExpectedToken(s@),
            TransformError::AmbiguousNonTerminal(s) => TransErrExpr::AmbiguousNonTerminal(s@),
            TransformError::EmptyIdentifier => TransErrExpr::EmptyIdentifier,
            TransformError::WrongNumberOfTokens(s) => TransErrExpr::WrongNumberOfTokens(s@),
        }
    }
}

} // verus!
