//! Results of a parse: spans, concrete-syntax-tree nodes, and error chains.
//!
//! The mathematical model of a node is [`NodeExpr`], of an error [`ErrExpr`],
//! and of a whole parse result [`ResultExpr`]; positions in the models are
//! unbounded integers, character offsets into the input.

use vstd::prelude::*;
use crate::rule::{Rule, RuleExpr};

verus! {

/// A half-open interval `[begin, end)` of character offsets into the input.
#[derive(Clone, Copy, Debug, PartialEq, Eq, Structural)]
pub struct Span(pub usize, pub usize);

/// A node of the concrete syntax tree.
#[derive(Debug, PartialEq)]
pub enum ParseNode {
    /// A leaf covering the consumed characters.
    Terminal { span: Span },
    /// One successful non-terminal reference and everything it consumed.
    NonTerminal { name: String, span: Span, children: Vec<ParseNode> },
}

/// What went wrong at one point of a parse.
#[derive(Debug, PartialEq)]
pub enum ErrorKind {
    UnexpectedEndOfInput,
    ExpressionDoesNotMatch,
    NotDidMatch(Vec<ParseNode>),
    NonTerminalDoesNotMatch,
    NonTerminalDoesNotExist(String),
}

/// A parse failure: where, for which expression, and why; `cause` is the
/// next-deeper failure, forming a single-link chain.
#[derive(Debug, PartialEq)]
pub struct ParseError {
    pub position: usize,
    pub expression: Rule,
    pub error: ErrorKind,
    pub cause: Option<Box<ParseError>>,
}

/// The outcome of evaluating a rule: `(cost, position, nodes-or-error)`.
///
/// `cost` is an opaque accounting integer; `position` is the offset after the
/// attempt, equal to the starting offset on failure.
#[derive(Debug, PartialEq)]
pub struct ParseResult(pub u32, pub usize, pub Result<Vec<ParseNode>, ParseError>);

/// Model of a [`ParseNode`].
#[verifier::ext_equal]
pub enum NodeExpr {
    Terminal { lo: int, hi: int },
    NonTerminal { name: Seq<char>, lo: int, hi: int, children: Seq<NodeExpr> },
}

/// Model of an [`ErrorKind`].
#[verifier::ext_equal]
pub enum KindExpr {
    UnexpectedEndOfInput,
    ExpressionDoesNotMatch,
    NotDidMatch(Seq<NodeExpr>),
    NonTerminalDoesNotMatch,
    NonTerminalDoesNotExist(Seq<char>),
}

/// Model of a [`ParseError`].
#[verifier::ext_equal]
pub struct ErrExpr {
    pub position: int,
    pub expression: RuleExpr,
    pub kind: KindExpr,
    pub cause: Option<Box<ErrExpr>>,
}

/// Model of a [`ParseResult`].
#[verifier::ext_equal]
pub struct ResultExpr {
    pub cost: int,
    pub pos: int,
    pub outcome: Result<Seq<NodeExpr>, ErrExpr>,
}

/// The model of one node.
pub open spec fn node_view(n: ParseNode) -> NodeExpr
    decreases n,
{
    match n {
        ParseNode::Terminal { span } => NodeExpr::Terminal {
            lo: span.0 as int,
            hi: span.1 as int,
        },
        ParseNode::NonTerminal { name, span, children } => NodeExpr::NonTerminal {
            name: name@,
            lo: span.0 as int,
            hi: span.1 as int,
            children: node_views(children@),
        },
    }
}

impl View for ParseNode {
    type V = NodeExpr;

    open spec fn view(&self) -> NodeExpr {
        node_view(*self)
    }
}

/// The models of a list of nodes, in order.
pub open spec fn node_views(ns: Seq<ParseNode>) -> Seq<NodeExpr>
    decreases ns,
{
    if ns.len() == 0 {
        Seq::empty()
    } else {
        seq![node_view(ns[0])] + node_views(ns.drop_first())
    }
}

/// `node_views` maps the list elementwise.
pub proof fn lemma_node_views(ns: Seq<ParseNode>)
    ensures
        node_views(ns).len() == ns.len(),
        forall|i: int| 0 <= i < ns.len() ==> node_views(ns)[i] == #[trigger] ns[i]@,
    decreases ns,
{
    if ns.len() > 0 {
        lemma_node_views(ns.drop_first());
        assert forall|i: int| 0 <= i < ns.len() implies node_views(ns)[i] == #[trigger] ns[i]@ by {
            if i == 0 {
                assert(node_views(ns)[0] == node_view(ns[0]));
            } else {
                assert(node_views(ns)[i] == node_views(ns.drop_first())[i - 1]);
                assert(ns.drop_first()[i - 1] == ns[i]);
            }
        }
    }
}

/// Structural size of a node model; drives termination of the transformer.
pub open spec fn nsize(n: NodeExpr) -> nat
    decreases n,
{
    match n {
        NodeExpr::Terminal { .. } => 1,
        NodeExpr::NonTerminal { children, .. } => nssize(children) + 1,
    }
}

/// Structural size of a list of node models; always at least 1.
pub open spec fn nssize(s: Seq<NodeExpr>) -> nat
    decreases s,
{
    if s.len() == 0 {
        1
    } else {
        nsize(s[0]) + nssize(s.drop_first())
    }
}

/// Every node has positive size, and an element is smaller than its list.
pub proof fn lemma_nssize_elem(s: Seq<NodeExpr>, i: int)
    requires
        0 <= i < s.len(),
    ensures
        nsize(s[i]) < nssize(s),
        nssize(s) >= 1,
    decreases s,
{
    if i > 0 {
        lemma_nssize_elem(s.drop_first(), i - 1);
        assert(s.drop_first()[i - 1] == s[i]);
        lemma_nsize_pos(s[0]);
    } else {
        lemma_nssize_pos(s.drop_first());
    }
}

/// Every node has positive size.
pub proof fn lemma_nsize_pos(n: NodeExpr)
    ensures
        nsize(n) >= 1,
{
}

/// Every list of nodes has positive size, and a shorter suffix is smaller.
pub proof fn lemma_nssize_pos(s: Seq<NodeExpr>)
    ensures
        nssize(s) >= 1,
        s.len() > 0 ==> nssize(s.drop_first()) < nssize(s),
    decreases s,
{
    if s.len() > 0 {
        lemma_nssize_pos(s.drop_first());
        lemma_nsize_pos(s[0]);
    }
}

/// Skipping elements never grows the size, and skipping some shrinks it.
pub proof fn lemma_nssize_skip(s: Seq<NodeExpr>, k: int)
    requires
        0 <= k <= s.len(),
    ensures
        nssize(s.skip(k)) <= nssize(s),
        k > 0 ==> nssize(s.skip(k)) < nssize(s),
    decreases k,
{
    if k == 0 {
        assert(s.skip(0) =~= s);
    } else {
        lemma_nssize_skip(s.drop_first(), k - 1);
        assert(s.drop_first().skip(k - 1) =~= s.skip(k));
        lemma_nsize_pos(s[0]);
        lemma_nssize_pos(s);
    }
}

/// The model of a one-node list is the one-model list.
pub proof fn lemma_node_views_one(s: Seq<ParseNode>)
    requires
        s.len() == 1,
    ensures
        node_views(s) == seq![s[0]@],
{
    assert(s.drop_first().len() == 0);
    assert(node_views(s) == seq![node_view(s[0])] + node_views(s.drop_first()));
    assert(seq![node_view(s[0])] + Seq::<NodeExpr>::empty() =~= seq![node_view(s[0])]);
}

/// `node_views` distributes over concatenation.
pub proof fn lemma_node_views_concat(a: Seq<ParseNode>, b: Seq<ParseNode>)
    ensures
        node_views(a + b) == node_views(a) + node_views(b),
    decreases a,
{
    if a.len() == 0 {
        assert(a + b =~= b);
        assert(node_views(a) + node_views(b) =~= node_views(b));
    } else {
        lemma_node_views_concat(a.drop_first(), b);
        assert((a + b).drop_first() =~= a.drop_first() + b);
        assert((a + b)[0] == a[0]);
        assert(node_views(a + b) =~= node_views(a) + node_views(b));
    }
}

impl View for ErrorKind {
    type V = KindExpr;

    open spec fn view(&self) -> KindExpr {
        match self {
            ErrorKind::UnexpectedEndOfInput => KindExpr::UnexpectedEndOfInput,
            ErrorKind::ExpressionDoesNotMatch => KindExpr::ExpressionDoesNotMatch,
            ErrorKind::NotDidMatch(ns) => KindExpr::NotDidMatch(node_views(ns@)),
            ErrorKind::NonTerminalDoesNotMatch => KindExpr::NonTerminalDoesNotMatch,
            ErrorKind::NonTerminalDoesNotExist(n) => KindExpr::NonTerminalDoesNotExist(n@),
        }
    }
}

/// The model of one error chain.
pub open spec fn err_view(e: ParseError) -> ErrExpr
    decreases e,
{
    ErrExpr {
        position: e.position as int,
        expression: e.expression@,
        kind: e.error@,
        cause: match e.cause {
            Option::None => Option::None,
            Option::Some(b) => Option::Some(Box::new(err_view(*b))),
        },
    }
}

impl View for ParseError {
    type V = ErrExpr;

    open spec fn view(&self) -> ErrExpr {
        err_view(*self)
    }
}

impl View for ParseResult {
    type V = ResultExpr;

    open spec fn view(&self) -> ResultExpr {
        ResultExpr {
            cost: self.0 as int,
            pos: self.1 as int,
            outcome: match &self.2 {
                Result::Ok(ns) => Result::Ok(node_views(ns@)),
                Result::Err(e) => Result::Err(e@),
            },
        }
    }
}

impl ParseNode {
    /// A structural copy of the node; the copy has the same model.
    pub fn deep_clone(&self) -> (r: ParseNode)
        ensures
            r@ == self@,
        decreases self,
    {
        match self {
            ParseNode::Terminal { span } => ParseNode::Terminal { span: *span },
            ParseNode::NonTerminal { name, span, children } => ParseNode::NonTerminal {
                name: name.clone(),
                span: *span,
                children: Self::deep_clone_list(children),
            },
        }
    }

    /// Structural copies of a list of nodes, in order.
    pub fn deep_clone_list(ns: &Vec<ParseNode>) -> (out: Vec<ParseNode>)
        ensures
            node_views(out@) == node_views(ns@),
        decreases ns,
    {
        let mut out: Vec<ParseNode> = Vec::new();
        let mut i: usize = 0;
        while i < ns.len()
            invariant
                i <= ns@.len(),
                out@.len() == i,
                forall|j: int| 0 <= j < i ==> out@[j]@ == #[trigger] ns@[j]@,
            decreases ns@.len() - i,
        {
            let c = ns[i].deep_clone();
            out.push(c);
            i = i + 1;
        }
        proof {
            lemma_node_views(out@);
            lemma_node_views(ns@);
            assert forall|j: int| 0 <= j < ns@.len() implies node_views(out@)[j] == node_views(
                ns@,
            )[j] by {
                assert(node_views(out@)[j] == out@[j]@);
                assert(node_views(ns@)[j] == ns@[j]@);
            }
            assert(node_views(out@) =~= node_views(ns@));
        }
        out
    }
}

impl ErrorKind {
    /// A structural copy of the kind; the copy has the same model.
    pub fn deep_clone(&self) -> (r: ErrorKind)
        ensures
            r@ == self@,
    {
        match self {
            ErrorKind::UnexpectedEndOfInput => ErrorKind::UnexpectedEndOfInput,
            ErrorKind::ExpressionDoesNotMatch => ErrorKind::ExpressionDoesNotMatch,
            ErrorKind::NotDidMatch(ns) => ErrorKind::NotDidMatch(ParseNode::deep_clone_list(ns)),
            ErrorKind::NonTerminalDoesNotMatch => ErrorKind::NonTerminalDoesNotMatch,
            ErrorKind::NonTerminalDoesNotExist(n) => ErrorKind::NonTerminalDoesNotExist(n.clone()),
        }
    }
}

impl ParseError {
    /// A structural copy of the error chain; the copy has the same model.
    pub fn deep_clone(&self) -> (r: ParseError)
        ensures
            r@ == self@,
        decreases self,
    {
        ParseError {
            position: self.position,
            expression: self.expression.deep_clone(),
            error: self.error.deep_clone(),
            cause: match &self.cause {
                Option::None => Option::None,
                Option::Some(b) => Option::Some(Box::new(b.deep_clone())),
            },
        }
    }
}

impl ParseResult {
    /// A structural copy of the result; the copy has the same model.
    pub fn deep_clone(&self) -> (r: ParseResult)
        ensures
            r@ == self@,
    {
        ParseResult(self.0, self.1, match &self.2 {
            Result::Ok(ns) => Result::Ok(ParseNode::deep_clone_list(ns)),
            Result::Err(e) => Result::Err(e.deep_clone()),
        })
    }
}

} // verus!
