//! The precedence discipline of an expression: beside an operator there
//! stands only what binds tighter, or a further link of the same chain.

use crate::expr::ExprView;
use crate::fixity::{Associativity, Fixity};
use crate::grammar::Side;
use crate::graph::PrecedenceGraph;
use crate::operator::OperatorView;
use vstd::prelude::*;

verus! {

/// Whether the graph has the operator `op` at the precedence `p`.
pub open spec fn stands_at<G: PrecedenceGraph>(g: &G, p: G::P, op: OperatorView) -> bool {
    exists|i: int|
        0 <= i < g.spec_ops(p, op.fixity).len() && #[trigger] g.spec_ops(p, op.fixity)[i] == op
}

/// Whether the outermost operator of `e` stands at a precedence that binds
/// strictly tighter than `p`.
pub open spec fn binds_tighter<G: PrecedenceGraph>(g: &G, p: G::P, e: ExprView) -> bool {
    exists|j: int|
        0 <= j < g.spec_succ(p).len() && stands_at(g, #[trigger] g.spec_succ(p)[j], e.operator)
}

/// Whether an operator of the fixity `fix` is a link of a chain that leans to
/// `side`: a prefix or right-associative operator to the right, a postfix or
/// left-associative operator to the left.
pub open spec fn leans(fix: Fixity, side: Side) -> bool {
    match side {
        Side::Right => fix == Fixity::Prefix || fix == Fixity::Infix(Associativity::Right),
        Side::Left => fix == Fixity::Postfix || fix == Fixity::Infix(Associativity::Left),
    }
}

/// Whether `e` may stand beside an operator at `p` as the rest of its chain,
/// which leans to `side`: it binds tighter than `p`, or it is a further link
/// at `p` of such a chain.
pub open spec fn continues<G: PrecedenceGraph>(g: &G, p: G::P, side: Side, e: ExprView) -> bool {
    binds_tighter(g, p, e) || (stands_at(g, p, e.operator) && leans(e.operator.fixity, side))
}

/// Whether the outermost operator of `e` stands at `p` and has beside it only
/// what the discipline admits there.
pub open spec fn node_obeys<G: PrecedenceGraph>(g: &G, p: G::P, e: ExprView) -> bool {
    &&& stands_at(g, p, e.operator)
    &&& e.args.len() == e.operator.arity()
    &&& match e.operator.fixity {
        Fixity::Closed => true,
        Fixity::Prefix => continues(g, p, Side::Right, e.args.last()),
        Fixity::Postfix => continues(g, p, Side::Left, e.args[0]),
        Fixity::Infix(Associativity::Non) => binds_tighter(g, p, e.args[0]) && binds_tighter(
            g,
            p,
            e.args.last(),
        ),
        Fixity::Infix(Associativity::Right) => binds_tighter(g, p, e.args[0]) && continues(
            g,
            p,
            Side::Right,
            e.args.last(),
        ),
        Fixity::Infix(Associativity::Left) => continues(g, p, Side::Left, e.args[0])
            && binds_tighter(g, p, e.args.last()),
    }
}

/// Whether every node of `e` obeys the discipline at some precedence of the
/// graph.
pub open spec fn obeys<G: PrecedenceGraph>(g: &G, e: ExprView) -> bool
    decreases e,
{
    &&& exists|p: G::P| node_obeys(g, p, e)
    &&& forall|i: int| 0 <= i < e.args.len() ==> obeys(g, #[trigger] e.args[i])
}

/// Whether `e` is well formed and obeys the discipline.
pub open spec fn sound<G: PrecedenceGraph>(g: &G, e: ExprView) -> bool {
    e.well_formed() && obeys(g, e)
}

} // verus!
