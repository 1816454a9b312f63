//! The mixfix grammar over a precedence graph, as the contracts see it: what
//! each parser of the cascade reads from a sequence of words.

use crate::combinator::{after, lemma_group_reads, spec_group, spec_opt, spec_opts, Parsed};
use crate::expr::ExprView;
use crate::fixity::{Associativity, Fixity};
use crate::graph::{acyclic, lemma_rank_falls, rank_of, PrecedenceGraph};
use crate::operator::{lemma_backbone_ends, Groups, OperatorView, Word};
use either::Either;
use vstd::prelude::*;

verus! {

/// The side to which a chain of operators of one precedence leans, which is
/// the side on which each link takes the rest of the chain.
#[derive(Debug, Clone, Copy, PartialEq, Eq, Structural)]
pub enum Side {
    /// Each link takes what stands before it as its first argument.
    Left,
    /// Each link takes what follows it as its last argument.
    Right,
}

/// The expression `e` with `arg` as one more argument behind the others.
pub open spec fn push_arg(e: ExprView, arg: ExprView) -> ExprView {
    ExprView { operator: e.operator, args: e.args.push(arg) }
}

/// The expression `e` with `arg` as one more argument before the others.
pub open spec fn unshift_arg(arg: ExprView, e: ExprView) -> ExprView {
    ExprView { operator: e.operator, args: seq![arg] + e.args }
}

/// The chain that leans to the right: each of `items` takes what follows it
/// as its last argument, and the last of them takes `last`.
pub open spec fn chain_right(items: Seq<ExprView>, last: ExprView) -> ExprView
    decreases items.len(),
{
    if items.len() == 0 {
        last
    } else {
        push_arg(items[0], chain_right(items.skip(1), last))
    }
}

/// The chain that leans to the left: each of `items` takes what stands before
/// it as its first argument, and the first of them takes `first`.
pub open spec fn chain_left(first: ExprView, items: Seq<ExprView>) -> ExprView
    decreases items.len(),
{
    if items.len() == 0 {
        first
    } else {
        unshift_arg(chain_left(first, items.drop_last()), items.last())
    }
}

/// The precedences among which an argument is looked for: all of them for a
/// hole between name parts, those that bind tighter than `p` for an argument
/// beside an operator at `p`.
pub open spec fn precs_of<G: PrecedenceGraph>(g: &G, from: Option<G::P>) -> Seq<G::P> {
    match from {
        None => g.spec_all(),
        Some(p) => g.spec_succ(p),
    }
}

/// Whether the search starts afresh, among all precedences.
pub open spec fn afresh<P>(from: Option<P>) -> nat {
    if from is None {
        1
    } else {
        0
    }
}

/// The rank of the precedence that the search starts from.
pub open spec fn rank_from<G: PrecedenceGraph>(g: &G, from: Option<G::P>) -> nat {
    match from {
        None => 0,
        Some(p) => rank_of(g, p),
    }
}

/// An expression among the precedences of `from`: the longest match among
/// the parses at each of them.
pub open spec fn spec_precs<G: PrecedenceGraph>(
    g: &G,
    from: Option<G::P>,
    toks: Seq<Word>,
) -> Parsed<ExprView>
    decreases toks.len(), afresh(from), rank_from(g, from), 1nat, 0nat,
    when acyclic(g)
{
    spec_opts(spec_precs_upto(g, from, toks, precs_of(g, from).len()))
}

/// The parses at the first `n` precedences of `from`.
pub open spec fn spec_precs_upto<G: PrecedenceGraph>(
    g: &G,
    from: Option<G::P>,
    toks: Seq<Word>,
    n: nat,
) -> Seq<Parsed<ExprView>>
    decreases toks.len(), afresh(from), rank_from(g, from), 0nat, n,
    when acyclic(g)
{
    if n == 0 || n > precs_of(g, from).len() {
        Seq::empty()
    } else {
        proof {
            if from is Some {
                lemma_rank_falls(g, from->0, n - 1);
            }
        }
        spec_precs_upto(g, from, toks, (n - 1) as nat).push(
            spec_prec(g, precs_of(g, from)[n - 1], toks),
        )
    }
}

/// An expression whose outermost operator stands at `p`: the longest match
/// among the four ways to apply one.
pub open spec fn spec_prec<G: PrecedenceGraph>(g: &G, p: G::P, toks: Seq<Word>) -> Parsed<ExprView>
    decreases toks.len(), 0nat, rank_of(g, p), 9nat, 0nat,
    when acyclic(g)
{
    spec_opts(
        seq![
            spec_closed(g, p, toks),
            spec_non_assoc(g, p, toks),
            spec_pre_right(g, p, toks),
            spec_post_left(g, p, toks),
        ],
    )
}

/// A closed operator at `p` with its holes.
pub open spec fn spec_closed<G: PrecedenceGraph>(
    g: &G,
    p: G::P,
    toks: Seq<Word>,
) -> Parsed<ExprView>
    decreases toks.len(), 0nat, rank_of(g, p), 8nat, 0nat,
    when acyclic(g)
{
    spec_inner(g, p, Fixity::Closed, toks)
}

/// One non-associative infix operator at `p` between two arguments that bind
/// tighter.
pub open spec fn spec_non_assoc<G: PrecedenceGraph>(g: &G, p: G::P, toks: Seq<Word>) -> Parsed<
    ExprView,
>
    decreases toks.len(), 0nat, rank_of(g, p), 8nat, 0nat,
    when acyclic(g)
{
    match spec_precs(g, Some(p), toks) {
        Err(e) => Err(e),
        Ok((n1, left)) => match spec_inner(
            g,
            p,
            Fixity::Infix(Associativity::Non),
            after(toks, n1),
        ) {
            Err(e) => Err(e),
            Ok((n2, mid)) => match spec_precs(g, Some(p), after(after(toks, n1), n2)) {
                Err(e) => Err(e),
                Ok((n3, right)) => Ok((n1 + n2 + n3, push_arg(unshift_arg(left, mid), right))),
            },
        },
    }
}

/// One link of a chain that leans to `side`.
pub open spec fn spec_link<G: PrecedenceGraph>(
    g: &G,
    p: G::P,
    side: Side,
    toks: Seq<Word>,
) -> Parsed<ExprView>
    decreases toks.len(), 0nat, rank_of(g, p), 6nat, 1nat,
    when acyclic(g)
{
    match side {
        Side::Right => spec_pre_right_item(g, p, toks),
        Side::Left => spec_post_left_item(g, p, toks),
    }
}

/// One or more links of a chain that leans to `side`.
pub open spec fn spec_links<G: PrecedenceGraph>(
    g: &G,
    p: G::P,
    side: Side,
    toks: Seq<Word>,
) -> Parsed<Seq<ExprView>>
    decreases toks.len(), 0nat, rank_of(g, p), 7nat, 1nat,
    when acyclic(g)
{
    match spec_link(g, p, side, toks) {
        Err(e) => Err(e),
        Ok((n, x)) => {
            let (m, xs) = spec_more_links(g, p, side, after(toks, n));
            Ok((n + m, seq![x] + xs))
        },
    }
}

/// The further links of a chain: as many as can be read, each leaving a
/// shorter tail.
pub open spec fn spec_more_links<G: PrecedenceGraph>(
    g: &G,
    p: G::P,
    side: Side,
    toks: Seq<Word>,
) -> (nat, Seq<ExprView>)
    decreases toks.len(), 0nat, rank_of(g, p), 7nat, 0nat,
    when acyclic(g)
{
    match spec_link(g, p, side, toks) {
        Ok((n, x)) => if after(toks, n).len() < toks.len() {
            let (m, xs) = spec_more_links(g, p, side, after(toks, n));
            (n + m, seq![x] + xs)
        } else {
            (0, Seq::empty())
        },
        Err(_) => (0, Seq::empty()),
    }
}

/// A chain of prefix and right-associative infix operators at `p`, closed by
/// an argument that binds tighter.
pub open spec fn spec_pre_right<G: PrecedenceGraph>(g: &G, p: G::P, toks: Seq<Word>) -> Parsed<
    ExprView,
>
    decreases toks.len(), 0nat, rank_of(g, p), 8nat, 0nat,
    when acyclic(g)
{
    match spec_links(g, p, Side::Right, toks) {
        Err(e) => Err(e),
        Ok((n1, items)) => match spec_precs(g, Some(p), after(toks, n1)) {
            Err(e) => Err(e),
            Ok((n2, last)) => Ok((n1 + n2, chain_right(items, last))),
        },
    }
}

/// One link of a chain to the right: a prefix operator, or an argument that
/// binds tighter and a right-associative infix operator behind it.
pub open spec fn spec_pre_right_item<G: PrecedenceGraph>(g: &G, p: G::P, toks: Seq<Word>) -> Parsed<
    ExprView,
>
    decreases toks.len(), 0nat, rank_of(g, p), 6nat, 0nat,
    when acyclic(g)
{
    let prefix = spec_inner(g, p, Fixity::Prefix, toks);
    let infix: Parsed<(ExprView, ExprView)> = match spec_precs(g, Some(p), toks) {
        Err(e) => Err(e),
        Ok((n1, first)) => match spec_inner(
            g,
            p,
            Fixity::Infix(Associativity::Right),
            after(toks, n1),
        ) {
            Err(e) => Err(e),
            Ok((n2, rest)) => Ok((n1 + n2, (first, rest))),
        },
    };
    match spec_opt(prefix, infix) {
        Err(e) => Err(e),
        Ok((n, Either::Left(x))) => Ok((n, x)),
        Ok((n, Either::Right((first, rest)))) => Ok((n, unshift_arg(first, rest))),
    }
}

/// An argument that binds tighter, and behind it a chain of postfix and
/// left-associative infix operators at `p`.
pub open spec fn spec_post_left<G: PrecedenceGraph>(g: &G, p: G::P, toks: Seq<Word>) -> Parsed<
    ExprView,
>
    decreases toks.len(), 0nat, rank_of(g, p), 8nat, 0nat,
    when acyclic(g)
{
    match spec_precs(g, Some(p), toks) {
        Err(e) => Err(e),
        Ok((n1, first)) => match spec_links(g, p, Side::Left, after(toks, n1)) {
            Err(e) => Err(e),
            Ok((n2, items)) => Ok((n1 + n2, chain_left(first, items))),
        },
    }
}

/// One link of a chain to the left: a postfix operator, or a left-associative
/// infix operator and an argument that binds tighter behind it.
pub open spec fn spec_post_left_item<G: PrecedenceGraph>(g: &G, p: G::P, toks: Seq<Word>) -> Parsed<
    ExprView,
>
    decreases toks.len(), 0nat, rank_of(g, p), 6nat, 0nat,
    when acyclic(g)
{
    let postfix = spec_inner(g, p, Fixity::Postfix, toks);
    let infix: Parsed<(ExprView, ExprView)> = match spec_inner(
        g,
        p,
        Fixity::Infix(Associativity::Left),
        toks,
    ) {
        Err(e) => Err(e),
        Ok((n1, rest)) => match spec_precs(g, Some(p), after(toks, n1)) {
            Err(e) => Err(e),
            Ok((n2, last)) => Ok((n1 + n2, (rest, last))),
        },
    };
    match spec_opt(postfix, infix) {
        Err(e) => Err(e),
        Ok((n, Either::Left(x))) => Ok((n, x)),
        Ok((n, Either::Right((rest, last)))) => Ok((n, push_arg(rest, last))),
    }
}

/// The name parts and holes of one operator at `p` with the fixity `fix`:
/// the longest match among the operators that the graph has there.
pub open spec fn spec_inner<G: PrecedenceGraph>(
    g: &G,
    p: G::P,
    fix: Fixity,
    toks: Seq<Word>,
) -> Parsed<ExprView>
    decreases toks.len(), 0nat, rank_of(g, p), 3nat, 0nat,
    when acyclic(g)
{
    spec_opts(spec_inner_upto(g, p, fix, toks, g.spec_ops(p, fix).len()))
}

/// The parses of the first `n` operators at `p` with the fixity `fix`.
pub open spec fn spec_inner_upto<G: PrecedenceGraph>(
    g: &G,
    p: G::P,
    fix: Fixity,
    toks: Seq<Word>,
    n: nat,
) -> Seq<Parsed<ExprView>>
    decreases toks.len(), 0nat, rank_of(g, p), 2nat, n,
    when acyclic(g)
{
    if n == 0 || n > g.spec_ops(p, fix).len() {
        Seq::empty()
    } else {
        spec_inner_upto(g, p, fix, toks, (n - 1) as nat).push(
            spec_backbone(g, g.spec_ops(p, fix)[n - 1], toks),
        )
    }
}

/// The backbone of `op`: its groups of name parts in order, and between each
/// two of them an expression of any precedence. The arguments beside the
/// operator are not read here.
pub open spec fn spec_backbone<G: PrecedenceGraph>(
    g: &G,
    op: OperatorView,
    toks: Seq<Word>,
) -> Parsed<ExprView>
    decreases toks.len(), 0nat, 0nat, 0nat, 0nat,
    when acyclic(g)
{
    let groups = op.backbone();
    if groups.len() == 0 {
        Ok((0, ExprView { operator: op, args: Seq::empty() }))
    } else {
        match spec_group(groups[0], toks) {
            Err(e) => Err(e),
            Ok((n0, _)) => {
                proof {
                    lemma_backbone_ends(op.pattern);
                    lemma_group_reads(groups[0], toks, 0);
                }
                match spec_holes(g, groups, 1, after(toks, n0)) {
                    Err(e) => Err(e),
                    Ok((n, holes)) => Ok((n0 + n, ExprView { operator: op, args: holes })),
                }
            },
        }
    }
}

/// The holes of a backbone from the one before `groups[i]` on, each followed
/// by its group of name parts.
pub open spec fn spec_holes<G: PrecedenceGraph>(
    g: &G,
    groups: Groups,
    i: nat,
    toks: Seq<Word>,
) -> Parsed<Seq<ExprView>>
    decreases toks.len(), 3nat, 0nat, 0nat, groups.len() - i,
    when acyclic(g)
{
    if i >= groups.len() {
        Ok((0, Seq::empty()))
    } else {
        match spec_precs(g, None, toks) {
            Err(e) => Err(e),
            Ok((n1, hole)) => match spec_group(groups[i as int], after(toks, n1)) {
                Err(e) => Err(e),
                Ok((n2, _)) => match spec_holes(g, groups, i + 1, after(after(toks, n1), n2)) {
                    Err(e) => Err(e),
                    Ok((n3, holes)) => Ok((n1 + n2 + n3, seq![hole] + holes)),
                },
            },
        }
    }
}

/// An expression of any precedence.
pub open spec fn spec_expr<G: PrecedenceGraph>(g: &G, toks: Seq<Word>) -> Parsed<ExprView> {
    spec_precs(g, None, toks)
}

} // verus!
