//! `petgraph`'s directed graphs as precedence graphs: a node holds the
//! operators of one precedence, and an edge leads to a precedence that binds
//! tighter.

use crate::error::{words, ParseError, ParseInput};
use crate::expr::Expr;
use crate::fixity::Fixity;
use crate::graph::{
    lemma_narrowing_acyclic, lemma_with_fixity, narrowing, op_views, select, with_fixity,
    PrecedenceGraph,
};
use crate::operator::{Operator, OperatorView};
use crate::parser::{parse_expr, spec_parse_expr, told};
use fixedbitset::FixedBitSet;
use petgraph::graph::{DiGraph, Graph, NodeIndex};
use petgraph::visit::Bfs;
use petgraph::Directed;
use vstd::prelude::*;

verus! {

/// `petgraph::graph::Graph`.
#[verifier::external_type_specification]
#[verifier::external_body]
#[verifier::reject_recursive_types(N)]
#[verifier::reject_recursive_types(E)]
#[verifier::reject_recursive_types(Ty)]
#[verifier::reject_recursive_types(Ix)]
pub struct ExGraph<N, E, Ty, Ix>(Graph<N, E, Ty, Ix>);

/// `petgraph::graph::NodeIndex`.
#[verifier::external_type_specification]
#[verifier::external_body]
#[verifier::reject_recursive_types(Ix)]
pub struct ExNodeIndex<Ix>(NodeIndex<Ix>);

/// `petgraph::Directed`.
#[verifier::external_type_specification]
#[verifier::external_body]
pub struct ExDirected(Directed);

/// `petgraph::visit::Bfs`.
#[verifier::external_type_specification]
#[verifier::external_body]
#[verifier::reject_recursive_types(N)]
#[verifier::reject_recursive_types(VM)]
pub struct ExBfs<N, VM>(Bfs<N, VM>);

/// `fixedbitset::FixedBitSet`, in which a walk marks the nodes it has seen.
#[verifier::external_type_specification]
#[verifier::external_body]
pub struct ExFixedBitSet(FixedBitSet);

/// A graph whose nodes hold the operators of one precedence each.
pub type Dag = DiGraph<Vec<Operator>, ()>;

/// A breadth-first walk over such a graph.
pub type Walk = Bfs<NodeIndex, FixedBitSet>;

/// The operators that each node of the graph holds: for each node what
/// `Graph::node_weight` gives for it.
pub uninterp spec fn graph_weights(g: Dag) -> Map<NodeIndex, Seq<OperatorView>>;

/// The nodes of the graph in the order of their indices: what
/// `Graph::node_indices` yields.
pub uninterp spec fn graph_nodes(g: Dag) -> Seq<NodeIndex>;

/// The nodes that a breadth-first walk of the graph from `start` yields, in
/// its order: what a `Bfs` made by `Bfs::new` has before it.
pub uninterp spec fn bfs_order(g: Dag, start: NodeIndex) -> Seq<NodeIndex>;

/// The nodes that the walk has still to yield on `g`, in its order: what
/// `Bfs::next` hands out call by call.
pub uninterp spec fn walk_rest(walk: Walk, g: Dag) -> Seq<NodeIndex>;

/// The number of nodes that the walk can mark as seen: the size of its map
/// of seen nodes, which `Bfs::new` makes as large as the graph.
pub uninterp spec fn walk_size(walk: Walk) -> nat;

/// `Graph::node_weight`: the operators of the node `prec`, or `None` where
/// the graph has no such node.
#[verifier::external_body]
fn node_ops<'a>(g: &'a Dag, prec: NodeIndex) -> (r: Option<&'a Vec<Operator>>)
    ensures
        r is Some <==> graph_weights(*g).contains_key(prec),
        r matches Some(ops) ==> op_views(ops@) == graph_weights(*g)[prec],
{
    g.node_weight(prec)
}

/// `Graph::node_indices`: every node, in the order of the indices. A node
/// with a weight is among them.
#[verifier::external_body]
fn node_handles(g: &Dag) -> (r: Vec<NodeIndex>)
    ensures
        r@ == graph_nodes(*g),
        forall|n: NodeIndex| #[trigger] graph_weights(*g).contains_key(n) ==> r@.contains(n),
{
    g.node_indices().collect()
}

/// `Bfs::new`: a walk that has everything before it that a breadth-first
/// walk from `start` yields. It marks `start` as seen, which needs `start`
/// to be a node of the graph.
#[verifier::external_body]
fn walk_from(g: &Dag, start: NodeIndex) -> (r: Walk)
    requires
        graph_weights(*g).contains_key(start),
    ensures
        walk_rest(r, *g) == bfs_order(*g, start),
        walk_size(r) == graph_nodes(*g).len(),
{
    Bfs::new(g, start)
}

/// `Bfs::next`: the next node of the walk, or `None` when the walk is done.
/// It marks the neighbours of the node it yields, which needs a map of seen
/// nodes as large as the graph.
#[verifier::external_body]
fn walk_next(walk: &mut Walk, g: &Dag) -> (r: Option<NodeIndex>)
    requires
        walk_size(*old(walk)) == graph_nodes(*g).len(),
    ensures
        walk_size(*final(walk)) == walk_size(*old(walk)),
        walk_rest(*old(walk), *g).len() == 0 ==> r is None && walk_rest(*final(walk), *g).len()
            == 0,
        walk_rest(*old(walk), *g).len() > 0 ==> r == Some(walk_rest(*old(walk), *g)[0])
            && walk_rest(*final(walk), *g) == walk_rest(*old(walk), *g).skip(1),
{
    walk.next(g)
}

/// `NodeIndex`'s `==`: two handles are equal exactly if they are the same
/// handle.
#[verifier::external_body]
fn same_node(a: NodeIndex, b: NodeIndex) -> (r: bool)
    ensures
        r == (a == b),
{
    a == b
}

/// Those of `nodes` that are not `prec`, in their order.
pub open spec fn others(nodes: Seq<NodeIndex>, prec: NodeIndex) -> Seq<NodeIndex> {
    nodes.filter(|n: NodeIndex| n != prec)
}

/// The nodes that the walk has still to yield on `g`, in its order.
fn walk_all(walk: Walk, g: &Dag) -> (r: Vec<NodeIndex>)
    requires
        walk_size(walk) == graph_nodes(*g).len(),
    ensures
        r@ == walk_rest(walk, *g),
{
    let mut walk = walk;
    let ghost order = walk_rest(walk, *g);
    let mut out: Vec<NodeIndex> = Vec::new();
    loop
        invariant
            out@.len() <= order.len(),
            walk_size(walk) == graph_nodes(*g).len(),
            walk_rest(walk, *g) == order.skip(out@.len() as int),
            out@ == order.take(out@.len() as int),
        ensures
            out@ == order,
        decreases order.len() - out@.len(),
    {
        match walk_next(&mut walk, g) {
            Some(n) => {
                let ghost seen = out@.len() as int;
                proof {
                    assert(order.skip(seen).skip(1) == order.skip(seen + 1));
                    assert(order.take(seen + 1) == order.take(seen).push(n));
                }
                out.push(n);
            },
            None => {
                assert(order.take(out@.len() as int) == order);
                break ;
            },
        }
    }
    out
}

/// Those of `nodes` that are not `prec`, in their order.
pub fn without(nodes: &Vec<NodeIndex>, prec: NodeIndex) -> (r: Vec<NodeIndex>)
    ensures
        r@ == others(nodes@, prec),
{
    let mut out: Vec<NodeIndex> = Vec::new();
    let mut i: usize = 0;
    while i < nodes.len()
        invariant
            i <= nodes.len(),
            out@ == others(nodes@.take(i as int), prec),
        decreases nodes.len() - i,
    {
        proof {
            let seen = nodes@.take(i + 1);
            assert(seen.drop_last() == nodes@.take(i as int));
            assert(seen.last() == nodes@[i as int]);
            reveal(Seq::filter);
        }
        if !same_node(nodes[i], prec) {
            out.push(nodes[i]);
        }
        i += 1;
    }
    assert(nodes@.take(nodes@.len() as int) == nodes@);
    out
}

/// A node binds tighter than every node from which an edge path leads to it.
impl PrecedenceGraph for Dag {
    type P = NodeIndex;

    open spec fn spec_ops(&self, prec: NodeIndex, fix: Fixity) -> Seq<OperatorView> {
        if graph_weights(*self).contains_key(prec) {
            with_fixity(graph_weights(*self)[prec], fix)
        } else {
            Seq::empty()
        }
    }

    open spec fn spec_succ(&self, prec: NodeIndex) -> Seq<NodeIndex> {
        if graph_weights(*self).contains_key(prec) {
            others(bfs_order(*self, prec), prec)
        } else {
            Seq::empty()
        }
    }

    open spec fn spec_all(&self) -> Seq<NodeIndex> {
        graph_nodes(*self)
    }

    proof fn lemma_ops_fixity(&self, prec: NodeIndex, fix: Fixity, i: int) {
        lemma_with_fixity(graph_weights(*self)[prec], fix, i);
    }

    fn ops(&self, prec: NodeIndex, fix: Fixity) -> (r: Vec<&Operator>) {
        match node_ops(self, prec) {
            Some(ops) => select(ops, fix),
            None => Vec::new(),
        }
    }

    fn succ(&self, prec: NodeIndex) -> (r: Vec<NodeIndex>) {
        if node_ops(self, prec).is_none() {
            return Vec::new();
        }
        let walk = walk_from(self, prec);
        without(&walk_all(walk, self), prec)
    }

    fn all(&self) -> (r: Vec<NodeIndex>) {
        node_handles(self)
    }
}

/// Whether whatever binds tighter than a node has fewer nodes that bind
/// tighter than itself, which is so exactly if no edge path leads from a node
/// back to it.
pub fn narrows(g: &Dag) -> (r: bool)
    ensures
        r == narrowing(g),
{
    let nodes = node_handles(g);
    let mut i: usize = 0;
    while i < nodes.len()
        invariant
            i <= nodes.len(),
            nodes@ == graph_nodes(*g),
            forall|n: NodeIndex| #[trigger] graph_weights(*g).contains_key(n) ==> nodes@.contains(n),
            forall|k: int, j: int|
                0 <= k < i && 0 <= j < g.spec_succ(nodes@[k]).len() ==> g.spec_succ(
                    #[trigger] g.spec_succ(nodes@[k])[j],
                ).len() < g.spec_succ(nodes@[k]).len(),
        decreases nodes.len() - i,
    {
        let tighter = g.succ(nodes[i]);
        let mut j: usize = 0;
        while j < tighter.len()
            invariant
                j <= tighter.len(),
                i < nodes.len(),
                tighter@ == g.spec_succ(nodes@[i as int]),
                forall|m: int|
                    0 <= m < j ==> g.spec_succ(#[trigger] tighter@[m]).len() < tighter@.len(),
            decreases tighter.len() - j,
        {
            if g.succ(tighter[j]).len() >= tighter.len() {
                return false;
            }
            j += 1;
        }
        i += 1;
    }
    proof {
        assert forall|p: NodeIndex, j: int| 0 <= j < g.spec_succ(p).len() implies g.spec_succ(
            #[trigger] g.spec_succ(p)[j],
        ).len() < g.spec_succ(p).len() by {
            assert(graph_weights(*g).contains_key(p));
            let k = choose|k: int| 0 <= k < nodes@.len() && nodes@[k] == p;
            assert(nodes@[k] == p);
        }
    }
    true
}

/// Reads the whole of `tokens` as one expression over `graph`, where the
/// graph has no cycle, and gives `None` where it has one.
pub fn parse_dag<'i>(graph: &Dag, tokens: ParseInput<'i>) -> (r: Option<
    Result<Expr, ParseError<'i>>,
>)
    ensures
        match r {
            Some(read) => narrowing(graph) && told(read) == spec_parse_expr(
                graph,
                words(tokens@),
            ),
            None => !narrowing(graph),
        },
{
    if narrows(graph) {
        proof {
            lemma_narrowing_acyclic(graph);
        }
        Some(parse_expr(graph, tokens))
    } else {
        None
    }
}

} // verus!
