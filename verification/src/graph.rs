//! Precedence graphs: which operators stand at which precedence, and which
//! precedences bind tighter than which.

use crate::fixity::Fixity;
use crate::operator::{Operator, OperatorView};
use std::collections::HashMap;
use vstd::prelude::*;

verus! {

/// What the parser asks of a precedence graph.
///
/// `succ(p)` holds every precedence that binds strictly tighter than `p`, not
/// only its direct neighbours. The three answers are functions of the graph:
/// asked twice, a graph answers the same.
pub trait PrecedenceGraph {
    /// A handle on one precedence.
    type P: Copy;

    /// The operators that `ops` hands out, in its order.
    spec fn spec_ops(&self, prec: Self::P, fix: Fixity) -> Seq<OperatorView>;

    /// The precedences that `succ` hands out, in its order.
    spec fn spec_succ(&self, prec: Self::P) -> Seq<Self::P>;

    /// The precedences that `all` hands out, in its order.
    spec fn spec_all(&self) -> Seq<Self::P>;

    /// Every operator handed out for a fixity has that fixity.
    proof fn lemma_ops_fixity(&self, prec: Self::P, fix: Fixity, i: int)
        requires
            0 <= i < self.spec_ops(prec, fix).len(),
        ensures
            self.spec_ops(prec, fix)[i].fixity == fix,
    ;

    /// The operators at `prec` whose fixity is `fix`.
    fn ops(&self, prec: Self::P, fix: Fixity) -> (r: Vec<&Operator>)
        ensures
            r@.len() == self.spec_ops(prec, fix).len(),
            forall|i: int| 0 <= i < r@.len() ==> (#[trigger] r@[i])@ == self.spec_ops(prec, fix)[i],
    ;

    /// The precedences that bind strictly tighter than `prec`.
    fn succ(&self, prec: Self::P) -> (r: Vec<Self::P>)
        ensures
            r@ == self.spec_succ(prec),
    ;

    /// Every precedence of the graph.
    fn all(&self) -> (r: Vec<Self::P>)
        ensures
            r@ == self.spec_all(),
    ;
}

/// Whether `rank` falls along every step from a precedence to one that binds
/// tighter.
pub open spec fn ranked_by<G: PrecedenceGraph>(g: &G, rank: spec_fn(G::P) -> nat) -> bool {
    forall|p: G::P, i: int|
        0 <= i < g.spec_succ(p).len() ==> rank(#[trigger] g.spec_succ(p)[i]) < rank(p)
}

/// Whether "binds tighter" has no cycle: some rank falls along every step.
pub open spec fn acyclic<G: PrecedenceGraph>(g: &G) -> bool {
    exists|rank: spec_fn(G::P) -> nat| ranked_by(g, rank)
}

/// A rank of `prec` that falls along every step, where the graph has no
/// cycle.
pub open spec fn rank_of<G: PrecedenceGraph>(g: &G, prec: G::P) -> nat {
    (choose|rank: spec_fn(G::P) -> nat| ranked_by(g, rank))(prec)
}

/// In a graph without a cycle, whatever binds tighter has the smaller rank.
pub proof fn lemma_rank_falls<G: PrecedenceGraph>(g: &G, prec: G::P, i: int)
    requires
        acyclic(g),
        0 <= i < g.spec_succ(prec).len(),
    ensures
        rank_of(g, g.spec_succ(prec)[i]) < rank_of(g, prec),
{
    let rank = choose|rank: spec_fn(G::P) -> nat| ranked_by(g, rank);
    assert(ranked_by(g, rank));
}

/// The number of precedences that bind tighter than `prec`.
pub open spec fn tighter_count<G: PrecedenceGraph>(g: &G) -> spec_fn(G::P) -> nat {
    |prec: G::P| g.spec_succ(prec).len()
}

/// Whether whatever binds tighter than a precedence has fewer precedences
/// that bind tighter than itself. Where `succ` holds every precedence that
/// is tighter, not only the direct neighbours, this is so exactly if the
/// graph has no cycle.
pub open spec fn narrowing<G: PrecedenceGraph>(g: &G) -> bool {
    ranked_by(g, tighter_count(g))
}

/// A graph that narrows has no cycle.
pub proof fn lemma_narrowing_acyclic<G: PrecedenceGraph>(g: &G)
    requires
        narrowing(g),
    ensures
        acyclic(g),
{
}

/// The operators of a sequence as the contracts see them.
pub open spec fn op_views(ops: Seq<Operator>) -> Seq<OperatorView> {
    Seq::new(ops.len(), |i: int| ops[i]@)
}

/// Those of `ops` whose fixity is `fix`, in their order.
pub open spec fn with_fixity(ops: Seq<OperatorView>, fix: Fixity) -> Seq<OperatorView> {
    ops.filter(|o: OperatorView| o.fixity == fix)
}

/// Those of `precs` that are greater than `prec`, in their order.
pub open spec fn above(precs: Seq<usize>, prec: usize) -> Seq<usize> {
    precs.filter(|k: usize| k > prec)
}

/// Every operator that `with_fixity` keeps has the fixity asked for.
pub proof fn lemma_with_fixity(ops: Seq<OperatorView>, fix: Fixity, i: int)
    requires
        0 <= i < with_fixity(ops, fix).len(),
    ensures
        with_fixity(ops, fix)[i].fixity == fix,
{
    ops.lemma_filter_pred(|o: OperatorView| o.fixity == fix, i);
}

/// Every precedence that `above` keeps is greater than the one asked for.
pub proof fn lemma_above(precs: Seq<usize>, prec: usize, i: int)
    requires
        0 <= i < above(precs, prec).len(),
    ensures
        above(precs, prec)[i] > prec,
{
    precs.lemma_filter_pred(|k: usize| k > prec, i);
}

/// Those of `ops` whose fixity is `fix`, borrowed, in their order.
pub fn select<'a>(ops: &'a Vec<Operator>, fix: Fixity) -> (r: Vec<&'a Operator>)
    ensures
        r@.len() == with_fixity(op_views(ops@), fix).len(),
        forall|i: int|
            0 <= i < r@.len() ==> (#[trigger] r@[i])@ == with_fixity(op_views(ops@), fix)[i],
{
    let mut out: Vec<&'a Operator> = Vec::new();
    let mut i: usize = 0;
    while i < ops.len()
        invariant
            i <= ops.len(),
            out@.len() == with_fixity(op_views(ops@.take(i as int)), fix).len(),
            forall|j: int|
                0 <= j < out@.len() ==> (#[trigger] out@[j])@ == with_fixity(
                    op_views(ops@.take(i as int)),
                    fix,
                )[j],
        decreases ops.len() - i,
    {
        proof {
            let seen = op_views(ops@.take(i + 1));
            assert(seen.drop_last() =~= op_views(ops@.take(i as int)));
            assert(seen.last() == ops@[i as int]@);
            reveal(Seq::filter);
        }
        if ops[i].fixity == fix {
            out.push(&ops[i]);
        }
        i += 1;
    }
    assert(ops@.take(ops@.len() as int) == ops@);
    out
}

/// The keys of a level map in the order in which the map hands them out.
pub open spec fn key_order(levels: &HashMap<usize, Vec<Operator>>) -> Seq<usize> {
    vstd::std_specs::hash::into_iter_keys(levels.keys())
}

/// Levels by number: a level binds tighter than every level with a smaller
/// number.
impl PrecedenceGraph for HashMap<usize, Vec<Operator>> {
    type P = usize;

    open spec fn spec_ops(&self, prec: usize, fix: Fixity) -> Seq<OperatorView> {
        if self@.contains_key(prec) {
            with_fixity(op_views(self@[prec]@), fix)
        } else {
            Seq::empty()
        }
    }

    open spec fn spec_succ(&self, prec: usize) -> Seq<usize> {
        above(key_order(self), prec)
    }

    open spec fn spec_all(&self) -> Seq<usize> {
        key_order(self)
    }

    proof fn lemma_ops_fixity(&self, prec: usize, fix: Fixity, i: int) {
        lemma_with_fixity(op_views(self@[prec]@), fix, i);
    }

    fn ops(&self, prec: usize, fix: Fixity) -> (r: Vec<&Operator>) {
        broadcast use vstd::std_specs::hash::group_hash_axioms;

        match self.get(&prec) {
            Some(ops) => select(ops, fix),
            None => Vec::new(),
        }
    }

    fn succ(&self, prec: usize) -> (r: Vec<usize>) {
        broadcast use vstd::std_specs::hash::group_hash_axioms;

        let mut out: Vec<usize> = Vec::new();
        for k in it: self.keys()
            invariant
                it.seq().unref() == key_order(self),
                out@ == above(key_order(self).take(it.index() as int), prec),
        {
            proof {
                let seen = key_order(self).take(it.index() + 1);
                assert(seen.drop_last() == key_order(self).take(it.index() as int));
                assert(seen.last() == *k);
                reveal(Seq::filter);
            }
            if *k > prec {
                out.push(*k);
            }
        }
        assert(key_order(self).take(key_order(self).len() as int) == key_order(self));
        out
    }

    fn all(&self) -> (r: Vec<usize>) {
        broadcast use vstd::std_specs::hash::group_hash_axioms;

        let mut out: Vec<usize> = Vec::new();
        for k in it: self.keys()
            invariant
                it.seq().unref() == key_order(self),
                out@ == key_order(self).take(it.index() as int),
        {
            out.push(*k);
        }
        out
    }
}

/// A level map has no cycle: the greater the level, the smaller its rank.
pub proof fn lemma_levels_acyclic(levels: &HashMap<usize, Vec<Operator>>)
    ensures
        acyclic(levels),
{
    let rank = |p: usize| (usize::MAX - p) as nat;
    assert forall|p: usize, i: int| 0 <= i < levels.spec_succ(p).len() implies rank(
        #[trigger] levels.spec_succ(p)[i],
    ) < rank(p) by {
        lemma_above(key_order(levels), p, i);
    }
    assert(ranked_by(levels, rank));
}

} // verus!
