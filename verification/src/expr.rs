//! Expressions: an operator applied to its arguments.

use crate::operator::{Groups, Operator, OperatorView, Word};
use vstd::prelude::*;

verus! {

/// An operator applied to its arguments, from left to right.
#[derive(Debug)]
pub struct Expr {
    pub operator: Operator,
    pub args: Vec<Expr>,
}

/// An expression as the contracts see it.
pub struct ExprView {
    pub operator: OperatorView,
    pub args: Seq<ExprView>,
}

impl View for Expr {
    type V = ExprView;

    open spec fn view(&self) -> ExprView
        decreases self,
    {
        ExprView { operator: self.operator@, args: views(self.args@) }
    }
}

/// The expressions of a sequence as the contracts see them.
pub open spec fn views(exprs: Seq<Expr>) -> Seq<ExprView>
    decreases exprs,
{
    Seq::new(
        exprs.len(),
        |i: int|
            if 0 <= i < exprs.len() {
                exprs[i].view()
            } else {
                arbitrary()
            },
    )
}

/// The view of a sequence of expressions holds the view of each of them, in
/// order.
pub proof fn lemma_views(exprs: Seq<Expr>)
    ensures
        views(exprs).len() == exprs.len(),
        forall|i: int| 0 <= i < exprs.len() ==> (#[trigger] views(exprs)[i]) == exprs[i]@,
{
    reveal_with_fuel(views, 2);
}

/// The view of an expression holds the view of its operator and of each of
/// its arguments.
pub proof fn lemma_view(e: Expr)
    ensures
        e@.operator == e.operator@,
        e@.args == views(e.args@),
        e@.args.len() == e.args@.len(),
        forall|i: int| 0 <= i < e.args@.len() ==> (#[trigger] e@.args[i]) == e.args@[i]@,
{
    lemma_views(e.args@);
}

/// The words of the holes `holes`, each followed by its group of name parts,
/// from the group `groups[i]` on.
pub open spec fn hole_words(groups: Groups, i: nat, holes: Seq<Seq<Word>>) -> Seq<Word>
    decreases groups.len() - i,
{
    if i >= groups.len() {
        Seq::empty()
    } else {
        holes[0] + groups[i as int] + hole_words(groups, i + 1, holes.skip(1))
    }
}

/// The words of a backbone with the words `holes` in its holes.
pub open spec fn core_words(groups: Groups, holes: Seq<Seq<Word>>) -> Seq<Word> {
    if groups.len() == 0 {
        Seq::empty()
    } else {
        groups[0] + hole_words(groups, 1, holes)
    }
}

/// The words of an application of `op` whose arguments have the words
/// `args`: the first argument where the operator is open to the left, the
/// backbone with the arguments in its holes, and the last argument where the
/// operator is open to the right.
pub open spec fn layout(op: OperatorView, args: Seq<Seq<Word>>) -> Seq<Word> {
    let lead: int = if op.fixity.opens_left() {
        1
    } else {
        0
    };
    let left = if op.fixity.opens_left() {
        args[0]
    } else {
        Seq::empty()
    };
    let right = if op.fixity.opens_right() {
        args[args.len() - 1]
    } else {
        Seq::empty()
    };
    left + core_words(op.backbone(), args.subrange(lead, lead + op.holes())) + right
}

/// The views of a vector with one more expression behind.
pub proof fn lemma_views_push(exprs: Seq<Expr>, e: Expr)
    ensures
        views(exprs.push(e)) == views(exprs).push(e@),
{
    lemma_views(exprs);
    lemma_views(exprs.push(e));
    assert(views(exprs.push(e)) =~= views(exprs).push(e@));
}

/// The views of a vector with one more expression in front.
pub proof fn lemma_views_insert(exprs: Seq<Expr>, e: Expr)
    ensures
        views(exprs.insert(0, e)) == seq![e@] + views(exprs),
{
    lemma_views(exprs);
    lemma_views(exprs.insert(0, e));
    assert(views(exprs.insert(0, e)) =~= seq![e@] + views(exprs));
}

/// The views of a vector read backwards.
pub proof fn lemma_views_reverse(exprs: Seq<Expr>)
    ensures
        views(exprs.reverse()) == views(exprs).reverse(),
{
    lemma_views(exprs);
    lemma_views(exprs.reverse());
    assert(views(exprs.reverse()) =~= views(exprs).reverse());
}

impl ExprView {
    /// The words of each argument.
    pub open spec fn arg_words(self) -> Seq<Seq<Word>>
        decreases self, 0nat,
    {
        Seq::new(
            self.args.len(),
            |i: int|
                if 0 <= i < self.args.len() {
                    self.args[i].words()
                } else {
                    Seq::empty()
                },
        )
    }

    /// The words that the expression is written with, from left to right.
    pub open spec fn words(self) -> Seq<Word>
        decreases self, 1nat,
    {
        layout(self.operator, self.arg_words())
    }

    /// Every node of the tree has as many arguments as its operator takes.
    pub open spec fn well_formed(self) -> bool
        decreases self,
    {
        &&& self.args.len() == self.operator.arity()
        &&& forall|i: int| 0 <= i < self.args.len() ==> (#[trigger] self.args[i]).well_formed()
    }
}

impl Expr {
    /// The application of `operator` to `args`.
    pub fn new(operator: Operator, args: Vec<Expr>) -> (r: Expr)
        ensures
            r.operator == operator,
            r.args == args,
            r@ == (ExprView { operator: operator@, args: views(args@) }),
    {
        Expr { operator, args }
    }

    /// Whether every node of the tree has as many arguments as its operator
    /// takes.
    pub fn well_formed(&self) -> (r: bool)
        ensures
            r == self@.well_formed(),
        decreases self,
    {
        proof {
            lemma_view(*self);
        }
        if !self.operator.takes(self.args.len()) {
            return false;
        }
        let mut i: usize = 0;
        while i < self.args.len()
            invariant
                i <= self.args.len(),
                self@.args.len() == self.args.len(),
                forall|j: int|
                    0 <= j < self.args@.len() ==> (#[trigger] self@.args[j]) == self.args@[j]@,
                forall|j: int| 0 <= j < i ==> (#[trigger] self@.args[j]).well_formed(),
            decreases self.args.len() - i,
        {
            if !self.args[i].well_formed() {
                assert(!self@.args[i as int].well_formed());
                return false;
            }
            i += 1;
        }
        true
    }
}

} // verus!
