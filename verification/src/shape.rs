//! The parts that an expression is put together from: an operator with its
//! holes only, a link of a chain that still lacks the rest of the chain, and
//! the chains themselves.

use crate::discipline::{binds_tighter, continues, leans, node_obeys, sound, stands_at};
use crate::expr::{core_words, ExprView};
use crate::fixity::{Associativity, Fixity};
use crate::grammar::{chain_left, chain_right, push_arg, unshift_arg, Side};
use crate::graph::PrecedenceGraph;
use crate::operator::Word;
use vstd::prelude::*;

verus! {

/// Whether `x` is an operator of the fixity `fix` at `p` with sound
/// expressions in its holes and no argument beside it.
pub open spec fn is_core<G: PrecedenceGraph>(g: &G, p: G::P, fix: Fixity, x: ExprView) -> bool {
    &&& stands_at(g, p, x.operator)
    &&& x.operator.fixity == fix
    &&& x.args.len() == x.operator.holes()
    &&& forall|i: int| 0 <= i < x.args.len() ==> sound(g, #[trigger] x.args[i])
}

/// The words of an operator with its holes only.
pub open spec fn inner_words(x: ExprView) -> Seq<Word> {
    core_words(x.operator.backbone(), x.arg_words())
}

/// The argument of an infix link that stands on the far side of the chain
/// that leans to `side`.
pub open spec fn far_arg(side: Side, y: ExprView) -> ExprView {
    match side {
        Side::Right => y.args[0],
        Side::Left => y.args.last(),
    }
}

/// Whether `y` is a link at `p` of a chain that leans to `side`: it lacks
/// only its argument on that side, its other arguments are sound, and an
/// argument on its far side binds tighter than `p`.
pub open spec fn is_link<G: PrecedenceGraph>(g: &G, p: G::P, side: Side, y: ExprView) -> bool {
    &&& stands_at(g, p, y.operator)
    &&& leans(y.operator.fixity, side)
    &&& y.args.len() + 1 == y.operator.arity()
    &&& forall|i: int| 0 <= i < y.args.len() ==> sound(g, #[trigger] y.args[i])
    &&& y.operator.fixity is Infix ==> binds_tighter(g, p, far_arg(side, y))
}

/// The words of a link without the rest of its chain.
pub open spec fn link_words(side: Side, y: ExprView) -> Seq<Word> {
    let args = y.arg_words();
    let holes = y.operator.holes() as int;
    let far = if y.operator.fixity is Infix {
        far_arg(side, y).words()
    } else {
        Seq::empty()
    };
    match side {
        Side::Right => if y.operator.fixity is Infix {
            far + core_words(y.operator.backbone(), args.subrange(1, 1 + holes))
        } else {
            core_words(y.operator.backbone(), args.subrange(0, holes))
        },
        Side::Left => core_words(y.operator.backbone(), args.subrange(0, holes)) + far,
    }
}

/// The words of the links of a chain, one after the other.
pub open spec fn links_words(side: Side, links: Seq<ExprView>) -> Seq<Word>
    decreases links.len(),
{
    if links.len() == 0 {
        Seq::empty()
    } else {
        link_words(side, links[0]) + links_words(side, links.skip(1))
    }
}

/// The words of the arguments with one more argument behind.
pub proof fn lemma_arg_words_push(y: ExprView, t: ExprView)
    ensures
        push_arg(y, t).arg_words() == y.arg_words().push(t.words()),
{
    assert(push_arg(y, t).arg_words() =~= y.arg_words().push(t.words()));
}

/// The words of the arguments with one more argument in front.
pub proof fn lemma_arg_words_unshift(h: ExprView, y: ExprView)
    ensures
        unshift_arg(h, y).arg_words() == seq![h.words()] + y.arg_words(),
{
    assert(unshift_arg(h, y).arg_words() =~= seq![h.words()] + y.arg_words());
}

/// A closed operator with its holes is an expression.
pub proof fn lemma_closed_whole<G: PrecedenceGraph>(g: &G, p: G::P, x: ExprView)
    requires
        is_core(g, p, Fixity::Closed, x),
    ensures
        sound(g, x),
        node_obeys(g, p, x),
        x.words() == inner_words(x),
{
    let args = x.arg_words();
    assert(args.subrange(0, x.operator.holes() as int) =~= args);
    assert(x.words() =~= inner_words(x));
    assert(node_obeys(g, p, x));
}

/// A prefix operator with its holes is a link of a chain to the right.
pub proof fn lemma_prefix_link<G: PrecedenceGraph>(g: &G, p: G::P, x: ExprView)
    requires
        is_core(g, p, Fixity::Prefix, x),
    ensures
        is_link(g, p, Side::Right, x),
        link_words(Side::Right, x) == inner_words(x),
{
    let args = x.arg_words();
    assert(args.subrange(0, x.operator.holes() as int) =~= args);
}

/// A postfix operator with its holes is a link of a chain to the left.
pub proof fn lemma_postfix_link<G: PrecedenceGraph>(g: &G, p: G::P, x: ExprView)
    requires
        is_core(g, p, Fixity::Postfix, x),
    ensures
        is_link(g, p, Side::Left, x),
        link_words(Side::Left, x) == inner_words(x),
{
    let args = x.arg_words();
    assert(args.subrange(0, x.operator.holes() as int) =~= args);
    assert(link_words(Side::Left, x) =~= inner_words(x));
}

/// A right-associative operator with its holes and a tighter argument before
/// it is a link of a chain to the right.
pub proof fn lemma_infix_right_link<G: PrecedenceGraph>(
    g: &G,
    p: G::P,
    first: ExprView,
    x: ExprView,
)
    requires
        is_core(g, p, Fixity::Infix(Associativity::Right), x),
        sound(g, first),
        binds_tighter(g, p, first),
    ensures
        is_link(g, p, Side::Right, unshift_arg(first, x)),
        link_words(Side::Right, unshift_arg(first, x)) == first.words() + inner_words(x),
{
    let y = unshift_arg(first, x);
    lemma_arg_words_unshift(first, x);
    let args = y.arg_words();
    assert(args.subrange(1, 1 + x.operator.holes() as int) =~= x.arg_words());
    assert forall|i: int| 0 <= i < y.args.len() implies sound(g, #[trigger] y.args[i]) by {
        if i > 0 {
            assert(y.args[i] == x.args[i - 1]);
        }
    }
}

/// A left-associative operator with its holes and a tighter argument behind
/// it is a link of a chain to the left.
pub proof fn lemma_infix_left_link<G: PrecedenceGraph>(
    g: &G,
    p: G::P,
    x: ExprView,
    last: ExprView,
)
    requires
        is_core(g, p, Fixity::Infix(Associativity::Left), x),
        sound(g, last),
        binds_tighter(g, p, last),
    ensures
        is_link(g, p, Side::Left, push_arg(x, last)),
        link_words(Side::Left, push_arg(x, last)) == inner_words(x) + last.words(),
{
    let y = push_arg(x, last);
    lemma_arg_words_push(x, last);
    let args = y.arg_words();
    assert(args.subrange(0, x.operator.holes() as int) =~= x.arg_words());
    assert forall|i: int| 0 <= i < y.args.len() implies sound(g, #[trigger] y.args[i]) by {
        if i < x.args.len() {
            assert(y.args[i] == x.args[i]);
        }
    }
}

/// A link of a chain to the right with the rest of the chain behind it is an
/// expression.
pub proof fn lemma_close_right<G: PrecedenceGraph>(g: &G, p: G::P, y: ExprView, t: ExprView)
    requires
        is_link(g, p, Side::Right, y),
        sound(g, t),
        continues(g, p, Side::Right, t),
    ensures
        sound(g, push_arg(y, t)),
        node_obeys(g, p, push_arg(y, t)),
        push_arg(y, t).words() == link_words(Side::Right, y) + t.words(),
{
    let e = push_arg(y, t);
    lemma_arg_words_push(y, t);
    let args = e.arg_words();
    let holes = y.operator.holes() as int;
    assert forall|i: int| 0 <= i < e.args.len() implies sound(g, #[trigger] e.args[i]) by {
        if i < y.args.len() {
            assert(e.args[i] == y.args[i]);
        }
    }
    assert(e.args.last() == t);
    if y.operator.fixity is Infix {
        assert(e.args[0] == y.args[0]);
        assert(args.subrange(1, 1 + holes) =~= y.arg_words().subrange(1, 1 + holes));
    } else {
        assert(args.subrange(0, holes) =~= y.arg_words().subrange(0, holes));
    }
    assert(node_obeys(g, p, e));
    assert(e.words() =~= link_words(Side::Right, y) + t.words());
}

/// A link of a chain to the left with the rest of the chain before it is an
/// expression.
pub proof fn lemma_close_left<G: PrecedenceGraph>(g: &G, p: G::P, h: ExprView, y: ExprView)
    requires
        is_link(g, p, Side::Left, y),
        sound(g, h),
        continues(g, p, Side::Left, h),
    ensures
        sound(g, unshift_arg(h, y)),
        node_obeys(g, p, unshift_arg(h, y)),
        unshift_arg(h, y).words() == h.words() + link_words(Side::Left, y),
{
    let e = unshift_arg(h, y);
    lemma_arg_words_unshift(h, y);
    let args = e.arg_words();
    let holes = y.operator.holes() as int;
    assert forall|i: int| 0 <= i < e.args.len() implies sound(g, #[trigger] e.args[i]) by {
        if i > 0 {
            assert(e.args[i] == y.args[i - 1]);
        }
    }
    assert(e.args[0] == h);
    assert(args.subrange(1, 1 + holes) =~= y.arg_words().subrange(0, holes));
    if y.operator.fixity is Infix {
        assert(e.args.last() == y.args.last());
    }
    assert(node_obeys(g, p, e));
    assert(e.words() =~= h.words() + link_words(Side::Left, y));
}

/// A non-associative operator with its holes between two tighter arguments
/// is an expression.
pub proof fn lemma_non_assoc_whole<G: PrecedenceGraph>(
    g: &G,
    p: G::P,
    left: ExprView,
    x: ExprView,
    right: ExprView,
)
    requires
        is_core(g, p, Fixity::Infix(Associativity::Non), x),
        sound(g, left),
        sound(g, right),
        binds_tighter(g, p, left),
        binds_tighter(g, p, right),
    ensures
        sound(g, push_arg(unshift_arg(left, x), right)),
        node_obeys(g, p, push_arg(unshift_arg(left, x), right)),
        push_arg(unshift_arg(left, x), right).words() == left.words() + inner_words(x)
            + right.words(),
{
    let y = unshift_arg(left, x);
    let e = push_arg(y, right);
    lemma_arg_words_unshift(left, x);
    lemma_arg_words_push(y, right);
    let args = e.arg_words();
    let holes = x.operator.holes() as int;
    assert forall|i: int| 0 <= i < e.args.len() implies sound(g, #[trigger] e.args[i]) by {
        if 0 < i <= x.args.len() {
            assert(e.args[i] == x.args[i - 1]);
        }
    }
    assert(e.args[0] == left);
    assert(e.args.last() == right);
    assert(args.subrange(1, 1 + holes) =~= x.arg_words());
    assert(node_obeys(g, p, e));
    assert(e.words() =~= left.words() + inner_words(x) + right.words());
}

/// A chain to the right that is closed by a tighter argument is an
/// expression, written with the words of its links and of that argument.
pub proof fn lemma_chain_right<G: PrecedenceGraph>(
    g: &G,
    p: G::P,
    links: Seq<ExprView>,
    last: ExprView,
)
    requires
        forall|i: int| 0 <= i < links.len() ==> is_link(g, p, Side::Right, #[trigger] links[i]),
        sound(g, last),
        binds_tighter(g, p, last),
    ensures
        sound(g, chain_right(links, last)),
        continues(g, p, Side::Right, chain_right(links, last)),
        links.len() > 0 ==> node_obeys(g, p, chain_right(links, last)),
        chain_right(links, last).words() == links_words(Side::Right, links) + last.words(),
    decreases links.len(),
{
    if links.len() == 0 {
        assert(links_words(Side::Right, links) + last.words() =~= last.words());
    } else {
        let rest = links.skip(1);
        assert forall|i: int| 0 <= i < rest.len() implies is_link(
            g,
            p,
            Side::Right,
            #[trigger] rest[i],
        ) by {
            assert(rest[i] == links[i + 1]);
        }
        lemma_chain_right(g, p, rest, last);
        let tail = chain_right(rest, last);
        assert(is_link(g, p, Side::Right, links[0]));
        lemma_close_right(g, p, links[0], tail);
        assert(link_words(Side::Right, links[0]) + (links_words(Side::Right, rest) + last.words())
            =~= links_words(Side::Right, links) + last.words());
    }
}

/// The words of the links of a chain with one more link behind.
pub proof fn lemma_links_words_push(side: Side, links: Seq<ExprView>, y: ExprView)
    ensures
        links_words(side, links.push(y)) == links_words(side, links) + link_words(side, y),
    decreases links.len(),
{
    if links.len() == 0 {
        let one = links.push(y);
        assert(one.skip(1) =~= Seq::<ExprView>::empty());
        assert(one[0] == y);
        assert(links_words(side, one.skip(1)) =~= Seq::<Word>::empty());
        assert(links_words(side, links) =~= Seq::<Word>::empty());
        assert(links_words(side, one) =~= link_words(side, y) + links_words(side, one.skip(1)));
        assert(links_words(side, one) =~= links_words(side, links) + link_words(side, y));
    } else {
        assert(links.push(y).skip(1) =~= links.skip(1).push(y));
        lemma_links_words_push(side, links.skip(1), y);
        assert(links_words(side, links.push(y)) =~= links_words(side, links) + link_words(side, y));
    }
}

/// A chain to the left that starts from a tighter argument is an expression,
/// written with the words of that argument and of its links.
pub proof fn lemma_chain_left<G: PrecedenceGraph>(
    g: &G,
    p: G::P,
    first: ExprView,
    links: Seq<ExprView>,
)
    requires
        forall|i: int| 0 <= i < links.len() ==> is_link(g, p, Side::Left, #[trigger] links[i]),
        sound(g, first),
        binds_tighter(g, p, first),
    ensures
        sound(g, chain_left(first, links)),
        continues(g, p, Side::Left, chain_left(first, links)),
        links.len() > 0 ==> node_obeys(g, p, chain_left(first, links)),
        chain_left(first, links).words() == first.words() + links_words(Side::Left, links),
    decreases links.len(),
{
    if links.len() == 0 {
        assert(first.words() + links_words(Side::Left, links) =~= first.words());
    } else {
        let rest = links.drop_last();
        assert forall|i: int| 0 <= i < rest.len() implies is_link(
            g,
            p,
            Side::Left,
            #[trigger] rest[i],
        ) by {
            assert(rest[i] == links[i]);
        }
        lemma_chain_left(g, p, first, rest);
        let head = chain_left(first, rest);
        assert(is_link(g, p, Side::Left, links.last()));
        lemma_close_left(g, p, head, links.last());
        lemma_links_words_push(Side::Left, rest, links.last());
        assert(rest.push(links.last()) =~= links);
        assert((first.words() + links_words(Side::Left, rest)) + link_words(
            Side::Left,
            links.last(),
        ) =~= first.words() + links_words(Side::Left, links));
    }
}

} // verus!
