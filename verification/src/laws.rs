//! What holds of every parse: the expression is well formed, it is written
//! with exactly the tokens that were read, it obeys the precedence
//! discipline, and it is the longest match.

use crate::combinator::{
    after, lemma_group_reads, lemma_winner_in_range, outcomes_of, spec_group, spec_opt, spec_opts,
    winner, Outcome, Parsed,
};
use crate::discipline::{binds_tighter, node_obeys, obeys, sound, stands_at};
use crate::error::{
    lemma_error_lt_irreflexive, lemma_error_lt_transitive, words, ErrorView, ParseInput,
};
use crate::expr::{hole_words, Expr, ExprView};
use crate::fixity::{Associativity, Fixity};
use crate::grammar::{
    afresh, precs_of, rank_from, spec_backbone, spec_closed, spec_expr,
    spec_holes, spec_inner, spec_inner_upto, spec_link, spec_links, spec_more_links,
    spec_non_assoc, spec_post_left, spec_post_left_item, spec_pre_right, spec_pre_right_item,
    spec_prec, spec_precs, spec_precs_upto, Side,
};
use crate::graph::{acyclic, lemma_rank_falls, rank_of, PrecedenceGraph};
use crate::operator::{lemma_backbone_ends, Groups, OperatorView, Word};
use crate::parser::{spec_parse_expr, told, ParseError};
use crate::shape::{
    inner_words, is_core, is_link, lemma_chain_left, lemma_chain_right, lemma_closed_whole,
    lemma_infix_left_link, lemma_infix_right_link, lemma_non_assoc_whole, lemma_postfix_link,
    lemma_prefix_link, link_words, links_words,
};
use vstd::prelude::*;

verus! {

/// Whether a parse, where it is one, read tokens that were there and gave a
/// sound expression that is written with exactly those tokens.
pub open spec fn whole<G: PrecedenceGraph>(g: &G, toks: Seq<Word>, r: Parsed<ExprView>) -> bool {
    r matches Ok((n, e)) ==> n <= toks.len() && sound(g, e) && e.words() == toks.take(n as int)
}

/// Whether a parse is whole and has its outermost operator at `p`, with only
/// what the discipline admits beside it.
pub open spec fn whole_at<G: PrecedenceGraph>(
    g: &G,
    p: G::P,
    toks: Seq<Word>,
    r: Parsed<ExprView>,
) -> bool {
    whole(g, toks, r) && (r matches Ok((_, e)) ==> node_obeys(g, p, e))
}

/// Whether a parse among the precedences of `from` is whole and, where they
/// are those tighter than some `p`, binds tighter than `p`.
pub open spec fn whole_from<G: PrecedenceGraph>(
    g: &G,
    from: Option<G::P>,
    toks: Seq<Word>,
    r: Parsed<ExprView>,
) -> bool {
    whole(g, toks, r) && (r matches Ok((_, e)) ==> (from matches Some(p) ==> binds_tighter(
        g,
        p,
        e,
    )))
}

/// Whether a parse of the backbone of `op`, where it is one, gave `op` with
/// sound expressions in its holes, written with exactly the tokens read.
pub open spec fn backbone_read<G: PrecedenceGraph>(
    g: &G,
    op: OperatorView,
    toks: Seq<Word>,
    r: Parsed<ExprView>,
) -> bool {
    r matches Ok((n, x)) ==> {
        &&& n <= toks.len()
        &&& x.operator == op
        &&& x.args.len() == op.holes()
        &&& forall|i: int| 0 <= i < x.args.len() ==> sound(g, #[trigger] x.args[i])
        &&& inner_words(x) == toks.take(n as int)
    }
}

/// Whether a parse of an operator at `p`, where it is one, gave one of the
/// fixity asked for with its holes, written with exactly the tokens read.
pub open spec fn core_read<G: PrecedenceGraph>(
    g: &G,
    p: G::P,
    fix: Fixity,
    toks: Seq<Word>,
    r: Parsed<ExprView>,
) -> bool {
    r matches Ok((n, x)) ==> n <= toks.len() && is_core(g, p, fix, x) && inner_words(x)
        == toks.take(n as int)
}

/// Whether a parse of a link, where it is one, gave a link of a chain at `p`
/// that leans to `side`, written with exactly the tokens read.
pub open spec fn link_read<G: PrecedenceGraph>(
    g: &G,
    p: G::P,
    side: Side,
    toks: Seq<Word>,
    r: Parsed<ExprView>,
) -> bool {
    r matches Ok((n, y)) ==> n <= toks.len() && is_link(g, p, side, y) && link_words(side, y)
        == toks.take(n as int)
}

/// Whether `links` are links of a chain at `p` that leans to `side`, written
/// with exactly the first `n` tokens.
pub open spec fn links_read<G: PrecedenceGraph>(
    g: &G,
    p: G::P,
    side: Side,
    toks: Seq<Word>,
    n: nat,
    links: Seq<ExprView>,
) -> bool {
    &&& n <= toks.len()
    &&& forall|i: int| 0 <= i < links.len() ==> is_link(g, p, side, #[trigger] links[i])
    &&& links_words(side, links) == toks.take(n as int)
}

/// The words of each of `exprs`.
pub open spec fn words_of(exprs: Seq<ExprView>) -> Seq<Seq<Word>> {
    Seq::new(exprs.len(), |i: int| exprs[i].words())
}

/// Whether a parse of the holes from `groups[i]` on, where it is one, gave a
/// sound expression for each, written with exactly the tokens read.
pub open spec fn holes_read<G: PrecedenceGraph>(
    g: &G,
    groups: Groups,
    i: nat,
    toks: Seq<Word>,
    r: Parsed<Seq<ExprView>>,
) -> bool {
    r matches Ok((n, holes)) ==> {
        &&& n <= toks.len()
        &&& holes.len() == if i <= groups.len() {
            groups.len() - i
        } else {
            0
        }
        &&& forall|j: int| 0 <= j < holes.len() ==> sound(g, #[trigger] holes[j])
        &&& hole_words(groups, i, words_of(holes)) == toks.take(n as int)
    }
}

/// What is read first and what is read behind it make up what is read in
/// all.
pub proof fn lemma_take_join(toks: Seq<Word>, n1: nat, n2: nat)
    requires
        n1 <= toks.len(),
        n2 <= after(toks, n1).len(),
    ensures
        n1 + n2 <= toks.len(),
        toks.take(n1 as int) + after(toks, n1).take(n2 as int) == toks.take((n1 + n2) as int),
        after(after(toks, n1), n2) == after(toks, n1 + n2),
{
    assert(toks.take(n1 as int) + after(toks, n1).take(n2 as int) =~= toks.take((n1 + n2) as int));
    assert(after(after(toks, n1), n2) =~= after(toks, n1 + n2));
}

/// The choice among parses is one of them.
pub proof fn lemma_opts_is_one<T>(parses: Seq<Parsed<T>>)
    ensures
        parses.len() == 0 ==> spec_opts(parses) is Err,
        parses.len() > 0 ==> 0 <= winner(outcomes_of(parses)) < parses.len() && spec_opts(parses)
            == parses[winner(outcomes_of(parses))],
{
    lemma_winner_in_range(outcomes_of(parses));
}

/// A run of tokens that is read is the front of the input.
pub proof fn lemma_group_words(parts: Seq<Word>, toks: Seq<Word>)
    requires
        spec_group(parts, toks) is Ok,
    ensures
        spec_group(parts, toks) == Ok::<(nat, ()), ErrorView>((parts.len(), ())),
        parts.len() <= toks.len(),
        toks.take(parts.len() as int) == parts,
{
    lemma_group_reads(parts, toks, 0);
    assert(toks.take(parts.len() as int) =~= parts);
}

/// Every parse among the precedences of `from` is whole.
pub proof fn law_precs<G: PrecedenceGraph>(g: &G, from: Option<G::P>, toks: Seq<Word>)
    requires
        acyclic(g),
    ensures
        whole_from(g, from, toks, spec_precs(g, from, toks)),
    decreases toks.len(), afresh(from), rank_from(g, from), 1nat, 0nat,
{
    let n = precs_of(g, from).len();
    let parses = spec_precs_upto(g, from, toks, n);
    law_precs_upto(g, from, toks, n);
    lemma_opts_is_one(parses);
    if parses.len() > 0 {
        let w = winner(outcomes_of(parses));
        assert(whole_at(g, precs_of(g, from)[w], toks, parses[w]));
        if parses[w] is Ok && from is Some {
            let e = parses[w]->Ok_0.1;
            assert(stands_at(g, g.spec_succ(from->0)[w], e.operator));
        }
    }
}

/// Every parse at one of the first `n` precedences of `from` is whole and
/// has its outermost operator there.
pub proof fn law_precs_upto<G: PrecedenceGraph>(
    g: &G,
    from: Option<G::P>,
    toks: Seq<Word>,
    n: nat,
)
    requires
        acyclic(g),
        n <= precs_of(g, from).len(),
    ensures
        spec_precs_upto(g, from, toks, n).len() == n,
        forall|j: int|
            0 <= j < n ==> whole_at(
                g,
                precs_of(g, from)[j],
                toks,
                #[trigger] spec_precs_upto(g, from, toks, n)[j],
            ),
    decreases toks.len(), afresh(from), rank_from(g, from), 0nat, n,
{
    if n > 0 {
        if from is Some {
            lemma_rank_falls(g, from->0, n - 1);
        }
        law_precs_upto(g, from, toks, (n - 1) as nat);
        law_prec(g, precs_of(g, from)[n - 1], toks);
        let before = spec_precs_upto(g, from, toks, (n - 1) as nat);
        let now = spec_precs_upto(g, from, toks, n);
        assert forall|j: int| 0 <= j < n implies whole_at(
            g,
            precs_of(g, from)[j],
            toks,
            #[trigger] now[j],
        ) by {
            if j < n - 1 {
                assert(now[j] == before[j]);
            }
        }
    }
}

/// Every parse at `p` is whole and has its outermost operator there.
pub proof fn law_prec<G: PrecedenceGraph>(g: &G, p: G::P, toks: Seq<Word>)
    requires
        acyclic(g),
    ensures
        whole_at(g, p, toks, spec_prec(g, p, toks)),
    decreases toks.len(), 0nat, rank_of(g, p), 9nat, 0nat,
{
    law_closed(g, p, toks);
    law_non_assoc(g, p, toks);
    law_pre_right(g, p, toks);
    law_post_left(g, p, toks);
    let parses = seq![
        spec_closed(g, p, toks),
        spec_non_assoc(g, p, toks),
        spec_pre_right(g, p, toks),
        spec_post_left(g, p, toks),
    ];
    lemma_opts_is_one(parses);
}

/// Every parse of a closed operator at `p` is whole.
pub proof fn law_closed<G: PrecedenceGraph>(g: &G, p: G::P, toks: Seq<Word>)
    requires
        acyclic(g),
    ensures
        whole_at(g, p, toks, spec_closed(g, p, toks)),
    decreases toks.len(), 0nat, rank_of(g, p), 8nat, 0nat,
{
    law_inner(g, p, Fixity::Closed, toks);
    if let Ok((n, x)) = spec_closed(g, p, toks) {
        lemma_closed_whole(g, p, x);
    }
}

/// Every parse of a non-associative operator at `p` between its arguments is
/// whole.
pub proof fn law_non_assoc<G: PrecedenceGraph>(g: &G, p: G::P, toks: Seq<Word>)
    requires
        acyclic(g),
    ensures
        whole_at(g, p, toks, spec_non_assoc(g, p, toks)),
    decreases toks.len(), 0nat, rank_of(g, p), 8nat, 0nat,
{
    law_precs(g, Some(p), toks);
    if let Ok((n1, left)) = spec_precs(g, Some(p), toks) {
        let fix = Fixity::Infix(Associativity::Non);
        law_inner(g, p, fix, after(toks, n1));
        if let Ok((n2, mid)) = spec_inner(g, p, fix, after(toks, n1)) {
            lemma_take_join(toks, n1, n2);
            law_precs(g, Some(p), after(after(toks, n1), n2));
            if let Ok((n3, right)) = spec_precs(g, Some(p), after(after(toks, n1), n2)) {
                lemma_take_join(toks, n1 + n2, n3);
                lemma_non_assoc_whole(g, p, left, mid, right);
            }
        }
    }
}

/// Every parse of a chain to the right at `p` is whole.
pub proof fn law_pre_right<G: PrecedenceGraph>(g: &G, p: G::P, toks: Seq<Word>)
    requires
        acyclic(g),
    ensures
        whole_at(g, p, toks, spec_pre_right(g, p, toks)),
    decreases toks.len(), 0nat, rank_of(g, p), 8nat, 0nat,
{
    law_links(g, p, Side::Right, toks);
    if let Ok((n1, items)) = spec_links(g, p, Side::Right, toks) {
        law_precs(g, Some(p), after(toks, n1));
        if let Ok((n2, last)) = spec_precs(g, Some(p), after(toks, n1)) {
            lemma_take_join(toks, n1, n2);
            lemma_chain_right(g, p, items, last);
        }
    }
}

/// Every parse of a chain to the left at `p` is whole.
pub proof fn law_post_left<G: PrecedenceGraph>(g: &G, p: G::P, toks: Seq<Word>)
    requires
        acyclic(g),
    ensures
        whole_at(g, p, toks, spec_post_left(g, p, toks)),
    decreases toks.len(), 0nat, rank_of(g, p), 8nat, 0nat,
{
    law_precs(g, Some(p), toks);
    if let Ok((n1, first)) = spec_precs(g, Some(p), toks) {
        law_links(g, p, Side::Left, after(toks, n1));
        if let Ok((n2, items)) = spec_links(g, p, Side::Left, after(toks, n1)) {
            lemma_take_join(toks, n1, n2);
            lemma_chain_left(g, p, first, items);
        }
    }
}

/// One or more links that are read are links, written with the tokens read.
pub proof fn law_links<G: PrecedenceGraph>(g: &G, p: G::P, side: Side, toks: Seq<Word>)
    requires
        acyclic(g),
    ensures
        spec_links(g, p, side, toks) matches Ok((n, links)) ==> links.len() > 0 && links_read(
            g,
            p,
            side,
            toks,
            n,
            links,
        ),
    decreases toks.len(), 0nat, rank_of(g, p), 7nat, 1nat,
{
    law_link(g, p, side, toks);
    if let Ok((n, x)) = spec_link(g, p, side, toks) {
        law_more_links(g, p, side, after(toks, n));
        let (m, xs) = spec_more_links(g, p, side, after(toks, n));
        lemma_take_join(toks, n, m);
        lemma_links_join(g, p, side, x, xs);
    }
}

/// A link before further links makes links, written with the words of both.
pub proof fn lemma_links_join<G: PrecedenceGraph>(
    g: &G,
    p: G::P,
    side: Side,
    x: ExprView,
    xs: Seq<ExprView>,
)
    requires
        is_link(g, p, side, x),
        forall|i: int| 0 <= i < xs.len() ==> is_link(g, p, side, #[trigger] xs[i]),
    ensures
        forall|i: int|
            0 <= i < (seq![x] + xs).len() ==> is_link(g, p, side, #[trigger] (seq![x] + xs)[i]),
        links_words(side, seq![x] + xs) == link_words(side, x) + links_words(side, xs),
{
    let all = seq![x] + xs;
    assert(all.skip(1) =~= xs);
    assert(all[0] == x);
    assert forall|i: int| 0 <= i < all.len() implies is_link(g, p, side, #[trigger] all[i]) by {
        if i > 0 {
            assert(all[i] == xs[i - 1]);
        }
    }
}

/// The further links that are read are links, written with the tokens read.
pub proof fn law_more_links<G: PrecedenceGraph>(g: &G, p: G::P, side: Side, toks: Seq<Word>)
    requires
        acyclic(g),
    ensures
        links_read(
            g,
            p,
            side,
            toks,
            spec_more_links(g, p, side, toks).0,
            spec_more_links(g, p, side, toks).1,
        ),
    decreases toks.len(), 0nat, rank_of(g, p), 7nat, 0nat,
{
    law_link(g, p, side, toks);
    let none = Seq::<ExprView>::empty();
    assert(links_words(side, none) =~= toks.take(0));
    if let Ok((n, x)) = spec_link(g, p, side, toks) {
        if after(toks, n).len() < toks.len() {
            law_more_links(g, p, side, after(toks, n));
            let (m, xs) = spec_more_links(g, p, side, after(toks, n));
            lemma_take_join(toks, n, m);
            lemma_links_join(g, p, side, x, xs);
        }
    }
}

/// A link that is read is a link, written with the tokens read.
pub proof fn law_link<G: PrecedenceGraph>(g: &G, p: G::P, side: Side, toks: Seq<Word>)
    requires
        acyclic(g),
    ensures
        link_read(g, p, side, toks, spec_link(g, p, side, toks)),
    decreases toks.len(), 0nat, rank_of(g, p), 6nat, 1nat,
{
    match side {
        Side::Right => law_pre_right_item(g, p, toks),
        Side::Left => law_post_left_item(g, p, toks),
    }
}

/// A link of a chain to the right that is read is such a link.
pub proof fn law_pre_right_item<G: PrecedenceGraph>(g: &G, p: G::P, toks: Seq<Word>)
    requires
        acyclic(g),
    ensures
        link_read(g, p, Side::Right, toks, spec_pre_right_item(g, p, toks)),
    decreases toks.len(), 0nat, rank_of(g, p), 6nat, 0nat,
{
    law_inner(g, p, Fixity::Prefix, toks);
    if let Ok((n, x)) = spec_inner(g, p, Fixity::Prefix, toks) {
        lemma_prefix_link(g, p, x);
    }
    law_precs(g, Some(p), toks);
    if let Ok((n1, first)) = spec_precs(g, Some(p), toks) {
        let fix = Fixity::Infix(Associativity::Right);
        law_inner(g, p, fix, after(toks, n1));
        if let Ok((n2, rest)) = spec_inner(g, p, fix, after(toks, n1)) {
            lemma_take_join(toks, n1, n2);
            lemma_infix_right_link(g, p, first, rest);
        }
    }
}

/// A link of a chain to the left that is read is such a link.
pub proof fn law_post_left_item<G: PrecedenceGraph>(g: &G, p: G::P, toks: Seq<Word>)
    requires
        acyclic(g),
    ensures
        link_read(g, p, Side::Left, toks, spec_post_left_item(g, p, toks)),
    decreases toks.len(), 0nat, rank_of(g, p), 6nat, 0nat,
{
    law_inner(g, p, Fixity::Postfix, toks);
    if let Ok((n, x)) = spec_inner(g, p, Fixity::Postfix, toks) {
        lemma_postfix_link(g, p, x);
    }
    let fix = Fixity::Infix(Associativity::Left);
    law_inner(g, p, fix, toks);
    if let Ok((n1, rest)) = spec_inner(g, p, fix, toks) {
        law_precs(g, Some(p), after(toks, n1));
        if let Ok((n2, last)) = spec_precs(g, Some(p), after(toks, n1)) {
            lemma_take_join(toks, n1, n2);
            lemma_infix_left_link(g, p, rest, last);
        }
    }
}

/// An operator at `p` that is read with its holes is one of the fixity asked
/// for, written with the tokens read.
pub proof fn law_inner<G: PrecedenceGraph>(g: &G, p: G::P, fix: Fixity, toks: Seq<Word>)
    requires
        acyclic(g),
    ensures
        core_read(g, p, fix, toks, spec_inner(g, p, fix, toks)),
    decreases toks.len(), 0nat, rank_of(g, p), 3nat, 0nat,
{
    let n = g.spec_ops(p, fix).len();
    let parses = spec_inner_upto(g, p, fix, toks, n);
    law_inner_upto(g, p, fix, toks, n);
    lemma_opts_is_one(parses);
    if parses.len() > 0 {
        let w = winner(outcomes_of(parses));
        assert(backbone_read(g, g.spec_ops(p, fix)[w], toks, parses[w]));
        g.lemma_ops_fixity(p, fix, w);
        if let Ok((_, x)) = parses[w] {
            assert(g.spec_ops(p, x.operator.fixity)[w] == x.operator);
        }
    }
}

/// Each of the first `n` operators at `p` that is read is read with its
/// holes, written with the tokens read.
pub proof fn law_inner_upto<G: PrecedenceGraph>(
    g: &G,
    p: G::P,
    fix: Fixity,
    toks: Seq<Word>,
    n: nat,
)
    requires
        acyclic(g),
        n <= g.spec_ops(p, fix).len(),
    ensures
        spec_inner_upto(g, p, fix, toks, n).len() == n,
        forall|j: int|
            0 <= j < n ==> backbone_read(
                g,
                g.spec_ops(p, fix)[j],
                toks,
                #[trigger] spec_inner_upto(g, p, fix, toks, n)[j],
            ),
    decreases toks.len(), 0nat, rank_of(g, p), 2nat, n,
{
    if n > 0 {
        law_inner_upto(g, p, fix, toks, (n - 1) as nat);
        law_backbone(g, g.spec_ops(p, fix)[n - 1], toks);
        let before = spec_inner_upto(g, p, fix, toks, (n - 1) as nat);
        let now = spec_inner_upto(g, p, fix, toks, n);
        assert forall|j: int| 0 <= j < n implies backbone_read(
            g,
            g.spec_ops(p, fix)[j],
            toks,
            #[trigger] now[j],
        ) by {
            if j < n - 1 {
                assert(now[j] == before[j]);
            }
        }
    }
}

/// A backbone that is read holds a sound expression in each hole and is
/// written with the tokens read.
pub proof fn law_backbone<G: PrecedenceGraph>(g: &G, op: OperatorView, toks: Seq<Word>)
    requires
        acyclic(g),
    ensures
        backbone_read(g, op, toks, spec_backbone(g, op, toks)),
    decreases toks.len(), 0nat, 0nat, 0nat, 0nat,
{
    let groups = op.backbone();
    if groups.len() == 0 {
        let x = ExprView { operator: op, args: Seq::empty() };
        assert(inner_words(x) =~= toks.take(0));
    } else if let Ok((n0, _)) = spec_group(groups[0], toks) {
        lemma_backbone_ends(op.pattern);
        lemma_group_words(groups[0], toks);
        law_holes(g, groups, 1, after(toks, n0));
        if let Ok((n, holes)) = spec_holes(g, groups, 1, after(toks, n0)) {
            lemma_take_join(toks, n0, n);
            let x = ExprView { operator: op, args: holes };
            assert(x.arg_words() =~= words_of(holes));
        }
    }
}

/// The holes that are read hold sound expressions and are written, with
/// their groups of name parts, with the tokens read.
pub proof fn law_holes<G: PrecedenceGraph>(g: &G, groups: Groups, i: nat, toks: Seq<Word>)
    requires
        acyclic(g),
    ensures
        holes_read(g, groups, i, toks, spec_holes(g, groups, i, toks)),
    decreases toks.len(), 3nat, 0nat, 0nat, groups.len() - i,
{
    if i >= groups.len() {
        assert(hole_words(groups, i, words_of(Seq::<ExprView>::empty())) =~= toks.take(0));
    } else {
        law_precs(g, None, toks);
        if let Ok((n1, hole)) = spec_precs(g, None, toks) {
            if let Ok((n2, _)) = spec_group(groups[i as int], after(toks, n1)) {
                lemma_group_words(groups[i as int], after(toks, n1));
                lemma_take_join(toks, n1, n2);
                law_holes(g, groups, i + 1, after(after(toks, n1), n2));
                if let Ok((n3, holes)) = spec_holes(g, groups, i + 1, after(after(toks, n1), n2)) {
                    lemma_take_join(toks, n1 + n2, n3);
                    let all = seq![hole] + holes;
                    assert(words_of(all).skip(1) =~= words_of(holes));
                    assert(words_of(all)[0] == hole.words());
                    assert forall|j: int| 0 <= j < all.len() implies sound(
                        g,
                        #[trigger] all[j],
                    ) by {
                        if j > 0 {
                            assert(all[j] == holes[j - 1]);
                        }
                    }
                    assert(hole.words() + groups[i as int] + toks.take((n1 + n2 + n3) as int).skip(
                        (n1 + n2) as int,
                    ) =~= toks.take((n1 + n2 + n3) as int));
                }
            }
        }
    }
}

/// Every expression that is read from a whole input is well formed: each of
/// its nodes has as many arguments as its operator takes.
pub proof fn law_well_formed<G: PrecedenceGraph>(g: &G, toks: Seq<Word>)
    requires
        acyclic(g),
    ensures
        spec_parse_expr(g, toks) matches Ok(e) ==> e.well_formed(),
{
    law_precs(g, None, toks);
}

/// Every expression that is read from a whole input is written, from left
/// to right, with exactly the tokens of the input.
pub proof fn law_tokens_conserved<G: PrecedenceGraph>(g: &G, toks: Seq<Word>)
    requires
        acyclic(g),
    ensures
        spec_parse_expr(g, toks) matches Ok(e) ==> e.words() == toks,
{
    law_precs(g, None, toks);
    if let Ok((n, e)) = spec_expr(g, toks) {
        if after(toks, n).len() == 0 {
            assert(toks.take(n as int) =~= toks);
        }
    }
}

/// Every expression that is read from a whole input obeys the precedence
/// discipline: at each of its nodes, whose operator stands at some
/// precedence `p`, an argument beside the operator binds tighter than `p` or
/// is the next link at `p` of the chain that the operator belongs to.
pub proof fn law_discipline<G: PrecedenceGraph>(g: &G, toks: Seq<Word>)
    requires
        acyclic(g),
    ensures
        spec_parse_expr(g, toks) matches Ok(e) ==> obeys(g, e),
{
    law_precs(g, None, toks);
}

/// An argument that is read beside an operator at `p` binds tighter than
/// `p`: its outermost operator stands at a precedence that `succ(p)` holds.
pub proof fn law_argument_binds_tighter<G: PrecedenceGraph>(g: &G, p: G::P, toks: Seq<Word>)
    requires
        acyclic(g),
    ensures
        spec_precs(g, Some(p), toks) matches Ok((_, e)) ==> binds_tighter(g, p, e),
{
    law_precs(g, Some(p), toks);
}

/// Reading is a function of the graph and the tokens: two results for the
/// same tokens over the same graph say the same.
pub proof fn law_deterministic<'a, 'b, G: PrecedenceGraph>(
    g: &G,
    tokens1: ParseInput<'a>,
    tokens2: ParseInput<'b>,
    r1: Result<Expr, ParseError<'a>>,
    r2: Result<Expr, ParseError<'b>>,
)
    requires
        words(tokens1@) == words(tokens2@),
        told(r1) == spec_parse_expr(g, words(tokens1@)),
        told(r2) == spec_parse_expr(g, words(tokens2@)),
    ensures
        told(r1) == told(r2),
{
}

/// Among alternatives the longest match is chosen, and of two that read as
/// much the earlier one: the choice is a success wherever one alternative
/// is, no alternative read more than it, and every alternative before it
/// read less.
pub proof fn law_longest_match<T>(parses: Seq<Parsed<T>>, j: int)
    requires
        0 <= j < parses.len(),
        parses[j] is Ok,
    ensures
        spec_opts(parses) is Ok,
        spec_opts(parses) == parses[winner(outcomes_of(parses))],
        parses[j]->Ok_0.0 <= spec_opts(parses)->Ok_0.0,
        j < winner(outcomes_of(parses)) ==> parses[j]->Ok_0.0 < spec_opts(parses)->Ok_0.0,
{
    let outcomes = outcomes_of(parses);
    lemma_winner_in_range(outcomes);
    lemma_winner_longest(outcomes, j);
}

/// The winner among outcomes is a success wherever one of them is; no
/// success has a higher score, and every success before it has a lower one.
pub proof fn lemma_winner_longest(outcomes: Seq<Outcome>, j: int)
    requires
        0 <= j < outcomes.len(),
        outcomes[j] is Ok,
    ensures
        outcomes[winner(outcomes)] is Ok,
        outcomes[j]->Ok_0 <= outcomes[winner(outcomes)]->Ok_0,
        j < winner(outcomes) ==> outcomes[j]->Ok_0 < outcomes[winner(outcomes)]->Ok_0,
    decreases outcomes.len(),
{
    if outcomes.len() > 1 {
        let before = outcomes.drop_last();
        lemma_winner_in_range(before);
        let w = winner(before);
        assert(before[w] == outcomes[w]);
        if j < outcomes.len() - 1 {
            assert(before[j] == outcomes[j]);
            lemma_winner_longest(before, j);
        }
    }
}

/// Where every alternative failed, the smallest error is reported, and of
/// equal errors the earliest: no alternative failed with an error that comes
/// before the one reported.
pub proof fn law_least_error<T>(parses: Seq<Parsed<T>>, j: int)
    requires
        forall|i: int| 0 <= i < parses.len() ==> (#[trigger] parses[i]) is Err,
        0 <= j < parses.len(),
    ensures
        spec_opts(parses) is Err,
        spec_opts(parses) == parses[winner(outcomes_of(parses))],
        !parses[j]->Err_0.lt(spec_opts(parses)->Err_0),
{
    let outcomes = outcomes_of(parses);
    lemma_winner_in_range(outcomes);
    assert forall|i: int| 0 <= i < outcomes.len() implies (#[trigger] outcomes[i]) is Err by {
        assert(parses[i] is Err);
    }
    lemma_winner_least(outcomes, j);
}

/// Where every outcome is a failure, no error comes before the winner's.
pub proof fn lemma_winner_least(outcomes: Seq<Outcome>, j: int)
    requires
        forall|i: int| 0 <= i < outcomes.len() ==> (#[trigger] outcomes[i]) is Err,
        0 <= j < outcomes.len(),
    ensures
        outcomes[winner(outcomes)] is Err,
        !outcomes[j]->Err_0.lt(outcomes[winner(outcomes)]->Err_0),
    decreases outcomes.len(),
{
    lemma_winner_in_range(outcomes);
    if outcomes.len() > 1 {
        let before = outcomes.drop_last();
        lemma_winner_in_range(before);
        let w = winner(before);
        assert(before[w] == outcomes[w]);
        assert forall|i: int| 0 <= i < before.len() implies (#[trigger] before[i]) is Err by {
            assert(before[i] == outcomes[i]);
        }
        let last = outcomes.last()->Err_0;
        let best = outcomes[w]->Err_0;
        if j < outcomes.len() - 1 {
            assert(before[j] == outcomes[j]);
            lemma_winner_least(before, j);
            let mine = outcomes[j]->Err_0;
            if last.lt(best) && mine.lt(last) {
                lemma_error_lt_transitive(mine, last, best);
            }
        } else {
            lemma_error_lt_irreflexive(last);
        }
    } else {
        lemma_error_lt_irreflexive(outcomes[0]->Err_0);
    }
}

/// Between two parses of one input the one that read more is chosen, and
/// the first where both read as much.
pub proof fn law_longer_of_two<A, B>(a: Parsed<A>, b: Parsed<B>)
    requires
        a is Ok,
        b is Ok,
    ensures
        spec_opt(a, b) matches Ok((n, _)) && n >= a->Ok_0.0 && n >= b->Ok_0.0,
        spec_opt(a, b)->Ok_0.1 is Left <==> a->Ok_0.0 >= b->Ok_0.0,
{
}

} // verus!
