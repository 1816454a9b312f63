//! The mixfix parser: the cascade of parsers over a precedence graph, and
//! the entry that reads a whole input.

use crate::combinator::{
    after, group, lemma_group_reads, lemma_winner_in_range, lemma_winner_shift, lemma_words_skip,
    opt, opts, outcomes_of, result_outcomes, spec_group, spec_opts, winner, ParseResult, Parsed,
};
pub use crate::error::ParseError;
use crate::error::{words, ErrorView, ParseInput};
use crate::expr::{
    lemma_view, lemma_views, lemma_views_insert, lemma_views_push, lemma_views_reverse, views, Expr,
    ExprView,
};
use crate::fixity::{Associativity, Fixity};
use crate::grammar::{
    afresh, chain_left, chain_right, precs_of, push_arg, rank_from,
    spec_backbone, spec_closed, spec_expr, spec_holes, spec_inner, spec_inner_upto, spec_link,
    spec_links, spec_more_links, spec_non_assoc, spec_post_left, spec_post_left_item,
    spec_pre_right, spec_pre_right_item, spec_prec, spec_precs, spec_precs_upto, unshift_arg, Side,
};
use crate::graph::{acyclic, lemma_rank_falls, rank_of, PrecedenceGraph};
use crate::operator::{groups_view, lemma_backbone_ends, Operator, Word};
use either::Either;
use itertools::Itertools;
use vstd::prelude::*;

verus! {

/// `Either::map_right`: a `Left` stays as it is, and the value of a `Right`
/// is handed to `f`.
pub assume_specification<L, R, F, S>[ Either::<L, R>::map_right ](e: Either<L, R>, f: F) -> (r:
    Either<L, S>) where F: FnOnce(R) -> S
    requires
        e matches Either::Right(x) ==> call_requires(f, (x,)),
    ensures
        match e {
            Either::Left(l) => r == Either::<L, S>::Left(l),
            Either::Right(x) => r matches Either::Right(y) && call_ensures(f, (x,), y),
        },
;

/// `Either::into_inner`: the value, whichever side holds it.
pub assume_specification<T>[ Either::<T, T>::into_inner ](e: Either<T, T>) -> (r: T)
    ensures
        r == (match e {
            Either::Left(x) => x,
            Either::Right(x) => x,
        }),
;

/// The link `x` with `acc` as one more argument on `side`.
pub open spec fn spec_nest(side: Side, acc: ExprView, x: ExprView) -> ExprView {
    match side {
        Side::Left => unshift_arg(acc, x),
        Side::Right => push_arg(x, acc),
    }
}

/// The fold of `links` without a base: the first is the start, and each
/// further one takes what was folded so far on `side`.
pub open spec fn spec_fold1(links: Seq<ExprView>, side: Side) -> ExprView {
    links.skip(1).fold_left(links[0], |acc: ExprView, x: ExprView| spec_nest(side, acc, x))
}

/// What a result says over words: that many tokens were read, the rest was
/// left, and this value or this error came out.
pub open spec fn reads<'i>(
    toks: ParseInput<'i>,
    r: ParseResult<'i, Expr>,
    p: Parsed<ExprView>,
) -> bool {
    match r {
        Ok((rest, e)) => p matches Ok((n, v)) && n <= toks@.len() && rest@ == toks@.skip(n as int)
            && e@ == v,
        Err(e) => p == Err::<(nat, ExprView), ErrorView>(e@),
    }
}

/// Reading a whole input: an expression that leaves no token, or the error.
pub open spec fn spec_parse_expr<G: PrecedenceGraph>(g: &G, toks: Seq<Word>) -> Result<
    ExprView,
    ErrorView,
> {
    match spec_expr(g, toks) {
        Err(e) => Err(e),
        Ok((n, e)) => if after(toks, n).len() == 0 {
            Ok(e)
        } else {
            Err(ErrorView::UnparsedInput(after(toks, n)))
        },
    }
}

/// What a result of reading a whole input says, over words.
pub open spec fn told<'i>(r: Result<Expr, ParseError<'i>>) -> Result<ExprView, ErrorView> {
    match r {
        Ok(e) => Ok(e@),
        Err(e) => Err(e@),
    }
}

/// Where each result says what the parse at its place says, the result that
/// is chosen says what the chosen parse says.
pub proof fn lemma_opts_reads<'i>(
    toks: ParseInput<'i>,
    results: Seq<ParseResult<'i, Expr>>,
    parses: Seq<Parsed<ExprView>>,
    r: ParseResult<'i, Expr>,
)
    requires
        results.len() == parses.len(),
        forall|i: int| 0 <= i < results.len() ==> reads(toks, #[trigger] results[i], parses[i]),
        results.len() == 0 ==> r == Err::<(ParseInput<'i>, Expr), _>(ParseError::EmptyOpts),
        results.len() > 0 ==> r == results[winner(result_outcomes(results))],
    ensures
        reads(toks, r, spec_opts(parses)),
{
    if results.len() > 0 {
        let a = result_outcomes(results);
        let b = outcomes_of(parses);
        assert forall|i: int| 0 <= i < a.len() implies match #[trigger] a[i] {
            Ok(n) => b[i] == Ok::<int, ErrorView>(n + toks@.len()),
            Err(e) => b[i] == Err::<int, ErrorView>(e),
        } by {
            assert(reads(toks, results[i], parses[i]));
        }
        lemma_winner_shift(a, b, toks@.len() as int);
        lemma_winner_in_range(a);
    }
}

/// The link `x` with `acc` as one more argument on `side`.
pub fn nest(side: Side, acc: Expr, x: Expr) -> (r: Expr)
    ensures
        r@ == spec_nest(side, acc@, x@),
{
    let Expr { operator, args } = x;
    let mut args = args;
    proof {
        lemma_view(x);
    }
    match side {
        Side::Left => {
            proof {
                lemma_views_insert(args@, acc);
            }
            args.insert(0, acc);
        },
        Side::Right => {
            proof {
                lemma_views_push(args@, acc);
            }
            args.push(acc);
        },
    }
    Expr::new(operator, args)
}

/// An infix operator with the argument that was read before it.
pub fn with_first(read: (Expr, Expr)) -> (r: Expr)
    ensures
        r@ == unshift_arg(read.0@, read.1@),
{
    let (first, rest) = read;
    nest(Side::Left, first, rest)
}

/// An infix operator with the argument that was read behind it.
pub fn with_last(read: (Expr, Expr)) -> (r: Expr)
    ensures
        r@ == push_arg(read.0@, read.1@),
{
    let (rest, last) = read;
    nest(Side::Right, last, rest)
}

/// `Itertools::fold1`: the fold without a base. Of no link it gives `None`,
/// of one link that link; further links are taken in order, each with what
/// was folded so far.
#[allow(deprecated)]
#[verifier::external_body]
fn fold_chain(links: Vec<Expr>, side: Side) -> (r: Option<Expr>)
    ensures
        match r {
            Some(e) => links@.len() > 0 && e@ == spec_fold1(views(links@), side),
            None => links@.len() == 0,
        },
{
    links.into_iter().fold1(|acc, x| nest(side, acc, x))
}

/// The reverse of `exprs`.
pub fn reversed(exprs: Vec<Expr>) -> (r: Vec<Expr>)
    ensures
        r@ == exprs@.reverse(),
{
    let mut exprs = exprs;
    let ghost all = exprs@;
    let mut out: Vec<Expr> = Vec::new();
    while exprs.len() > 0
        invariant
            exprs@.len() <= all.len(),
            exprs@ == all.take(exprs@.len() as int),
            out@.len() == all.len() - exprs@.len(),
            forall|j: int| 0 <= j < out@.len() ==> out@[j] == all[all.len() - 1 - j],
        decreases exprs@.len(),
    {
        let ghost before = exprs@;
        match exprs.pop() {
            Some(e) => {
                assert(e == all[before.len() - 1]);
                out.push(e);
            },
            None => {},
        }
    }
    assert(out@ =~= all.reverse());
    out
}

/// Folding the links of a chain to the left from its first argument is the
/// fold without a base of that argument and the links.
pub proof fn lemma_chain_left_fold(first: ExprView, items: Seq<ExprView>)
    ensures
        chain_left(first, items) == spec_fold1(seq![first] + items, Side::Left),
    decreases items.len(),
{
    let f = |acc: ExprView, x: ExprView| spec_nest(Side::Left, acc, x);
    assert((seq![first] + items).skip(1) == items);
    lemma_chain_left_fold_from(first, items);
}

proof fn lemma_chain_left_fold_from(first: ExprView, items: Seq<ExprView>)
    ensures
        chain_left(first, items) == items.fold_left(
            first,
            |acc: ExprView, x: ExprView| spec_nest(Side::Left, acc, x),
        ),
    decreases items.len(),
{
    if items.len() > 0 {
        lemma_chain_left_fold_from(first, items.drop_last());
    }
}

/// Folding the links of a chain to the right from its last argument is the
/// fold without a base of that argument and the links, read backwards.
pub proof fn lemma_chain_right_fold(items: Seq<ExprView>, last: ExprView)
    ensures
        chain_right(items, last) == spec_fold1(items.push(last).reverse(), Side::Right),
{
    assert(items.push(last).reverse().skip(1) == items.reverse());
    lemma_chain_right_fold_from(items, last);
}

proof fn lemma_chain_right_fold_from(items: Seq<ExprView>, last: ExprView)
    ensures
        chain_right(items, last) == items.reverse().fold_left(
            last,
            |acc: ExprView, x: ExprView| spec_nest(Side::Right, acc, x),
        ),
    decreases items.len(),
{
    if items.len() > 0 {
        lemma_chain_right_fold_from(items.skip(1), last);
        assert(items.reverse().drop_last() == items.skip(1).reverse());
        assert(items.reverse().last() == items[0]);
    }
}

/// An expression among the precedences `precs`, which are those of `from`:
/// the longest match among the parses at each of them.
fn precs<'i, G: PrecedenceGraph>(
    g: &G,
    Ghost(from): Ghost<Option<G::P>>,
    among: &Vec<G::P>,
    toks: ParseInput<'i>,
) -> (r: ParseResult<'i, Expr>)
    requires
        acyclic(g),
        among@ == precs_of(g, from),
    ensures
        reads(toks, r, spec_precs(g, from, words(toks@))),
    decreases toks@.len(), afresh(from), rank_from(g, from), 1nat, 0nat,
{
    let mut results: Vec<ParseResult<'i, Expr>> = Vec::new();
    let mut i: usize = 0;
    while i < among.len()
        invariant
            acyclic(g),
            among@ == precs_of(g, from),
            i <= among.len(),
            results@.len() == i,
            spec_precs_upto(g, from, words(toks@), i as nat).len() == i,
            forall|j: int|
                0 <= j < i ==> reads(
                    toks,
                    #[trigger] results@[j],
                    spec_precs_upto(g, from, words(toks@), i as nat)[j],
                ),
        decreases among.len() - i,
    {
        proof {
            if from is Some {
                lemma_rank_falls(g, from->0, i as int);
            }
        }
        let r = prec(g, among[i], toks);
        results.push(r);
        i += 1;
    }
    let r = opts(results);
    proof {
        lemma_opts_reads(toks, results@, spec_precs_upto(g, from, words(toks@), i as nat), r);
    }
    r
}

/// An expression of any precedence.
pub fn expr<'i, G: PrecedenceGraph>(g: &G, toks: ParseInput<'i>) -> (r: ParseResult<'i, Expr>)
    requires
        acyclic(g),
    ensures
        reads(toks, r, spec_expr(g, words(toks@))),
    decreases toks@.len(), 1nat, 0nat, 2nat, 0nat,
{
    let all = g.all();
    precs(g, Ghost(None), &all, toks)
}

/// An expression that binds tighter than the operators at `p`.
pub fn tighter<'i, G: PrecedenceGraph>(g: &G, p: G::P, toks: ParseInput<'i>) -> (r: ParseResult<
    'i,
    Expr,
>)
    requires
        acyclic(g),
    ensures
        reads(toks, r, spec_precs(g, Some(p), words(toks@))),
    decreases toks@.len(), 0nat, rank_of(g, p), 2nat, 0nat,
{
    let succ = g.succ(p);
    precs(g, Ghost(Some(p)), &succ, toks)
}

/// An expression whose outermost operator stands at `p`: the longest match
/// among the four ways to apply one.
pub fn prec<'i, G: PrecedenceGraph>(g: &G, p: G::P, toks: ParseInput<'i>) -> (r: ParseResult<
    'i,
    Expr,
>)
    requires
        acyclic(g),
    ensures
        reads(toks, r, spec_prec(g, p, words(toks@))),
    decreases toks@.len(), 0nat, rank_of(g, p), 9nat, 0nat,
{
    let mut results: Vec<ParseResult<'i, Expr>> = Vec::new();
    results.push(closed(g, p, toks));
    results.push(non_assoc(g, p, toks));
    results.push(pre_right(g, p, toks));
    results.push(post_left(g, p, toks));
    let r = opts(results);
    proof {
        let w = words(toks@);
        lemma_opts_reads(
            toks,
            results@,
            seq![
                spec_closed(g, p, w),
                spec_non_assoc(g, p, w),
                spec_pre_right(g, p, w),
                spec_post_left(g, p, w),
            ],
            r,
        );
    }
    r
}

/// A closed operator at `p` with its holes.
pub fn closed<'i, G: PrecedenceGraph>(g: &G, p: G::P, toks: ParseInput<'i>) -> (r: ParseResult<
    'i,
    Expr,
>)
    requires
        acyclic(g),
    ensures
        reads(toks, r, spec_closed(g, p, words(toks@))),
    decreases toks@.len(), 0nat, rank_of(g, p), 8nat, 0nat,
{
    inner(g, p, Fixity::Closed, toks)
}

/// One non-associative infix operator at `p` between two arguments that bind
/// tighter.
pub fn non_assoc<'i, G: PrecedenceGraph>(g: &G, p: G::P, toks: ParseInput<'i>) -> (r: ParseResult<
    'i,
    Expr,
>)
    requires
        acyclic(g),
    ensures
        reads(toks, r, spec_non_assoc(g, p, words(toks@))),
    decreases toks@.len(), 0nat, rank_of(g, p), 8nat, 0nat,
{
    let succ = g.succ(p);
    let (toks1, left) = match precs(g, Ghost(Some(p)), &succ, toks) {
        Ok(read) => read,
        Err(e) => {
            return Err(e);
        },
    };
    proof {
        lemma_words_skip(toks@, toks@.len() - toks1@.len());
    }
    let (toks2, mid) = match inner(g, p, Fixity::Infix(Associativity::Non), toks1) {
        Ok(read) => read,
        Err(e) => {
            return Err(e);
        },
    };
    proof {
        lemma_words_skip(toks1@, toks1@.len() - toks2@.len());
    }
    let (toks3, right) = match precs(g, Ghost(Some(p)), &succ, toks2) {
        Ok(read) => read,
        Err(e) => {
            return Err(e);
        },
    };
    let e = nest(Side::Right, right, nest(Side::Left, left, mid));
    proof {
        assert(toks3@ == toks@.skip(toks@.len() - toks3@.len()));
    }
    Ok((toks3, e))
}

/// One link of a chain to the right: a prefix operator, or an argument that
/// binds tighter and a right-associative infix operator behind it.
#[verifier::rlimit(50)]
fn pre_right_item<'i, G: PrecedenceGraph>(
    g: &G,
    p: G::P,
    succ: &Vec<G::P>,
    toks: ParseInput<'i>,
) -> (r: ParseResult<'i, Expr>)
    requires
        acyclic(g),
        succ@ == g.spec_succ(p),
    ensures
        reads(toks, r, spec_pre_right_item(g, p, words(toks@))),
    decreases toks@.len(), 0nat, rank_of(g, p), 6nat, 0nat,
{
    let prefix = inner(g, p, Fixity::Prefix, toks);
    let infix: ParseResult<'i, (Expr, Expr)> = match precs(g, Ghost(Some(p)), succ, toks) {
        Err(e) => Err(e),
        Ok((toks1, first)) => {
            proof {
                lemma_words_skip(toks@, toks@.len() - toks1@.len());
            }
            match inner(g, p, Fixity::Infix(Associativity::Right), toks1) {
                Err(e) => Err(e),
                Ok((toks2, rest)) => {
                    assert(toks2@ == toks@.skip(toks@.len() - toks2@.len()));
                    Ok((toks2, (first, rest)))
                },
            }
        },
    };
    match opt(prefix, infix) {
        Err(e) => Err(e),
        Ok((rest, link)) => {
            let e = link.map_right(with_first).into_inner();
            Ok((rest, e))
        },
    }
}

/// One link of a chain that leans to `side`, as `spec_link` says it, kept
/// folded where the links are counted.
#[verifier::opaque]
pub open spec fn link_at<G: PrecedenceGraph>(g: &G, p: G::P, side: Side, toks: Seq<Word>) -> Parsed<
    ExprView,
> {
    spec_link(g, p, side, toks)
}

/// Whether the links of the chain in `toks` are the `found` ones, for which
/// `read` tokens were read, and the further ones that follow in `rest`.
#[verifier::opaque]
pub open spec fn links_go_on<G: PrecedenceGraph>(
    g: &G,
    p: G::P,
    side: Side,
    toks: Seq<Word>,
    read: nat,
    found: Seq<ExprView>,
    rest: Seq<Word>,
) -> bool {
    spec_links(g, p, side, toks) == Ok::<_, ErrorView>(
        (
            read + spec_more_links(g, p, side, rest).0,
            found + spec_more_links(g, p, side, rest).1,
        ),
    )
}

/// Whether the links of the chain in `toks` are the `found` ones and no
/// more, for which `read` tokens were read.
#[verifier::opaque]
pub open spec fn links_end<G: PrecedenceGraph>(
    g: &G,
    p: G::P,
    side: Side,
    toks: Seq<Word>,
    read: nat,
    found: Seq<ExprView>,
) -> bool {
    spec_links(g, p, side, toks) == Ok::<_, ErrorView>((read, found))
}

/// The links of a chain start with the first link, if there is one.
proof fn lemma_links_start<G: PrecedenceGraph>(g: &G, p: G::P, side: Side, toks: Seq<Word>)
    requires
        acyclic(g),
    ensures
        match link_at(g, p, side, toks) {
            Ok((n, x)) => links_go_on(g, p, side, toks, n, seq![x], after(toks, n)),
            Err(e) => spec_links(g, p, side, toks) == Err::<(nat, Seq<ExprView>), _>(e),
        },
{
    reveal(link_at);
    reveal(links_go_on);
}

/// Once `found` are read and the next link is tried at `rest`, the links go
/// on with that link where it left a shorter tail, and end where it did not
/// or where there is none.
#[verifier::rlimit(50)]
proof fn lemma_links_step<G: PrecedenceGraph>(
    g: &G,
    p: G::P,
    side: Side,
    toks: Seq<Word>,
    read: nat,
    found: Seq<ExprView>,
    rest: Seq<Word>,
)
    requires
        acyclic(g),
        links_go_on(g, p, side, toks, read, found, rest),
    ensures
        match link_at(g, p, side, rest) {
            Ok((n, x)) => if after(rest, n).len() < rest.len() {
                links_go_on(g, p, side, toks, read + n, found.push(x), after(rest, n))
            } else {
                links_end(g, p, side, toks, read, found)
            },
            Err(_) => links_end(g, p, side, toks, read, found),
        },
{
    reveal(link_at);
    reveal(links_go_on);
    reveal(links_end);
    match spec_link(g, p, side, rest) {
        Ok((n, x)) => {
            if after(rest, n).len() < rest.len() {
                let more = spec_more_links(g, p, side, after(rest, n));
                assert(found + (seq![x] + more.1) =~= found.push(x) + more.1);
            } else {
                assert(found + Seq::<ExprView>::empty() =~= found);
            }
        },
        Err(_) => {
            assert(found + Seq::<ExprView>::empty() =~= found);
        },
    }
}

/// One link of a chain that leans to `side`.
fn link<'i, G: PrecedenceGraph>(
    g: &G,
    p: G::P,
    side: Side,
    succ: &Vec<G::P>,
    toks: ParseInput<'i>,
) -> (r: ParseResult<'i, Expr>)
    requires
        acyclic(g),
        succ@ == g.spec_succ(p),
    ensures
        reads(toks, r, link_at(g, p, side, words(toks@))),
    decreases toks@.len(), 0nat, rank_of(g, p), 6nat, 1nat,
{
    reveal(link_at);
    match side {
        Side::Right => pre_right_item(g, p, succ, toks),
        Side::Left => post_left_item(g, p, succ, toks),
    }
}

/// What a result that holds the links of a chain says over words.
pub open spec fn reads_links<'i>(
    toks: ParseInput<'i>,
    r: ParseResult<'i, Vec<Expr>>,
    p: Parsed<Seq<ExprView>>,
) -> bool {
    match r {
        Ok((rest, links)) => p matches Ok((n, xs)) && n <= toks@.len() && rest@ == toks@.skip(
            n as int,
        ) && views(links@) == xs && links@.len() > 0,
        Err(e) => p == Err::<(nat, Seq<ExprView>), ErrorView>(e@),
    }
}

/// One or more links of a chain that leans to `side`: the first must be
/// there, and further ones are read as long as each leaves a shorter tail.
fn links<'i, G: PrecedenceGraph>(
    g: &G,
    p: G::P,
    side: Side,
    succ: &Vec<G::P>,
    toks: ParseInput<'i>,
) -> (r: ParseResult<'i, Vec<Expr>>)
    requires
        acyclic(g),
        succ@ == g.spec_succ(p),
    ensures
        reads_links(toks, r, spec_links(g, p, side, words(toks@))),
    decreases toks@.len(), 0nat, rank_of(g, p), 7nat, 1nat,
{
    let ghost w = words(toks@);
    proof {
        lemma_links_start(g, p, side, w);
    }
    let (first_rest, first) = match link(g, p, side, succ, toks) {
        Ok(read) => read,
        Err(e) => {
            return Err(e);
        },
    };
    let mut rest = first_rest;
    let mut found: Vec<Expr> = Vec::new();
    proof {
        lemma_views_push(found@, first);
        lemma_views(found@);
    }
    found.push(first);
    let ghost mut read: nat = (toks@.len() - rest@.len()) as nat;
    proof {
        lemma_words_skip(toks@, read as int);
        assert(views(found@) =~= seq![first@]);
    }
    loop
        invariant
            acyclic(g),
            succ@ == g.spec_succ(p),
            w == words(toks@),
            read <= toks@.len(),
            rest@ == toks@.skip(read as int),
            found@.len() > 0,
            links_go_on(g, p, side, w, read, views(found@), words(rest@)),
        ensures
            read <= toks@.len(),
            rest@ == toks@.skip(read as int),
            found@.len() > 0,
            links_end(g, p, side, w, read, views(found@)),
        decreases rest@.len(),
    {
        proof {
            lemma_links_step(g, p, side, w, read, views(found@), words(rest@));
        }
        match link(g, p, side, succ, rest) {
            Ok((next, x)) => {
                if next.len() < rest.len() {
                    proof {
                        let n = (rest@.len() - next@.len()) as nat;
                        lemma_words_skip(rest@, n as int);
                        lemma_views_push(found@, x);
                        assert(next@ == toks@.skip((read + n) as int));
                        read = read + n;
                    }
                    found.push(x);
                    rest = next;
                } else {
                    proof {
                        lemma_words_skip(rest@, rest@.len() - next@.len());
                    }
                    break ;
                }
            },
            Err(_) => {
                break ;
            },
        }
    }
    proof {
        reveal(links_end);
    }
    Ok((rest, found))
}

/// A chain of prefix and right-associative infix operators at `p`, closed by
/// an argument that binds tighter. Each link takes what follows it as its
/// last argument.
#[verifier::rlimit(50)]
pub fn pre_right<'i, G: PrecedenceGraph>(g: &G, p: G::P, toks: ParseInput<'i>) -> (r: ParseResult<
    'i,
    Expr,
>)
    requires
        acyclic(g),
    ensures
        reads(toks, r, spec_pre_right(g, p, words(toks@))),
    decreases toks@.len(), 0nat, rank_of(g, p), 8nat, 0nat,
{
    let succ = g.succ(p);
    let (rest, found) = match links(g, p, Side::Right, &succ, toks) {
        Ok(read) => read,
        Err(e) => {
            return Err(e);
        },
    };
    proof {
        lemma_words_skip(toks@, toks@.len() - rest@.len());
    }
    let (end, last) = match precs(g, Ghost(Some(p)), &succ, rest) {
        Ok(read) => read,
        Err(e) => {
            return Err(e);
        },
    };
    let mut chain = found;
    proof {
        lemma_views_push(chain@, last);
        lemma_chain_right_fold(views(chain@), last@);
        assert(end@ == toks@.skip(toks@.len() - end@.len()));
    }
    chain.push(last);
    let backwards = reversed(chain);
    proof {
        lemma_views_reverse(chain@);
    }
    Ok((end, fold_chain(backwards, Side::Right).unwrap()))
}

/// One link of a chain to the left: a postfix operator, or a left-associative
/// infix operator and an argument that binds tighter behind it.
#[verifier::rlimit(50)]
fn post_left_item<'i, G: PrecedenceGraph>(
    g: &G,
    p: G::P,
    succ: &Vec<G::P>,
    toks: ParseInput<'i>,
) -> (r: ParseResult<'i, Expr>)
    requires
        acyclic(g),
        succ@ == g.spec_succ(p),
    ensures
        reads(toks, r, spec_post_left_item(g, p, words(toks@))),
    decreases toks@.len(), 0nat, rank_of(g, p), 6nat, 0nat,
{
    let postfix = inner(g, p, Fixity::Postfix, toks);
    let infix: ParseResult<'i, (Expr, Expr)> = match inner(
        g,
        p,
        Fixity::Infix(Associativity::Left),
        toks,
    ) {
        Err(e) => Err(e),
        Ok((toks1, rest)) => {
            proof {
                lemma_words_skip(toks@, toks@.len() - toks1@.len());
            }
            match precs(g, Ghost(Some(p)), succ, toks1) {
                Err(e) => Err(e),
                Ok((toks2, last)) => {
                    assert(toks2@ == toks@.skip(toks@.len() - toks2@.len()));
                    Ok((toks2, (rest, last)))
                },
            }
        },
    };
    match opt(postfix, infix) {
        Err(e) => Err(e),
        Ok((rest, link)) => {
            let e = link.map_right(with_last).into_inner();
            Ok((rest, e))
        },
    }
}

/// An argument that binds tighter, and behind it a chain of postfix and
/// left-associative infix operators at `p`. Each link takes what stands
/// before it as its first argument.
#[verifier::rlimit(50)]
pub fn post_left<'i, G: PrecedenceGraph>(g: &G, p: G::P, toks: ParseInput<'i>) -> (r: ParseResult<
    'i,
    Expr,
>)
    requires
        acyclic(g),
    ensures
        reads(toks, r, spec_post_left(g, p, words(toks@))),
    decreases toks@.len(), 0nat, rank_of(g, p), 8nat, 0nat,
{
    let succ = g.succ(p);
    let (start, first) = match precs(g, Ghost(Some(p)), &succ, toks) {
        Ok(read) => read,
        Err(e) => {
            return Err(e);
        },
    };
    proof {
        lemma_words_skip(toks@, toks@.len() - start@.len());
    }
    let (rest, found) = match links(g, p, Side::Left, &succ, start) {
        Ok(read) => read,
        Err(e) => {
            return Err(e);
        },
    };
    let mut chain = found;
    proof {
        lemma_views_insert(chain@, first);
        lemma_chain_left_fold(first@, views(chain@));
        assert(rest@ == toks@.skip(toks@.len() - rest@.len()));
    }
    chain.insert(0, first);
    Ok((rest, fold_chain(chain, Side::Left).unwrap()))
}

/// The name parts and holes of one operator at `p` with the fixity `fix`:
/// the longest match among the operators that the graph has there.
pub fn inner<'i, G: PrecedenceGraph>(g: &G, p: G::P, fix: Fixity, toks: ParseInput<'i>) -> (r:
    ParseResult<'i, Expr>)
    requires
        acyclic(g),
    ensures
        reads(toks, r, spec_inner(g, p, fix, words(toks@))),
    decreases toks@.len(), 0nat, rank_of(g, p), 3nat, 0nat,
{
    let ops = g.ops(p, fix);
    let mut results: Vec<ParseResult<'i, Expr>> = Vec::new();
    let mut i: usize = 0;
    while i < ops.len()
        invariant
            acyclic(g),
            ops@.len() == g.spec_ops(p, fix).len(),
            forall|j: int| 0 <= j < ops@.len() ==> (#[trigger] ops@[j])@ == g.spec_ops(p, fix)[j],
            i <= ops.len(),
            results@.len() == i,
            spec_inner_upto(g, p, fix, words(toks@), i as nat).len() == i,
            forall|j: int|
                0 <= j < i ==> reads(
                    toks,
                    #[trigger] results@[j],
                    spec_inner_upto(g, p, fix, words(toks@), i as nat)[j],
                ),
        decreases ops.len() - i,
    {
        let r = backbone(g, ops[i], toks);
        results.push(r);
        i += 1;
    }
    let r = opts(results);
    proof {
        lemma_opts_reads(toks, results@, spec_inner_upto(g, p, fix, words(toks@), i as nat), r);
    }
    r
}

/// What `p` says behind `n` tokens and `xs` holes already read.
pub open spec fn joined(n: nat, xs: Seq<ExprView>, p: Parsed<Seq<ExprView>>) -> Parsed<
    Seq<ExprView>,
> {
    match p {
        Ok((m, ys)) => Ok((n + m, xs + ys)),
        Err(e) => Err(e),
    }
}

/// The backbone of `op`: its groups of name parts in order, and between each
/// two of them an expression of any precedence.
pub fn backbone<'i, G: PrecedenceGraph>(g: &G, op: &Operator, toks: ParseInput<'i>) -> (r:
    ParseResult<'i, Expr>)
    requires
        acyclic(g),
    ensures
        reads(toks, r, spec_backbone(g, op@, words(toks@))),
    decreases toks@.len(), 0nat, 0nat, 0nat, 0nat,
{
    let groups = op.pattern.backbone();
    let ghost skeleton = op@.backbone();
    let ghost w = words(toks@);
    let mut holes: Vec<Expr> = Vec::new();
    let mut rest = toks;
    proof {
        lemma_views(holes@);
        assert(groups_view(groups@) == skeleton);
        assert(views(holes@) =~= Seq::<ExprView>::empty());
    }
    if groups.len() > 0 {
        proof {
            assert(skeleton[0] == groups@[0].deep_view());
            lemma_backbone_ends(op.pattern@);
        }
        match group(&groups[0], toks) {
            Err(e) => {
                return Err(e);
            },
            Ok((next, _)) => {
                rest = next;
            },
        }
        let ghost n0 = skeleton[0].len();
        proof {
            lemma_group_reads(skeleton[0], w, 0);
            lemma_words_skip(toks@, n0 as int);
            assert(joined(0, views(holes@), spec_holes(g, skeleton, 1, words(rest@)))
                == spec_holes(g, skeleton, 1, after(w, n0))) by {
                let p = spec_holes(g, skeleton, 1, after(w, n0));
                if p is Ok {
                    assert(Seq::<ExprView>::empty() + p->Ok_0.1 =~= p->Ok_0.1);
                }
            }
        }
        let all = g.all();
        let ghost mut read: nat = 0;
        let mut i: usize = 1;
        while i < groups.len()
            invariant
                acyclic(g),
                all@ == g.spec_all(),
                skeleton == op@.backbone(),
                skeleton.len() == groups@.len(),
                spec_group(skeleton[0], w) == Ok::<(nat, ()), ErrorView>((n0, ())),
                groups_view(groups@) == skeleton,
                w == words(toks@),
                n0 == skeleton[0].len(),
                n0 > 0,
                1 <= i <= groups.len(),
                n0 + read <= toks@.len(),
                rest@ == toks@.skip((n0 + read) as int),
                joined(read, views(holes@), spec_holes(g, skeleton, i as nat, words(rest@)))
                    == spec_holes(g, skeleton, 1, after(w, n0)),
            decreases groups.len() - i,
        {
            let ghost before = spec_holes(g, skeleton, i as nat, words(rest@));
            let (toks1, hole) = match precs(g, Ghost(None), &all, rest) {
                Ok(read) => read,
                Err(e) => {
                    return Err(e);
                },
            };
            let ghost n1 = (rest@.len() - toks1@.len()) as nat;
            proof {
                lemma_words_skip(rest@, n1 as int);
                assert(skeleton[i as int] == groups@[i as int].deep_view());
            }
            let toks2 = match group(&groups[i], toks1) {
                Ok((next, _)) => next,
                Err(e) => {
                    return Err(e);
                },
            };
            let ghost n2 = skeleton[i as int].len();
            proof {
                lemma_group_reads(skeleton[i as int], words(toks1@), 0);
                lemma_words_skip(toks1@, n2 as int);
                lemma_views_push(holes@, hole);
                let then = spec_holes(g, skeleton, (i + 1) as nat, words(toks2@));
                if then is Ok {
                    assert(views(holes@) + (seq![hole@] + then->Ok_0.1) =~= views(holes@).push(
                        hole@,
                    ) + then->Ok_0.1);
                }
                assert(toks2@ == toks@.skip((n0 + read + n1 + n2) as int));
                read = read + n1 + n2;
            }
            holes.push(hole);
            rest = toks2;
            i += 1;
        }
        proof {
            assert(views(holes@) + Seq::<ExprView>::empty() =~= views(holes@));
        }
    }
    assert(toks@.skip(0) == toks@);
    Ok((rest, Expr::new(op.clone(), holes)))
}

/// Reads the whole of `tokens` as one expression over `graph`.
///
/// The graph must have no cycle: along a cycle the parser would look for an
/// argument without end. A map of levels never has one; for a `petgraph`
/// graph `digraph::parse_dag` tests it first.
pub fn parse_expr<'i, G: PrecedenceGraph>(graph: &G, tokens: ParseInput<'i>) -> (r: Result<
    Expr,
    ParseError<'i>,
>)
    requires
        acyclic(graph),
    ensures
        told(r) == spec_parse_expr(graph, words(tokens@)),
{
    match expr(graph, tokens) {
        Err(e) => Err(e),
        Ok((unparsed, e)) => {
            proof {
                lemma_words_skip(tokens@, tokens@.len() - unparsed@.len());
            }
            if unparsed.len() == 0 {
                Ok(e)
            } else {
                Err(ParseError::UnparsedInput(unparsed))
            }
        },
    }
}

} // verus!
