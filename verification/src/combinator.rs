//! The parsers that the mixfix grammar is built from: one token, a run of
//! tokens, and the choice among alternatives by longest match.

use crate::error::{str_eq, words, ErrorView, ParseError, ParseInput};
use crate::operator::{NamePart, Word};
use either::Either;
use vstd::prelude::*;

verus! {

/// What a parser returns: the tail that it left and its value, or an error.
pub type ParseResult<'i, T> = Result<(ParseInput<'i>, T), ParseError<'i>>;

/// A parse as the contracts see it: the number of tokens read and the
/// value, or an error.
pub type Parsed<T> = Result<(nat, T), ErrorView>;

/// What counts when alternatives are compared: on success a score, higher for
/// a longer match; on failure the error.
pub type Outcome = Result<int, ErrorView>;

/// `either`'s sum of two types, with its two variants.
#[verifier::external_type_specification]
#[verifier::reject_recursive_types(L)]
#[verifier::reject_recursive_types(R)]
pub struct ExEither<L, R>(Either<L, R>);

/// The tokens that follow the first `n`; none where there are fewer than `n`.
pub open spec fn after(toks: Seq<Word>, n: nat) -> Seq<Word> {
    if n <= toks.len() {
        toks.skip(n as int)
    } else {
        Seq::empty()
    }
}

/// Reading one token that must be `part`.
pub open spec fn spec_tok(part: Word, toks: Seq<Word>) -> Parsed<()> {
    if toks.len() == 0 {
        Err(ErrorView::UnexpectedEndOfInput)
    } else if toks[0] == part {
        Ok((1, ()))
    } else {
        Err(ErrorView::UnexpectedToken(toks[0]))
    }
}

/// Reading the tokens `parts[i..]` at `toks[i..]`, where `toks` starts with
/// `parts[..i]`.
pub open spec fn spec_group_from(parts: Seq<Word>, toks: Seq<Word>, i: nat) -> Parsed<()>
    decreases parts.len() - i,
{
    if i >= parts.len() {
        Ok((parts.len(), ()))
    } else {
        match spec_tok(parts[i as int], after(toks, i)) {
            Ok(_) => spec_group_from(parts, toks, i + 1),
            Err(e) => Err(e),
        }
    }
}

/// Reading the tokens `parts` one after the other: the error of the first
/// that is not there.
pub open spec fn spec_group(parts: Seq<Word>, toks: Seq<Word>) -> Parsed<()> {
    spec_group_from(parts, toks, 0)
}

/// The choice between two parses of one input: the one that read more, the
/// first where both read as much; the smaller error where both failed.
pub open spec fn spec_opt<A, B>(a: Parsed<A>, b: Parsed<B>) -> Parsed<Either<A, B>> {
    match (a, b) {
        (Ok((n, x)), Err(_)) => Ok((n, Either::Left(x))),
        (Err(_), Ok((m, y))) => Ok((m, Either::Right(y))),
        (Ok((n, x)), Ok((m, y))) => if n >= m {
            Ok((n, Either::Left(x)))
        } else {
            Ok((m, Either::Right(y)))
        },
        (Err(e), Err(f)) => Err(e.min(f)),
    }
}

/// Whether the alternative `a` takes the place of the earlier alternative
/// `b`: a success that read more, any success over a failure, among failures
/// the strictly smaller error.
pub open spec fn beats(a: Outcome, b: Outcome) -> bool {
    match (a, b) {
        (Ok(n), Ok(m)) => n > m,
        (Ok(_), Err(_)) => true,
        (Err(_), Ok(_)) => false,
        (Err(e), Err(f)) => e.lt(f),
    }
}

/// The position of the alternative that is chosen among `outcomes`.
pub open spec fn winner(outcomes: Seq<Outcome>) -> int
    decreases outcomes.len(),
{
    if outcomes.len() <= 1 {
        0
    } else {
        let w = winner(outcomes.drop_last());
        if beats(outcomes.last(), outcomes[w]) {
            outcomes.len() - 1
        } else {
            w
        }
    }
}

/// What counts of a parse: the number of tokens read, or the error.
pub open spec fn outcome_of<T>(p: Parsed<T>) -> Outcome {
    match p {
        Ok((n, _)) => Ok(n as int),
        Err(e) => Err(e),
    }
}

/// What counts of each of `parses`.
pub open spec fn outcomes_of<T>(parses: Seq<Parsed<T>>) -> Seq<Outcome> {
    Seq::new(parses.len(), |i: int| outcome_of(parses[i]))
}

/// The choice among the parses of one input: the first of those that read
/// most; where all failed, the first of the smallest errors; where there is
/// no alternative, `EmptyOpts`.
pub open spec fn spec_opts<T>(parses: Seq<Parsed<T>>) -> Parsed<T> {
    if parses.len() == 0 {
        Err(ErrorView::EmptyOpts)
    } else {
        parses[winner(outcomes_of(parses))]
    }
}

/// What counts of a result: on success the shorter the tail the higher the
/// score.
pub open spec fn result_outcome<'i, T>(r: ParseResult<'i, T>) -> Outcome {
    match r {
        Ok((rest, _)) => Ok(-(rest@.len() as int)),
        Err(e) => Err(e@),
    }
}

/// What counts of each of `results`.
pub open spec fn result_outcomes<'i, T>(results: Seq<ParseResult<'i, T>>) -> Seq<Outcome> {
    Seq::new(results.len(), |i: int| result_outcome(results[i]))
}

/// The winner is one of the alternatives.
pub proof fn lemma_winner_in_range(outcomes: Seq<Outcome>)
    ensures
        0 <= winner(outcomes),
        outcomes.len() > 0 ==> winner(outcomes) < outcomes.len(),
    decreases outcomes.len(),
{
    if outcomes.len() > 1 {
        lemma_winner_in_range(outcomes.drop_last());
    }
}

/// The winner depends on the order among the scores only: it stays where
/// every score is moved by `c`.
pub proof fn lemma_winner_shift(a: Seq<Outcome>, b: Seq<Outcome>, c: int)
    requires
        a.len() == b.len(),
        forall|i: int|
            0 <= i < a.len() ==> match #[trigger] a[i] {
                Ok(n) => b[i] == Ok::<int, ErrorView>(n + c),
                Err(e) => b[i] == Err::<int, ErrorView>(e),
            },
    ensures
        winner(a) == winner(b),
    decreases a.len(),
{
    if a.len() > 1 {
        let a0 = a.drop_last();
        let b0 = b.drop_last();
        assert forall|i: int| 0 <= i < a0.len() implies match #[trigger] a0[i] {
            Ok(n) => b0[i] == Ok::<int, ErrorView>(n + c),
            Err(e) => b0[i] == Err::<int, ErrorView>(e),
        } by {
            assert(a0[i] == a[i]);
            assert(b0[i] == b[i]);
        }
        lemma_winner_shift(a0, b0, c);
        lemma_winner_in_range(a0);
        let w = winner(a0);
        assert(a0[w] == a[w]);
        assert(b0[w] == b[w]);
        assert(a.last() == a[a.len() - 1]);
        assert(b.last() == b[b.len() - 1]);
    }
}

/// A run of tokens that is read reads each of them, and they are there.
pub proof fn lemma_group_reads(parts: Seq<Word>, toks: Seq<Word>, i: nat)
    requires
        i <= parts.len(),
        i <= toks.len(),
        spec_group_from(parts, toks, i) is Ok,
    ensures
        spec_group_from(parts, toks, i) == Ok::<(nat, ()), ErrorView>((parts.len(), ())),
        parts.len() <= toks.len(),
        forall|j: int| i <= j < parts.len() ==> toks[j] == parts[j],
    decreases parts.len() - i,
{
    if i < parts.len() {
        lemma_group_reads(parts, toks, i + 1);
        assert(i < toks.len());
        assert(after(toks, i)[0] == toks[i as int]);
    }
}

/// The tokens behind the first `n`, word by word, are the words behind the
/// first `n`.
pub proof fn lemma_words_skip(toks: Seq<&str>, n: int)
    requires
        0 <= n <= toks.len(),
    ensures
        words(toks.skip(n)) == after(words(toks), n as nat),
        words(toks.skip(n)) == words(toks).skip(n),
{
    assert(words(toks.skip(n)) =~= words(toks).skip(n));
}

/// The parser of one token.
pub struct Tok<'a>(pub &'a str);

impl<'a> Tok<'a> {
    /// Reads the token `self.0` at the front of `toks` and leaves the rest.
    pub fn p<'i>(&self, toks: ParseInput<'i>) -> (r: ParseResult<'i, ()>)
        ensures
            match r {
                Ok((rest, _)) => spec_tok(self.0@, words(toks@)) is Ok && toks@.len() > 0 && rest@
                    == toks@.skip(1),
                Err(e) => spec_tok(self.0@, words(toks@)) == Err::<(nat, ()), ErrorView>(e@),
            },
    {
        if toks.len() == 0 {
            Err(ParseError::UnexpectedEndOfInput)
        } else {
            let tok = toks[0];
            assert(words(toks@)[0] == tok@);
            if str_eq(tok, self.0) {
                Ok((vstd::slice::slice_subrange(toks, 1, toks.len()), ()))
            } else {
                Err(ParseError::UnexpectedToken(tok))
            }
        }
    }
}

/// Reads the tokens `parts`, one after the other, at the front of `toks`.
pub fn group<'i>(parts: &Vec<NamePart>, toks: ParseInput<'i>) -> (r: ParseResult<'i, ()>)
    ensures
        match r {
            Ok((rest, _)) => spec_group(parts.deep_view(), words(toks@)) is Ok && parts@.len()
                <= toks@.len() && rest@ == toks@.skip(parts@.len() as int),
            Err(e) => spec_group(parts.deep_view(), words(toks@)) == Err::<(nat, ()), ErrorView>(
                e@,
            ),
        },
{
    let mut rest = toks;
    let mut i: usize = 0;
    while i < parts.len()
        invariant
            i <= parts.len(),
            i <= toks@.len(),
            rest@ == toks@.skip(i as int),
            parts.deep_view().len() == parts@.len(),
            spec_group(parts.deep_view(), words(toks@)) == spec_group_from(
                parts.deep_view(),
                words(toks@),
                i as nat,
            ),
        decreases parts.len() - i,
    {
        proof {
            lemma_words_skip(toks@, i as int);
            assert(parts.deep_view()[i as int] == parts@[i as int]@);
        }
        match Tok(parts[i].as_str()).p(rest) {
            Ok((next, _)) => {
                assert(next@ == toks@.skip(i + 1));
                rest = next;
            },
            Err(e) => {
                return Err(e);
            },
        }
        i += 1;
    }
    Ok((rest, ()))
}

/// Chooses between two results for one input: the one that left the shorter
/// tail, the first where both tails are as long; the smaller error where both
/// failed.
pub fn opt<'i, A, B>(a: ParseResult<'i, A>, b: ParseResult<'i, B>) -> (r: ParseResult<
    'i,
    Either<A, B>,
>)
    ensures
        r == (match (a, b) {
            (Ok((next, x)), Err(_)) => Ok::<_, ParseError<'i>>((next, Either::<A, B>::Left(x))),
            (Err(_), Ok((next, y))) => Ok((next, Either::<A, B>::Right(y))),
            (Ok((next_a, x)), Ok((next_b, y))) => if next_a@.len() <= next_b@.len() {
                Ok((next_a, Either::<A, B>::Left(x)))
            } else {
                Ok((next_b, Either::<A, B>::Right(y)))
            },
            (Err(e), Err(f)) => Err(
                if f@.lt(e@) {
                    f
                } else {
                    e
                },
            ),
        }),
{
    match (a, b) {
        (Ok((next, x)), Err(_)) => Ok((next, Either::Left(x))),
        (Err(_), Ok((next, y))) => Ok((next, Either::Right(y))),
        (Ok((next_a, x)), Ok((next_b, y))) => {
            if next_a.len() <= next_b.len() {
                Ok((next_a, Either::Left(x)))
            } else {
                Ok((next_b, Either::Right(y)))
            }
        },
        (Err(e), Err(f)) => Err(e.least(f)),
    }
}

/// Whether the result `a` takes the place of the earlier result `b`.
fn displaces<'i, T>(a: &ParseResult<'i, T>, b: &ParseResult<'i, T>) -> (r: bool)
    ensures
        r == beats(result_outcome(*a), result_outcome(*b)),
{
    match (a, b) {
        (Ok((rest_a, _)), Ok((rest_b, _))) => rest_a.len() < rest_b.len(),
        (Ok(_), Err(_)) => true,
        (Err(_), Ok(_)) => false,
        (Err(e), Err(f)) => e.precedes(f),
    }
}

/// Chooses among the results for one input: the first of those that left the
/// shortest tail; where all failed, the first of the smallest errors; where
/// there is no result, `EmptyOpts`.
pub fn opts<'i, T>(results: Vec<ParseResult<'i, T>>) -> (r: ParseResult<'i, T>)
    ensures
        results@.len() == 0 ==> r == Err::<(ParseInput<'i>, T), _>(ParseError::EmptyOpts),
        results@.len() > 0 ==> r == results@[winner(result_outcomes(results@))],
{
    let mut results = results;
    let ghost all = results@;
    if results.len() == 0 {
        return Err(ParseError::EmptyOpts);
    }
    let mut best: usize = 0;
    let mut i: usize = 1;
    while i < results.len()
        invariant
            results@ == all,
            1 <= i <= all.len(),
            best == winner(result_outcomes(all.take(i as int))),
            best < i,
        decreases all.len() - i,
    {
        proof {
            let seen = result_outcomes(all.take(i + 1));
            assert(seen.drop_last() =~= result_outcomes(all.take(i as int)));
            assert(seen.last() == result_outcome(all[i as int]));
            assert(seen[best as int] == result_outcome(all[best as int]));
        }
        if displaces(&results[i], &results[best]) {
            best = i;
        }
        i += 1;
    }
    assert(all.take(all.len() as int) == all);
    results.swap_remove(best)
}

} // verus!
