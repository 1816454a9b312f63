//! Parse errors and the order by which the parser picks the one to report.

use crate::operator::Word;
use vstd::prelude::*;

verus! {

/// A token tail, each token a borrowed string.
pub type ParseInput<'i> = &'i [&'i str];

/// Why a parse failed.
///
/// The variants are ordered as written; two errors of one variant are
/// ordered by what they carry.
#[derive(Debug, PartialEq, Eq, PartialOrd, Ord)]
pub enum ParseError<'a> {
    /// A name part was expected and this other token was found.
    UnexpectedToken(&'a str),
    /// A name part was expected and no token was left.
    UnexpectedEndOfInput,
    /// An expression was read and these tokens were left behind it.
    UnparsedInput(ParseInput<'a>),
    /// A choice among no alternatives was asked for.
    EmptyOpts,
}

/// A parse error as the contracts see it.
pub enum ErrorView {
    UnexpectedToken(Word),
    UnexpectedEndOfInput,
    UnparsedInput(Seq<Word>),
    EmptyOpts,
}

/// The tokens of a tail, each by its characters.
pub open spec fn words(toks: Seq<&str>) -> Seq<Word> {
    Seq::new(toks.len(), |i: int| toks[i]@)
}

impl<'a> View for ParseError<'a> {
    type V = ErrorView;

    open spec fn view(&self) -> ErrorView {
        match *self {
            ParseError::UnexpectedToken(tok) => ErrorView::UnexpectedToken(tok@),
            ParseError::UnexpectedEndOfInput => ErrorView::UnexpectedEndOfInput,
            ParseError::UnparsedInput(rest) => ErrorView::UnparsedInput(words(rest@)),
            ParseError::EmptyOpts => ErrorView::EmptyOpts,
        }
    }
}

/// Whether `a` comes before `b` in the lexicographic order that `lt` gives,
/// both read from position `i` on and equal before it.
pub open spec fn lex_lt_from<T>(a: Seq<T>, b: Seq<T>, lt: spec_fn(T, T) -> bool, i: int) -> bool
    decreases a.len() - i,
{
    if i < 0 || i >= b.len() {
        false
    } else if i >= a.len() {
        true
    } else if a[i] == b[i] {
        lex_lt_from(a, b, lt, i + 1)
    } else {
        lt(a[i], b[i])
    }
}

/// Whether the character `x` has the smaller code point.
pub open spec fn char_lt(x: char, y: char) -> bool {
    (x as u32) < (y as u32)
}

/// Whether `a` comes before `b`, character by character.
pub open spec fn word_lt(a: Word, b: Word) -> bool {
    lex_lt_from(a, b, |x: char, y: char| char_lt(x, y), 0)
}

/// Whether `a` comes before `b`, token by token.
pub open spec fn words_lt(a: Seq<Word>, b: Seq<Word>) -> bool {
    lex_lt_from(a, b, |x: Word, y: Word| word_lt(x, y), 0)
}

impl ErrorView {
    /// The place of the error's variant among the four.
    pub open spec fn rank(self) -> nat {
        match self {
            ErrorView::UnexpectedToken(_) => 0,
            ErrorView::UnexpectedEndOfInput => 1,
            ErrorView::UnparsedInput(_) => 2,
            ErrorView::EmptyOpts => 3,
        }
    }

    /// Whether `self` comes strictly before `other`.
    pub open spec fn lt(self, other: ErrorView) -> bool {
        match (self, other) {
            (ErrorView::UnexpectedToken(a), ErrorView::UnexpectedToken(b)) => word_lt(a, b),
            (ErrorView::UnparsedInput(a), ErrorView::UnparsedInput(b)) => words_lt(a, b),
            _ => self.rank() < other.rank(),
        }
    }

    /// The smaller of two errors; the first where neither comes before the
    /// other.
    pub open spec fn min(self, other: ErrorView) -> ErrorView {
        if other.lt(self) {
            other
        } else {
            self
        }
    }
}

/// No sequence comes before itself, where no element comes before itself.
pub proof fn lemma_lex_irreflexive<T>(a: Seq<T>, lt: spec_fn(T, T) -> bool, i: int)
    requires
        0 <= i,
    ensures
        !lex_lt_from(a, a, lt, i),
    decreases a.len() - i,
{
    if i < a.len() {
        lemma_lex_irreflexive(a, lt, i + 1);
    }
}

/// The lexicographic order is transitive, where the order of the elements
/// is transitive and no element comes before itself.
pub proof fn lemma_lex_transitive<T>(
    a: Seq<T>,
    b: Seq<T>,
    c: Seq<T>,
    lt: spec_fn(T, T) -> bool,
    i: int,
)
    requires
        0 <= i,
        forall|x: T| !#[trigger] lt(x, x),
        forall|x: T, y: T, z: T| #[trigger] lt(x, y) && #[trigger] lt(y, z) ==> lt(x, z),
        lex_lt_from(a, b, lt, i),
        lex_lt_from(b, c, lt, i),
    ensures
        lex_lt_from(a, c, lt, i),
    decreases a.len() - i,
{
    if i < a.len() && i < b.len() && i < c.len() {
        if a[i] == b[i] && b[i] == c[i] {
            lemma_lex_transitive(a, b, c, lt, i + 1);
        } else if a[i] != b[i] && b[i] != c[i] {
            assert(lt(a[i], b[i]) && lt(b[i], c[i]));
            assert(lt(a[i], c[i]));
        }
    }
}

/// The order of words is transitive.
pub proof fn lemma_word_lt_transitive(a: Word, b: Word, c: Word)
    requires
        word_lt(a, b),
        word_lt(b, c),
    ensures
        word_lt(a, c),
{
    lemma_lex_transitive(a, b, c, |x: char, y: char| char_lt(x, y), 0);
}

/// The order of errors is transitive.
pub proof fn lemma_error_lt_transitive(a: ErrorView, b: ErrorView, c: ErrorView)
    requires
        a.lt(b),
        b.lt(c),
    ensures
        a.lt(c),
{
    match (a, b, c) {
        (
            ErrorView::UnexpectedToken(x),
            ErrorView::UnexpectedToken(y),
            ErrorView::UnexpectedToken(z),
        ) => {
            lemma_word_lt_transitive(x, y, z);
        },
        (
            ErrorView::UnparsedInput(x),
            ErrorView::UnparsedInput(y),
            ErrorView::UnparsedInput(z),
        ) => {
            let lt = |u: Word, v: Word| word_lt(u, v);
            assert forall|u: Word| !#[trigger] lt(u, u) by {
                lemma_lex_irreflexive(u, |x: char, y: char| char_lt(x, y), 0);
            }
            assert forall|u: Word, v: Word, w: Word| #[trigger]
                lt(u, v) && #[trigger] lt(v, w) implies lt(u, w) by {
                lemma_word_lt_transitive(u, v, w);
            }
            lemma_lex_transitive(x, y, z, lt, 0);
        },
        _ => {},
    }
}

/// No error comes before itself.
pub proof fn lemma_error_lt_irreflexive(a: ErrorView)
    ensures
        !a.lt(a),
{
    match a {
        ErrorView::UnexpectedToken(x) => {
            lemma_lex_irreflexive(x, |x: char, y: char| char_lt(x, y), 0);
        },
        ErrorView::UnparsedInput(x) => {
            lemma_lex_irreflexive(x, |u: Word, v: Word| word_lt(u, v), 0);
        },
        _ => {},
    }
}

/// `str`'s `==`: two strings are equal exactly if they hold the same
/// characters.
#[verifier::external_body]
pub(crate) fn str_eq(a: &str, b: &str) -> (r: bool)
    ensures
        r == (a@ == b@),
{
    a == b
}

/// `str`'s `<`: strings are ordered lexicographically by their bytes, which
/// is the lexicographic order of their code points.
#[verifier::external_body]
pub(crate) fn str_lt(a: &str, b: &str) -> (r: bool)
    ensures
        r == word_lt(a@, b@),
{
    a < b
}

/// Whether the tail `a` comes before the tail `b`, token by token.
pub fn tail_lt(a: &[&str], b: &[&str]) -> (r: bool)
    ensures
        r == words_lt(words(a@), words(b@)),
{
    let ghost lt = |x: Word, y: Word| word_lt(x, y);
    let mut i: usize = 0;
    while i < a.len() && i < b.len()
        invariant
            i <= a.len(),
            i <= b.len(),
            lt == (|x: Word, y: Word| word_lt(x, y)),
            words_lt(words(a@), words(b@)) == lex_lt_from(words(a@), words(b@), lt, i as int),
        decreases a.len() - i,
    {
        assert(words(a@)[i as int] == a@[i as int]@);
        assert(words(b@)[i as int] == b@[i as int]@);
        if !str_eq(a[i], b[i]) {
            return str_lt(a[i], b[i]);
        }
        i += 1;
    }
    i < b.len()
}

impl<'a> ParseError<'a> {
    /// Whether `self` comes strictly before `other` in the order of errors.
    pub fn precedes(&self, other: &ParseError<'a>) -> (r: bool)
        ensures
            r == self@.lt(other@),
    {
        match (self, other) {
            (ParseError::UnexpectedToken(a), ParseError::UnexpectedToken(b)) => str_lt(a, b),
            (ParseError::UnparsedInput(a), ParseError::UnparsedInput(b)) => tail_lt(a, b),
            _ => self.rank() < other.rank(),
        }
    }

    /// The place of the error's variant among the four.
    pub fn rank(&self) -> (r: u8)
        ensures
            r == self@.rank(),
    {
        match self {
            ParseError::UnexpectedToken(_) => 0,
            ParseError::UnexpectedEndOfInput => 1,
            ParseError::UnparsedInput(_) => 2,
            ParseError::EmptyOpts => 3,
        }
    }

    /// The smaller of two errors; `self` where neither comes before the
    /// other.
    pub fn least(self, other: ParseError<'a>) -> (r: ParseError<'a>)
        ensures
            r == (if other@.lt(self@) {
                other
            } else {
                self
            }),
            r@ == self@.min(other@),
    {
        if other.precedes(&self) {
            other
        } else {
            self
        }
    }
}

} // verus!
