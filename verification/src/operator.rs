//! Operators: a fixity and a pattern of name parts and argument holes.

use crate::fixity::Fixity;
use vstd::prelude::*;

verus! {

/// One token of an operator's name.
pub type NamePart = String;

/// A token as the contracts see it: its characters.
pub type Word = Seq<char>;

/// A pattern as the contracts see it: groups of words, with one hole
/// between each two neighbouring groups.
pub type Groups = Seq<Seq<Word>>;

/// The groups of name parts of an operator, one hole between each two
/// neighbouring groups. A group that stands at an end and holds no name part
/// marks an open side.
#[derive(Debug)]
pub struct OperatorPattern(pub Vec<Vec<NamePart>>);

/// An operator as the parser sees it.
#[derive(Debug)]
pub struct Operator {
    pub fixity: Fixity,
    pub pattern: OperatorPattern,
}

/// An operator as the contracts see it.
pub struct OperatorView {
    pub fixity: Fixity,
    pub pattern: Groups,
}

/// `groups` without the empty groups at its front.
pub open spec fn trim_front(groups: Groups) -> Groups
    decreases groups.len(),
{
    if groups.len() > 0 && groups[0].len() == 0 {
        trim_front(groups.skip(1))
    } else {
        groups
    }
}

/// `groups` without the empty groups at its back.
pub open spec fn trim_back(groups: Groups) -> Groups
    decreases groups.len(),
{
    if groups.len() > 0 && groups.last().len() == 0 {
        trim_back(groups.drop_last())
    } else {
        groups
    }
}

/// The groups from the first one that holds a name part to the last one that
/// does; none where no group holds a name part.
pub open spec fn backbone_of(groups: Groups) -> Groups {
    trim_back(trim_front(groups))
}

/// The groups of a borrowed run of a pattern, word by word.
pub open spec fn groups_view(groups: Seq<Vec<NamePart>>) -> Groups {
    Seq::new(groups.len(), |i: int| groups[i].deep_view())
}

impl View for OperatorPattern {
    type V = Groups;

    open spec fn view(&self) -> Groups {
        self.0.deep_view()
    }
}

impl View for Operator {
    type V = OperatorView;

    open spec fn view(&self) -> OperatorView {
        OperatorView { fixity: self.fixity, pattern: self.pattern@ }
    }
}

impl OperatorView {
    /// The name-part skeleton that the parser matches.
    pub open spec fn backbone(self) -> Groups {
        backbone_of(self.pattern)
    }

    /// The number of holes between the groups of the backbone.
    pub open spec fn holes(self) -> nat {
        if self.backbone().len() == 0 {
            0
        } else {
            (self.backbone().len() - 1) as nat
        }
    }

    /// The number of arguments: the holes of the backbone and one more for
    /// each open side.
    pub open spec fn arity(self) -> nat {
        self.holes() + self.fixity.open_sides()
    }
}

/// At the front only empty groups are trimmed, so what is left is a tail of
/// the pattern that starts with a group that holds a name part.
pub proof fn lemma_trim_front(groups: Groups, i: int)
    requires
        0 <= i <= groups.len(),
        forall|j: int| 0 <= j < i ==> (#[trigger] groups[j]).len() == 0,
        i < groups.len() ==> groups[i].len() > 0,
    ensures
        trim_front(groups) == groups.skip(i),
    decreases i,
{
    if i == 0 {
        assert(groups.skip(0) == groups);
    } else {
        let rest = groups.skip(1);
        assert forall|j: int| 0 <= j < i - 1 implies (#[trigger] rest[j]).len() == 0 by {
            assert(rest[j] == groups[j + 1]);
        }
        lemma_trim_front(rest, i - 1);
        assert(rest.skip(i - 1) == groups.skip(i));
    }
}

/// At the back only empty groups are trimmed, so what is left is a head of
/// the pattern that ends with a group that holds a name part.
pub proof fn lemma_trim_back(groups: Groups, k: int)
    requires
        0 <= k <= groups.len(),
        forall|j: int| k <= j < groups.len() ==> (#[trigger] groups[j]).len() == 0,
        0 < k ==> groups[k - 1].len() > 0,
    ensures
        trim_back(groups) == groups.take(k),
    decreases groups.len() - k,
{
    if k == groups.len() {
        assert(groups.take(k) == groups);
    } else {
        let rest = groups.drop_last();
        assert forall|j: int| k <= j < rest.len() implies (#[trigger] rest[j]).len() == 0 by {
            assert(rest[j] == groups[j]);
        }
        lemma_trim_back(rest, k);
        assert(rest.take(k) == groups.take(k));
    }
}

/// A backbone is empty or starts and ends with a group that holds a name
/// part.
pub proof fn lemma_backbone_ends(groups: Groups)
    ensures
        backbone_of(groups).len() > 0 ==> backbone_of(groups)[0].len() > 0
            && backbone_of(groups).last().len() > 0,
        backbone_of(groups).len() <= groups.len(),
{
    lemma_trim_front_shape(groups);
    lemma_trim_back_shape(trim_front(groups));
}

proof fn lemma_trim_front_shape(groups: Groups)
    ensures
        trim_front(groups).len() <= groups.len(),
        trim_front(groups).len() > 0 ==> trim_front(groups)[0].len() > 0,
    decreases groups.len(),
{
    if groups.len() > 0 && groups[0].len() == 0 {
        lemma_trim_front_shape(groups.skip(1));
    }
}

proof fn lemma_trim_back_shape(groups: Groups)
    ensures
        trim_back(groups).len() <= groups.len(),
        trim_back(groups).len() > 0 ==> trim_back(groups).last().len() > 0,
        trim_back(groups).len() > 0 ==> trim_back(groups)[0] == groups[0],
    decreases groups.len(),
{
    if groups.len() > 0 && groups.last().len() == 0 {
        lemma_trim_back_shape(groups.drop_last());
    }
}

impl OperatorPattern {
    /// The groups from the first one that holds a name part to the last one
    /// that does.
    pub fn backbone(&self) -> (r: &[Vec<NamePart>])
        ensures
            groups_view(r@) == backbone_of(self@),
    {
        let n = self.0.len();
        let mut first: usize = 0;
        while first < n && self.0[first].len() == 0
            invariant
                first <= n,
                n == self.0.len(),
                forall|j: int| 0 <= j < first ==> (#[trigger] self.0[j]).len() == 0,
            decreases n - first,
        {
            first += 1;
        }
        let mut last: usize = n;
        while last > first && self.0[last - 1].len() == 0
            invariant
                first <= last <= n,
                n == self.0.len(),
                forall|j: int| last <= j < n ==> (#[trigger] self.0[j]).len() == 0,
            decreases last,
        {
            last -= 1;
        }
        let r = vstd::slice::slice_subrange(self.0.as_slice(), first, last);
        proof {
            let groups = self@;
            assert(groups.len() == n);
            assert forall|j: int| 0 <= j < n implies (#[trigger] groups[j]).len()
                == self.0[j].len() by {
                assert(groups[j] == self.0[j].deep_view());
            }
            lemma_trim_front(groups, first as int);
            let tail = groups.skip(first as int);
            assert forall|j: int| last - first <= j < tail.len() implies (#[trigger] tail[j]).len()
                == 0 by {
                assert(tail[j] == groups[j + first]);
            }
            if last > first {
                assert(tail[last - first - 1] == groups[last - 1]);
            }
            lemma_trim_back(tail, last - first);
            assert(groups_view(r@) =~= tail.take(last - first));
        }
        r
    }
}

impl Operator {
    /// The number of arguments that an application of the operator takes.
    pub fn arity(&self) -> (r: usize)
        requires
            self@.arity() <= usize::MAX,
        ensures
            r == self@.arity(),
    {
        let skeleton = self.pattern.backbone();
        let named = skeleton.len();
        proof {
            lemma_backbone_ends(self.pattern@);
            assert(groups_view(skeleton@).len() == named);
        }
        let holes: usize = if named == 0 {
            0
        } else {
            named - 1
        };
        let sides: usize = match self.fixity {
            Fixity::Closed => 0,
            Fixity::Prefix => 1,
            Fixity::Postfix => 1,
            Fixity::Infix(_) => 2,
        };
        holes + sides
    }

    /// Whether an application of the operator takes `n` arguments.
    pub fn takes(&self, n: usize) -> (r: bool)
        ensures
            r == (n == self@.arity()),
    {
        let skeleton = self.pattern.backbone();
        let named = skeleton.len();
        proof {
            lemma_backbone_ends(self.pattern@);
            assert(groups_view(skeleton@).len() == named);
        }
        let holes: usize = if named == 0 {
            0
        } else {
            named - 1
        };
        let sides: usize = match self.fixity {
            Fixity::Closed => 0,
            Fixity::Prefix => 1,
            Fixity::Postfix => 1,
            Fixity::Infix(_) => 2,
        };
        n >= sides && n - sides == holes
    }
}

impl Clone for OperatorPattern {
    fn clone(&self) -> (r: Self)
        ensures
            r@ == self@,
    {
        let groups = self.0.clone();
        proof {
            assert(groups.deep_view() =~~= self.0.deep_view());
        }
        OperatorPattern(groups)
    }
}

impl Clone for Operator {
    fn clone(&self) -> (r: Self)
        ensures
            r@ == self@,
    {
        Operator { fixity: self.fixity, pattern: self.pattern.clone() }
    }
}

/// The pieces of `s` between the occurrences of `c`: one more piece than
/// there are occurrences, empty where two occurrences meet or one stands at
/// an end.
pub open spec fn split_on(s: Seq<char>, c: char) -> Seq<Seq<char>>
    decreases s.len(),
{
    if s.len() == 0 {
        seq![Seq::empty()]
    } else {
        let pieces = split_on(s.skip(1), c);
        if s[0] == c {
            seq![Seq::empty()] + pieces
        } else {
            seq![seq![s[0]] + pieces[0]] + pieces.skip(1)
        }
    }
}

/// The words of `s`: its longest runs of characters that are not white
/// space, in order, as `str::split_whitespace` yields them.
pub uninterp spec fn white_words(s: Seq<char>) -> Seq<Seq<char>>;

/// The strings of a sequence, each by its characters.
pub open spec fn strs(pieces: Seq<&str>) -> Seq<Seq<char>> {
    Seq::new(pieces.len(), |i: int| pieces[i]@)
}

/// The pattern that a string describes: a `_` stands for a hole, and the
/// words between two holes are the name parts of one group.
pub open spec fn pattern_of(s: Seq<char>) -> Groups {
    let pieces = split_on(s, '_');
    Seq::new(pieces.len(), |i: int| white_words(pieces[i]))
}

/// `str::split` on the character `_`: the substrings between its
/// occurrences, in order.
#[verifier::external_body]
fn split_holes(s: &str) -> (r: Vec<&str>)
    ensures
        strs(r@) == split_on(s@, '_'),
{
    s.split('_').collect()
}

/// `str::split_whitespace`: the substrings of `s` that white space
/// separates, in order, none of them empty.
#[verifier::external_body]
fn split_words(s: &str) -> (r: Vec<NamePart>)
    ensures
        r.deep_view() == white_words(s@),
{
    s.split_whitespace().map(|word| word.to_string()).collect()
}

impl From<&str> for OperatorPattern {
    /// Reads a pattern: `"if _ then _"` has the groups `if`, `then` and an
    /// empty one, `"_+_"` an empty group, `+` and an empty group.
    fn from(s: &str) -> (r: Self)
        ensures
            r@ == pattern_of(s@),
    {
        let pieces = split_holes(s);
        let mut groups: Vec<Vec<NamePart>> = Vec::new();
        let mut i: usize = 0;
        while i < pieces.len()
            invariant
                i <= pieces.len(),
                strs(pieces@) == split_on(s@, '_'),
                groups@.len() == i,
                forall|j: int|
                    0 <= j < i ==> (#[trigger] groups@[j]).deep_view() == white_words(
                        pieces@[j]@,
                    ),
            decreases pieces.len() - i,
        {
            let group = split_words(pieces[i]);
            groups.push(group);
            i += 1;
        }
        proof {
            assert forall|j: int| 0 <= j < pieces@.len() implies pieces@[j]@ == split_on(
                s@,
                '_',
            )[j] by {
                assert(strs(pieces@)[j] == pieces@[j]@);
            }
            assert(groups.deep_view() =~= pattern_of(s@));
        }
        OperatorPattern(groups)
    }
}

impl vstd::std_specs::convert::FromSpecImpl<&str> for OperatorPattern {
    open spec fn obeys_from_spec() -> bool {
        false
    }

    open spec fn from_spec(s: &str) -> Self {
        arbitrary()
    }
}

} // verus!
