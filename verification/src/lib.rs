//! Multi-pattern matching with the Aho-Corasick algorithm on a compact double array.
//!
//! An automaton is built once from a set of patterns and then finds every place
//! where one of them occurs in a text, in time linear in the length of the text.
use vstd::prelude::*;

pub mod build_helper;
pub mod bytewise;
pub mod charwise;
pub mod errors;
pub mod intpack;
pub mod leftmost;
pub mod model;
pub mod nfa_builder;
pub mod nonzero;
pub mod serializer;

pub use bytewise::{DoubleArrayAhoCorasick, DoubleArrayAhoCorasickBuilder};
pub use charwise::builder::CharwiseDoubleArrayAhoCorasickBuilder;
pub use charwise::CharwiseDoubleArrayAhoCorasick;
pub use nonzero::NonZeroU32;
pub use serializer::Serializable;

verus! {

/// One entry of the output table: the value and byte length of a pattern, and the
/// position of the entry that holds the next shorter pattern ending at the same place.
#[derive(Copy, Clone, Debug, Eq, Hash, PartialEq)]
pub struct Output<V> {
    pub value: V,
    pub length: u32,
    /// Position of the next entry, counted from one; zero when there is none.
    pub parent: u32,
}

impl<V> Output<V> where V: Copy {
    /// Creates an entry.
    #[inline(always)]
    pub fn new(value: V, length: u32, parent: Option<NonZeroU32>) -> (r: Self)
        ensures
            r.value == value,
            r.length == length,
            r.parent == nonzero::raw_of(parent),
    {
        Self { value, length, parent: nonzero::to_raw(parent) }
    }

    /// Returns the value of the pattern.
    #[inline(always)]
    pub fn value(self) -> (r: V)
        ensures
            r == self.value,
    {
        self.value
    }

    /// Returns the length of the pattern in bytes.
    #[inline(always)]
    pub fn length(self) -> (r: u32)
        ensures
            r == self.length,
    {
        self.length
    }

    /// Returns the position of the next entry of the chain, if there is one.
    #[inline(always)]
    pub fn parent(self) -> (r: Option<NonZeroU32>)
        ensures
            nonzero::raw_of(r) == self.parent,
    {
        nonzero::from_raw(self.parent)
    }
}

/// What a [`Match`] says: where the occurrence ends, how long it is, and the
/// value of the pattern found. Positions and lengths count bytes.
pub struct MatchView<V> {
    pub length: nat,
    pub end: nat,
    pub value: V,
}

impl<V> MatchView<V> {
    /// The position at which the occurrence starts.
    pub open spec fn start(self) -> int {
        self.end - self.length
    }
}

/// Match result.
#[derive(Debug, Eq, Hash, PartialEq)]
pub struct Match<V> {
    length: usize,
    end: usize,
    value: V,
}

impl<V> View for Match<V> {
    type V = MatchView<V>;

    closed spec fn view(&self) -> MatchView<V> {
        MatchView { length: self.length as nat, end: self.end as nat, value: self.value }
    }
}

impl<V> Match<V> {
    /// No occurrence is longer than the text before its end.
    #[verifier::type_invariant]
    closed spec fn inv(self) -> bool {
        self.length <= self.end
    }
}

impl<V: Copy> Clone for Match<V> {
    fn clone(&self) -> (r: Self)
        ensures
            r == *self,
    {
        *self
    }
}

impl<V: Copy> Copy for Match<V> {

}

impl<V> Match<V> where V: Copy {
    /// Creates the record of an occurrence of `length` bytes that ends at `end`.
    #[inline(always)]
    pub(crate) fn new(length: usize, end: usize, value: V) -> (r: Self)
        requires
            length <= end,
        ensures
            r@ == (MatchView { length: length as nat, end: end as nat, value }),
    {
        Self { length, end, value }
    }

    /// Creates the record of an occurrence of `length` bytes that ends at `end`,
    /// when there is room for so many bytes before `end`.
    pub fn from_parts(length: usize, end: usize, value: V) -> (r: Option<Self>)
        ensures
            length <= end ==> r is Some && r.unwrap()@ == (MatchView {
                length: length as nat,
                end: end as nat,
                value,
            }),
            length > end ==> r is None,
    {
        if length <= end {
            Some(Self { length, end, value })
        } else {
            None
        }
    }

    /// Length of the match in bytes.
    #[inline(always)]
    #[must_use]
    pub fn length(&self) -> (r: usize)
        ensures
            r == self@.length,
    {
        self.length
    }

    /// Starting position of the match.
    #[inline(always)]
    #[must_use]
    pub fn start(&self) -> (r: usize)
        ensures
            r == self@.start(),
            self@.length <= self@.end,
    {
        proof {
            use_type_invariant(self);
        }
        self.end - self.length
    }

    /// Ending position of the match.
    #[inline(always)]
    #[must_use]
    pub fn end(&self) -> (r: usize)
        ensures
            r == self@.end,
    {
        self.end
    }

    /// Value associated with the pattern.
    #[inline(always)]
    #[must_use]
    pub fn value(&self) -> (r: V)
        ensures
            r == self@.value,
    {
        self.value
    }
}

/// A search option of the Aho-Corasick automaton, fixed when the automaton is built.
#[derive(Clone, Copy, Debug, Eq, Hash, PartialEq, Structural)]
pub enum MatchKind {
    /// The standard match semantics: occurrences are reported in the order in
    /// which the automaton reaches their ends, overlapping or not.
    Standard,
    /// The leftmost-longest match semantics: of the patterns that start at the
    /// leftmost possible position, the longest is reported.
    LeftmostLongest,
    /// The leftmost-first match semantics: of the patterns that start at the
    /// leftmost possible position, the one registered first is reported.
    LeftmostFirst,
}

impl MatchKind {
    /// The tag that stands for this kind in the binary form of an automaton.
    pub open spec fn tag(self) -> u8 {
        match self {
            MatchKind::Standard => 0,
            MatchKind::LeftmostLongest => 1,
            MatchKind::LeftmostFirst => 2,
        }
    }

    /// The kind that a tag stands for; every tag but 1 and 2 stands for `Standard`.
    pub open spec fn of_tag(tag: u8) -> MatchKind {
        if tag == 1 {
            MatchKind::LeftmostLongest
        } else if tag == 2 {
            MatchKind::LeftmostFirst
        } else {
            MatchKind::Standard
        }
    }

    /// Returns the tag that stands for this kind in the binary form of an automaton.
    pub fn to_tag(self) -> (r: u8)
        ensures
            r == self.tag(),
    {
        match self {
            MatchKind::Standard => 0,
            MatchKind::LeftmostLongest => 1,
            MatchKind::LeftmostFirst => 2,
        }
    }

    /// Returns the kind that a tag stands for.
    pub fn from_tag(tag: u8) -> (r: Self)
        ensures
            r == MatchKind::of_tag(tag),
    {
        match tag {
            1 => MatchKind::LeftmostLongest,
            2 => MatchKind::LeftmostFirst,
            _ => MatchKind::Standard,
        }
    }

    /// Whether this is the standard kind.
    #[verifier::when_used_as_spec(spec_is_standard)]
    pub fn is_standard(self) -> (r: bool)
        ensures
            r == self.spec_is_standard(),
    {
        match self {
            MatchKind::Standard => true,
            _ => false,
        }
    }

    /// This is the standard kind.
    pub open spec fn spec_is_standard(self) -> bool {
        self == MatchKind::Standard
    }

    /// Whether this is one of the two leftmost kinds.
    #[verifier::when_used_as_spec(spec_is_leftmost)]
    pub fn is_leftmost(self) -> (r: bool)
        ensures
            r == self.spec_is_leftmost(),
    {
        match self {
            MatchKind::Standard => false,
            _ => true,
        }
    }

    /// This is one of the two leftmost kinds.
    pub open spec fn spec_is_leftmost(self) -> bool {
        self == MatchKind::LeftmostFirst || self == MatchKind::LeftmostLongest
    }

    /// Whether this is the leftmost-first kind.
    #[verifier::when_used_as_spec(spec_is_leftmost_first)]
    pub fn is_leftmost_first(self) -> (r: bool)
        ensures
            r == self.spec_is_leftmost_first(),
    {
        match self {
            MatchKind::LeftmostFirst => true,
            _ => false,
        }
    }

    /// This is the leftmost-first kind.
    pub open spec fn spec_is_leftmost_first(self) -> bool {
        self == MatchKind::LeftmostFirst
    }
}

impl From<u8> for MatchKind {
    fn from(src: u8) -> (r: Self)
        ensures
            r == MatchKind::of_tag(src),
    {
        MatchKind::from_tag(src)
    }
}

impl vstd::std_specs::convert::FromSpecImpl<u8> for MatchKind {
    open spec fn obeys_from_spec() -> bool {
        true
    }

    open spec fn from_spec(src: u8) -> Self {
        MatchKind::of_tag(src)
    }
}

impl From<MatchKind> for u8 {
    fn from(src: MatchKind) -> (r: Self)
        ensures
            r == src.tag(),
    {
        src.to_tag()
    }
}

impl vstd::std_specs::convert::FromSpecImpl<MatchKind> for u8 {
    open spec fn obeys_from_spec() -> bool {
        true
    }

    open spec fn from_spec(src: MatchKind) -> Self {
        src.tag()
    }
}

/// Empty value type, for automata whose patterns carry no value.
#[derive(Clone, Copy, Default, Debug)]
pub struct Empty;

impl From<usize> for Empty {
    fn from(_value: usize) -> (r: Self)
        ensures
            r == Empty,
    {
        Self
    }
}

impl vstd::std_specs::convert::FromSpecImpl<usize> for Empty {
    open spec fn obeys_from_spec() -> bool {
        true
    }

    open spec fn from_spec(_value: usize) -> Self {
        Empty
    }
}

} // verus!
