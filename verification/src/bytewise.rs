//! The automaton that reads a text byte by byte.
//!
//! Patterns and texts are sequences of bytes of any kind; they need not be
//! UTF-8. A byte is its own code: the child of the state in slot `s` on the byte
//! `x` is the slot `base(s) XOR x`, provided that slot names `s` as its owner.
pub mod agree;

use crate::charwise::builder::{
    build_from_bytes, build_from_bytes_with_values, built, built_with_positions,
    pattern_set_of_bytes, words_of_bytes,
};
use crate::charwise::iter::{
    CharWithEndOffsetIterator, FindIterator, FindOverlappingIterator,
    FindOverlappingNoSuffixIterator, LeftmostFindIterator,
};
use crate::charwise::mapper::{identity_table, CodeMapper};
use crate::charwise::{AutomatonView, CharwiseDoubleArrayAhoCorasick, Layout, State};
use crate::errors::{DaachorseError, Result};
use crate::model::{word_of_bytes, PatternSet, Unit};
use crate::serializer::{
    de_seq, deserialize_vec, lemma_seq_round_trip, seq_width, ser_seq, serialize_vec, Serializable,
};
use crate::{MatchKind, Output};
use vstd::prelude::*;

verus! {

impl<V> AutomatonView<V> {
    /// The automaton was built from patterns of bytes, and its code table gives
    /// each byte itself.
    pub open spec fn on_bytes(self) -> bool {
        &&& self.wf_for(Unit::Bytes)
        &&& self.table == identity_table()
        &&& self.alphabet_size == 256
    }
}

impl<V: Serializable> AutomatonView<V> {
    /// The binary form of an automaton on bytes: the double array, the output
    /// table, the match kind and the number of states.
    pub open spec fn ser_on_bytes(self) -> Seq<u8> {
        ser_seq(self.states) + ser_seq(self.outputs) + self.match_kind.ser() + self.num_states.ser()
    }

    /// The automaton on bytes whose binary form stands at the front of `bytes`,
    /// and what stands behind the form.
    pub open spec fn de_on_bytes(bytes: Seq<u8>) -> (AutomatonView<V>, Seq<u8>) {
        let states = de_seq::<State>(bytes);
        let b1 = bytes.skip(seq_width::<State>(states.len()) as int);
        let outputs = de_seq::<Output<V>>(b1);
        let b2 = b1.skip(seq_width::<Output<V>>(outputs.len()) as int);
        let match_kind = MatchKind::de(b2.take(1));
        let b3 = b2.skip(1);
        let num_states = u32::de(b3.take(4));
        (
            AutomatonView {
                states,
                table: identity_table(),
                alphabet_size: 256,
                outputs,
                match_kind,
                num_states,
            },
            b3.skip(4),
        )
    }

    /// An automaton on bytes is read back from its binary form, whatever stands
    /// behind the form.
    pub proof fn lemma_round_trip_on_bytes(self, rest: Seq<u8>)
        requires
            self.writable(),
            self.table == identity_table(),
            self.alphabet_size == 256,
        ensures
            Self::de_on_bytes(self.ser_on_bytes() + rest) == (self, rest),
    {
        let bytes = self.ser_on_bytes() + rest;
        let t3 = self.num_states.ser() + rest;
        let t2 = self.match_kind.ser() + t3;
        let t1 = ser_seq(self.outputs) + t2;
        assert(bytes =~= ser_seq(self.states) + t1);
        lemma_seq_round_trip(self.states, t1);
        lemma_seq_round_trip(self.outputs, t2);
        self.match_kind.lemma_round_trip();
        assert(t2.take(1) =~= self.match_kind.ser());
        assert(t2.skip(1) =~= t3);
        self.num_states.lemma_round_trip();
        assert(t3.take(4) =~= self.num_states.ser());
        assert(t3.skip(4) =~= rest);
        let r = Self::de_on_bytes(bytes);
        assert(r.0.states == self.states);
        assert(r.0.outputs == self.outputs);
    }
}

/// A fast multiple pattern match automaton implemented with the Aho-Corasick
/// algorithm and the double-array data structure, on the bytes of a text.
#[derive(Clone, Debug, Eq, Hash, PartialEq)]
pub struct DoubleArrayAhoCorasick<V> {
    core: CharwiseDoubleArrayAhoCorasick<V>,
}

impl<V> View for DoubleArrayAhoCorasick<V> {
    type V = AutomatonView<V>;

    closed spec fn view(&self) -> AutomatonView<V> {
        self.core@
    }
}

/// What an automaton on bytes that was or was not built is, without the
/// automaton itself.
pub open spec fn view_of<V>(r: Result<DoubleArrayAhoCorasick<V>>) -> Result<AutomatonView<V>> {
    match r {
        Ok(a) => Ok(a@),
        Err(e) => Err(e),
    }
}

/// Builder of a [`DoubleArrayAhoCorasick`].
pub struct DoubleArrayAhoCorasickBuilder {
    match_kind: MatchKind,
}

impl DoubleArrayAhoCorasickBuilder {
    /// The match kind that the automaton will have.
    pub closed spec fn kind(&self) -> MatchKind {
        self.match_kind
    }

    /// Creates a builder of an automaton of the standard kind.
    pub fn new() -> (r: Self)
        ensures
            r.kind() == MatchKind::Standard,
    {
        Self { match_kind: MatchKind::Standard }
    }

    /// Sets the match kind that the automaton will have.
    pub fn match_kind(self, kind: MatchKind) -> (r: Self)
        ensures
            r.kind() == kind,
    {
        Self { match_kind: kind }
    }

    /// Builds an automaton from patterns. Each pattern gets its position among
    /// the patterns as its value, converted to the type of the values.
    pub fn build<V: Copy + TryFrom<usize>>(self, patterns: &[&[u8]]) -> (r: Result<
        DoubleArrayAhoCorasick<V>,
    >)
        ensures
            built_with_positions(
                words_of_bytes(patterns@, false),
                self.kind(),
                Unit::Bytes,
                view_of(r),
            ),
    {
        match build_from_bytes(self.match_kind, patterns, false) {
            Ok(core) => Ok(DoubleArrayAhoCorasick { core }),
            Err(e) => Err(e),
        }
    }

    /// Builds an automaton from pairs of a pattern and a value.
    pub fn build_with_values<V: Copy>(self, patvals: &[(&[u8], V)]) -> (r: Result<
        DoubleArrayAhoCorasick<V>,
    >)
        ensures
            built(pattern_set_of_bytes(patvals@, self.kind(), false), view_of(r)),
    {
        match build_from_bytes_with_values(self.match_kind, patvals, false) {
            Ok(core) => Ok(DoubleArrayAhoCorasick { core }),
            Err(e) => Err(e),
        }
    }
}

impl<V: Copy> DoubleArrayAhoCorasick<V> {
    /// Creates a new [`DoubleArrayAhoCorasick`] from input patterns. The value `i` is
    /// automatically associated with `patterns[i]`.
    ///
    /// # Errors
    ///
    /// An error is returned when
    ///   - `patterns` is empty,
    ///   - `patterns` contains entries of length zero,
    ///   - `patterns` contains duplicate entries,
    ///   - the conversion from the index `i` to the specified type `V` fails, or
    ///   - the scale of `patterns`, or of the resulting automaton, exceeds the expected one.
    pub fn new(patterns: &[&[u8]]) -> (r: Result<Self>) where V: TryFrom<usize>
        ensures
            built_with_positions(
                words_of_bytes(patterns@, false),
                MatchKind::Standard,
                Unit::Bytes,
                view_of(r),
            ),
    {
        DoubleArrayAhoCorasickBuilder::new().build(patterns)
    }

    /// Creates a new [`DoubleArrayAhoCorasick`] from input pattern-value pairs.
    ///
    /// # Errors
    ///
    /// An error is returned when
    ///   - `patvals` is empty,
    ///   - `patvals` contains patterns of length zero,
    ///   - `patvals` contains duplicate patterns, or
    ///   - the scale of `patvals`, or of the resulting automaton, exceeds the expected one.
    pub fn with_values(patvals: &[(&[u8], V)]) -> (r: Result<Self>)
        ensures
            built(pattern_set_of_bytes(patvals@, MatchKind::Standard, false), view_of(r)),
    {
        DoubleArrayAhoCorasickBuilder::new().build_with_values(patvals)
    }

    /// Returns an iterator of non-overlapping matches in the given haystack.
    ///
    /// The automaton must have been built with [`MatchKind::Standard`].
    pub fn find_iter<'a>(&'a self, haystack: &'a [u8]) -> (it: FindIterator<'a, V>)
        requires
            self@.wf_for(Unit::Bytes),
            self@.match_kind == MatchKind::Standard,
        ensures
            it.wf(),
            it.remaining() == self@.find(Unit::Bytes, word_of_bytes(haystack@)),
            forall|d: PatternSet<V>| #[trigger]
                self@.recognizes(d) && d.unit == Unit::Bytes ==> it.remaining() == d.find_matches(
                    word_of_bytes(haystack@),
                ),
    {
        let ghost d = choose|d: PatternSet<V>| #[trigger] self@.recognizes(d) && d.unit == Unit::Bytes;
        let ghost g = choose|g: Layout| self@.layout_ok(d, g);
        proof {
            self@.lemma_same_meaning(d, word_of_bytes(haystack@));
        }
        FindIterator::new(&self.core, CharWithEndOffsetIterator::new_bytes(haystack), Ghost(d), Ghost(g))
    }

    /// Returns an iterator of overlapping matches in the given haystack.
    ///
    /// The automaton must have been built with [`MatchKind::Standard`].
    pub fn find_overlapping_iter<'a>(&'a self, haystack: &'a [u8]) -> (it: FindOverlappingIterator<
        'a,
        V,
    >)
        requires
            self@.wf_for(Unit::Bytes),
            self@.match_kind == MatchKind::Standard,
        ensures
            it.wf(),
            it.remaining() == self@.find_overlapping(Unit::Bytes, word_of_bytes(haystack@)),
            forall|d: PatternSet<V>| #[trigger]
                self@.recognizes(d) && d.unit == Unit::Bytes ==> it.remaining()
                    == d.overlapping_matches(word_of_bytes(haystack@)),
    {
        let ghost d = choose|d: PatternSet<V>| #[trigger] self@.recognizes(d) && d.unit == Unit::Bytes;
        let ghost g = choose|g: Layout| self@.layout_ok(d, g);
        proof {
            self@.lemma_same_meaning(d, word_of_bytes(haystack@));
        }
        FindOverlappingIterator::new(
            &self.core,
            CharWithEndOffsetIterator::new_bytes(haystack),
            Ghost(d),
            Ghost(g),
        )
    }

    /// Returns an iterator of overlapping matches without suffixes in the given
    /// haystack: for each place at which a pattern ends, the longest such pattern.
    ///
    /// The automaton must have been built with [`MatchKind::Standard`].
    pub fn find_overlapping_no_suffix_iter<'a>(&'a self, haystack: &'a [u8]) -> (it:
        FindOverlappingNoSuffixIterator<'a, V>)
        requires
            self@.wf_for(Unit::Bytes),
            self@.match_kind == MatchKind::Standard,
        ensures
            it.wf(),
            it.remaining() == self@.find_overlapping_no_suffix(Unit::Bytes, word_of_bytes(haystack@)),
            forall|d: PatternSet<V>| #[trigger]
                self@.recognizes(d) && d.unit == Unit::Bytes ==> it.remaining()
                    == d.overlapping_no_suffix_matches(word_of_bytes(haystack@)),
    {
        let ghost d = choose|d: PatternSet<V>| #[trigger] self@.recognizes(d) && d.unit == Unit::Bytes;
        let ghost g = choose|g: Layout| self@.layout_ok(d, g);
        proof {
            self@.lemma_same_meaning(d, word_of_bytes(haystack@));
        }
        FindOverlappingNoSuffixIterator::new(
            &self.core,
            CharWithEndOffsetIterator::new_bytes(haystack),
            Ghost(d),
            Ghost(g),
        )
    }

    /// Returns an iterator of leftmost matches in the given haystack.
    ///
    /// The matches do not overlap. Each is the leftmost possible; of the patterns
    /// that start there, the longest is reported under [`MatchKind::LeftmostLongest`],
    /// and the one registered first under [`MatchKind::LeftmostFirst`].
    ///
    /// The automaton must have been built with one of these two kinds.
    pub fn leftmost_find_iter<'a>(&'a self, haystack: &'a [u8]) -> (it: LeftmostFindIterator<'a, V>)
        requires
            self@.wf_for(Unit::Bytes),
            self@.match_kind != MatchKind::Standard,
        ensures
            it.wf(),
            it.remaining() == self@.leftmost_find(Unit::Bytes, word_of_bytes(haystack@)),
            forall|d: PatternSet<V>| #[trigger]
                self@.recognizes(d) && d.unit == Unit::Bytes ==> it.remaining()
                    == d.first_longest_matches(word_of_bytes(haystack@)),
    {
        let ghost d = choose|d: PatternSet<V>| #[trigger] self@.recognizes(d) && d.unit == Unit::Bytes;
        let ghost g = choose|g: Layout| self@.layout_ok(d, g);
        proof {
            self@.lemma_same_meaning(d, word_of_bytes(haystack@));
        }
        LeftmostFindIterator::new(
            &self.core,
            CharWithEndOffsetIterator::new_bytes(haystack),
            Ghost(d),
            Ghost(g),
        )
    }

    /// Puts an automaton together from its parts, which must be those of an
    /// automaton that was built from patterns of bytes.
    pub fn from_parts_unchecked(
        states: Vec<State>,
        outputs: Vec<Output<V>>,
        match_kind: MatchKind,
        num_states: u32,
    ) -> (r: Self)
        requires
            (AutomatonView {
                states: states@,
                table: identity_table(),
                alphabet_size: 256,
                outputs: outputs@,
                match_kind,
                num_states,
            }).on_bytes(),
        ensures
            r@ == (AutomatonView {
                states: states@,
                table: identity_table(),
                alphabet_size: 256,
                outputs: outputs@,
                match_kind,
                num_states,
            }),
    {
        let core = CharwiseDoubleArrayAhoCorasick::from_parts(
            states,
            CodeMapper::identity(),
            outputs,
            match_kind,
            num_states,
        );
        DoubleArrayAhoCorasick { core }
    }

    /// Returns the match kind that the automaton was built with.
    pub fn match_kind(&self) -> (r: MatchKind)
        ensures
            r == self@.match_kind,
    {
        self.core.match_kind()
    }

    /// Returns the double array.
    pub fn states(&self) -> (r: &Vec<State>)
        ensures
            r@ == self@.states,
    {
        self.core.states()
    }

    /// Returns the output table.
    pub fn outputs(&self) -> (r: &Vec<Output<V>>)
        ensures
            r@ == self@.outputs,
    {
        self.core.outputs()
    }

    /// Returns the total number of states this automaton has.
    #[must_use]
    pub fn num_states(&self) -> (r: usize)
        ensures
            r == self@.num_states,
    {
        self.core.num_states()
    }

    /// Returns the total number of elements of the double array.
    #[must_use]
    pub fn num_elements(&self) -> (r: usize)
        ensures
            r == self@.states.len(),
    {
        self.core.num_elements()
    }

    /// Returns the total amount of heap used by this automaton in bytes.
    #[must_use]
    pub fn heap_bytes(&self) -> (r: usize)
        requires
            self@.heap_bytes() <= usize::MAX,
        ensures
            r == self@.heap_bytes(),
    {
        self.core.heap_bytes()
    }
}

impl<V: Copy + Serializable> DoubleArrayAhoCorasick<V> {
    /// Serializes the automaton into a [`Vec`].
    #[must_use]
    pub fn serialize(&self) -> (r: Vec<u8>)
        requires
            self@.wf(),
        ensures
            r@ == self@.ser_on_bytes(),
    {
        proof {
            self@.lemma_writable();
        }
        let mut result: Vec<u8> = Vec::new();
        serialize_vec(self.core.states(), &mut result);
        serialize_vec(self.core.outputs(), &mut result);
        self.core.match_kind().serialize_to_vec(&mut result);
        let n = self.core.state_count();
        n.serialize_to_vec(&mut result);
        proof {
            assert(result@ =~= self@.ser_on_bytes());
        }
        result
    }

    /// Deserializes the automaton from a given slice.
    ///
    /// Returns the automaton and the part of the slice that was not used.
    ///
    /// The slice must begin with the binary form of an automaton on bytes that was
    /// built from patterns, as [`DoubleArrayAhoCorasick::serialize()`] writes it.
    #[must_use]
    pub fn deserialize_unchecked(source: &[u8]) -> (r: (Self, &[u8]))
        requires
            exists|a: AutomatonView<V>, rest: Seq<u8>|
                a.on_bytes() && source@ == a.ser_on_bytes() + rest,
        ensures
            r.0@.on_bytes(),
            (r.0@, r.1@) == AutomatonView::<V>::de_on_bytes(source@),
            forall|a: AutomatonView<V>, rest: Seq<u8>|
                a.writable() && a.table == identity_table() && a.alphabet_size == 256 && source@
                    == #[trigger] (a.ser_on_bytes() + rest) ==> r.0@ == a && r.1@ == rest,
    {
        let ghost (a, rest) = choose|a: AutomatonView<V>, rest: Seq<u8>|
            a.on_bytes() && source@ == a.ser_on_bytes() + rest;
        let ghost t3 = a.num_states.ser() + rest;
        let ghost t2 = a.match_kind.ser() + t3;
        let ghost t1 = ser_seq(a.outputs) + t2;
        proof {
            let d = choose|d: PatternSet<V>| #[trigger] a.recognizes(d) && d.unit == Unit::Bytes;
            assert(a.wf());
            a.lemma_writable();
            a.lemma_round_trip_on_bytes(rest);
            assert(source@ =~= ser_seq(a.states) + t1);
            lemma_seq_round_trip(a.states, t1);
            lemma_seq_round_trip(a.outputs, t2);
            a.match_kind.lemma_round_trip();
            a.num_states.lemma_round_trip();
            assert forall|a2: AutomatonView<V>, rest2: Seq<u8>|
                a2.writable() && a2.table == identity_table() && a2.alphabet_size == 256 && source@
                    == #[trigger] (a2.ser_on_bytes() + rest2) implies a2 == a && rest2 == rest by {
                a2.lemma_round_trip_on_bytes(rest2);
            }
        }
        let (states, source) = deserialize_vec::<State>(source);
        let (outputs, source) = deserialize_vec::<Output<V>>(source);
        proof {
            assert(source@.take(1) =~= a.match_kind.ser());
        }
        let (match_kind, source) = MatchKind::deserialize_from_slice(source);
        proof {
            assert(source@ =~= t3);
            assert(source@.take(4) =~= a.num_states.ser());
        }
        let (num_states, source) = u32::deserialize_from_slice(source);
        proof {
            assert(source@ =~= rest);
        }
        let core = CharwiseDoubleArrayAhoCorasick::from_parts(
            states,
            CodeMapper::identity(),
            outputs,
            match_kind,
            num_states,
        );
        let r = DoubleArrayAhoCorasick { core };
        proof {
            assert(r@ == a);
        }
        (r, source)
    }
}

} // verus!
