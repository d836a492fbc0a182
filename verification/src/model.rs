//! What a set of patterns means: which words are states of its trie, where the
//! failure links lead, and which patterns end at a given place of a text.
//!
//! Everything here is stated over sequences of characters, without reference to
//! how an automaton stores its states.
use crate::errors::DaachorseError;
use crate::MatchKind;
use vstd::prelude::*;

verus! {

/// A word: a sequence of characters.
pub type Word = Seq<char>;

/// What the symbols of a text are, and with them the unit in which places in
/// the text are counted, which is always the byte.
pub enum Unit {
    /// The symbols are the characters of a text in UTF-8. A character takes as
    /// many bytes as its UTF-8 form has.
    Chars,
    /// The symbols are the bytes of a text. Each byte stands in a word as the
    /// character with its number, and takes one byte.
    Bytes,
}

/// The number of bytes that a word takes.
pub open spec fn size_in(unit: Unit, w: Word) -> nat {
    match unit {
        Unit::Chars => byte_len(w),
        Unit::Bytes => w.len(),
    }
}

/// The word that stands for a sequence of bytes: each byte as the character
/// with its number.
pub open spec fn word_of_bytes(b: Seq<u8>) -> Word {
    Seq::new(b.len(), |i: int| b[i] as char)
}

/// A set of patterns, each with a value, the kind of matching asked for, and
/// what the symbols of the patterns are.
pub struct PatternSet<V> {
    pub pats: Seq<Word>,
    pub vals: Seq<V>,
    pub kind: MatchKind,
    pub unit: Unit,
}

/// The number of bytes that a word takes in UTF-8.
pub open spec fn byte_len(w: Word) -> nat {
    vstd::utf8::encode_utf8(w).len()
}

/// `a` is a prefix of `b` and shorter than `b`.
pub open spec fn proper_prefix(a: Word, b: Word) -> bool {
    a.len() < b.len() && a.is_prefix_of(b)
}

impl<V> PatternSet<V> {
    /// Pattern `i` takes part in the matching. Under the leftmost-first kind a pattern
    /// that extends an earlier one can never be reported and is left out; under the
    /// other kinds every pattern takes part.
    pub open spec fn kept(self, i: int) -> bool {
        &&& 0 <= i < self.pats.len()
        &&& self.kind == MatchKind::LeftmostFirst ==> forall|j: int|
            0 <= j < i ==> !proper_prefix(#[trigger] self.pats[j], self.pats[i])
    }

    /// The set is not empty, no pattern is empty, every pattern has a value, and no
    /// two patterns that take part are equal.
    pub open spec fn valid(self) -> bool {
        &&& self.pats.len() > 0
        &&& self.vals.len() == self.pats.len()
        &&& forall|i: int| 0 <= i < self.pats.len() ==> (#[trigger] self.pats[i]).len() > 0
        &&& forall|i: int, j: int|
            #![trigger self.kept(i), self.kept(j)]
            self.kept(i) && self.kept(j) && i != j ==> self.pats[i] != self.pats[j]
    }

    /// `w` is a state of the trie: a prefix of a pattern that takes part.
    pub open spec fn is_node(self, w: Word) -> bool {
        exists|i: int| #[trigger] self.kept(i) && w.is_prefix_of(self.pats[i])
    }

    /// `w` is a pattern that takes part.
    pub open spec fn is_pattern(self, w: Word) -> bool {
        exists|i: int| #[trigger] self.kept(i) && self.pats[i] == w
    }

    /// The position of `w` among the patterns, when `w` is a pattern that takes part.
    pub open spec fn pattern_index(self, w: Word) -> int {
        choose|i: int| #[trigger] self.kept(i) && self.pats[i] == w
    }

    /// The longest suffix of `u` that is a state of the trie (the empty word at least).
    pub open spec fn longest_node_suffix(self, u: Word) -> Word
        decreases u.len(),
    {
        if self.is_node(u) || u.len() == 0 {
            u
        } else {
            self.longest_node_suffix(u.drop_first())
        }
    }

    /// Where the failure link of the state `w` leads under the standard kind: to the
    /// longest proper suffix of `w` that is a state.
    pub open spec fn fail_of(self, w: Word) -> Word {
        self.longest_node_suffix(w.drop_first())
    }

    /// The state reached from state `w` on reading `c`.
    pub open spec fn step(self, w: Word, c: char) -> Word {
        self.longest_node_suffix(w.push(c))
    }

    /// Under the leftmost kinds: the failure link of the state `w` leads to the dead
    /// state, which ends a scan. That is so when `w` is a pattern, when the link of
    /// its parent is dead, and when the walk that looks for the link of `w` along the
    /// links of its parent comes to a state whose own link is dead.
    pub open spec fn leftmost_dead(self, w: Word) -> bool
        decreases w.len(), 1nat,
    {
        if w.len() == 0 {
            false
        } else if self.is_pattern(w) {
            true
        } else if w.len() == 1 {
            false
        } else {
            let f = self.fail_of(w.drop_last());
            self.leftmost_dead(w.drop_last()) || (f.len() < w.len() && self.leftmost_walk_dead(
                f,
                w.last(),
            ))
        }
    }

    /// Under the leftmost kinds: looking from the state `v` for a state with a child
    /// on `c`, along the failure links, comes to a dead link before it finds one.
    pub open spec fn leftmost_walk_dead(self, v: Word, c: char) -> bool
        decreases v.len(), 2nat,
    {
        if self.is_node(v.push(c)) || v.len() == 0 {
            false
        } else {
            let f = self.fail_of(v);
            self.leftmost_dead(v) || (f.len() < v.len() && self.leftmost_walk_dead(f, c))
        }
    }

    /// Under the leftmost kinds: the state reached from state `w` on reading `c`.
    /// It is the root when the walk along the failure links comes to the dead state.
    pub open spec fn leftmost_step(self, w: Word, c: char) -> Word
        decreases w.len(),
    {
        if self.is_node(w.push(c)) {
            w.push(c)
        } else if w.len() == 0 || self.leftmost_dead(w) {
            Seq::<char>::empty()
        } else {
            let f = self.fail_of(w);
            if f.len() < w.len() {
                self.leftmost_step(f, c)
            } else {
                Seq::<char>::empty()
            }
        }
    }

    /// Where the failure link of the state `w` leads: `None` stands for the dead
    /// state, which only the leftmost kinds have.
    pub open spec fn fail_target(self, w: Word) -> Option<Word> {
        if self.kind != MatchKind::Standard && self.leftmost_dead(w) {
            None
        } else {
            Some(self.fail_of(w))
        }
    }

    /// Under the leftmost kinds: the pattern that a scan remembers when it comes to
    /// the state `w`, if there is one. It is `w` itself when `w` is a pattern, and
    /// else what the state behind the failure link of `w` gives.
    pub open spec fn leftmost_output(self, w: Word) -> Option<int>
        decreases w.len(),
    {
        if w.len() == 0 {
            None
        } else if self.is_pattern(w) {
            Some(self.pattern_index(w))
        } else if self.leftmost_dead(w) {
            None
        } else {
            let f = self.fail_of(w);
            if f.len() < w.len() {
                self.leftmost_output(f)
            } else {
                None
            }
        }
    }

    /// The patterns that the automaton reports on reaching the state `w`, in order.
    pub open spec fn output_list(self, w: Word) -> Seq<int> {
        if self.kind == MatchKind::Standard {
            self.suffix_patterns(w)
        } else {
            match self.leftmost_output(w) {
                Some(i) => seq![i],
                None => seq![],
            }
        }
    }

    /// The patterns that are suffixes of `w`, by position, the longest first.
    pub open spec fn suffix_patterns(self, w: Word) -> Seq<int>
        decreases w.len(),
    {
        if w.len() == 0 {
            seq![]
        } else if self.is_pattern(w) {
            seq![self.pattern_index(w)] + self.suffix_patterns(w.drop_first())
        } else {
            self.suffix_patterns(w.drop_first())
        }
    }
}

/// A suffix of a suffix is a suffix.
pub proof fn lemma_suffix_trans(a: Word, b: Word, c: Word)
    requires
        a.is_suffix_of(b),
        b.is_suffix_of(c),
    ensures
        a.is_suffix_of(c),
{
    let off_b = c.len() - b.len();
    let off_a = b.len() - a.len();
    assert(a =~= c.subrange(c.len() - a.len(), c.len() as int)) by {
        assert forall|k: int| 0 <= k < a.len() implies a[k] == c[c.len() - a.len() + k] by {
            assert(a[k] == b.subrange(off_a, b.len() as int)[k]);
            assert(b[off_a + k] == c.subrange(off_b, c.len() as int)[off_a + k]);
        }
    }
}

/// Of two suffixes of one word the shorter is a suffix of the longer.
pub proof fn lemma_suffix_total(a: Word, b: Word, c: Word)
    requires
        a.is_suffix_of(c),
        b.is_suffix_of(c),
        a.len() <= b.len(),
    ensures
        a.is_suffix_of(b),
{
    assert(a =~= b.subrange(b.len() - a.len(), b.len() as int)) by {
        assert forall|k: int| 0 <= k < a.len() implies a[k] == b[b.len() - a.len() + k] by {
            assert(a[k] == c.subrange(c.len() - a.len(), c.len() as int)[k]);
            assert(b[b.len() - a.len() + k] == c.subrange(c.len() - b.len(), c.len() as int)[b.len()
                - a.len() + k]);
        }
    }
}

/// Appending one character to a word and to a suffix of it keeps the suffix.
pub proof fn lemma_suffix_push(a: Word, b: Word, c: char)
    requires
        a.is_suffix_of(b),
    ensures
        a.push(c).is_suffix_of(b.push(c)),
{
    let ap = a.push(c);
    let bp = b.push(c);
    assert(ap =~= bp.subrange(bp.len() - ap.len(), bp.len() as int)) by {
        assert forall|k: int| 0 <= k < ap.len() implies ap[k] == bp[bp.len() - ap.len() + k] by {
            if k < a.len() {
                assert(a[k] == b.subrange(b.len() - a.len(), b.len() as int)[k]);
            }
        }
    }
}

/// A non-empty suffix of `b.push(c)` ends in `c`, and the rest of it is a suffix of `b`.
pub proof fn lemma_suffix_pop(a: Word, b: Word, c: char)
    requires
        a.is_suffix_of(b.push(c)),
        a.len() > 0,
    ensures
        a.last() == c,
        a.drop_last().is_suffix_of(b),
        a == a.drop_last().push(c),
{
    let bp = b.push(c);
    let al = a.drop_last();
    assert(a[a.len() - 1] == bp.subrange(bp.len() - a.len(), bp.len() as int)[a.len() - 1]);
    assert(al =~= b.subrange(b.len() - al.len(), b.len() as int)) by {
        assert forall|k: int| 0 <= k < al.len() implies al[k] == b[b.len() - al.len() + k] by {
            assert(a[k] == bp.subrange(bp.len() - a.len(), bp.len() as int)[k]);
        }
    }
    assert(a =~= al.push(c));
}

/// A word without its first character is a suffix of the word, and every shorter
/// suffix of the word is a suffix of it too.
pub proof fn lemma_suffix_drop_first(a: Word, b: Word)
    requires
        b.len() > 0,
    ensures
        b.drop_first().is_suffix_of(b),
        a.is_suffix_of(b) && a.len() < b.len() ==> a.is_suffix_of(b.drop_first()),
{
    let d = b.drop_first();
    assert(d =~= b.subrange(b.len() - d.len(), b.len() as int));
    if a.is_suffix_of(b) && a.len() < b.len() {
        lemma_suffix_total(a, d, b);
    }
}

/// Every word is a suffix of itself, and the empty word is a suffix of every word.
pub proof fn lemma_suffix_refl(a: Word)
    ensures
        a.is_suffix_of(a),
        Seq::<char>::empty().is_suffix_of(a),
{
    assert(a =~= a.subrange(0, a.len() as int));
    assert(Seq::<char>::empty() =~= a.subrange(a.len() as int, a.len() as int));
}

/// Two suffixes of one word that have the same length are equal.
pub proof fn lemma_suffix_same_len(a: Word, b: Word, c: Word)
    requires
        a.is_suffix_of(c),
        b.is_suffix_of(c),
        a.len() == b.len(),
    ensures
        a == b,
{
    assert(a =~= b);
}

/// A sequence without repetition whose items all occur in `b` is no longer than `b`.
pub proof fn lemma_injection_len<A>(a: Seq<A>, b: Seq<A>)
    requires
        a.no_duplicates(),
        forall|i: int| 0 <= i < a.len() ==> b.contains(#[trigger] a[i]),
    ensures
        a.len() <= b.len(),
{
    a.unique_seq_to_set();
    b.lemma_cardinality_of_set();
    vstd::seq_lib::seq_to_set_is_finite(b);
    assert(a.to_set().subset_of(b.to_set())) by {
        assert forall|x: A| a.to_set().contains(x) implies b.to_set().contains(x) by {
            let i = choose|i: int| 0 <= i < a.len() && a[i] == x;
            assert(b.contains(a[i]));
        }
    }
    vstd::set_lib::lemma_len_subset(a.to_set(), b.to_set());
}

/// A prefix of a prefix is a prefix.
pub proof fn lemma_prefix_trans(a: Word, b: Word, c: Word)
    requires
        a.is_prefix_of(b),
        b.is_prefix_of(c),
    ensures
        a.is_prefix_of(c),
{
    assert(a =~= c.subrange(0, a.len() as int)) by {
        assert forall|k: int| 0 <= k < a.len() implies a[k] == c[k] by {
            assert(a[k] == b.subrange(0, a.len() as int)[k]);
            assert(b[k] == c.subrange(0, b.len() as int)[k]);
        }
    }
}

/// The first `k` characters of a word are a prefix of it.
pub proof fn lemma_take_prefix(w: Word, k: int)
    requires
        0 <= k <= w.len(),
    ensures
        w.take(k).is_prefix_of(w),
{
    assert(w.take(k) =~= w.subrange(0, w.take(k).len() as int));
}

/// A prefix of a word is the word cut to the length of the prefix.
pub proof fn lemma_prefix_is_take(a: Word, w: Word)
    requires
        a.is_prefix_of(w),
    ensures
        a == w.take(a.len() as int),
{
}

impl<V> PatternSet<V> {
    /// The set with one more pattern at the end.
    pub open spec fn push(self, p: Word, v: V) -> PatternSet<V> {
        PatternSet {
            pats: self.pats.push(p),
            vals: self.vals.push(v),
            kind: self.kind,
            unit: self.unit,
        }
    }

    /// The first `m` patterns of the set.
    pub open spec fn take(self, m: int) -> PatternSet<V> {
        PatternSet {
            pats: self.pats.take(m),
            vals: self.vals.take(m),
            kind: self.kind,
            unit: self.unit,
        }
    }

    /// Whether one of the first patterns takes part does not depend on the patterns behind them.
    pub proof fn lemma_take_kept(self, m: int, i: int)
        requires
            0 <= i < m <= self.pats.len(),
        ensures
            self.take(m).kept(i) <==> self.kept(i),
            self.take(m).pats[i] == self.pats[i],
    {
        let e = self.take(m);
        if self.kind == MatchKind::LeftmostFirst {
            if self.kept(i) {
                assert forall|j: int| 0 <= j < i implies !proper_prefix(
                    #[trigger] e.pats[j],
                    e.pats[i],
                ) by {
                    assert(e.pats[j] == self.pats[j]);
                }
            }
            if e.kept(i) {
                assert forall|j: int| 0 <= j < i implies !proper_prefix(
                    #[trigger] self.pats[j],
                    self.pats[i],
                ) by {
                    assert(e.pats[j] == self.pats[j]);
                }
            }
        }
    }

    /// Two patterns that take part are equal: the set is not valid.
    pub open spec fn has_duplicate(self) -> bool {
        exists|i: int, j: int|
            #![trigger self.kept(i), self.kept(j)]
            self.kept(i) && self.kept(j) && i != j && self.pats[i] == self.pats[j]
    }

    /// A pattern is empty: the set is not valid.
    pub open spec fn has_empty(self) -> bool {
        exists|i: int| 0 <= i < self.pats.len() && (#[trigger] self.pats[i]).len() == 0
    }

    /// The trie has no more than `n` states.
    pub open spec fn at_most_nodes(self, n: nat) -> bool {
        forall|ns: Seq<Word>|
            #![trigger ns.no_duplicates()]
            ns.no_duplicates() && (forall|i: int| 0 <= i < ns.len() ==> self.is_node(#[trigger] ns[i]))
                ==> ns.len() <= n
    }

    /// The character `c` occurs in a pattern that takes part.
    pub open spec fn occurs(self, c: char) -> bool {
        exists|w: Word| self.is_node(#[trigger] w.push(c))
    }

    /// No more than `n` different characters occur in the patterns that take part.
    pub open spec fn at_most_chars(self, n: nat) -> bool {
        forall|cs: Seq<char>|
            #![trigger cs.no_duplicates()]
            cs.no_duplicates() && (forall|i: int| 0 <= i < cs.len() ==> self.occurs(#[trigger] cs[i]))
                ==> cs.len() <= n
    }

    /// The pattern set is small enough for an automaton to be built from it for
    /// certain: no pattern takes more than `u32::MAX` bytes, and the trie is small.
    /// Where the symbols are characters, the number of states of the trie times the
    /// number of different characters is no more than 2^29. Where they are bytes,
    /// the trie has no more than 2^22 states.
    pub open spec fn within_scale(self) -> bool {
        &&& forall|i: int| 0 <= i < self.pats.len() ==> self.size(#[trigger] self.pats[i]) <= u32::MAX
        &&& self.unit == Unit::Chars ==> exists|n: nat, a: nat|
            #![trigger self.at_most_nodes(n), self.at_most_chars(a)]
            self.at_most_nodes(n) && self.at_most_chars(a) && a >= 1 && n * a <= 0x2000_0000
        &&& self.unit == Unit::Bytes ==> self.at_most_nodes(0x40_0000)
    }

    /// Every symbol of every pattern is a byte: a character with a number below 256.
    pub open spec fn bytes_only(self) -> bool {
        forall|i: int, j: int|
            0 <= i < self.pats.len() && 0 <= j < self.pats[i].len() ==> (
            #[trigger] self.pats[i][j]) as u32 <= 0xff
    }

    /// A state of the first patterns of a set is a state of the set.
    pub proof fn lemma_take_node(self, m: int, w: Word)
        requires
            0 <= m <= self.pats.len(),
            self.take(m).is_node(w),
        ensures
            self.is_node(w),
    {
        let e = self.take(m);
        let i = choose|i: int| #[trigger] e.kept(i) && w.is_prefix_of(e.pats[i]);
        self.lemma_take_kept(m, i);
        assert(self.kept(i) && w.is_prefix_of(self.pats[i]));
    }

    /// The first patterns of a set within scale do not make a trie of more than
    /// 2^29 states.
    pub proof fn lemma_take_scale(self, m: int, other: PatternSet<V>, limit: nat)
        requires
            0 <= m <= self.pats.len(),
            self.within_scale(),
            other.pats == self.take(m).pats,
            other.kind == self.kind,
            limit >= 0x2000_0000,
        ensures
            other.at_most_nodes(limit),
    {
        let n = if self.unit == Unit::Chars {
            let (n, a) = choose|n: nat, a: nat|
                #![trigger self.at_most_nodes(n), self.at_most_chars(a)]
                self.at_most_nodes(n) && self.at_most_chars(a) && a >= 1 && n * a <= 0x2000_0000;
            assert(n <= n * a) by (nonlinear_arith)
                requires
                    a >= 1,
                    n >= 0,
            ;
            n
        } else {
            0x40_0000nat
        };
        assert(self.at_most_nodes(n) && n <= limit);
        assert forall|ns: Seq<Word>|
            #![trigger ns.no_duplicates()]
            ns.no_duplicates() && (forall|i: int| 0 <= i < ns.len() ==> other.is_node(
                #[trigger] ns[i],
            )) implies ns.len() <= limit by {
            assert forall|i: int| 0 <= i < ns.len() implies self.is_node(#[trigger] ns[i]) by {
                assert(other.is_node(ns[i]));
                let j = choose|j: int| #[trigger] other.kept(j) && ns[i].is_prefix_of(other.pats[j]);
                assert(self.take(m).kept(j)) by {
                    assert(other.kept(j));
                }
                assert(self.take(m).is_node(ns[i]));
                self.lemma_take_node(m, ns[i]);
            }
        }
    }

    /// A valid set has no empty pattern and no pattern twice.
    pub proof fn lemma_valid(self)
        requires
            self.valid(),
        ensures
            self.pats.len() > 0,
            !self.has_empty(),
            !self.has_duplicate(),
    {
    }

    /// What is wrong with adding the pattern `p` to the set, if anything is. An
    /// empty pattern is an invalid argument, and a pattern of more than `u32::MAX`
    /// bytes exceeds the scale. A pattern that takes no part is accepted. One that
    /// takes part is a duplicate if it is in the set already, and exceeds the scale
    /// if the trie gets more states with it than can be addressed.
    pub open spec fn push_fault(self, p: Word, v: V) -> Option<DaachorseError> {
        if p.len() == 0 {
            Some(DaachorseError::InvalidArgument)
        } else if self.size(p) > u32::MAX {
            Some(DaachorseError::AutomatonScale)
        } else if !self.push(p, v).kept(self.pats.len() as int) {
            None
        } else if self.is_pattern(p) {
            Some(DaachorseError::DuplicatePattern)
        } else if !self.push(p, v).at_most_nodes(crate::charwise::MAX_STATES as nat) {
            Some(DaachorseError::AutomatonScale)
        } else {
            None
        }
    }

    /// What is wrong with pattern `k` of the set, given the patterns before it.
    pub open spec fn fault_at(self, k: int) -> Option<DaachorseError> {
        self.take(k).push_fault(self.pats[k], self.vals[k])
    }

    /// Nothing is wrong with the first `k` patterns of the set.
    pub open spec fn no_fault_before(self, k: int) -> bool {
        forall|j: int| 0 <= j < k ==> #[trigger] self.fault_at(j) is None
    }

    /// The set without patterns.
    pub open spec fn empty(kind: MatchKind, unit: Unit) -> PatternSet<V> {
        PatternSet { pats: Seq::empty(), vals: Seq::empty(), kind, unit }
    }

    /// The number of bytes that a word takes in a text with the symbols of this set.
    pub open spec fn size(self, w: Word) -> nat {
        size_in(self.unit, w)
    }

    /// What `valid` asks of a set, but that it is not empty.
    pub open spec fn consistent(self) -> bool {
        &&& self.vals.len() == self.pats.len()
        &&& forall|i: int| 0 <= i < self.pats.len() ==> (#[trigger] self.pats[i]).len() > 0
        &&& forall|i: int, j: int|
            #![trigger self.kept(i), self.kept(j)]
            self.kept(i) && self.kept(j) && i != j ==> self.pats[i] != self.pats[j]
    }

    /// Whether a pattern takes part depends on the patterns before it only.
    pub proof fn lemma_push_kept(self, p: Word, v: V, i: int)
        ensures
            0 <= i < self.pats.len() ==> (self.push(p, v).kept(i) <==> self.kept(i)),
            self.push(p, v).pats.len() == self.pats.len() + 1,
            0 <= i < self.pats.len() ==> self.push(p, v).pats[i] == self.pats[i],
            self.push(p, v).pats[self.pats.len() as int] == p,
    {
        let e = self.push(p, v);
        if 0 <= i < self.pats.len() {
            if self.kind == MatchKind::LeftmostFirst {
                if self.kept(i) {
                    assert forall|j: int| 0 <= j < i implies !proper_prefix(
                        #[trigger] e.pats[j],
                        e.pats[i],
                    ) by {
                        assert(e.pats[j] == self.pats[j]);
                    }
                }
                if e.kept(i) {
                    assert forall|j: int| 0 <= j < i implies !proper_prefix(
                        #[trigger] self.pats[j],
                        self.pats[i],
                    ) by {
                        assert(e.pats[j] == self.pats[j]);
                    }
                }
            }
        }
    }

    /// The states and patterns of a set to which a pattern that takes part is added.
    pub proof fn lemma_push_node(self, p: Word, v: V, w: Word)
        requires
            self.push(p, v).kept(self.pats.len() as int),
        ensures
            self.push(p, v).is_node(w) <==> self.is_node(w) || w.is_prefix_of(p),
            self.push(p, v).is_pattern(w) <==> self.is_pattern(w) || w == p,
    {
        let e = self.push(p, v);
        let n = self.pats.len() as int;
        if self.is_node(w) {
            let i = choose|i: int| #[trigger] self.kept(i) && w.is_prefix_of(self.pats[i]);
            self.lemma_push_kept(p, v, i);
            assert(e.kept(i) && w.is_prefix_of(e.pats[i]));
        }
        if w.is_prefix_of(p) {
            assert(e.kept(n) && w.is_prefix_of(e.pats[n]));
        }
        if e.is_node(w) {
            let i = choose|i: int| #[trigger] e.kept(i) && w.is_prefix_of(e.pats[i]);
            self.lemma_push_kept(p, v, i);
            if i < n {
                assert(self.kept(i) && w.is_prefix_of(self.pats[i]));
            }
        }
        if self.is_pattern(w) {
            let i = choose|i: int| #[trigger] self.kept(i) && self.pats[i] == w;
            self.lemma_push_kept(p, v, i);
            assert(e.kept(i) && e.pats[i] == w);
        }
        if w == p {
            assert(e.kept(n) && e.pats[n] == w);
        }
        if e.is_pattern(w) {
            let i = choose|i: int| #[trigger] e.kept(i) && e.pats[i] == w;
            self.lemma_push_kept(p, v, i);
            if i < n {
                assert(self.kept(i) && self.pats[i] == w);
            }
        }
    }

    /// The states and patterns of a set to which a pattern that takes no part is added.
    pub proof fn lemma_push_dropped(self, p: Word, v: V, w: Word)
        requires
            !self.push(p, v).kept(self.pats.len() as int),
        ensures
            self.push(p, v).is_node(w) <==> self.is_node(w),
            self.push(p, v).is_pattern(w) <==> self.is_pattern(w),
    {
        let e = self.push(p, v);
        let n = self.pats.len() as int;
        if self.is_node(w) {
            let i = choose|i: int| #[trigger] self.kept(i) && w.is_prefix_of(self.pats[i]);
            self.lemma_push_kept(p, v, i);
            assert(e.kept(i) && w.is_prefix_of(e.pats[i]));
        }
        if e.is_node(w) {
            let i = choose|i: int| #[trigger] e.kept(i) && w.is_prefix_of(e.pats[i]);
            self.lemma_push_kept(p, v, i);
            assert(self.kept(i) && w.is_prefix_of(self.pats[i]));
        }
        if self.is_pattern(w) {
            let i = choose|i: int| #[trigger] self.kept(i) && self.pats[i] == w;
            self.lemma_push_kept(p, v, i);
            assert(e.kept(i) && e.pats[i] == w);
        }
        if e.is_pattern(w) {
            let i = choose|i: int| #[trigger] e.kept(i) && e.pats[i] == w;
            self.lemma_push_kept(p, v, i);
            assert(self.kept(i) && self.pats[i] == w);
        }
    }

    /// When an earlier pattern is a proper prefix of `p`, so is an earlier pattern
    /// that takes part.
    pub proof fn lemma_kept_prefix(self, j: int, p: Word)
        requires
            0 <= j < self.pats.len(),
            proper_prefix(self.pats[j], p),
        ensures
            exists|i: int| #[trigger] self.kept(i) && i <= j && proper_prefix(self.pats[i], p),
        decreases j,
    {
        if self.kept(j) {
        } else {
            let j2 = choose|j2: int| 0 <= j2 < j && proper_prefix(#[trigger] self.pats[j2], self.pats[j]);
            lemma_prefix_trans(self.pats[j2], self.pats[j], p);
            self.lemma_kept_prefix(j2, p);
        }
    }

    /// The failure link of a child: what reading the character of the child from
    /// the state behind the failure link of its parent gives.
    pub proof fn lemma_fail_child(self, w: Word, c: char)
        requires
            self.pats.len() > 0,
        ensures
            w.len() == 0 ==> self.fail_of(w.push(c)) == Seq::<char>::empty(),
            w.len() > 0 ==> self.fail_of(w.push(c)) == self.step(self.fail_of(w), c),
    {
        if w.len() == 0 {
            assert(w.push(c).drop_first() =~= Seq::<char>::empty());
            assert(self.longest_node_suffix(Seq::<char>::empty()) == Seq::<char>::empty());
        } else {
            assert(w.push(c).drop_first() =~= w.drop_first().push(c));
            self.lemma_step(w.drop_first(), c);
        }
    }

    /// The failure link of a state leads to a shorter state.
    pub proof fn lemma_fail_shorter(self, w: Word)
        requires
            self.pats.len() > 0,
            w.len() > 0,
        ensures
            self.fail_of(w).len() < w.len(),
            self.is_node(self.fail_of(w)),
            self.fail_of(w).is_suffix_of(w),
    {
        self.lemma_longest_node_suffix(w.drop_first());
        lemma_suffix_drop_first(self.fail_of(w), w);
        lemma_suffix_trans(self.fail_of(w), w.drop_first(), w);
    }

    /// A prefix of a state is a state.
    pub proof fn lemma_node_prefix(self, w: Word, k: int)
        requires
            self.is_node(w),
            0 <= k <= w.len(),
        ensures
            self.is_node(w.take(k)),
    {
        let i = choose|i: int| #[trigger] self.kept(i) && w.is_prefix_of(self.pats[i]);
        let p = self.pats[i];
        assert(w.take(k) =~= p.subrange(0, k)) by {
            assert forall|j: int| 0 <= j < k implies w.take(k)[j] == p[j] by {
                assert(w[j] == p.subrange(0, w.len() as int)[j]);
            }
        }
        assert(self.kept(i) && w.take(k).is_prefix_of(p));
    }

    /// The state that `w.push(c)` names has the state `w` as its parent.
    pub proof fn lemma_node_parent(self, w: Word, c: char)
        requires
            self.is_node(w.push(c)),
        ensures
            self.is_node(w),
    {
        self.lemma_node_prefix(w.push(c), w.len() as int);
        assert(w.push(c).take(w.len() as int) =~= w);
    }

    /// When a pattern takes part, the empty word is a state.
    pub proof fn lemma_root_is_node(self)
        requires
            self.pats.len() > 0,
        ensures
            self.is_node(Seq::<char>::empty()),
    {
        assert(self.kept(0));
        assert(Seq::<char>::empty() =~= self.pats[0].subrange(0, 0));
        assert(Seq::<char>::empty().is_prefix_of(self.pats[0]));
    }

    /// A pattern that takes part is a state.
    pub proof fn lemma_pattern_is_node(self, w: Word)
        requires
            self.is_pattern(w),
        ensures
            self.is_node(w),
    {
        let i = choose|i: int| #[trigger] self.kept(i) && self.pats[i] == w;
        assert(w =~= self.pats[i].subrange(0, w.len() as int));
        assert(self.kept(i) && w.is_prefix_of(self.pats[i]));
    }

    /// The longest state suffix of `u` is a suffix of `u` and a state, and no state
    /// that is a suffix of `u` is longer.
    pub proof fn lemma_longest_node_suffix(self, u: Word)
        requires
            self.pats.len() > 0,
        ensures
            self.longest_node_suffix(u).is_suffix_of(u),
            self.is_node(self.longest_node_suffix(u)),
            forall|v: Word|
                v.is_suffix_of(u) && self.is_node(v) ==> #[trigger] v.is_suffix_of(
                    self.longest_node_suffix(u),
                ),
        decreases u.len(),
    {
        let r = self.longest_node_suffix(u);
        lemma_suffix_refl(u);
        if self.is_node(u) {
        } else if u.len() == 0 {
            self.lemma_root_is_node();
            assert(u =~= Seq::<char>::empty());
        } else {
            let d = u.drop_first();
            self.lemma_longest_node_suffix(d);
            lemma_suffix_drop_first(r, u);
            lemma_suffix_trans(r, d, u);
            assert forall|v: Word| v.is_suffix_of(u) && self.is_node(v) implies #[trigger] v.is_suffix_of(
                r,
            ) by {
                if v.len() == u.len() {
                    lemma_suffix_same_len(v, u, u);
                }
                lemma_suffix_drop_first(v, u);
            }
        }
    }

    /// Reading `c` from the longest state suffix of `u` leads where reading it after
    /// all of `u` leads: the automaton needs to remember no more than its state.
    pub proof fn lemma_step(self, u: Word, c: char)
        requires
            self.pats.len() > 0,
        ensures
            self.step(self.longest_node_suffix(u), c) == self.longest_node_suffix(u.push(c)),
    {
        let s = self.longest_node_suffix(u);
        let x = self.longest_node_suffix(u.push(c));
        let z = self.longest_node_suffix(s.push(c));
        self.lemma_longest_node_suffix(u);
        self.lemma_longest_node_suffix(u.push(c));
        self.lemma_longest_node_suffix(s.push(c));
        lemma_suffix_push(s, u, c);
        // z is a state and a suffix of u.push(c), so it is a suffix of x
        lemma_suffix_trans(z, s.push(c), u.push(c));
        assert(z.is_suffix_of(x));
        // x is a suffix of s.push(c), so it is a suffix of z
        if x.len() == 0 {
            lemma_suffix_refl(s.push(c));
            assert(x =~= Seq::<char>::empty());
        } else {
            lemma_suffix_pop(x, u, c);
            let y = x.drop_last();
            self.lemma_node_parent(y, c);
            assert(y.is_suffix_of(s));
            lemma_suffix_push(y, s, c);
        }
        assert(x.is_suffix_of(z));
        lemma_suffix_same_len(x, z, u.push(c));
    }

    /// Reading `c` from a state `w`: the child `w.push(c)` where it exists, else what
    /// reading `c` from the failure link of `w` gives, else the root.
    pub proof fn lemma_step_unfold(self, w: Word, c: char)
        requires
            self.pats.len() > 0,
        ensures
            self.is_node(w.push(c)) ==> self.step(w, c) == w.push(c),
            !self.is_node(w.push(c)) && w.len() == 0 ==> self.step(w, c) == w,
            !self.is_node(w.push(c)) && w.len() > 0 ==> self.step(w, c) == self.step(
                self.fail_of(w),
                c,
            ),
    {
        let wc = w.push(c);
        if !self.is_node(wc) {
            assert(wc.drop_first() =~= if w.len() == 0 {
                w
            } else {
                w.drop_first().push(c)
            });
            if w.len() == 0 {
                assert(w =~= Seq::<char>::empty());
                assert(self.longest_node_suffix(w) == w);
            } else {
                self.lemma_step(w.drop_first(), c);
            }
        }
    }
}

/// What an occurrence is reported as: its end and length in bytes, and the value of the pattern.
pub use crate::MatchView;

/// The UTF-8 form of two words put together is their UTF-8 forms put together.
pub proof fn lemma_encode_concat(a: Word, b: Word)
    ensures
        vstd::utf8::encode_utf8(a + b) == vstd::utf8::encode_utf8(a) + vstd::utf8::encode_utf8(b),
    decreases a.len(),
{
    if a.len() == 0 {
        assert(a + b =~= b);
        assert(vstd::utf8::encode_utf8(a) + vstd::utf8::encode_utf8(b) =~= vstd::utf8::encode_utf8(
            b,
        ));
    } else {
        lemma_encode_concat(a.drop_first(), b);
        assert((a + b).drop_first() =~= a.drop_first() + b);
        assert((a + b)[0] == a[0]);
        assert(vstd::utf8::encode_utf8(a + b) =~= vstd::utf8::encode_utf8(a)
            + vstd::utf8::encode_utf8(b));
    }
}

/// The byte length of two words put together is the sum of their byte lengths.
pub proof fn lemma_byte_len_concat(a: Word, b: Word)
    ensures
        byte_len(a + b) == byte_len(a) + byte_len(b),
{
    lemma_encode_concat(a, b);
}

/// A character takes between one and four bytes.
pub proof fn lemma_byte_len_char(c: char)
    ensures
        1 <= byte_len(seq![c]) <= 4,
        byte_len(seq![c]) == vstd::utf8::encode_scalar(c as u32).len(),
{
    let s = seq![c];
    assert(s.drop_first() =~= Seq::<char>::empty());
    assert(vstd::utf8::encode_utf8(s.drop_first()) =~= Seq::<u8>::empty()) by {
        reveal_with_fuel(vstd::utf8::encode_utf8, 1);
    }
    assert(vstd::utf8::encode_utf8(s) =~= vstd::utf8::encode_scalar(c as u32)) by {
        reveal_with_fuel(vstd::utf8::encode_utf8, 2);
    }
}

/// A word takes at least as many bytes as it has characters.
pub proof fn lemma_byte_len_lower(w: Word)
    ensures
        byte_len(w) >= w.len(),
    decreases w.len(),
{
    if w.len() > 0 {
        lemma_byte_len_lower(w.drop_first());
        lemma_byte_len_char(w[0]);
        lemma_byte_len_concat(seq![w[0]], w.drop_first());
        assert(seq![w[0]] + w.drop_first() =~= w);
    }
}

/// A suffix of a word takes no more bytes than the word, and the bytes before it
/// are those of the rest of the word.
pub proof fn lemma_byte_len_suffix(v: Word, u: Word)
    requires
        v.is_suffix_of(u),
    ensures
        byte_len(u) == byte_len(u.take(u.len() - v.len())) + byte_len(v),
{
    let k = u.len() - v.len();
    assert(u =~= u.take(k) + v);
    lemma_byte_len_concat(u.take(k), v);
}

/// A suffix of a word takes no more bytes than the word, and the bytes before it
/// are those of the rest of the word.
pub proof fn lemma_size_suffix(unit: Unit, v: Word, u: Word)
    requires
        v.is_suffix_of(u),
    ensures
        size_in(unit, u) == size_in(unit, u.take(u.len() - v.len())) + size_in(unit, v),
{
    lemma_byte_len_suffix(v, u);
}

impl<V> PatternSet<V> {
    /// The occurrence of pattern `i` that ends where the text `u` ends.
    pub open spec fn match_at(self, i: int, u: Word) -> MatchView<V> {
        MatchView { length: self.size(self.pats[i]), end: self.size(u), value: self.vals[i] }
    }

    /// The occurrences of the patterns in `list` that end where the text `u` ends.
    pub open spec fn matches_of(self, list: Seq<int>, u: Word) -> Seq<MatchView<V>> {
        Seq::new(list.len(), |k: int| self.match_at(list[k], u))
    }

    /// Every pattern that ends where the text `u` ends, the longest first.
    pub open spec fn matches_at(self, u: Word) -> Seq<MatchView<V>> {
        self.matches_of(self.suffix_patterns(u), u)
    }

    /// The longest pattern that ends where the text `u` ends, if there is one.
    pub open spec fn longest_at(self, u: Word, end: Word) -> Seq<MatchView<V>> {
        if self.suffix_patterns(u).len() > 0 {
            seq![self.match_at(self.suffix_patterns(u)[0], end)]
        } else {
            seq![]
        }
    }

    /// All occurrences that end after the first `k` characters of `h`: by end, and
    /// at one end the longest first.
    pub open spec fn overlapping_from(self, h: Word, k: int) -> Seq<MatchView<V>>
        decreases h.len() - k,
    {
        if k < 0 || k >= h.len() {
            seq![]
        } else {
            self.matches_at(h.take(k + 1)) + self.overlapping_from(h, k + 1)
        }
    }

    /// All occurrences of the patterns in `h`, overlapping or not: by end, and at
    /// one end the longest first.
    pub open spec fn overlapping_matches(self, h: Word) -> Seq<MatchView<V>> {
        self.overlapping_from(h, 0)
    }

    /// For each end after the first `k` characters of `h` at which a pattern ends,
    /// the longest pattern that ends there.
    pub open spec fn no_suffix_from(self, h: Word, k: int) -> Seq<MatchView<V>>
        decreases h.len() - k,
    {
        if k < 0 || k >= h.len() {
            seq![]
        } else {
            self.longest_at(h.take(k + 1), h.take(k + 1)) + self.no_suffix_from(h, k + 1)
        }
    }

    /// For each end in `h` at which a pattern ends, the longest pattern that ends there.
    pub open spec fn overlapping_no_suffix_matches(self, h: Word) -> Seq<MatchView<V>> {
        self.no_suffix_from(h, 0)
    }

    /// The occurrences found without overlap in `h` from character `p` on, when the
    /// first `k` characters have been read: the first end after `k` at which a pattern
    /// that starts at `p` or later ends gives the next occurrence, the longest such
    /// pattern; the search goes on from that end.
    pub open spec fn find_from(self, h: Word, p: int, k: int) -> Seq<MatchView<V>>
        decreases h.len() - k,
    {
        if k < 0 || k >= h.len() || p > k || p < 0 {
            seq![]
        } else if self.suffix_patterns(h.subrange(p, k + 1)).len() > 0 {
            self.longest_at(h.subrange(p, k + 1), h.take(k + 1)) + self.find_from(
                h,
                k + 1,
                k + 1,
            )
        } else {
            self.find_from(h, p, k + 1)
        }
    }

    /// The occurrences found without overlap in `h`, from left to right.
    pub open spec fn find_matches(self, h: Word) -> Seq<MatchView<V>> {
        self.find_from(h, 0, 0)
    }

    /// What a scan under the leftmost kinds remembers at the end of `h`, when it has
    /// read the first `k` characters, stands in the state `w` and remembers `best`:
    /// a pattern and the number of characters read when it ended. The scan ends
    /// where it returns to the root with something to remember; where it returns to
    /// the root with nothing, it goes on from there.
    pub open spec fn leftmost_scan(self, h: Word, k: int, w: Word, best: Option<(int, int)>) -> Option<
        (int, int),
    >
        decreases h.len() - k,
    {
        if k < 0 || k >= h.len() {
            best
        } else {
            let w1 = self.leftmost_step(w, h[k]);
            if w1.len() == 0 {
                if best is Some {
                    best
                } else {
                    self.leftmost_scan(h, k + 1, w1, None)
                }
            } else {
                match self.leftmost_output(w1) {
                    Some(i) => self.leftmost_scan(h, k + 1, w1, Some((i, k + 1))),
                    None => self.leftmost_scan(h, k + 1, w1, best),
                }
            }
        }
    }

    /// The occurrences found under the leftmost kinds in `h` from character `p` on:
    /// what a scan from `p` remembers, and then what is found from its end on.
    pub open spec fn leftmost_from(self, h: Word, p: int) -> Seq<MatchView<V>>
        decreases h.len() - p,
    {
        match self.leftmost_scan(h, p, Seq::<char>::empty(), None) {
            None => seq![],
            Some(b) => if p < b.1 <= h.len() {
                seq![self.match_at(b.0, h.take(b.1))] + self.leftmost_from(h, b.1)
            } else {
                seq![]
            },
        }
    }

    /// The occurrences found under the leftmost kinds in `h`, from left to right.
    pub open spec fn leftmost_matches(self, h: Word) -> Seq<MatchView<V>> {
        self.leftmost_from(h, 0)
    }

    /// Under the leftmost kinds the state reached on reading `c` is a state of the
    /// trie and a suffix of the state before with `c` behind it.
    pub proof fn lemma_leftmost_step(self, w: Word, c: char)
        requires
            self.pats.len() > 0,
        ensures
            self.is_node(self.leftmost_step(w, c)),
            self.leftmost_step(w, c).is_suffix_of(w.push(c)),
        decreases w.len(),
    {
        self.lemma_root_is_node();
        lemma_suffix_refl(w.push(c));
        if self.is_node(w.push(c)) {
        } else if w.len() == 0 || self.leftmost_dead(w) {
        } else {
            let f = self.fail_of(w);
            self.lemma_fail_shorter(w);
            self.lemma_leftmost_step(f, c);
            lemma_suffix_push(f, w, c);
            lemma_suffix_trans(self.leftmost_step(f, c), f.push(c), w.push(c));
        }
    }

    /// The pattern that a scan under the leftmost kinds remembers in the state `w`
    /// takes part and is a suffix of `w`.
    pub proof fn lemma_leftmost_output(self, w: Word)
        requires
            self.valid(),
            self.leftmost_output(w) is Some,
        ensures
            self.kept(self.leftmost_output(w)->0),
            self.pats[self.leftmost_output(w)->0].is_suffix_of(w),
        decreases w.len(),
    {
        if w.len() == 0 {
        } else if self.is_pattern(w) {
            lemma_suffix_refl(w);
        } else {
            let f = self.fail_of(w);
            self.lemma_fail_shorter(w);
            self.lemma_leftmost_output(f);
            lemma_suffix_trans(self.pats[self.leftmost_output(f)->0], f, w);
        }
    }

    /// A pattern takes part under one position only.
    pub proof fn lemma_pattern_index(self, i: int)
        requires
            self.valid(),
            self.kept(i),
        ensures
            self.is_pattern(self.pats[i]),
            self.pattern_index(self.pats[i]) == i,
    {
        let j = self.pattern_index(self.pats[i]);
        assert(self.kept(j) && self.pats[j] == self.pats[i]);
    }

    /// The suffix patterns of `w` are the patterns that take part and are suffixes of `w`.
    pub proof fn lemma_suffix_patterns_sound(self, w: Word, k: int)
        requires
            0 <= k < self.suffix_patterns(w).len(),
        ensures
            self.kept(self.suffix_patterns(w)[k]),
            self.pats[self.suffix_patterns(w)[k]].is_suffix_of(w),
        decreases w.len(),
    {
        if w.len() == 0 {
        } else {
            let d = w.drop_first();
            lemma_suffix_drop_first(d, w);
            if self.is_pattern(w) {
                if k == 0 {
                    lemma_suffix_refl(w);
                } else {
                    self.lemma_suffix_patterns_sound(d, k - 1);
                    lemma_suffix_trans(self.pats[self.suffix_patterns(d)[k - 1]], d, w);
                }
            } else {
                self.lemma_suffix_patterns_sound(d, k);
                lemma_suffix_trans(self.pats[self.suffix_patterns(d)[k]], d, w);
            }
        }
    }

    /// Every pattern that takes part and is a suffix of `w` is among the suffix patterns of `w`.
    pub proof fn lemma_suffix_patterns_complete(self, w: Word, i: int)
        requires
            self.valid(),
            self.kept(i),
            self.pats[i].is_suffix_of(w),
        ensures
            self.suffix_patterns(w).contains(i),
        decreases w.len(),
    {
        let p = self.pats[i];
        assert(p.len() > 0);
        let d = w.drop_first();
        if p.len() == w.len() {
            lemma_suffix_refl(w);
            lemma_suffix_same_len(p, w, w);
            self.lemma_pattern_index(i);
            assert(self.suffix_patterns(w)[0] == i);
        } else {
            lemma_suffix_drop_first(p, w);
            self.lemma_suffix_patterns_complete(d, i);
            let k = choose|k: int|
                0 <= k < self.suffix_patterns(d).len() && self.suffix_patterns(d)[k] == i;
            if self.is_pattern(w) {
                assert(self.suffix_patterns(w)[k + 1] == i);
            } else {
                assert(self.suffix_patterns(w)[k] == i);
            }
        }
    }

    /// The longer patterns come first: of two patterns that end where `w` ends
    /// the one that stands first in the list is the longer.
    pub proof fn law_longer_patterns_first(self, w: Word, j: int, k: int)
        requires
            self.valid(),
            0 <= j < k < self.suffix_patterns(w).len(),
        ensures
            self.pats[self.suffix_patterns(w)[j]].len() > self.pats[self.suffix_patterns(w)[k]].len(),
        decreases w.len(),
    {
        let d = w.drop_first();
        if self.is_pattern(w) {
            let i = self.pattern_index(w);
            if j == 0 {
                self.lemma_suffix_patterns_sound(d, k - 1);
            } else {
                self.law_longer_patterns_first(d, j - 1, k - 1);
            }
        } else {
            self.law_longer_patterns_first(d, j, k);
        }
    }

    /// The patterns that end where `u` ends are those that end at its longest state suffix.
    pub proof fn lemma_suffix_patterns_state(self, u: Word)
        requires
            self.pats.len() > 0,
        ensures
            self.suffix_patterns(u) == self.suffix_patterns(self.longest_node_suffix(u)),
        decreases u.len(),
    {
        if self.is_node(u) || u.len() == 0 {
        } else {
            if self.is_pattern(u) {
                self.lemma_pattern_is_node(u);
            }
            self.lemma_suffix_patterns_state(u.drop_first());
        }
    }

    /// The patterns that a state reports under the standard kind: the state itself
    /// if it is a pattern, then what the state behind its failure link reports.
    pub proof fn lemma_suffix_patterns_fail(self, w: Word)
        requires
            self.pats.len() > 0,
            w.len() > 0,
        ensures
            self.suffix_patterns(w) == if self.is_pattern(w) {
                seq![self.pattern_index(w)] + self.suffix_patterns(self.fail_of(w))
            } else {
                self.suffix_patterns(self.fail_of(w))
            },
    {
        self.lemma_suffix_patterns_state(w.drop_first());
    }
}

impl<V> PatternSet<V> {
    /// Everything that ends after the first `k` characters of `h` and at or before
    /// the first `e` is among what an overlapping search reports from `k` on.
    proof fn lemma_overlapping_contains(self, h: Word, k: int, e: int, j: int)
        requires
            0 <= k < e <= h.len(),
            0 <= j < self.matches_at(h.take(e)).len(),
        ensures
            self.overlapping_from(h, k).contains(self.matches_at(h.take(e))[j]),
        decreases h.len() - k,
    {
        let here = self.matches_at(h.take(k + 1));
        let later = self.overlapping_from(h, k + 1);
        let all = self.overlapping_from(h, k);
        assert(all == here + later);
        if e == k + 1 {
            assert(all[j] == here[j]);
        } else {
            self.lemma_overlapping_contains(h, k + 1, e, j);
            let x = choose|x: int| 0 <= x < later.len() && later[x] == self.matches_at(h.take(e))[j];
            assert(all[here.len() + x] == later[x]);
        }
    }

    /// Every occurrence of a pattern is found: where the pattern `i` of a valid set
    /// ends after the first `e` characters of the text `h`, an overlapping search
    /// reports it there, with its length and its value.
    pub proof fn law_every_occurrence_is_found(self, h: Word, i: int, e: int)
        requires
            self.valid(),
            self.kept(i),
            0 <= e <= h.len(),
            self.pats[i].is_suffix_of(h.take(e)),
        ensures
            self.overlapping_matches(h).contains(self.match_at(i, h.take(e))),
            self.match_at(i, h.take(e)).value == self.vals[i],
            self.match_at(i, h.take(e)).end == self.size(h.take(e)),
            self.match_at(i, h.take(e)).end - self.match_at(i, h.take(e)).length == self.size(
                h.take(e - self.pats[i].len()),
            ),
    {
        let u = h.take(e);
        assert(self.pats[i].len() > 0);
        self.lemma_suffix_patterns_complete(u, i);
        let list = self.suffix_patterns(u);
        let j = choose|j: int| 0 <= j < list.len() && list[j] == i;
        assert(self.matches_at(u)[j] == self.match_at(i, u));
        self.lemma_overlapping_contains(h, 0, e, j);
        lemma_size_suffix(self.unit, self.pats[i], u);
        assert(u.take(u.len() - self.pats[i].len()) =~= h.take(e - self.pats[i].len()));
    }

    /// Under the standard kind every pattern takes part.
    pub proof fn lemma_standard_keeps_all(self, i: int)
        requires
            self.kind != MatchKind::LeftmostFirst,
            0 <= i < self.pats.len(),
        ensures
            self.kept(i),
    {
    }

    /// Nothing is reported that is not there: what an overlapping search reports
    /// ends at the end of some part of the text, and is a pattern that is a suffix of
    /// that part, with its length and its value.
    pub proof fn law_only_occurrences_are_found(self, h: Word, x: int)
        requires
            self.valid(),
            0 <= x < self.overlapping_matches(h).len(),
        ensures
            exists|i: int, e: int|
                #![trigger self.match_at(i, h.take(e))]
                self.kept(i) && 0 < e <= h.len() && self.pats[i].is_suffix_of(h.take(e))
                    && self.overlapping_matches(h)[x] == self.match_at(i, h.take(e)),
    {
        self.lemma_overlapping_sound(h, 0, x);
    }

    /// What an overlapping search reports from `k` on is the occurrence of a
    /// pattern that ends behind `k`.
    proof fn lemma_overlapping_sound(self, h: Word, k: int, x: int)
        requires
            self.valid(),
            0 <= k,
            0 <= x < self.overlapping_from(h, k).len(),
        ensures
            exists|i: int, e: int|
                #![trigger self.match_at(i, h.take(e))]
                self.kept(i) && k < e <= h.len() && self.pats[i].is_suffix_of(h.take(e))
                    && self.overlapping_from(h, k)[x] == self.match_at(i, h.take(e)),
        decreases h.len() - k,
    {
        let here = self.matches_at(h.take(k + 1));
        let later = self.overlapping_from(h, k + 1);
        if x < here.len() {
            self.lemma_suffix_patterns_sound(h.take(k + 1), x);
            let i = self.suffix_patterns(h.take(k + 1))[x];
            assert(self.overlapping_from(h, k)[x] == self.match_at(i, h.take(k + 1)));
        } else {
            self.lemma_overlapping_sound(h, k + 1, x - here.len());
            let (i, e) = choose|i: int, e: int|
                #![trigger self.match_at(i, h.take(e))]
                self.kept(i) && k + 1 < e <= h.len() && self.pats[i].is_suffix_of(h.take(e))
                    && later[x - here.len()] == self.match_at(i, h.take(e));
            assert(self.overlapping_from(h, k)[x] == self.match_at(i, h.take(e)));
        }
    }
}

} // verus!
