//! A character-wise version for faster matching on multibyte characters.
//!
//! The automaton reads a text character by character. A state is a slot of the
//! double array, and the child of the state in slot `s` on the character with code
//! `x` is the slot `base(s) XOR x`, provided that slot names `s` as its owner.
pub mod builder;
pub mod iter;
pub mod mapper;
pub mod laws;
pub mod semantics;

use crate::build_helper::is_pow2;
use crate::errors::Result;
use crate::model::{PatternSet, Unit, Word};
use crate::serializer::{de_seq, deserialize_vec, lemma_seq_round_trip, seq_width, ser_seq, serialize_vec, Serializable};
use builder::{built, built_with_positions, pattern_set_of, view_of, words_of, CharwiseDoubleArrayAhoCorasickBuilder};
use iter::{FindIterator, FindOverlappingIterator, FindOverlappingNoSuffixIterator, LeftmostFindIterator};
use crate::nonzero;
use crate::{MatchKind, NonZeroU32, Output};
use mapper::{code_at, table_ok, CodeMapper};
use vstd::prelude::*;

verus! {

/// The largest number of states that an automaton can have.
pub const MAX_STATES: u32 = 0x7fff_ffff;

/// The root index position.
pub const ROOT_STATE_IDX: u32 = 0;

/// The dead index position.
pub const DEAD_STATE_IDX: u32 = 1;

/// One slot of the double array.
#[derive(Clone, Copy, Debug, Eq, Hash, PartialEq)]
pub struct State {
    /// The offset of the children of the state; zero when it has none.
    pub base: u32,
    /// The slot of the state that owns this one: its parent.
    pub check: u32,
    /// The slot to which the failure link leads.
    pub fail: u32,
    /// The position, counted from one, of the first entry of the output table that
    /// the state reports; zero when it reports nothing.
    pub output_pos: u32,
}

impl Default for State {
    fn default() -> (r: Self)
        ensures
            r == State::unused(),
    {
        Self { base: 0, check: DEAD_STATE_IDX, fail: DEAD_STATE_IDX, output_pos: 0 }
    }
}

impl State {
    /// A slot that no state occupies.
    pub open spec fn unused() -> State {
        State { base: 0, check: DEAD_STATE_IDX, fail: DEAD_STATE_IDX, output_pos: 0 }
    }

    /// Returns the offset of the children, if the state has children.
    #[inline(always)]
    pub fn base(&self) -> (r: Option<NonZeroU32>)
        ensures
            nonzero::raw_of(r) == self.base,
    {
        nonzero::from_raw(self.base)
    }

    /// Returns the slot of the owner.
    #[inline(always)]
    pub fn check(&self) -> (r: u32)
        ensures
            r == self.check,
    {
        self.check
    }

    /// Returns the slot to which the failure link leads.
    #[inline(always)]
    pub fn fail(&self) -> (r: u32)
        ensures
            r == self.fail,
    {
        self.fail
    }

    /// Returns the position of the first output entry, if the state reports any.
    #[inline(always)]
    pub fn output_pos(&self) -> (r: Option<NonZeroU32>)
        ensures
            nonzero::raw_of(r) == self.output_pos,
    {
        nonzero::from_raw(self.output_pos)
    }

    /// Sets the offset of the children.
    #[inline(always)]
    pub fn set_base(&mut self, x: NonZeroU32)
        ensures
            *final(self) == (State { base: x@, ..*old(self) }),
    {
        self.base = x.get();
    }

    /// Sets the slot of the owner.
    #[inline(always)]
    pub fn set_check(&mut self, x: u32)
        ensures
            *final(self) == (State { check: x, ..*old(self) }),
    {
        self.check = x;
    }

    /// Sets the slot to which the failure link leads.
    #[inline(always)]
    pub fn set_fail(&mut self, x: u32)
        ensures
            *final(self) == (State { fail: x, ..*old(self) }),
    {
        self.fail = x;
    }

    /// Sets the position of the first output entry.
    #[inline(always)]
    pub fn set_output_pos(&mut self, x: Option<NonZeroU32>)
        ensures
            *final(self) == (State { output_pos: nonzero::raw_of(x), ..*old(self) }),
    {
        self.output_pos = nonzero::to_raw(x);
    }
}

/// What an automaton holds: the double array, the code table, the output table,
/// the match kind and the number of states.
pub struct AutomatonView<V> {
    pub states: Seq<State>,
    pub table: Seq<u32>,
    pub alphabet_size: u32,
    pub outputs: Seq<Output<V>>,
    pub match_kind: MatchKind,
    pub num_states: u32,
}

/// How the states of a trie lie in a double array.
pub struct Layout {
    /// The states of the trie as words, the root first, each once.
    pub nodes: Seq<Word>,
    /// The slot of each state.
    pub slot: Seq<int>,
    /// For each slot the state that lies in it, or -1.
    pub owner: Seq<int>,
    /// For each entry of the output table the pattern that it reports.
    pub pat: Seq<int>,
}

impl Layout {
    /// A state lies in slot `s`.
    pub open spec fn live(self, s: int) -> bool {
        0 <= s < self.owner.len() && 0 <= self.owner[s] < self.nodes.len()
    }

    /// The state that lies in slot `s`, as a word.
    pub open spec fn word(self, s: int) -> Word {
        self.nodes[self.owner[s]]
    }
}

/// The patterns that the chain of output entries starting at position `pos` reports.
pub open spec fn chain<V>(outputs: Seq<Output<V>>, pat: Seq<int>, pos: int) -> Seq<int>
    decreases pos,
{
    if 0 < pos <= outputs.len() && outputs[pos - 1].parent < pos {
        seq![pat[pos - 1]] + chain(outputs, pat, outputs[pos - 1].parent as int)
    } else {
        seq![]
    }
}

/// The child of the state in slot `s` on the code `x`, read off the double array.
pub open spec fn child_slot(states: Seq<State>, s: int, x: u32) -> Option<u32> {
    let base = states[s].base;
    if base != 0 && states[(base ^ x) as int].check == s {
        Some(base ^ x)
    } else {
        None
    }
}

impl<V> AutomatonView<V> {
    /// The words of `g` are exactly the states of the trie of `d`.
    pub open spec fn nodes_ok(self, d: PatternSet<V>, g: Layout) -> bool {
        &&& g.nodes.len() >= 1
        &&& g.nodes.len() == self.num_states
        &&& self.num_states <= MAX_STATES
        &&& g.nodes[0] == Seq::<char>::empty()
        &&& g.nodes.no_duplicates()
        &&& forall|i: int| 0 <= i < g.nodes.len() ==> d.is_node(#[trigger] g.nodes[i])
        &&& forall|w: Word| #[trigger] d.is_node(w) ==> g.nodes.contains(w)
    }

    /// The number of slots is a power of two. Every state has a slot of its own;
    /// the root has slot 0 and no state has slot 1.
    pub open spec fn slots_ok(self, g: Layout) -> bool {
        &&& 2 <= self.states.len() <= u32::MAX
        &&& is_pow2(self.states.len() as u32)
        &&& g.slot.len() == g.nodes.len()
        &&& g.owner.len() == self.states.len()
        &&& g.slot[0] == 0
        &&& forall|i: int|
            0 <= i < g.nodes.len() ==> 0 <= #[trigger] g.slot[i] < self.states.len() && g.slot[i]
                != 1 && g.owner[g.slot[i]] == i
        &&& forall|s: int|
            0 <= s < self.states.len() && 0 <= #[trigger] g.owner[s] ==> g.owner[s]
                < g.nodes.len() && g.slot[g.owner[s]] == s
    }

    /// A child always lies inside the array.
    pub open spec fn base_ok(self) -> bool {
        forall|s: int, x: u32|
            0 <= s < self.states.len() && self.states[s].base != 0 && x < self.alphabet_size ==> (
            #[trigger] (self.states[s].base ^ x)) < self.states.len()
    }

    /// Every edge of the trie is an edge of the double array.
    pub open spec fn goto_ok(self, d: PatternSet<V>, g: Layout) -> bool {
        forall|i: int, c: char|
            0 <= i < g.nodes.len() && #[trigger] d.is_node(g.nodes[i].push(c)) ==> {
                &&& code_at(self.table, c as u32) is Some
                &&& self.states[g.slot[i]].base != 0
                &&& child_slot(self.states, g.slot[i], code_at(self.table, c as u32)->0) is Some
                &&& g.live(child_slot(self.states, g.slot[i], code_at(self.table, c as u32)->0)->0 as int)
                &&& g.word(child_slot(self.states, g.slot[i], code_at(self.table, c as u32)->0)->0 as int)
                    == g.nodes[i].push(c)
            }
    }

    /// A slot that names a state as its owner holds a child of that state, at the
    /// place that the code of its last character gives.
    pub open spec fn owner_ok(self, g: Layout) -> bool {
        forall|j: int|
            0 <= j < self.states.len() && g.live((#[trigger] self.states[j]).check as int) ==> {
                let p = self.states[j].check as int;
                &&& g.live(j)
                &&& g.word(j).len() > 0
                &&& g.word(j).drop_last() == g.word(p)
                &&& self.states[p].base != 0
                &&& code_at(self.table, g.word(j).last() as u32) is Some
                &&& j == self.states[p].base ^ code_at(self.table, g.word(j).last() as u32)->0
            }
    }

    /// Every failure link leads where the trie says.
    pub open spec fn fail_ok(self, d: PatternSet<V>, g: Layout) -> bool {
        forall|i: int|
            1 <= i < g.nodes.len() ==> {
                let f = (#[trigger] self.states[g.slot[i]]).fail as int;
                match d.fail_target(g.nodes[i]) {
                    Some(v) => g.live(f) && g.word(f) == v,
                    None => f == DEAD_STATE_IDX,
                }
            }
    }

    /// Every entry of the output table holds the value and the byte length of the
    /// pattern it reports, and points to an earlier entry or to none.
    pub open spec fn entries_ok(self, d: PatternSet<V>, g: Layout) -> bool {
        &&& g.pat.len() == self.outputs.len()
        &&& self.outputs.len() < u32::MAX
        &&& forall|j: int|
            0 <= j < self.outputs.len() ==> {
                let o = #[trigger] self.outputs[j];
                &&& o.parent <= j
                &&& d.kept(g.pat[j])
                &&& o.value == d.vals[g.pat[j]]
                &&& o.length == d.size(d.pats[g.pat[j]])
            }
    }

    /// Every state reports the patterns that the trie says it reports.
    pub open spec fn outputs_ok(self, d: PatternSet<V>, g: Layout) -> bool {
        forall|i: int|
            0 <= i < g.nodes.len() ==> {
                let pos = (#[trigger] self.states[g.slot[i]]).output_pos as int;
                &&& pos <= self.outputs.len()
                &&& chain(self.outputs, g.pat, pos) == d.output_list(g.nodes[i])
            }
    }

    /// The automaton is the trie of the pattern set `d`, laid out as `g` says.
    pub open spec fn layout_ok(self, d: PatternSet<V>, g: Layout) -> bool {
        &&& d.valid()
        &&& d.kind == self.match_kind
        &&& table_ok(self.table, self.alphabet_size)
        &&& self.nodes_ok(d, g)
        &&& self.slots_ok(g)
        &&& self.base_ok()
        &&& self.goto_ok(d, g)
        &&& self.owner_ok(g)
        &&& self.fail_ok(d, g)
        &&& self.entries_ok(d, g)
        &&& self.outputs_ok(d, g)
    }

    /// The automaton was built from the pattern set `d`.
    pub open spec fn recognizes(self, d: PatternSet<V>) -> bool {
        exists|g: Layout| self.layout_ok(d, g)
    }

    /// The automaton was built from some pattern set.
    pub open spec fn wf(self) -> bool {
        exists|d: PatternSet<V>| self.recognizes(d)
    }

    /// The automaton was built from some pattern set whose symbols are `unit`.
    pub open spec fn wf_for(self, unit: Unit) -> bool {
        exists|d: PatternSet<V>| #[trigger] self.recognizes(d) && d.unit == unit
    }
}

/// XOR with one operand fixed is one-to-one.
pub proof fn lemma_xor_cancel(b: u32, x: u32, y: u32)
    requires
        b ^ x == b ^ y,
    ensures
        x == y,
{
    assert(b ^ x == b ^ y ==> x == y) by (bit_vector);
}

impl<V> AutomatonView<V> {
    /// In a well laid out automaton the state in slot `s` has a child on `c` in the
    /// double array exactly when it has one in the trie, and it is the same child.
    pub proof fn lemma_child(self, d: PatternSet<V>, g: Layout, s: int, c: char)
        requires
            self.layout_ok(d, g),
            g.live(s),
        ensures
            code_at(self.table, c as u32) is None ==> !d.is_node(g.word(s).push(c)),
            code_at(self.table, c as u32) matches Some(x) ==> {
                &&& x < self.alphabet_size
                &&& self.states[s].base != 0 ==> (self.states[s].base ^ x) < self.states.len()
                &&& child_slot(self.states, s, x) is None ==> !d.is_node(g.word(s).push(c))
                &&& child_slot(self.states, s, x) matches Some(j) ==> d.is_node(g.word(s).push(c))
                    && g.live(j as int) && g.word(j as int) == g.word(s).push(c)
            },
    {
        let i = g.owner[s];
        let w = g.word(s);
        assert(g.slot[i] == s);
        if d.is_node(w.push(c)) {
            assert(d.is_node(g.nodes[i].push(c)));
        }
        match code_at(self.table, c as u32) {
            None => {},
            Some(x) => {
                assert(x < self.alphabet_size) by {
                    assert(self.table[c as u32 as int] != mapper::INVALID_CODE);
                }
                if self.states[s].base != 0 {
                    assert((self.states[s].base ^ x) < self.states.len());
                }
                match child_slot(self.states, s, x) {
                    None => {},
                    Some(j) => {
                        let st = self.states[j as int];
                        assert(st.check == s);
                        assert(g.live(st.check as int));
                        let last = g.word(j as int).last();
                        let y = code_at(self.table, last as u32)->0;
                        lemma_xor_cancel(self.states[s].base, x, y);
                        assert(self.table[c as u32 as int] == self.table[last as u32 as int]);
                        assert(c as u32 == last as u32);
                        mapper::lemma_char_eq(c, last);
                        assert(g.word(j as int) =~= w.push(c));
                        assert(d.is_node(g.nodes[g.owner[j as int]]));
                    },
                }
            },
        }
    }
}

impl<V> AutomatonView<V> {
    /// The failure link of a state other than the root leads to a shorter state, or
    /// to the dead state.
    pub proof fn lemma_fail(self, d: PatternSet<V>, g: Layout, s: int)
        requires
            self.layout_ok(d, g),
            g.live(s),
            s != 0,
        ensures
            g.word(s).len() > 0,
            d.fail_target(g.word(s)) matches Some(v) ==> {
                &&& g.live(self.states[s].fail as int)
                &&& g.word(self.states[s].fail as int) == v
                &&& v == d.fail_of(g.word(s))
                &&& v.len() < g.word(s).len()
            },
            d.fail_target(g.word(s)) is None ==> self.states[s].fail == DEAD_STATE_IDX && d.kind
                != MatchKind::Standard && d.leftmost_dead(g.word(s)),
    {
        let i = g.owner[s];
        assert(g.slot[i] == s);
        assert(g.slot[0] == 0);
        assert(i != 0);
        assert(g.nodes[i] != g.nodes[0]);
        assert(g.word(s).len() > 0) by {
            if g.word(s).len() == 0 {
                assert(g.word(s) =~= Seq::<char>::empty());
            }
        }
        let st = self.states[g.slot[i]];
        d.lemma_fail_shorter(g.word(s));
    }

    /// A character without a code occurs in no pattern: on reading it the automaton
    /// returns to the root from every state.
    pub proof fn lemma_unmapped(self, d: PatternSet<V>, g: Layout, w: Word, c: char)
        requires
            self.layout_ok(d, g),
            code_at(self.table, c as u32) is None,
        ensures
            !d.is_node(w.push(c)),
            d.step(w, c) == Seq::<char>::empty(),
            d.leftmost_step(w, c) == Seq::<char>::empty(),
        decreases w.len(),
    {
        if d.is_node(w.push(c)) {
            d.lemma_node_parent(w, c);
            let i = g.nodes.index_of(w);
            assert(g.nodes.contains(w));
            assert(d.is_node(g.nodes[i].push(c)));
        }
        d.lemma_step_unfold(w, c);
        if w.len() > 0 {
            d.lemma_fail_shorter(w);
            self.lemma_unmapped(d, g, d.fail_of(w), c);
        } else {
            assert(w =~= Seq::<char>::empty());
        }
    }
}

/// A fast multiple pattern match automaton implemented with the Aho-Corasick algorithm and
/// character-wise double-array data structure.
///
/// The automaton handles a text as a sequence of Unicode code points, not of bytes:
/// on texts of multibyte characters it makes fewer transitions than an automaton on bytes.
#[derive(Clone, Debug, Eq, Hash, PartialEq)]
pub struct CharwiseDoubleArrayAhoCorasick<V> {
    states: Vec<State>,
    mapper: CodeMapper,
    outputs: Vec<Output<V>>,
    match_kind: MatchKind,
    num_states: u32,
}

impl<V> View for CharwiseDoubleArrayAhoCorasick<V> {
    type V = AutomatonView<V>;

    closed spec fn view(&self) -> AutomatonView<V> {
        AutomatonView {
            states: self.states@,
            table: self.mapper.table@,
            alphabet_size: self.mapper.alphabet_size,
            outputs: self.outputs@,
            match_kind: self.match_kind,
            num_states: self.num_states,
        }
    }
}

impl<V: Copy> CharwiseDoubleArrayAhoCorasick<V> {
    /// Puts an automaton together from its parts.
    pub(crate) fn from_parts(
        states: Vec<State>,
        mapper: CodeMapper,
        outputs: Vec<Output<V>>,
        match_kind: MatchKind,
        num_states: u32,
    ) -> (r: Self)
        ensures
            r@ == (AutomatonView {
                states: states@,
                table: mapper.table@,
                alphabet_size: mapper.alphabet_size,
                outputs: outputs@,
                match_kind,
                num_states,
            }),
    {
        Self { states, mapper, outputs, match_kind, num_states }
    }

    /// Puts an automaton together from its parts, which must be those of an
    /// automaton that was built from patterns.
    pub fn from_parts_unchecked(
        states: Vec<State>,
        table: Vec<u32>,
        alphabet_size: u32,
        outputs: Vec<Output<V>>,
        match_kind: MatchKind,
        num_states: u32,
    ) -> (r: Self)
        requires
            (AutomatonView {
                states: states@,
                table: table@,
                alphabet_size,
                outputs: outputs@,
                match_kind,
                num_states,
            }).wf(),
        ensures
            r@ == (AutomatonView {
                states: states@,
                table: table@,
                alphabet_size,
                outputs: outputs@,
                match_kind,
                num_states,
            }),
    {
        Self { states, mapper: CodeMapper { table, alphabet_size }, outputs, match_kind, num_states }
    }

    /// Returns the match kind that the automaton was built with.
    pub fn match_kind(&self) -> (r: MatchKind)
        ensures
            r == self@.match_kind,
    {
        self.match_kind
    }

    /// Returns the number of states as it is written down.
    pub(crate) fn state_count(&self) -> (r: u32)
        ensures
            r == self@.num_states,
    {
        self.num_states
    }

    /// Returns the double array.
    pub fn states(&self) -> (r: &Vec<State>)
        ensures
            r@ == self@.states,
    {
        &self.states
    }

    /// Returns the table that gives each code point its code.
    pub fn code_table(&self) -> (r: &Vec<u32>)
        ensures
            r@ == self@.table,
    {
        &self.mapper.table
    }

    /// Returns the number of codes in use.
    pub fn alphabet_size(&self) -> (r: u32)
        ensures
            r == self@.alphabet_size,
    {
        self.mapper.alphabet_size
    }

    /// Returns the output table.
    pub fn outputs(&self) -> (r: &Vec<Output<V>>)
        ensures
            r@ == self@.outputs,
    {
        &self.outputs
    }

    /// Returns the position of the first output entry of the state in slot `state_id`;
    /// zero when the state reports nothing.
    #[inline(always)]
    pub(crate) fn output_pos_of(&self, state_id: u32) -> (r: u32)
        requires
            state_id < self@.states.len(),
        ensures
            r == self@.states[state_id as int].output_pos,
    {
        self.states[state_id as usize].output_pos
    }

    /// Returns the output entry at position `pos`, counted from one.
    #[inline(always)]
    pub(crate) fn output_at(&self, pos: u32) -> (r: Output<V>)
        requires
            0 < pos <= self@.outputs.len(),
        ensures
            r == self@.outputs[pos - 1],
    {
        self.outputs[(pos - 1) as usize]
    }

    /// Returns the child of the state in slot `state_id` on the code `mapped_c`, if
    /// the state has such a child.
    #[inline(always)]
    pub(crate) fn child_index_unchecked(&self, state_id: u32, mapped_c: u32) -> (r: Option<u32>)
        requires
            state_id < self@.states.len(),
            self@.states[state_id as int].base != 0 ==> (self@.states[state_id as int].base
                ^ mapped_c) < self@.states.len(),
        ensures
            r == child_slot(self@.states, state_id as int, mapped_c),
    {
        let base = self.states[state_id as usize].base;
        if base == 0 {
            return None;
        }
        let child_idx = base ^ mapped_c;
        if self.states[child_idx as usize].check == state_id {
            Some(child_idx)
        } else {
            None
        }
    }

    /// Returns the state reached from the state in slot `state_id` on reading the
    /// character `c`: the child on `c` of the first state that has one, among the
    /// state itself and those that its failure links lead to, or else the root.
    #[inline(always)]
    pub(crate) fn next_state_id_unchecked(
        &self,
        state_id: u32,
        c: u32,
        Ghost(d): Ghost<PatternSet<V>>,
        Ghost(g): Ghost<Layout>,
        Ghost(ch): Ghost<char>,
    ) -> (r: u32)
        requires
            self@.layout_ok(d, g),
            self@.match_kind == MatchKind::Standard,
            g.live(state_id as int),
            c == ch as u32,
        ensures
            g.live(r as int),
            g.word(r as int) == d.step(g.word(state_id as int), ch),
    {
        let ghost w0 = g.word(state_id as int);
        let mut cur = state_id;
        if let Some(mapped_c) = self.mapper.get(c) {
            loop
                invariant
                    self@.layout_ok(d, g),
                    self@.match_kind == MatchKind::Standard,
                    g.live(cur as int),
                    c == ch as u32,
                    w0 == g.word(state_id as int),
                    code_at(self@.table, c) == Some(mapped_c),
                    d.step(g.word(cur as int), ch) == d.step(w0, ch),
                decreases g.word(cur as int).len(),
            {
                proof {
                    self@.lemma_child(d, g, cur as int, ch);
                    d.lemma_step_unfold(g.word(cur as int), ch);
                }
                if let Some(child) = self.child_index_unchecked(cur, mapped_c) {
                    return child;
                }
                if cur == ROOT_STATE_IDX {
                    proof {
                        assert(g.owner[g.slot[0]] == 0);
                        assert(g.word(0) =~= Seq::<char>::empty());
                    }
                    return ROOT_STATE_IDX;
                }
                proof {
                    self@.lemma_fail(d, g, cur as int);
                }
                cur = self.states[cur as usize].fail;
            }
        } else {
            proof {
                self@.lemma_unmapped(d, g, w0, ch);
                assert(g.owner[g.slot[0]] == 0);
            }
            ROOT_STATE_IDX
        }
    }

    /// Returns the state reached under the leftmost kinds from the state in slot
    /// `state_id` on reading the character `c`. A walk along the failure links that
    /// comes to the dead state ends at the root.
    #[inline(always)]
    pub(crate) fn next_state_id_leftmost_unchecked(
        &self,
        state_id: u32,
        c: u32,
        Ghost(d): Ghost<PatternSet<V>>,
        Ghost(g): Ghost<Layout>,
        Ghost(ch): Ghost<char>,
    ) -> (r: u32)
        requires
            self@.layout_ok(d, g),
            self@.match_kind != MatchKind::Standard,
            g.live(state_id as int),
            c == ch as u32,
        ensures
            g.live(r as int),
            g.word(r as int) == d.leftmost_step(g.word(state_id as int), ch),
    {
        let ghost w0 = g.word(state_id as int);
        let mut cur = state_id;
        proof {
            assert(g.owner[g.slot[0]] == 0);
            assert(g.word(0) =~= Seq::<char>::empty());
        }
        if let Some(mapped_c) = self.mapper.get(c) {
            loop
                invariant
                    self@.layout_ok(d, g),
                    self@.match_kind != MatchKind::Standard,
                    g.live(cur as int),
                    g.live(0),
                    g.word(0) == Seq::<char>::empty(),
                    c == ch as u32,
                    w0 == g.word(state_id as int),
                    code_at(self@.table, c) == Some(mapped_c),
                    d.leftmost_step(g.word(cur as int), ch) == d.leftmost_step(w0, ch),
                decreases g.word(cur as int).len(),
            {
                proof {
                    self@.lemma_child(d, g, cur as int, ch);
                }
                if let Some(child) = self.child_index_unchecked(cur, mapped_c) {
                    return child;
                }
                if cur == ROOT_STATE_IDX {
                    return ROOT_STATE_IDX;
                }
                proof {
                    self@.lemma_fail(d, g, cur as int);
                }
                let fail_id = self.states[cur as usize].fail;
                if fail_id == DEAD_STATE_IDX {
                    proof {
                        assert(!g.live(1)) by {
                            if g.live(1) {
                                assert(g.slot[g.owner[1]] == 1);
                            }
                        }
                    }
                    return ROOT_STATE_IDX;
                }
                proof {
                    assert(!d.leftmost_dead(g.word(cur as int)));
                }
                cur = fail_id;
            }
        } else {
            proof {
                self@.lemma_unmapped(d, g, w0, ch);
            }
            ROOT_STATE_IDX
        }
    }
}

impl<V: Copy> CharwiseDoubleArrayAhoCorasick<V> {
    /// Creates a new [`CharwiseDoubleArrayAhoCorasick`] from input patterns. The value `i` is
    /// automatically associated with `patterns[i]`.
    ///
    /// # Errors
    ///
    /// An error is returned when
    ///   - `patterns` is empty,
    ///   - `patterns` contains entries of length zero,
    ///   - `patterns` contains duplicate entries,
    ///   - the conversion from the index `i` to the specified type `V` fails, or
    ///   - the scale of `patterns`, or of the resulting automaton, exceeds the expected one.
    pub fn new(patterns: &[&str]) -> (r: Result<Self>) where V: TryFrom<usize>
        ensures
            built_with_positions(words_of(patterns@), MatchKind::Standard, Unit::Chars, view_of(r)),
    {
        CharwiseDoubleArrayAhoCorasickBuilder::new().build(patterns)
    }

    /// Creates a new [`CharwiseDoubleArrayAhoCorasick`] from input pattern-value pairs.
    ///
    /// # Errors
    ///
    /// An error is returned when
    ///   - `patvals` is empty,
    ///   - `patvals` contains patterns of length zero,
    ///   - `patvals` contains duplicate patterns, or
    ///   - the scale of `patvals`, or of the resulting automaton, exceeds the expected one.
    pub fn with_values(patvals: &[(&str, V)]) -> (r: Result<Self>)
        ensures
            built(pattern_set_of(patvals@, MatchKind::Standard), view_of(r)),
    {
        CharwiseDoubleArrayAhoCorasickBuilder::new().build_with_values(patvals)
    }

    /// Returns an iterator of overlapping matches in the given haystack.
    ///
    /// The automaton must have been built with [`MatchKind::Standard`].
    pub fn find_overlapping_iter<'a>(&'a self, haystack: &'a str) -> (it: FindOverlappingIterator<
        'a,
        V,
    >)
        requires
            self@.wf_for(Unit::Chars),
            self@.match_kind == MatchKind::Standard,
        ensures
            it.wf(),
            it.remaining() == self@.find_overlapping(Unit::Chars, haystack@),
            forall|d: PatternSet<V>| #[trigger]
                self@.recognizes(d) && d.unit == Unit::Chars ==> it.remaining() == d.overlapping_matches(haystack@),
    {
        let ghost d = choose|d: PatternSet<V>| #[trigger] self@.recognizes(d) && d.unit == Unit::Chars;
        let ghost g = choose|g: Layout| self@.layout_ok(d, g);
        proof {
            self@.lemma_same_meaning(d, haystack@);
        }
        let bytes = haystack.as_bytes();
        proof {
            vstd::utf8::encode_utf8_valid_utf8(haystack@);
            vstd::utf8::encode_utf8_decode_utf8(haystack@);
        }
        FindOverlappingIterator::new(self, iter::CharWithEndOffsetIterator::new(bytes), Ghost(d), Ghost(g))
    }

    /// Returns an iterator of overlapping matches in the given haystack, which is
    /// given in UTF-8.
    ///
    /// The automaton must have been built with [`MatchKind::Standard`], and
    /// `haystack` must be valid UTF-8.
    pub fn find_overlapping_iter_from_iter<'a>(&'a self, haystack: &'a [u8]) -> (it:
        FindOverlappingIterator<'a, V>)
        requires
            self@.wf_for(Unit::Chars),
            self@.match_kind == MatchKind::Standard,
            vstd::utf8::valid_utf8(haystack@),
        ensures
            it.wf(),
            it.remaining() == self@.find_overlapping(Unit::Chars, vstd::utf8::decode_utf8(haystack@)),
            forall|d: PatternSet<V>| #[trigger]
                self@.recognizes(d) && d.unit == Unit::Chars ==> it.remaining() == d.overlapping_matches(vstd::utf8::decode_utf8(haystack@)),
    {
        let ghost d = choose|d: PatternSet<V>| #[trigger] self@.recognizes(d) && d.unit == Unit::Chars;
        let ghost g = choose|g: Layout| self@.layout_ok(d, g);
        proof {
            self@.lemma_same_meaning(d, vstd::utf8::decode_utf8(haystack@));
        }
        FindOverlappingIterator::new(self, iter::CharWithEndOffsetIterator::new(haystack), Ghost(d), Ghost(g))
    }

    /// Returns an iterator of non-overlapping matches in the given haystack.
    ///
    /// The automaton must have been built with [`MatchKind::Standard`].
    pub fn find_iter<'a>(&'a self, haystack: &'a str) -> (it: FindIterator<'a, V>)
        requires
            self@.wf_for(Unit::Chars),
            self@.match_kind == MatchKind::Standard,
        ensures
            it.wf(),
            it.remaining() == self@.find(Unit::Chars, haystack@),
            forall|d: PatternSet<V>| #[trigger]
                self@.recognizes(d) && d.unit == Unit::Chars ==> it.remaining() == d.find_matches(haystack@),
    {
        let ghost d = choose|d: PatternSet<V>| #[trigger] self@.recognizes(d) && d.unit == Unit::Chars;
        let ghost g = choose|g: Layout| self@.layout_ok(d, g);
        proof {
            self@.lemma_same_meaning(d, haystack@);
        }
        let bytes = haystack.as_bytes();
        proof {
            vstd::utf8::encode_utf8_valid_utf8(haystack@);
            vstd::utf8::encode_utf8_decode_utf8(haystack@);
        }
        FindIterator::new(self, iter::CharWithEndOffsetIterator::new(bytes), Ghost(d), Ghost(g))
    }

    /// Returns an iterator of non-overlapping matches in the given haystack, which
    /// is given in UTF-8.
    ///
    /// The automaton must have been built with [`MatchKind::Standard`], and
    /// `haystack` must be valid UTF-8.
    pub fn find_iter_from_iter<'a>(&'a self, haystack: &'a [u8]) -> (it: FindIterator<'a, V>)
        requires
            self@.wf_for(Unit::Chars),
            self@.match_kind == MatchKind::Standard,
            vstd::utf8::valid_utf8(haystack@),
        ensures
            it.wf(),
            it.remaining() == self@.find(Unit::Chars, vstd::utf8::decode_utf8(haystack@)),
            forall|d: PatternSet<V>| #[trigger]
                self@.recognizes(d) && d.unit == Unit::Chars ==> it.remaining() == d.find_matches(vstd::utf8::decode_utf8(haystack@)),
    {
        let ghost d = choose|d: PatternSet<V>| #[trigger] self@.recognizes(d) && d.unit == Unit::Chars;
        let ghost g = choose|g: Layout| self@.layout_ok(d, g);
        proof {
            self@.lemma_same_meaning(d, vstd::utf8::decode_utf8(haystack@));
        }
        FindIterator::new(self, iter::CharWithEndOffsetIterator::new(haystack), Ghost(d), Ghost(g))
    }

    /// Returns an iterator of overlapping matches without suffixes in the given haystack.
    ///
    /// The automaton reads the haystack from left to right and reports matches when
    /// it reaches the end of a pattern; more than one pattern can end at one place.
    /// This iterator returns the first, which is the longest, for each such place.
    ///
    /// The automaton must have been built with [`MatchKind::Standard`].
    pub fn find_overlapping_no_suffix_iter<'a>(&'a self, haystack: &'a str) -> (it:
        FindOverlappingNoSuffixIterator<'a, V>)
        requires
            self@.wf_for(Unit::Chars),
            self@.match_kind == MatchKind::Standard,
        ensures
            it.wf(),
            it.remaining() == self@.find_overlapping_no_suffix(Unit::Chars, haystack@),
            forall|d: PatternSet<V>| #[trigger]
                self@.recognizes(d) && d.unit == Unit::Chars ==> it.remaining() == d.overlapping_no_suffix_matches(haystack@),
    {
        let ghost d = choose|d: PatternSet<V>| #[trigger] self@.recognizes(d) && d.unit == Unit::Chars;
        let ghost g = choose|g: Layout| self@.layout_ok(d, g);
        proof {
            self@.lemma_same_meaning(d, haystack@);
        }
        let bytes = haystack.as_bytes();
        proof {
            vstd::utf8::encode_utf8_valid_utf8(haystack@);
            vstd::utf8::encode_utf8_decode_utf8(haystack@);
        }
        FindOverlappingNoSuffixIterator::new(self, iter::CharWithEndOffsetIterator::new(bytes), Ghost(d), Ghost(g))
    }

    /// Returns an iterator of overlapping matches without suffixes in the given
    /// haystack, which is given in UTF-8.
    ///
    /// The automaton must have been built with [`MatchKind::Standard`], and
    /// `haystack` must be valid UTF-8.
    pub fn find_overlapping_no_suffix_iter_from_iter<'a>(&'a self, haystack: &'a [u8]) -> (it:
        FindOverlappingNoSuffixIterator<'a, V>)
        requires
            self@.wf_for(Unit::Chars),
            self@.match_kind == MatchKind::Standard,
            vstd::utf8::valid_utf8(haystack@),
        ensures
            it.wf(),
            it.remaining() == self@.find_overlapping_no_suffix(Unit::Chars, vstd::utf8::decode_utf8(haystack@)),
            forall|d: PatternSet<V>| #[trigger]
                self@.recognizes(d) && d.unit == Unit::Chars ==> it.remaining() == d.overlapping_no_suffix_matches(vstd::utf8::decode_utf8(haystack@)),
    {
        let ghost d = choose|d: PatternSet<V>| #[trigger] self@.recognizes(d) && d.unit == Unit::Chars;
        let ghost g = choose|g: Layout| self@.layout_ok(d, g);
        proof {
            self@.lemma_same_meaning(d, vstd::utf8::decode_utf8(haystack@));
        }
        FindOverlappingNoSuffixIterator::new(self, iter::CharWithEndOffsetIterator::new(haystack), Ghost(d), Ghost(g))
    }

    /// Returns an iterator of leftmost matches in the given haystack.
    ///
    /// The matches do not overlap. Each is the leftmost possible; of the patterns
    /// that start there, the longest is reported under [`MatchKind::LeftmostLongest`],
    /// and the one registered first under [`MatchKind::LeftmostFirst`].
    ///
    /// The automaton must have been built with one of these two kinds.
    pub fn leftmost_find_iter<'a>(&'a self, haystack: &'a str) -> (it: LeftmostFindIterator<'a, V>)
        requires
            self@.wf_for(Unit::Chars),
            self@.match_kind != MatchKind::Standard,
        ensures
            it.wf(),
            it.remaining() == self@.leftmost_find(Unit::Chars, haystack@),
            forall|d: PatternSet<V>| #[trigger]
                self@.recognizes(d) && d.unit == Unit::Chars ==> it.remaining() == d.first_longest_matches(haystack@),
    {
        let ghost d = choose|d: PatternSet<V>| #[trigger] self@.recognizes(d) && d.unit == Unit::Chars;
        let ghost g = choose|g: Layout| self@.layout_ok(d, g);
        proof {
            self@.lemma_same_meaning(d, haystack@);
        }
        let bytes = haystack.as_bytes();
        proof {
            vstd::utf8::encode_utf8_valid_utf8(haystack@);
            vstd::utf8::encode_utf8_decode_utf8(haystack@);
        }
        LeftmostFindIterator::new(self, iter::CharWithEndOffsetIterator::new(bytes), Ghost(d), Ghost(g))
    }

    /// Returns the total number of states this automaton has.
    #[must_use]
    pub fn num_states(&self) -> (r: usize)
        ensures
            r == self@.num_states,
    {
        self.num_states as usize
    }

    /// Returns the total number of elements of the double array.
    #[must_use]
    pub fn num_elements(&self) -> (r: usize)
        ensures
            r == self@.states.len(),
    {
        self.states.len()
    }
}

impl<V> AutomatonView<V> {
    /// Every pattern set that an automaton was built from gives the same reports
    /// on the text `h` as the pattern set `d`, and they are what the automaton reports.
    pub proof fn lemma_same_meaning(self, d: PatternSet<V>, h: Word)
        requires
            self.recognizes(d),
        ensures
            self.match_kind == MatchKind::Standard ==> {
                &&& self.find_overlapping(d.unit, h) == d.overlapping_matches(h)
                &&& self.find_overlapping_no_suffix(d.unit, h) == d.overlapping_no_suffix_matches(h)
                &&& self.find(d.unit, h) == d.find_matches(h)
            },
            self.match_kind != MatchKind::Standard ==> self.leftmost_find(d.unit, h) == d.leftmost_matches(h),
            forall|d2: PatternSet<V>| #[trigger]
                self.recognizes(d2) && d2.unit == d.unit && self.match_kind == MatchKind::Standard ==> {
                    &&& d2.overlapping_matches(h) == d.overlapping_matches(h)
                    &&& d2.overlapping_no_suffix_matches(h) == d.overlapping_no_suffix_matches(h)
                    &&& d2.find_matches(h) == d.find_matches(h)
                },
            forall|d2: PatternSet<V>| #[trigger]
                self.recognizes(d2) && d2.unit == d.unit && self.match_kind != MatchKind::Standard
                    ==> d2.leftmost_matches(h) == d.leftmost_matches(h) && d2.first_longest_matches(h)
                    == d.leftmost_matches(h),
    {
        self.lemma_meaning(d, h);
        assert forall|d2: PatternSet<V>| #[trigger]
            self.recognizes(d2) && d2.unit == d.unit && self.match_kind == MatchKind::Standard implies {
            &&& d2.overlapping_matches(h) == d.overlapping_matches(h)
            &&& d2.overlapping_no_suffix_matches(h) == d.overlapping_no_suffix_matches(h)
            &&& d2.find_matches(h) == d.find_matches(h)
        } by {
            self.lemma_meaning(d2, h);
        }
        assert forall|d2: PatternSet<V>| #[trigger]
            self.recognizes(d2) && d2.unit == d.unit && self.match_kind != MatchKind::Standard implies d2.leftmost_matches(
            h,
        ) == d.leftmost_matches(h) && d2.first_longest_matches(h) == d.leftmost_matches(h) by {
            self.lemma_meaning(d2, h);
        }
    }
}

impl<V: Serializable> AutomatonView<V> {
    /// The binary form of an automaton: the double array, the code table with the
    /// number of codes, the output table, the match kind and the number of states.
    pub open spec fn ser(self) -> Seq<u8> {
        ser_seq(self.states) + ser_seq(self.table) + self.alphabet_size.ser() + ser_seq(self.outputs)
            + self.match_kind.ser() + self.num_states.ser()
    }

    /// Every table of the automaton is short enough for its length to be written down.
    pub open spec fn writable(self) -> bool {
        self.states.len() <= u32::MAX && self.table.len() <= u32::MAX && self.outputs.len()
            <= u32::MAX
    }

    /// The automaton whose binary form stands at the front of `bytes`, and what
    /// stands behind the form.
    pub open spec fn de(bytes: Seq<u8>) -> (AutomatonView<V>, Seq<u8>) {
        let states = de_seq::<State>(bytes);
        let b1 = bytes.skip(seq_width::<State>(states.len()) as int);
        let table = de_seq::<u32>(b1);
        let b2 = b1.skip(seq_width::<u32>(table.len()) as int);
        let alphabet_size = u32::de(b2.take(4));
        let b3 = b2.skip(4);
        let outputs = de_seq::<Output<V>>(b3);
        let b4 = b3.skip(seq_width::<Output<V>>(outputs.len()) as int);
        let match_kind = MatchKind::de(b4.take(1));
        let b5 = b4.skip(1);
        let num_states = u32::de(b5.take(4));
        (AutomatonView { states, table, alphabet_size, outputs, match_kind, num_states }, b5.skip(4))
    }

    /// An automaton is read back from its binary form, whatever stands behind the form.
    pub proof fn lemma_round_trip(self, rest: Seq<u8>)
        requires
            self.writable(),
        ensures
            Self::de(self.ser() + rest) == (self, rest),
    {
        let bytes = self.ser() + rest;
        let t5 = self.num_states.ser() + rest;
        let t4 = self.match_kind.ser() + t5;
        let t3 = ser_seq(self.outputs) + t4;
        let t2 = self.alphabet_size.ser() + t3;
        let t1 = ser_seq(self.table) + t2;
        assert(bytes =~= ser_seq(self.states) + t1);
        lemma_seq_round_trip(self.states, t1);
        lemma_seq_round_trip(self.table, t2);
        self.alphabet_size.lemma_round_trip();
        assert(t2.take(4) =~= self.alphabet_size.ser());
        assert(t2.skip(4) =~= t3);
        lemma_seq_round_trip(self.outputs, t4);
        self.match_kind.lemma_round_trip();
        assert(t4.take(1) =~= self.match_kind.ser());
        assert(t4.skip(1) =~= t5);
        self.num_states.lemma_round_trip();
        assert(t5.take(4) =~= self.num_states.ser());
        assert(t5.skip(4) =~= rest);
        let r = Self::de(bytes);
        assert(r.0.states == self.states);
        assert(r.0.table == self.table);
        assert(r.0.outputs == self.outputs);
    }

    /// An automaton that was built from patterns can be written down.
    pub proof fn lemma_writable(self)
        requires
            self.wf(),
        ensures
            self.writable(),
    {
        let d = choose|d: PatternSet<V>| self.recognizes(d);
        let g = choose|g: Layout| self.layout_ok(d, g);
    }
}

impl<V: Copy + Serializable> CharwiseDoubleArrayAhoCorasick<V> {
    /// Serializes the automaton into a [`Vec`].
    #[must_use]
    pub fn serialize(&self) -> (r: Vec<u8>)
        requires
            self@.wf(),
        ensures
            r@ == self@.ser(),
    {
        proof {
            self@.lemma_writable();
        }
        let mut result: Vec<u8> = Vec::new();
        serialize_vec(&self.states, &mut result);
        serialize_vec(&self.mapper.table, &mut result);
        self.mapper.alphabet_size.serialize_to_vec(&mut result);
        serialize_vec(&self.outputs, &mut result);
        self.match_kind.serialize_to_vec(&mut result);
        self.num_states.serialize_to_vec(&mut result);
        proof {
            assert(result@ =~= self@.ser());
        }
        result
    }

    /// Deserializes the automaton from a given slice.
    ///
    /// Returns the automaton and the part of the slice that was not used.
    ///
    /// The slice must begin with the binary form of an automaton that was built
    /// from patterns, as [`CharwiseDoubleArrayAhoCorasick::serialize()`] writes it.
    #[must_use]
    pub fn deserialize_unchecked(source: &[u8]) -> (r: (Self, &[u8]))
        requires
            exists|a: AutomatonView<V>, rest: Seq<u8>| a.wf() && source@ == a.ser() + rest,
        ensures
            r.0@.wf(),
            (r.0@, r.1@) == AutomatonView::<V>::de(source@),
            forall|a: AutomatonView<V>, rest: Seq<u8>|
                a.writable() && source@ == #[trigger] (a.ser() + rest) ==> r.0@ == a && r.1@ == rest,
    {
        let ghost (a, rest) = choose|a: AutomatonView<V>, rest: Seq<u8>|
            a.wf() && source@ == a.ser() + rest;
        let ghost t5 = a.num_states.ser() + rest;
        let ghost t4 = a.match_kind.ser() + t5;
        let ghost t3 = ser_seq(a.outputs) + t4;
        let ghost t2 = a.alphabet_size.ser() + t3;
        let ghost t1 = ser_seq(a.table) + t2;
        proof {
            a.lemma_writable();
            a.lemma_round_trip(rest);
            assert(source@ =~= ser_seq(a.states) + t1);
            lemma_seq_round_trip(a.states, t1);
            lemma_seq_round_trip(a.table, t2);
            lemma_seq_round_trip(a.outputs, t4);
            a.alphabet_size.lemma_round_trip();
            a.match_kind.lemma_round_trip();
            a.num_states.lemma_round_trip();
            assert forall|a2: AutomatonView<V>, rest2: Seq<u8>|
                a2.writable() && source@ == #[trigger] (a2.ser() + rest2) implies a2 == a && rest2
                == rest by {
                a2.lemma_round_trip(rest2);
            }
        }
        let (states, source) = deserialize_vec::<State>(source);
        let (table, source) = deserialize_vec::<u32>(source);
        proof {
            assert(source@.take(4) =~= a.alphabet_size.ser());
        }
        let (alphabet_size, source) = u32::deserialize_from_slice(source);
        proof {
            assert(source@ =~= t3);
        }
        let (outputs, source) = deserialize_vec::<Output<V>>(source);
        proof {
            assert(source@.take(1) =~= a.match_kind.ser());
        }
        let (match_kind, source) = MatchKind::deserialize_from_slice(source);
        proof {
            assert(source@ =~= t5);
            assert(source@.take(4) =~= a.num_states.ser());
        }
        let (num_states, source) = u32::deserialize_from_slice(source);
        proof {
            assert(source@ =~= rest);
        }
        let r = Self { states, mapper: CodeMapper { table, alphabet_size }, outputs, match_kind, num_states };
        proof {
            assert(r@ == a);
        }
        (r, source)
    }
}

impl<V: Copy> CharwiseDoubleArrayAhoCorasick<V> {
    /// Returns the total amount of heap used by this automaton in bytes.
    #[must_use]
    pub fn heap_bytes(&self) -> (r: usize)
        requires
            self@.heap_bytes() <= usize::MAX,
        ensures
            r == self@.heap_bytes(),
    {
        let state_size = core::mem::size_of::<State>();
        let output_size = core::mem::size_of::<Output<V>>();
        proof {
            assert(self@.states.len() * state_size >= 0) by (nonlinear_arith)
                requires
                    self@.states.len() >= 0,
                    state_size >= 0,
            ;
            assert(self@.outputs.len() * output_size >= 0) by (nonlinear_arith)
                requires
                    self@.outputs.len() >= 0,
                    output_size >= 0,
            ;
        }
        self.states.len() * state_size + self.mapper.heap_bytes() + self.outputs.len() * output_size
    }
}

impl<V> AutomatonView<V> {
    /// The number of bytes that the automaton takes on the heap: those of the
    /// double array, of the code table and of the output table.
    pub open spec fn heap_bytes(self) -> nat {
        self.states.len() * vstd::layout::size_of::<State>() + self.table.len() * 4
            + self.outputs.len() * vstd::layout::size_of::<Output<V>>()
    }
}

} // verus!
