//! What an automaton reports on a text, read off the double array alone, and the
//! proof that this is what the patterns it was built from say.
use crate::charwise::mapper::code_at;
use crate::charwise::{chain, child_slot, AutomatonView, Layout, DEAD_STATE_IDX};
use crate::model::{lemma_suffix_push, lemma_suffix_refl, lemma_suffix_trans, size_in, PatternSet, Unit, Word};
use crate::{MatchKind, MatchView};
use vstd::prelude::*;

verus! {

impl<V> AutomatonView<V> {
    /// The slot reached from the slot `s` on the code `x`, under the standard kind:
    /// the child on `x` of the first slot that has one, among `s` and those that the
    /// failure links lead to, or else the root. No more than `fuel` links are followed.
    pub open spec fn next_slot(self, s: int, x: Option<u32>, fuel: nat) -> int
        decreases fuel,
    {
        match x {
            None => 0,
            Some(code) => match child_slot(self.states, s, code) {
                Some(j) => j as int,
                None => if s == 0 || fuel == 0 {
                    0
                } else {
                    self.next_slot(self.states[s].fail as int, x, (fuel - 1) as nat)
                },
            },
        }
    }

    /// The slot reached from the slot `s` on the code `x`, under the leftmost kinds:
    /// as under the standard kind, but the root when a failure link leads to the
    /// dead state.
    pub open spec fn next_slot_leftmost(self, s: int, x: Option<u32>, fuel: nat) -> int
        decreases fuel,
    {
        match x {
            None => 0,
            Some(code) => match child_slot(self.states, s, code) {
                Some(j) => j as int,
                None => if s == 0 || fuel == 0 || self.states[s].fail == DEAD_STATE_IDX {
                    0
                } else {
                    self.next_slot_leftmost(self.states[s].fail as int, x, (fuel - 1) as nat)
                },
            },
        }
    }

    /// The occurrence that the output entry at position `pos` reports at the end `end`.
    pub open spec fn entry_match(self, pos: int, end: nat) -> MatchView<V> {
        MatchView {
            length: self.outputs[pos - 1].length as nat,
            end,
            value: self.outputs[pos - 1].value,
        }
    }

    /// The occurrences that the chain of output entries from position `pos` on
    /// reports at the end `end`.
    pub open spec fn chain_matches(self, pos: int, end: nat) -> Seq<MatchView<V>>
        decreases pos,
    {
        if 0 < pos <= self.outputs.len() && self.outputs[pos - 1].parent < pos {
            seq![self.entry_match(pos, end)] + self.chain_matches(
                self.outputs[pos - 1].parent as int,
                end,
            )
        } else {
            seq![]
        }
    }

    /// The first occurrence that the chain from position `pos` on reports, if any.
    pub open spec fn first_match(self, pos: int, end: nat) -> Seq<MatchView<V>> {
        if 0 < pos <= self.outputs.len() {
            seq![self.entry_match(pos, end)]
        } else {
            seq![]
        }
    }

    /// What an overlapping search reports from character `k` of `h` on, when it
    /// stands in the slot `s`.
    pub open spec fn overlapping_run(self, unit: Unit, h: Word, k: int, s: int) -> Seq<MatchView<V>>
        decreases h.len() - k,
    {
        if k < 0 || k >= h.len() {
            seq![]
        } else {
            let s1 = self.next_slot(s, code_at(self.table, h[k] as u32), h.len());
            self.chain_matches(self.states[s1].output_pos as int, size_in(unit, h.take(k + 1)))
                + self.overlapping_run(unit, h, k + 1, s1)
        }
    }

    /// What a search for the longest pattern at each end reports from character
    /// `k` of `h` on, when it stands in the slot `s`.
    pub open spec fn no_suffix_run(self, unit: Unit, h: Word, k: int, s: int) -> Seq<MatchView<V>>
        decreases h.len() - k,
    {
        if k < 0 || k >= h.len() {
            seq![]
        } else {
            let s1 = self.next_slot(s, code_at(self.table, h[k] as u32), h.len());
            self.first_match(self.states[s1].output_pos as int, size_in(unit, h.take(k + 1)))
                + self.no_suffix_run(unit, h, k + 1, s1)
        }
    }

    /// What a search without overlap reports from character `k` of `h` on, when it
    /// stands in the slot `s`.
    pub open spec fn find_run(self, unit: Unit, h: Word, k: int, s: int) -> Seq<MatchView<V>>
        decreases h.len() - k,
    {
        if k < 0 || k >= h.len() {
            seq![]
        } else {
            let s1 = self.next_slot(s, code_at(self.table, h[k] as u32), h.len());
            let pos = self.states[s1].output_pos as int;
            if 0 < pos <= self.outputs.len() {
                seq![self.entry_match(pos, size_in(unit, h.take(k + 1)))] + self.find_run(unit, h, k + 1, 0)
            } else {
                self.find_run(unit, h, k + 1, s1)
            }
        }
    }

    /// What a scan under the leftmost kinds remembers at its end, when it has read
    /// the first `k` characters of `h`, stands in the slot `s` and remembers `best`:
    /// the position of an output entry and the number of characters read when the
    /// pattern of that entry ended.
    pub open spec fn scan_run(self, h: Word, k: int, s: int, best: Option<(int, int)>) -> Option<
        (int, int),
    >
        decreases h.len() - k,
    {
        if k < 0 || k >= h.len() {
            best
        } else {
            let s1 = self.next_slot_leftmost(s, code_at(self.table, h[k] as u32), h.len());
            let pos = self.states[s1].output_pos as int;
            if s1 == 0 {
                if best is Some {
                    best
                } else {
                    self.scan_run(h, k + 1, s1, None)
                }
            } else if 0 < pos <= self.outputs.len() {
                self.scan_run(h, k + 1, s1, Some((pos, k + 1)))
            } else {
                self.scan_run(h, k + 1, s1, best)
            }
        }
    }

    /// What a search under the leftmost kinds reports from character `p` of `h` on.
    pub open spec fn leftmost_run(self, unit: Unit, h: Word, p: int) -> Seq<MatchView<V>>
        decreases h.len() - p,
    {
        match self.scan_run(h, p, 0, None) {
            None => seq![],
            Some(b) => if p < b.1 <= h.len() {
                seq![self.entry_match(b.0, size_in(unit, h.take(b.1)))] + self.leftmost_run(unit, h, b.1)
            } else {
                seq![]
            },
        }
    }

    /// All occurrences of the patterns in `h`, overlapping or not, as the automaton
    /// reports them.
    pub open spec fn find_overlapping(self, unit: Unit, h: Word) -> Seq<MatchView<V>> {
        self.overlapping_run(unit, h, 0, 0)
    }

    /// For each end in `h` at which a pattern ends the longest such pattern, as the
    /// automaton reports them.
    pub open spec fn find_overlapping_no_suffix(self, unit: Unit, h: Word) -> Seq<MatchView<V>> {
        self.no_suffix_run(unit, h, 0, 0)
    }

    /// The occurrences in `h` that a search without overlap reports.
    pub open spec fn find(self, unit: Unit, h: Word) -> Seq<MatchView<V>> {
        self.find_run(unit, h, 0, 0)
    }

    /// The occurrences in `h` that a search under the leftmost kinds reports.
    pub open spec fn leftmost_find(self, unit: Unit, h: Word) -> Seq<MatchView<V>> {
        self.leftmost_run(unit, h, 0)
    }

    /// The root lies in slot 0.
    pub proof fn lemma_root(self, d: PatternSet<V>, g: Layout)
        requires
            self.layout_ok(d, g),
        ensures
            g.live(0),
            g.word(0) == Seq::<char>::empty(),
            forall|s: int| g.live(s) && g.word(s).len() == 0 ==> s == 0,
            !g.live(1),
    {
        assert(g.owner[g.slot[0]] == 0);
        assert forall|s: int| g.live(s) && g.word(s).len() == 0 implies s == 0 by {
            assert(g.word(s) =~= g.nodes[0]);
            assert(g.slot[g.owner[s]] == s);
        }
        if g.live(1) {
            assert(g.slot[g.owner[1]] == 1);
        }
    }

    /// Under the standard kind the double array leads from a state on a character
    /// to the state that the trie names.
    pub proof fn lemma_next_slot(self, d: PatternSet<V>, g: Layout, s: int, c: char, fuel: nat)
        requires
            self.layout_ok(d, g),
            self.match_kind == MatchKind::Standard,
            g.live(s),
            g.word(s).len() <= fuel,
        ensures
            g.live(self.next_slot(s, code_at(self.table, c as u32), fuel)),
            g.word(self.next_slot(s, code_at(self.table, c as u32), fuel)) == d.step(g.word(s), c),
        decreases fuel,
    {
        let w = g.word(s);
        self.lemma_root(d, g);
        self.lemma_child(d, g, s, c);
        d.lemma_step_unfold(w, c);
        match code_at(self.table, c as u32) {
            None => {
                self.lemma_unmapped(d, g, w, c);
            },
            Some(x) => {
                match child_slot(self.states, s, x) {
                    Some(j) => {},
                    None => {
                        if s == 0 {
                        } else {
                            self.lemma_fail(d, g, s);
                            self.lemma_next_slot(
                                d,
                                g,
                                self.states[s].fail as int,
                                c,
                                (fuel - 1) as nat,
                            );
                        }
                    },
                }
            },
        }
    }

    /// Under the leftmost kinds the double array leads from a state on a character
    /// to the state that the trie names.
    pub proof fn lemma_next_slot_leftmost(
        self,
        d: PatternSet<V>,
        g: Layout,
        s: int,
        c: char,
        fuel: nat,
    )
        requires
            self.layout_ok(d, g),
            self.match_kind != MatchKind::Standard,
            g.live(s),
            g.word(s).len() <= fuel,
        ensures
            g.live(self.next_slot_leftmost(s, code_at(self.table, c as u32), fuel)),
            g.word(self.next_slot_leftmost(s, code_at(self.table, c as u32), fuel))
                == d.leftmost_step(g.word(s), c),
        decreases fuel,
    {
        let w = g.word(s);
        self.lemma_root(d, g);
        self.lemma_child(d, g, s, c);
        match code_at(self.table, c as u32) {
            None => {
                self.lemma_unmapped(d, g, w, c);
            },
            Some(x) => {
                match child_slot(self.states, s, x) {
                    Some(j) => {},
                    None => {
                        if s == 0 {
                        } else {
                            self.lemma_fail(d, g, s);
                            if self.states[s].fail != DEAD_STATE_IDX {
                                self.lemma_next_slot_leftmost(
                                    d,
                                    g,
                                    self.states[s].fail as int,
                                    c,
                                    (fuel - 1) as nat,
                                );
                            }
                        }
                    },
                }
            },
        }
    }

    /// The occurrences that a chain of output entries reports are those of the
    /// patterns that the chain stands for.
    pub proof fn lemma_chain_matches(self, d: PatternSet<V>, g: Layout, pos: int, u: Word)
        requires
            self.layout_ok(d, g),
            0 <= pos <= self.outputs.len(),
        ensures
            self.chain_matches(pos, size_in(d.unit, u)) == d.matches_of(chain(self.outputs, g.pat, pos), u),
            self.first_match(pos, size_in(d.unit, u)) == (if chain(self.outputs, g.pat, pos).len() > 0 {
                seq![d.match_at(chain(self.outputs, g.pat, pos)[0], u)]
            } else {
                seq![]
            }),
        decreases pos,
    {
        let unit = d.unit;
        if 0 < pos {
            let o = self.outputs[pos - 1];
            assert(o.parent <= pos - 1);
            self.lemma_chain_matches(d, g, o.parent as int, u);
            let c = chain(self.outputs, g.pat, pos);
            let t = chain(self.outputs, g.pat, o.parent as int);
            assert(c == seq![g.pat[pos - 1]] + t);
            assert(d.matches_of(c, u) =~= seq![d.match_at(g.pat[pos - 1], u)] + d.matches_of(t, u));
            assert(self.entry_match(pos, size_in(unit, u)) == d.match_at(g.pat[pos - 1], u));
        } else {
            assert(d.matches_of(chain(self.outputs, g.pat, pos), u) =~= Seq::<MatchView<V>>::empty());
        }
    }
}

impl<V> AutomatonView<V> {
    /// Under the standard kind the chain of the state that stands for the text `u`
    /// reports the patterns that end where `u` ends.
    pub proof fn lemma_state_outputs(self, d: PatternSet<V>, g: Layout, s: int, u: Word)
        requires
            self.layout_ok(d, g),
            self.match_kind == MatchKind::Standard,
            g.live(s),
            g.word(s) == d.longest_node_suffix(u),
        ensures
            0 <= self.states[s].output_pos <= self.outputs.len(),
            chain(self.outputs, g.pat, self.states[s].output_pos as int) == d.suffix_patterns(u),
            self.chain_matches(self.states[s].output_pos as int, size_in(d.unit, u)) == d.matches_at(u),
            self.states[s].output_pos != 0 <==> d.suffix_patterns(u).len() > 0,
    {
        let unit = d.unit;
        let i = g.owner[s];
        assert(g.slot[i] == s);
        let pos = self.states[g.slot[i]].output_pos as int;
        d.lemma_suffix_patterns_state(u);
        self.lemma_chain_matches(d, g, pos, u);
        if pos != 0 {
            assert(self.outputs[pos - 1].parent <= pos - 1);
        }
    }

    /// The longest state suffix of a text is no longer than the text.
    pub proof fn lemma_state_len(self, d: PatternSet<V>, u: Word)
        requires
            d.valid(),
        ensures
            d.longest_node_suffix(u).len() <= u.len(),
    {
        d.lemma_longest_node_suffix(u);
    }

    /// An overlapping search reports what the patterns say.
    pub proof fn lemma_overlapping_run(self, d: PatternSet<V>, g: Layout, h: Word, k: int, s: int)
        requires
            self.layout_ok(d, g),
            self.match_kind == MatchKind::Standard,
            0 <= k <= h.len(),
            g.live(s),
            g.word(s) == d.longest_node_suffix(h.take(k)),
        ensures
            self.overlapping_run(d.unit, h, k, s) == d.overlapping_from(h, k),
        decreases h.len() - k,
    {
        let unit = d.unit;
        if k < h.len() {
            let c = h[k];
            let s1 = self.next_slot(s, code_at(self.table, c as u32), h.len());
            self.lemma_state_len(d, h.take(k));
            self.lemma_next_slot(d, g, s, c, h.len());
            d.lemma_step(h.take(k), c);
            assert(h.take(k + 1) =~= h.take(k).push(c));
            self.lemma_state_outputs(d, g, s1, h.take(k + 1));
            self.lemma_overlapping_run(d, g, h, k + 1, s1);
        }
    }

    /// A search for the longest pattern at each end reports what the patterns say.
    pub proof fn lemma_no_suffix_run(self, d: PatternSet<V>, g: Layout, h: Word, k: int, s: int)
        requires
            self.layout_ok(d, g),
            self.match_kind == MatchKind::Standard,
            0 <= k <= h.len(),
            g.live(s),
            g.word(s) == d.longest_node_suffix(h.take(k)),
        ensures
            self.no_suffix_run(d.unit, h, k, s) == d.no_suffix_from(h, k),
        decreases h.len() - k,
    {
        let unit = d.unit;
        if k < h.len() {
            let c = h[k];
            let s1 = self.next_slot(s, code_at(self.table, c as u32), h.len());
            self.lemma_state_len(d, h.take(k));
            self.lemma_next_slot(d, g, s, c, h.len());
            d.lemma_step(h.take(k), c);
            assert(h.take(k + 1) =~= h.take(k).push(c));
            self.lemma_state_outputs(d, g, s1, h.take(k + 1));
            self.lemma_chain_matches(d, g, self.states[s1].output_pos as int, h.take(k + 1));
            self.lemma_no_suffix_run(d, g, h, k + 1, s1);
        }
    }

    /// A search without overlap reports what the patterns say.
    pub proof fn lemma_find_run(self, d: PatternSet<V>, g: Layout, h: Word, p: int, k: int, s: int)
        requires
            self.layout_ok(d, g),
            self.match_kind == MatchKind::Standard,
            0 <= p <= k <= h.len(),
            g.live(s),
            g.word(s) == d.longest_node_suffix(h.subrange(p, k)),
        ensures
            self.find_run(d.unit, h, k, s) == d.find_from(h, p, k),
        decreases h.len() - k,
    {
        let unit = d.unit;
        if k < h.len() {
            let c = h[k];
            let u = h.subrange(p, k);
            let u1 = h.subrange(p, k + 1);
            let s1 = self.next_slot(s, code_at(self.table, c as u32), h.len());
            self.lemma_state_len(d, u);
            self.lemma_next_slot(d, g, s, c, h.len());
            d.lemma_step(u, c);
            assert(u1 =~= u.push(c));
            self.lemma_state_outputs(d, g, s1, u1);
            let pos = self.states[s1].output_pos as int;
            self.lemma_chain_matches(d, g, pos, h.take(k + 1));
            if pos != 0 {
                self.lemma_root(d, g);
                assert(h.subrange(k + 1, k + 1) =~= Seq::<char>::empty());
                d.lemma_root_is_node();
                self.lemma_find_run(d, g, h, k + 1, k + 1, 0);
            } else {
                self.lemma_find_run(d, g, h, p, k + 1, s1);
            }
        }
    }

    /// What a scan remembers, as the patterns name it: the pattern of the output
    /// entry instead of its position.
    pub open spec fn lift(g: Layout, best: Option<(int, int)>) -> Option<(int, int)> {
        match best {
            None => None,
            Some(b) => Some((g.pat[b.0 - 1], b.1)),
        }
    }

    /// A scan under the leftmost kinds remembers what the patterns say.
    pub proof fn lemma_scan_run(
        self,
        d: PatternSet<V>,
        g: Layout,
        h: Word,
        k: int,
        s: int,
        best: Option<(int, int)>,
    )
        requires
            self.layout_ok(d, g),
            self.match_kind != MatchKind::Standard,
            0 <= k <= h.len(),
            g.live(s),
            g.word(s).is_suffix_of(h.take(k)),
            best matches Some(b) ==> 0 < b.0 <= self.outputs.len(),
        ensures
            Self::lift(g, self.scan_run(h, k, s, best)) == d.leftmost_scan(
                h,
                k,
                g.word(s),
                Self::lift(g, best),
            ),
            self.scan_run(h, k, s, best) matches Some(b) ==> 0 < b.0 <= self.outputs.len() && (
            best == Some(b) || k < b.1 <= h.len()),
        decreases h.len() - k,
    {
        if k < h.len() {
            let c = h[k];
            let w = g.word(s);
            let s1 = self.next_slot_leftmost(s, code_at(self.table, c as u32), h.len());
            self.lemma_next_slot_leftmost(d, g, s, c, h.len());
            self.lemma_root(d, g);
            let w1 = g.word(s1);
            d.lemma_leftmost_step(w, c);
            lemma_suffix_push(w, h.take(k), c);
            assert(h.take(k + 1) =~= h.take(k).push(c));
            lemma_suffix_trans(w1, w.push(c), h.take(k + 1));
            let i = g.owner[s1];
            assert(g.slot[i] == s1);
            let pos = self.states[g.slot[i]].output_pos as int;
            let ch = chain(self.outputs, g.pat, pos);
            assert(ch == d.output_list(w1));
            assert(0 <= pos <= self.outputs.len());
            if pos != 0 {
                assert(self.outputs[pos - 1].parent <= pos - 1);
                assert(ch == seq![g.pat[pos - 1]] + chain(
                    self.outputs,
                    g.pat,
                    self.outputs[pos - 1].parent as int,
                ));
                assert(ch.len() > 0);
                assert(ch[0] == g.pat[pos - 1]);
                assert(d.leftmost_output(w1) == Some(g.pat[pos - 1]));
            } else {
                assert(ch.len() == 0);
                assert(d.leftmost_output(w1) is None);
            }
            assert(w1.len() == 0 <==> s1 == 0);
            if s1 == 0 {
                if best is None {
                    self.lemma_scan_run(d, g, h, k + 1, s1, None);
                }
            } else if pos != 0 {
                self.lemma_scan_run(d, g, h, k + 1, s1, Some((pos, k + 1)));
            } else {
                self.lemma_scan_run(d, g, h, k + 1, s1, best);
            }
        }
    }

    /// A search under the leftmost kinds reports what the patterns say.
    pub proof fn lemma_leftmost_run(self, d: PatternSet<V>, g: Layout, h: Word, p: int)
        requires
            self.layout_ok(d, g),
            self.match_kind != MatchKind::Standard,
            0 <= p <= h.len(),
        ensures
            self.leftmost_run(d.unit, h, p) == d.leftmost_from(h, p),
        decreases h.len() - p,
    {
        let unit = d.unit;
        self.lemma_root(d, g);
        lemma_suffix_refl(h.take(p));
        self.lemma_scan_run(d, g, h, p, 0, None);
        match self.scan_run(h, p, 0, None) {
            None => {},
            Some(b) => {
                if p < b.1 <= h.len() {
                    self.lemma_leftmost_run(d, g, h, b.1);
                    let o = self.outputs[b.0 - 1];
                    assert(o.length == size_in(unit, d.pats[g.pat[b.0 - 1]]));
                }
            },
        }
    }

    /// What an automaton reports on a text is what the patterns it was built from
    /// say, whatever search is made.
    pub proof fn lemma_meaning(self, d: PatternSet<V>, h: Word)
        requires
            self.recognizes(d),
        ensures
            self.match_kind == MatchKind::Standard ==> {
                &&& self.find_overlapping(d.unit, h) == d.overlapping_matches(h)
                &&& self.find_overlapping_no_suffix(d.unit, h) == d.overlapping_no_suffix_matches(h)
                &&& self.find(d.unit, h) == d.find_matches(h)
            },
            self.match_kind != MatchKind::Standard ==> self.leftmost_find(d.unit, h) == d.leftmost_matches(h),
            self.match_kind != MatchKind::Standard ==> self.leftmost_find(d.unit, h) == d.first_longest_matches(
                h,
            ),
    {
        let unit = d.unit;
        let g = choose|g: Layout| self.layout_ok(d, g);
        d.lemma_leftmost_from(h, 0);
        self.lemma_root(d, g);
        d.lemma_root_is_node();
        assert(h.take(0) =~= Seq::<char>::empty());
        assert(h.subrange(0, 0) =~= Seq::<char>::empty());
        if self.match_kind == MatchKind::Standard {
            self.lemma_overlapping_run(d, g, h, 0, 0);
            self.lemma_no_suffix_run(d, g, h, 0, 0);
            self.lemma_find_run(d, g, h, 0, 0, 0);
        } else {
            self.lemma_leftmost_run(d, g, h, 0);
        }
    }
}

} // verus!
