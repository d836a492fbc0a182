//! The trie of the patterns, with a failure link and the outputs for each state.
//!
//! The automaton is first built in this form, state after state, and then packed
//! into the double array.
use crate::charwise::iter::CharWithEndOffsetIterator;
use crate::errors::{DaachorseError, Result};
use crate::model::{size_in, word_of_bytes, PatternSet, Unit, Word};
use crate::charwise::chain;
use crate::{MatchKind, Output};
use vstd::prelude::*;
use vstd::utf8::{decode_utf8, valid_utf8};

verus! {

/// The root state id of the trie.
pub const ROOT_STATE_ID: u32 = 0;

/// The failure link of a state that has none: under the leftmost kinds a scan
/// that fails from such a state has come to its end.
pub const DEAD_STATE_ID: u32 = u32::MAX;

pub use crate::charwise::MAX_STATES;

/// A state of the trie.
pub struct NfaBuilderState<V> {
    /// The children, each with the code point of the character that leads to it.
    pub edges: Vec<(u32, u32)>,
    /// The state that the failure link leads to.
    pub fail: u32,
    /// The value and the byte length of the pattern that ends here, if one does.
    pub output: Option<(V, u32)>,
    /// The position, counted from one, of the first output entry of this state;
    /// zero when the state reports nothing.
    pub output_pos: u32,
}

/// What a trie under construction stands for.
pub struct NfaGhost<V> {
    /// The patterns added so far.
    pub dict: PatternSet<V>,
    /// The states as words, in the order in which they were created.
    pub nodes: Seq<Word>,
    /// The parent of each state.
    pub par: Seq<int>,
    /// The place of each state among the children of its parent.
    pub eix: Seq<int>,
    /// The pattern that ends at each state, or -1.
    pub pat_at: Seq<int>,
    /// The pattern that each entry of the output table reports.
    pub out_pat: Seq<int>,
}

/// A trie under construction.
pub struct NfaBuilder<V> {
    pub states: Vec<NfaBuilderState<V>>,
    pub outputs: Vec<Output<V>>,
    pub match_kind: MatchKind,
    pub gh: Ghost<NfaGhost<V>>,
}

/// The word that the bytes of a pattern stand for: the characters that the
/// bytes are the UTF-8 form of, or the bytes themselves.
pub open spec fn symbols_of(utf8: bool, bytes: Seq<u8>) -> Word {
    if utf8 {
        decode_utf8(bytes)
    } else {
        word_of_bytes(bytes)
    }
}

impl<V: Copy> NfaBuilder<V> {
    /// `w` is a state of the trie of the patterns added so far, or a prefix of the
    /// part `extra` of the pattern that is being added.
    pub open spec fn in_trie(&self, w: Word, extra: Word) -> bool {
        self.gh@.dict.is_node(w) || w.is_prefix_of(extra)
    }

    /// The child `e` of state `i` is a later state: the word of `i` with one more character.
    pub open spec fn edge_ok(&self, i: int, e: int) -> bool {
        let g = self.gh@;
        let c = self.states[i].edges[e].0;
        let t = self.states[i].edges[e].1 as int;
        &&& i < t < self.states.len()
        &&& g.par[t] == i
        &&& g.eix[t] == e
        &&& g.nodes[t].len() > 0
        &&& g.nodes[t].drop_last() == g.nodes[i]
        &&& g.nodes[t].last() as u32 == c
    }

    /// A state holds an output exactly when it is a pattern, and then the value and
    /// the byte length of that pattern.
    pub open spec fn output_ok(&self, i: int) -> bool {
        let g = self.gh@;
        match self.states[i].output {
            None => g.pat_at[i] == -1 && !g.dict.is_pattern(g.nodes[i]),
            Some(o) => {
                &&& g.dict.kept(g.pat_at[i])
                &&& g.dict.pats[g.pat_at[i]] == g.nodes[i]
                &&& o.0 == g.dict.vals[g.pat_at[i]]
                &&& o.1 == g.dict.size(g.nodes[i])
            },
        }
    }

    /// The states are the states of the trie of the patterns added so far, together
    /// with the prefixes of `extra`, each once, and the edges are those of the trie.
    pub open spec fn trie_ok(&self, extra: Word) -> bool {
        let g = self.gh@;
        let n = self.states.len();
        &&& 1 <= n <= MAX_STATES
        &&& g.nodes.len() == n
        &&& g.par.len() == n
        &&& g.eix.len() == n
        &&& g.pat_at.len() == n
        &&& g.dict.kind == self.match_kind
        &&& g.dict.consistent()
        &&& g.nodes[0] == Seq::<char>::empty()
        &&& g.nodes.no_duplicates()
        &&& forall|i: int| 0 <= i < n ==> self.in_trie(#[trigger] g.nodes[i], extra)
        &&& forall|w: Word| #[trigger] self.in_trie(w, extra) ==> g.nodes.contains(w)
        &&& forall|i: int, e: int|
            0 <= i < n && 0 <= e < self.states[i].edges.len() ==> #[trigger] self.edge_ok(i, e)
        &&& forall|t: int|
            1 <= t < n ==> 0 <= #[trigger] g.par[t] < t && 0 <= g.eix[t]
                < self.states[g.par[t]].edges.len() && self.states[g.par[t]].edges[g.eix[t]].1 == t
        &&& forall|i: int| 0 <= i < n ==> #[trigger] self.output_ok(i)
    }

    /// The edge of state `i` that leads on on the code point `c`, if there is one.
    pub open spec fn has_edge(&self, i: int, c: u32, t: u32) -> bool {
        exists|e: int|
            0 <= e < self.states[i].edges.len() && #[trigger] self.states[i].edges[e] == (c, t)
    }

    /// Creates a trie that holds the root only.
    pub fn new(match_kind: MatchKind, Ghost(unit): Ghost<Unit>) -> (r: Self)
        ensures
            r.trie_ok(Seq::<char>::empty()),
            r.gh@.dict == PatternSet::<V>::empty(match_kind, unit),
            r.outputs@.len() == 0,
            r.gh@.out_pat.len() == 0,
            r.match_kind == match_kind,
    {
        let mut states: Vec<NfaBuilderState<V>> = Vec::new();
        states.push(NfaBuilderState { edges: Vec::new(), fail: ROOT_STATE_ID, output: None, output_pos: 0 });
        let ghost empty = Seq::<char>::empty();
        let ghost g = NfaGhost {
            dict: PatternSet::<V>::empty(match_kind, unit),
            nodes: seq![empty],
            par: seq![-1int],
            eix: seq![-1int],
            pat_at: seq![-1int],
            out_pat: Seq::<int>::empty(),
        };
        let r = Self { states, outputs: Vec::new(), match_kind, gh: Ghost(g) };
        proof {
            assert(r.output_ok(0));
            assert forall|w: Word| #[trigger] r.in_trie(w, empty) implies g.nodes.contains(w) by {
                assert(!g.dict.is_node(w));
                assert(w =~= empty);
                assert(g.nodes[0] == w);
            }
            assert(empty.is_prefix_of(empty));
        }
        r
    }

    /// Returns the child of the state `state_id` on the code point `c`, if there is one.
    pub fn get_child_id(&self, state_id: u32, c: u32) -> (r: Option<u32>)
        requires
            state_id < self.states.len(),
        ensures
            r matches Some(t) ==> self.has_edge(state_id as int, c, t),
            r is None ==> forall|e: int|
                0 <= e < self.states[state_id as int].edges.len() ==> (
                #[trigger] self.states[state_id as int].edges[e]).0 != c,
    {
        let edges = &self.states[state_id as usize].edges;
        let mut e: usize = 0;
        while e < edges.len()
            invariant
                state_id < self.states.len(),
                edges == &self.states[state_id as int].edges,
                e <= edges.len(),
                forall|k: int| 0 <= k < e ==> (#[trigger] edges[k]).0 != c,
            decreases edges.len() - e,
        {
            if edges[e].0 == c {
                return Some(edges[e].1);
            }
            e += 1;
        }
        None
    }

    /// State `i` has an edge on the character `ch` exactly when its word with one
    /// more `ch` is a state, and the edge leads to that state.
    pub proof fn lemma_edge(&self, extra: Word, i: int, ch: char)
        requires
            self.trie_ok(extra),
            0 <= i < self.states.len(),
        ensures
            forall|t: u32| #[trigger]
                self.has_edge(i, ch as u32, t) ==> (t as int) < self.states.len() && i < t
                    && self.gh@.nodes[t as int] == self.gh@.nodes[i].push(ch),
            (forall|e: int|
                0 <= e < self.states[i].edges.len() ==> (#[trigger] self.states[i].edges[e]).0
                    != ch as u32) ==> !self.gh@.nodes.contains(self.gh@.nodes[i].push(ch)),
    {
        let g = self.gh@;
        let w = g.nodes[i].push(ch);
        assert forall|t: u32| #[trigger] self.has_edge(i, ch as u32, t) implies (t as int)
            < self.states.len() && i < t && g.nodes[t as int] == w by {
            let e = choose|e: int|
                0 <= e < self.states[i].edges.len() && #[trigger] self.states[i].edges[e] == (
                    ch as u32,
                    t,
                );
            assert(self.edge_ok(i, e));
            crate::charwise::mapper::lemma_char_eq(g.nodes[t as int].last(), ch);
            assert(g.nodes[t as int] =~= w);
        }
        if (forall|e: int|
            0 <= e < self.states[i].edges.len() ==> (#[trigger] self.states[i].edges[e]).0
                != ch as u32) && g.nodes.contains(w) {
            let t = g.nodes.index_of(w);
            assert(g.nodes[t] == w);
            assert(t != 0) by {
                assert(w.len() > 0);
            }
            let p = g.par[t];
            let e = g.eix[t];
            assert(self.edge_ok(p, e));
            assert(w.drop_last() =~= g.nodes[i]);
            assert(g.nodes[p] == g.nodes[i]);
            assert(p == i);
            assert(self.states[i].edges[e].0 == ch as u32);
        }
    }

    /// Adding a character to `extra` that leads to a state already there changes nothing.
    proof fn lemma_extend_existing(&self, extra: Word, longer: Word, t: int)
        requires
            self.trie_ok(extra),
            0 <= t < self.states.len(),
            self.gh@.nodes[t] == longer,
            extra.is_prefix_of(longer),
        ensures
            self.trie_ok(longer),
    {
        let g = self.gh@;
        assert(self.in_trie(g.nodes[t], extra));
        assert forall|w: Word| #[trigger] self.in_trie(w, longer) implies g.nodes.contains(w) by {
            if !g.dict.is_node(w) {
                if g.dict.is_node(longer) {
                    crate::model::lemma_prefix_is_take(w, longer);
                    g.dict.lemma_node_prefix(longer, w.len() as int);
                } else {
                    crate::model::lemma_prefix_trans(w, longer, extra);
                }
            }
            assert(self.in_trie(w, extra));
        }
        assert forall|i: int| 0 <= i < self.states.len() implies self.in_trie(
            #[trigger] g.nodes[i],
            longer,
        ) by {
            assert(self.in_trie(g.nodes[i], extra));
            if !g.dict.is_node(g.nodes[i]) {
                crate::model::lemma_prefix_trans(g.nodes[i], extra, longer);
            }
        }
    }

    /// Leaving a pattern out that extends an earlier one keeps the trie as it is.
    proof fn lemma_dropped(&self, s0: Self, p: Word, value: V, t: int)
        requires
            0 <= t < s0.states.len(),
            s0.trie_ok(s0.gh@.nodes[t]),
            s0.states[t].output is Some,
            s0.match_kind == MatchKind::LeftmostFirst,
            crate::model::proper_prefix(s0.gh@.nodes[t], p),
            p.len() > 0,
            self.states == s0.states,
            self.outputs == s0.outputs,
            self.match_kind == s0.match_kind,
            self.gh@ == (NfaGhost { dict: s0.gh@.dict.push(p, value), ..s0.gh@ }),
        ensures
            self.trie_ok(Seq::<char>::empty()),
            !s0.gh@.dict.push(p, value).kept(s0.gh@.dict.pats.len() as int),
    {
        let g = s0.gh@;
        let d = g.dict;
        let d1 = d.push(p, value);
        let n0 = d.pats.len() as int;
        let w = g.nodes[t];
        let empty = Seq::<char>::empty();
        assert(s0.output_ok(t));
        d.lemma_push_kept(p, value, g.pat_at[t]);
        assert(!d1.kept(n0)) by {
            assert(crate::model::proper_prefix(d1.pats[g.pat_at[t]], d1.pats[n0]));
        }
        assert(d.is_node(w)) by {
            d.lemma_pattern_is_node(w);
        }
        assert forall|i: int, j: int|
            #![trigger d1.kept(i), d1.kept(j)]
            d1.kept(i) && d1.kept(j) && i != j implies d1.pats[i] != d1.pats[j] by {
            d.lemma_push_kept(p, value, i);
            d.lemma_push_kept(p, value, j);
            assert(d.kept(i) && d.kept(j));
        }
        assert(d1.consistent()) by {
            assert forall|i: int| 0 <= i < d1.pats.len() implies (#[trigger] d1.pats[i]).len() > 0 by {
                d.lemma_push_kept(p, value, i);
            }
        }
        assert forall|i: int| 0 <= i < self.states.len() implies self.in_trie(
            #[trigger] self.gh@.nodes[i],
            empty,
        ) by {
            d.lemma_push_dropped(p, value, g.nodes[i]);
            assert(s0.in_trie(g.nodes[i], w));
            if !d.is_node(g.nodes[i]) {
                crate::model::lemma_prefix_is_take(g.nodes[i], w);
                d.lemma_node_prefix(w, g.nodes[i].len() as int);
            }
        }
        assert forall|x: Word| #[trigger] self.in_trie(x, empty) implies self.gh@.nodes.contains(
            x,
        ) by {
            d.lemma_push_dropped(p, value, x);
            if x.is_prefix_of(empty) {
                assert(x =~= empty);
                assert(g.nodes[0] == x);
            } else {
                assert(s0.in_trie(x, w));
            }
        }
        assert forall|i: int, e: int|
            0 <= i < self.states.len() && 0 <= e
                < self.states[i].edges.len() implies #[trigger] self.edge_ok(i, e) by {
            assert(s0.edge_ok(i, e));
        }
        assert forall|i: int| 0 <= i < self.states.len() implies #[trigger] self.output_ok(i) by {
            assert(s0.output_ok(i));
            d.lemma_push_dropped(p, value, g.nodes[i]);
            d.lemma_push_kept(p, value, g.pat_at[i]);
        }
    }

    /// Creating the child of state `i` on `ch`, which was not there, keeps the trie in order.
    proof fn lemma_created(&self, s0: Self, w: Word, w1: Word, i: int, ch: char)
        requires
            s0.trie_ok(w),
            0 <= i < s0.states.len(),
            s0.states.len() < MAX_STATES,
            s0.gh@.nodes[i] == w,
            w1 == w.push(ch),
            !s0.gh@.nodes.contains(w1),
            self.outputs == s0.outputs,
            self.match_kind == s0.match_kind,
            self.states.len() == s0.states.len() + 1,
            forall|j: int| 0 <= j < s0.states.len() && j != i ==> self.states[j] == s0.states[j],
            self.states[i].edges@ == s0.states[i].edges@.push((ch as u32, s0.states.len() as u32)),
            self.states[i].output == s0.states[i].output,
            self.states[s0.states.len() as int].edges@.len() == 0,
            self.states[s0.states.len() as int].output is None,
            self.gh@ == (NfaGhost {
                nodes: s0.gh@.nodes.push(w1),
                par: s0.gh@.par.push(i),
                eix: s0.gh@.eix.push(s0.states[i].edges@.len() as int),
                pat_at: s0.gh@.pat_at.push(-1),
                ..s0.gh@
            }),
        ensures
            self.trie_ok(w1),
    {
        let g = s0.gh@;
        let g1 = self.gh@;
        let n = s0.states.len() as int;
        let d = g.dict;
        assert(w.is_prefix_of(w1)) by {
            assert(w =~= w1.subrange(0, w.len() as int));
        }
        assert(w1.is_prefix_of(w1)) by {
            assert(w1 =~= w1.subrange(0, w1.len() as int));
        }
        assert(g1.nodes.no_duplicates()) by {
            assert forall|a: int, b: int|
                0 <= a < g1.nodes.len() && 0 <= b < g1.nodes.len() && a != b implies g1.nodes[a]
                != g1.nodes[b] by {
                if a == n {
                    assert(g.nodes[b] == g1.nodes[b]);
                } else if b == n {
                    assert(g.nodes[a] == g1.nodes[a]);
                } else {
                    assert(g.nodes[a] != g.nodes[b]);
                }
            }
        }
        assert forall|j: int| 0 <= j < self.states.len() implies self.in_trie(
            #[trigger] g1.nodes[j],
            w1,
        ) by {
            if j < n {
                assert(s0.in_trie(g.nodes[j], w));
                if !d.is_node(g.nodes[j]) {
                    crate::model::lemma_prefix_trans(g.nodes[j], w, w1);
                }
            }
        }
        assert forall|x: Word| #[trigger] self.in_trie(x, w1) implies g1.nodes.contains(x) by {
            if d.is_node(x) {
                assert(s0.in_trie(x, w));
                let j = g.nodes.index_of(x);
                assert(g1.nodes[j] == x);
            } else if x.len() == w1.len() {
                assert(x =~= w1);
                assert(g1.nodes[n] == x);
            } else {
                assert(x.is_prefix_of(w)) by {
                    assert(x =~= w.subrange(0, x.len() as int));
                }
                assert(s0.in_trie(x, w));
                let j = g.nodes.index_of(x);
                assert(g1.nodes[j] == x);
            }
        }
        assert forall|j: int, e: int|
            0 <= j < self.states.len() && 0 <= e
                < self.states[j].edges.len() implies #[trigger] self.edge_ok(j, e) by {
            if j == n {
            } else if j == i && e == s0.states[i].edges@.len() {
                assert(self.states[i].edges@[e] == (ch as u32, n as u32));
                assert(g1.nodes[n].drop_last() =~= w);
            } else {
                if j == i {
                    assert(self.states[i].edges@[e] == s0.states[i].edges@[e]);
                }
                assert(s0.edge_ok(j, e));
            }
        }
        assert forall|t: int| 1 <= t < self.states.len() implies 0 <= #[trigger] g1.par[t] < t && 0
            <= g1.eix[t] < self.states[g1.par[t]].edges.len()
            && self.states[g1.par[t]].edges[g1.eix[t]].1 == t by {
            if t < n {
                assert(0 <= g.par[t] < t);
                if g.par[t] == i {
                    assert(self.states[i].edges@[g.eix[t]] == s0.states[i].edges@[g.eix[t]]);
                }
            } else {
                assert(self.states[i].edges@[g1.eix[t]] == (ch as u32, n as u32));
            }
        }
        assert forall|j: int| 0 <= j < self.states.len() implies #[trigger] self.output_ok(j) by {
            if j < n {
                assert(s0.output_ok(j));
            } else {
                if d.is_pattern(w1) {
                    d.lemma_pattern_is_node(w1);
                    assert(s0.in_trie(w1, w));
                }
            }
        }
    }

    /// The trie of the patterns added so far has no more states than the builder holds.
    pub proof fn lemma_count(&self, extra: Word)
        requires
            self.trie_ok(extra),
        ensures
            self.gh@.dict.at_most_nodes(self.states.len() as nat),
            self.gh@.dict.at_most_nodes(MAX_STATES as nat),
    {
        let g = self.gh@;
        assert forall|ns: Seq<Word>|
            #![trigger ns.no_duplicates()]
            ns.no_duplicates() && (forall|i: int| 0 <= i < ns.len() ==> g.dict.is_node(
                #[trigger] ns[i],
            )) implies ns.len() <= self.states.len() by {
            assert forall|i: int| 0 <= i < ns.len() implies g.nodes.contains(#[trigger] ns[i]) by {
                assert(self.in_trie(ns[i], extra));
            }
            crate::model::lemma_injection_len(ns, g.nodes);
        }
    }

    /// The trie of a finished pattern set has as many states as the builder holds.
    pub proof fn lemma_exact_count(&self)
        requires
            self.trie_ok(Seq::<char>::empty()),
            self.gh@.dict.pats.len() > 0,
        ensures
            forall|n: nat| #[trigger] self.gh@.dict.at_most_nodes(n) ==> self.states.len() <= n,
    {
        let g = self.gh@;
        assert forall|i: int| 0 <= i < g.nodes.len() implies g.dict.is_node(#[trigger] g.nodes[i]) by {
            self.lemma_nodes(i, 'a');
        }
        assert(g.nodes.no_duplicates());
    }

    /// When the trie is full and the pattern that is being added needs one state
    /// more, the trie of the patterns with this one has too many states.
    proof fn lemma_full(&self, p: Word, value: V, k: int, i: int)
        requires
            0 <= k < p.len(),
            self.trie_ok(p.take(k)),
            self.states.len() >= MAX_STATES,
            0 <= i < self.states.len(),
            self.gh@.nodes[i] == p.take(k),
            !self.gh@.nodes.contains(p.take(k).push(p[k])),
            self.match_kind == MatchKind::LeftmostFirst ==> forall|j: int|
                0 <= j <= k ==> !self.gh@.dict.is_pattern(#[trigger] p.take(j)),
        ensures
            !self.gh@.dict.push(p, value).at_most_nodes(MAX_STATES as nat),
            self.gh@.dict.push(p, value).kept(self.gh@.dict.pats.len() as int),
            !self.gh@.dict.is_pattern(p),
    {
        let g = self.gh@;
        let d = g.dict;
        let d1 = d.push(p, value);
        let n0 = d.pats.len() as int;
        let w = p.take(k);
        let w1 = p.take(k + 1);
        assert(w1 =~= w.push(p[k]));
        crate::model::lemma_take_prefix(p, k);
        crate::model::lemma_take_prefix(p, k + 1);
        d.lemma_push_kept(p, value, 0);
        // the pattern takes part
        if self.match_kind == MatchKind::LeftmostFirst {
            assert forall|j: int| 0 <= j < n0 implies !crate::model::proper_prefix(
                #[trigger] d1.pats[j],
                d1.pats[n0],
            ) by {
                d.lemma_push_kept(p, value, j);
                if crate::model::proper_prefix(d.pats[j], p) {
                    d.lemma_kept_prefix(j, p);
                    let x = choose|x: int| #[trigger]
                        d.kept(x) && x <= j && crate::model::proper_prefix(d.pats[x], p);
                    let m = d.pats[x].len() as int;
                    crate::model::lemma_prefix_is_take(d.pats[x], p);
                    assert(d.is_pattern(p.take(m)));
                    if m > k {
                        d.lemma_pattern_is_node(p.take(m));
                        d.lemma_node_prefix(p.take(m), k + 1);
                        assert(p.take(m).take(k + 1) =~= w1);
                        assert(self.in_trie(w1, w));
                    }
                }
            }
        }
        assert(d1.kept(n0));
        if d.is_pattern(p) {
            d.lemma_pattern_is_node(p);
            d.lemma_node_prefix(p, k + 1);
            assert(self.in_trie(w1, w));
        }
        let ns = g.nodes.push(w1);
        assert(ns.no_duplicates()) by {
            assert forall|a: int, b: int|
                0 <= a < ns.len() && 0 <= b < ns.len() && a != b implies ns[a] != ns[b] by {
                if a < g.nodes.len() && b < g.nodes.len() {
                    assert(g.nodes[a] != g.nodes[b]);
                }
            }
        }
        assert forall|j: int| 0 <= j < ns.len() implies d1.is_node(#[trigger] ns[j]) by {
            d.lemma_push_node(p, value, ns[j]);
            if j < g.nodes.len() {
                assert(self.in_trie(g.nodes[j], w));
                if !d.is_node(g.nodes[j]) {
                    crate::model::lemma_prefix_trans(g.nodes[j], w, p);
                }
            }
        }
    }

    /// Adds the pattern whose UTF-8 form is `pattern`, with the value `value`.
    ///
    /// An empty pattern and a pattern that was added before are refused. Under the
    /// leftmost-first kind a pattern that extends an earlier one is accepted and
    /// left out of the trie.
    pub fn add(&mut self, pattern: &[u8], utf8: bool, value: V) -> (r: Result<()>)
        requires
            utf8 ==> valid_utf8(pattern@) && old(self).gh@.dict.unit == Unit::Chars,
            !utf8 ==> old(self).gh@.dict.unit == Unit::Bytes,
            old(self).trie_ok(Seq::<char>::empty()),
        ensures
            r is Ok ==> {
                &&& final(self).trie_ok(Seq::<char>::empty())
                &&& final(self).gh@.dict == old(self).gh@.dict.push(symbols_of(utf8, pattern@), value)
                &&& final(self).outputs == old(self).outputs
                &&& final(self).gh@.out_pat == old(self).gh@.out_pat
                &&& final(self).match_kind == old(self).match_kind
            },
            r is Ok <==> old(self).gh@.dict.push_fault(symbols_of(utf8, pattern@), value) is None,
            r matches Err(e) ==> old(self).gh@.dict.push_fault(symbols_of(utf8, pattern@), value)
                == Some(e),
    {
        let ghost p = symbols_of(utf8, pattern@);
        let ghost d = self.gh@.dict;
        let ghost n0 = d.pats.len() as int;
        let ghost d1 = d.push(p, value);
        let ghost empty = Seq::<char>::empty();
        proof {
            if utf8 {
                vstd::utf8::decode_utf8_encode_utf8(pattern@);
                crate::model::lemma_byte_len_lower(p);
                if p.len() == 0 {
                    assert(vstd::utf8::encode_utf8(p) =~= Seq::<u8>::empty());
                }
            }
            d.lemma_push_kept(p, value, 0);
        }
        if pattern.len() == 0 {
            return Err(DaachorseError::InvalidArgument);
        }
        if pattern.len() > u32::MAX as usize {
            return Err(DaachorseError::AutomatonScale);
        }
        let length = pattern.len() as u32;
        let mut it = if utf8 {
            CharWithEndOffsetIterator::new(pattern)
        } else {
            CharWithEndOffsetIterator::new_bytes(pattern)
        };
        let mut state_id: u32 = ROOT_STATE_ID;
        proof {
            assert(p.take(0) =~= empty);
        }
        loop
            invariant
                it.wf(),
                it.text() == p,
                p == symbols_of(utf8, pattern@),
                d == old(self).gh@.dict,
                p.len() > 0,
                length == d.size(p),
                d1 == d.push(p, value),
                n0 == d.pats.len(),
                self.trie_ok(p.take(it.index())),
                self.gh@.dict == d,
                self.outputs == old(self).outputs,
                self.gh@.out_pat == old(self).gh@.out_pat,
                self.match_kind == old(self).match_kind,
                state_id < self.states.len(),
                self.gh@.nodes[state_id as int] == p.take(it.index()),
                self.match_kind == MatchKind::LeftmostFirst ==> forall|j: int|
                    0 <= j < it.index() ==> !d.is_pattern(#[trigger] p.take(j)),
            decreases p.len() - it.index(),
        {
            let ghost k = it.index();
            let ghost w = p.take(k);
            let ghost g = self.gh@;
            let ghost s0 = *self;
            proof {
                it.lemma_bounds();
                assert(self.output_ok(state_id as int));
                crate::model::lemma_take_prefix(p, k);
            }
            match it.next() {
                None => {
                    proof {
                        assert(w =~= p);
                        if self.match_kind == MatchKind::LeftmostFirst {
                            assert forall|j: int| 0 <= j < n0 implies !crate::model::proper_prefix(
                                #[trigger] d1.pats[j],
                                d1.pats[n0],
                            ) by {
                                d.lemma_push_kept(p, value, j);
                                if crate::model::proper_prefix(d.pats[j], p) {
                                    d.lemma_kept_prefix(j, p);
                                    let i = choose|i: int| #[trigger]
                                        d.kept(i) && i <= j && crate::model::proper_prefix(
                                            d.pats[i],
                                            p,
                                        );
                                    crate::model::lemma_prefix_is_take(d.pats[i], p);
                                    assert(d.is_pattern(p.take(d.pats[i].len() as int)));
                                }
                            }
                        }
                        assert(d1.kept(n0));
                    }
                    if self.states[state_id as usize].output.is_some() {
                        return Err(DaachorseError::DuplicatePattern);
                    }
                    self.states[state_id as usize].output = Some((value, length));
                    proof {
                        self.gh@ = NfaGhost {
                            dict: d1,
                            pat_at: g.pat_at.update(state_id as int, n0),
                            ..g
                        };
                        let g1 = self.gh@;
                        let empty = Seq::<char>::empty();
                        assert forall|i: int, j: int|
                            #![trigger d1.kept(i), d1.kept(j)]
                            d1.kept(i) && d1.kept(j) && i != j implies d1.pats[i] != d1.pats[j] by {
                            d.lemma_push_kept(p, value, i);
                            d.lemma_push_kept(p, value, j);
                            if i < n0 && j < n0 {
                                assert(d.kept(i) && d.kept(j));
                            } else if i < n0 {
                                assert(d.kept(i) && d.pats[i] == d.pats[i]);
                            } else if j < n0 {
                                assert(d.kept(j) && d.pats[j] == d.pats[j]);
                            }
                        }
                        assert(d1.consistent()) by {
                            assert forall|i: int| 0 <= i < d1.pats.len() implies (
                            #[trigger] d1.pats[i]).len() > 0 by {
                                d.lemma_push_kept(p, value, i);
                            }
                        }
                        assert forall|i: int| 0 <= i < self.states.len() implies self.in_trie(
                            #[trigger] g1.nodes[i],
                            empty,
                        ) by {
                            d.lemma_push_node(p, value, g.nodes[i]);
                            assert(s0.in_trie(g.nodes[i], p));
                        }
                        assert forall|x: Word| #[trigger] self.in_trie(x, empty) implies g1.nodes.contains(
                            x,
                        ) by {
                            d.lemma_push_node(p, value, x);
                            if x.is_prefix_of(empty) {
                                assert(x =~= empty);
                                assert(g1.nodes[0] == x);
                            } else {
                                assert(s0.in_trie(x, p));
                            }
                        }
                        assert forall|i: int, e: int|
                            0 <= i < self.states.len() && 0 <= e
                                < self.states[i].edges.len() implies #[trigger] self.edge_ok(i, e) by {
                            assert(s0.edge_ok(i, e));
                        }
                        assert forall|t: int| 1 <= t < self.states.len() implies 0 <= #[trigger] g1.par[t]
                            < t && 0 <= g1.eix[t] < self.states[g1.par[t]].edges.len()
                            && self.states[g1.par[t]].edges[g1.eix[t]].1 == t by {
                            assert(0 <= g.par[t] < t);
                        }
                        assert forall|i: int| 0 <= i < self.states.len() implies #[trigger] self.output_ok(
                            i,
                        ) by {
                            assert(s0.output_ok(i));
                            d.lemma_push_node(p, value, g.nodes[i]);
                            d.lemma_push_kept(p, value, g.pat_at[i]);
                        }
                        self.lemma_count(Seq::<char>::empty());
                    }
                    return Ok(());
                },
                Some((_, c)) => {
                    let ghost ch = p[k];
                    let ghost w1 = p.take(k + 1);
                    proof {
                        assert(w1 =~= w.push(ch));
                        crate::model::lemma_take_prefix(p, k + 1);
                        assert(w.is_prefix_of(w1)) by {
                            assert(w =~= w1.subrange(0, k));
                        }
                    }
                    if self.match_kind.is_leftmost_first() && self.states[state_id as usize].output.is_some() {
                        proof {
                            self.gh@ = NfaGhost { dict: d1, ..g };
                            self.lemma_dropped(s0, p, value, state_id as int);
                        }
                        return Ok(());
                    }
                    proof {
                        self.lemma_edge(w, state_id as int, ch);
                        if self.match_kind == MatchKind::LeftmostFirst {
                            assert(!d.is_pattern(p.take(k)));
                        }
                    }
                    match self.get_child_id(state_id, c) {
                        Some(next) => {
                            proof {
                                self.lemma_extend_existing(w, w1, next as int);
                            }
                            state_id = next;
                        },
                        None => {
                            if self.states.len() >= MAX_STATES as usize {
                                proof {
                                    self.lemma_full(p, value, k, state_id as int);
                                }
                                return Err(DaachorseError::AutomatonScale);
                            }
                            let next = self.states.len() as u32;
                            self.states[state_id as usize].edges.push((c, next));
                            self.states.push(
                                NfaBuilderState {
                                    edges: Vec::new(),
                                    fail: ROOT_STATE_ID,
                                    output: None,
                                    output_pos: 0,
                                },
                            );
                            proof {
                                self.gh@ = NfaGhost {
                                    nodes: g.nodes.push(w1),
                                    par: g.par.push(state_id as int),
                                    eix: g.eix.push(self.states[state_id as int].edges.len() - 1),
                                    pat_at: g.pat_at.push(-1),
                                    ..g
                                };
                                self.lemma_created(s0, w, w1, state_id as int, ch);
                            }
                            state_id = next;
                        },
                    }
                },
            }
        }
    }
}

/// The order in which the states get their failure links: a state comes after
/// every shorter state.
pub struct BfsGhost {
    /// The place of each state in the queue, or -1.
    pub pos: Seq<int>,
}

impl<V: Copy> NfaBuilder<V> {
    /// The failure link of state `i` leads where the trie says.
    pub open spec fn fail_ok_at(&self, i: int) -> bool {
        let g = self.gh@;
        match g.dict.fail_target(g.nodes[i]) {
            Some(v) => self.states[i].fail < self.states.len() && g.nodes[self.states[i].fail as int]
                == v,
            None => self.states[i].fail == DEAD_STATE_ID,
        }
    }

    /// The failure links of all states of at most `bound` characters are in place.
    pub open spec fn fails_ok_upto(&self, bound: int) -> bool {
        forall|t: int|
            1 <= t < self.states.len() && self.gh@.nodes[t].len() <= bound ==> #[trigger] self.fail_ok_at(
                t,
            )
    }

    /// The failure links of all states are in place.
    pub open spec fn fails_ok(&self) -> bool {
        &&& self.states[0].fail == ROOT_STATE_ID
        &&& forall|t: int| 1 <= t < self.states.len() ==> #[trigger] self.fail_ok_at(t)
    }

    /// Two tries with the same edges and outputs stand for the same patterns.
    pub proof fn lemma_frame(&self, s0: Self, extra: Word)
        requires
            s0.trie_ok(extra),
            self.gh@.dict == s0.gh@.dict,
            self.gh@.nodes == s0.gh@.nodes,
            self.gh@.par == s0.gh@.par,
            self.gh@.eix == s0.gh@.eix,
            self.gh@.pat_at == s0.gh@.pat_at,
            self.match_kind == s0.match_kind,
            self.states.len() == s0.states.len(),
            forall|i: int|
                0 <= i < s0.states.len() ==> (#[trigger] self.states[i]).edges == s0.states[i].edges
                    && self.states[i].output == s0.states[i].output,
        ensures
            self.trie_ok(extra),
    {
        let g = self.gh@;
        assert forall|i: int| 0 <= i < self.states.len() implies self.in_trie(
            #[trigger] g.nodes[i],
            extra,
        ) by {
            assert(s0.in_trie(g.nodes[i], extra));
        }
        assert forall|w: Word| #[trigger] self.in_trie(w, extra) implies g.nodes.contains(w) by {
            assert(s0.in_trie(w, extra));
        }
        assert forall|i: int, e: int|
            0 <= i < self.states.len() && 0 <= e
                < self.states[i].edges.len() implies #[trigger] self.edge_ok(i, e) by {
            assert(self.states[i].edges == s0.states[i].edges);
            assert(s0.edge_ok(i, e));
        }
        assert forall|t: int| 1 <= t < self.states.len() implies 0 <= #[trigger] g.par[t] < t && 0
            <= g.eix[t] < self.states[g.par[t]].edges.len()
            && self.states[g.par[t]].edges[g.eix[t]].1 == t by {
            assert(0 <= s0.gh@.par[t] < t);
            assert(self.states[g.par[t]].edges == s0.states[g.par[t]].edges);
        }
        assert forall|i: int| 0 <= i < self.states.len() implies #[trigger] self.output_ok(i) by {
            assert(self.states[i].output == s0.states[i].output);
            assert(s0.output_ok(i));
        }
    }

    /// In a finished trie the words of the states are the states of the pattern set.
    pub proof fn lemma_nodes(&self, i: int, ch: char)
        requires
            self.trie_ok(Seq::<char>::empty()),
            self.gh@.dict.pats.len() > 0,
            0 <= i < self.states.len(),
        ensures
            self.gh@.dict.is_node(self.gh@.nodes[i]),
            self.gh@.dict.is_node(self.gh@.nodes[i].push(ch)) <==> self.gh@.nodes.contains(
                self.gh@.nodes[i].push(ch),
            ),
            i > 0 ==> self.gh@.nodes[i].len() > 0,
            self.gh@.nodes[0].len() == 0,
    {
        let g = self.gh@;
        let empty = Seq::<char>::empty();
        g.dict.lemma_root_is_node();
        let w = g.nodes[i];
        assert(self.in_trie(w, empty));
        if !g.dict.is_node(w) {
            assert(w =~= empty);
        }
        let w1 = w.push(ch);
        if g.dict.is_node(w1) {
            assert(self.in_trie(w1, empty));
        }
        if g.nodes.contains(w1) {
            let t = g.nodes.index_of(w1);
            assert(self.in_trie(g.nodes[t], empty));
            assert(!w1.is_prefix_of(empty));
        }
        if i > 0 && w.len() == 0 {
            assert(w =~= g.nodes[0]);
        }
    }

    /// Looks under the standard kind for the state that reading the character `c`
    /// from the state `from` leads to: the child on `c` of the first state that has
    /// one, among `from` and those that its failure links lead to, or else the root.
    fn fail_walk(&self, from: u32, c: u32, Ghost(ch): Ghost<char>, Ghost(bound): Ghost<int>) -> (r: u32)
        requires
            self.trie_ok(Seq::<char>::empty()),
            self.gh@.dict.pats.len() > 0,
            self.match_kind == MatchKind::Standard,
            from < self.states.len(),
            c == ch as u32,
            self.gh@.nodes[from as int].len() <= bound,
            self.fails_ok_upto(bound),
        ensures
            r < self.states.len(),
            self.gh@.nodes[r as int] == self.gh@.dict.step(self.gh@.nodes[from as int], ch),
    {
        let ghost g = self.gh@;
        let ghost d = g.dict;
        let mut cur = from;
        loop
            invariant
                self.trie_ok(Seq::<char>::empty()),
                d.pats.len() > 0,
                self.match_kind == MatchKind::Standard,
                g == self.gh@,
                d == g.dict,
                from < self.states.len(),
                cur < self.states.len(),
                c == ch as u32,
                g.nodes[cur as int].len() <= bound,
                self.fails_ok_upto(bound),
                d.step(g.nodes[cur as int], ch) == d.step(g.nodes[from as int], ch),
            decreases g.nodes[cur as int].len(),
        {
            let ghost w = g.nodes[cur as int];
            proof {
                self.lemma_edge(Seq::<char>::empty(), cur as int, ch);
                self.lemma_nodes(cur as int, ch);
                d.lemma_step_unfold(w, ch);
            }
            match self.get_child_id(cur, c) {
                Some(x) => {
                    proof {
                        assert(g.nodes.contains(g.nodes[x as int]));
                    }
                    return x;
                },
                None => {},
            }
            if cur == ROOT_STATE_ID {
                return ROOT_STATE_ID;
            }
            proof {
                assert(self.fail_ok_at(cur as int));
                d.lemma_fail_shorter(w);
            }
            cur = self.states[cur as usize].fail;
        }
    }

    /// Looks under the leftmost kinds for the state that reading the character `c`
    /// from the state `from` leads to. Returns the dead state when the walk comes to
    /// a state whose failure link is dead before it finds a child on `c`.
    fn fail_walk_leftmost(
        &self,
        from: u32,
        c: u32,
        Ghost(ch): Ghost<char>,
        Ghost(bound): Ghost<int>,
    ) -> (r: u32)
        requires
            self.trie_ok(Seq::<char>::empty()),
            self.gh@.dict.pats.len() > 0,
            self.match_kind != MatchKind::Standard,
            self.states[0].fail == ROOT_STATE_ID,
            from < self.states.len(),
            c == ch as u32,
            self.gh@.nodes[from as int].len() <= bound,
            self.fails_ok_upto(bound),
        ensures
            self.gh@.dict.leftmost_walk_dead(self.gh@.nodes[from as int], ch) ==> r == DEAD_STATE_ID,
            !self.gh@.dict.leftmost_walk_dead(self.gh@.nodes[from as int], ch) ==> r
                < self.states.len() && self.gh@.nodes[r as int] == self.gh@.dict.step(
                self.gh@.nodes[from as int],
                ch,
            ),
    {
        let ghost g = self.gh@;
        let ghost d = g.dict;
        let mut cur = from;
        loop
            invariant
                self.trie_ok(Seq::<char>::empty()),
                d.pats.len() > 0,
                self.match_kind != MatchKind::Standard,
                self.states[0].fail == ROOT_STATE_ID,
                g == self.gh@,
                d == g.dict,
                from < self.states.len(),
                cur < self.states.len(),
                c == ch as u32,
                g.nodes[cur as int].len() <= bound,
                self.fails_ok_upto(bound),
                d.step(g.nodes[cur as int], ch) == d.step(g.nodes[from as int], ch),
                d.leftmost_walk_dead(g.nodes[cur as int], ch) == d.leftmost_walk_dead(
                    g.nodes[from as int],
                    ch,
                ),
            decreases g.nodes[cur as int].len(),
        {
            let ghost w = g.nodes[cur as int];
            proof {
                self.lemma_edge(Seq::<char>::empty(), cur as int, ch);
                self.lemma_nodes(cur as int, ch);
                d.lemma_step_unfold(w, ch);
            }
            match self.get_child_id(cur, c) {
                Some(x) => {
                    proof {
                        assert(g.nodes.contains(g.nodes[x as int]));
                    }
                    return x;
                },
                None => {},
            }
            let next = self.states[cur as usize].fail;
            proof {
                if cur != 0 {
                    assert(self.fail_ok_at(cur as int));
                    d.lemma_fail_shorter(w);
                }
            }
            if next == DEAD_STATE_ID {
                return DEAD_STATE_ID;
            }
            if cur == ROOT_STATE_ID {
                return ROOT_STATE_ID;
            }
            cur = next;
        }
    }
}

impl<V: Copy> NfaBuilder<V> {
    /// Sets the failure link of the child `e` of the state `s`, and returns the child.
    ///
    /// The link of a child of the root leads to the root. The link of any other
    /// child is found from the link of its parent. Under the leftmost kinds the link
    /// of a pattern is dead, and so is a link that is found along a dead link.
    fn set_child_fail(&mut self, s: u32, e: usize) -> (child: u32)
        requires
            old(self).trie_ok(Seq::<char>::empty()),
            old(self).gh@.dict.pats.len() > 0,
            old(self).states[0].fail == ROOT_STATE_ID,
            s < old(self).states.len(),
            e < old(self).states[s as int].edges.len(),
            s != 0 ==> old(self).fail_ok_at(s as int),
            old(self).fails_ok_upto(old(self).gh@.nodes[s as int].len() - 1),
        ensures
            final(self).trie_ok(Seq::<char>::empty()),
            final(self).gh@ == old(self).gh@,
            final(self).outputs == old(self).outputs,
            final(self).match_kind == old(self).match_kind,
            final(self).states.len() == old(self).states.len(),
            child == old(self).states[s as int].edges[e as int].1,
            s < child < old(self).states.len(),
            final(self).fail_ok_at(child as int),
            forall|i: int|
                0 <= i < old(self).states.len() && i != child ==> #[trigger] final(self).states[i]
                    == old(self).states[i],
            final(self).states[child as int].edges == old(self).states[child as int].edges,
            final(self).states[child as int].output == old(self).states[child as int].output,
            final(self).states[child as int].output_pos == old(self).states[child as int].output_pos,
    {
        let ghost s0 = *self;
        let ghost g = self.gh@;
        let ghost d = g.dict;
        let ghost w = g.nodes[s as int];
        let edge = self.states[s as usize].edges[e];
        let c = edge.0;
        let child = edge.1;
        let ghost w1 = g.nodes[child as int];
        let ghost ch = w1.last();
        let ghost bound = w.len() - 1;
        proof {
            assert(self.edge_ok(s as int, e as int));
            assert(w1 =~= w.push(ch));
            self.lemma_nodes(s as int, ch);
            self.lemma_nodes(child as int, ch);
            d.lemma_fail_child(w, ch);
            assert(self.output_ok(child as int));
            if w.len() > 0 {
                d.lemma_fail_shorter(w);
            }
            d.lemma_fail_shorter(w1);
            assert(w1.drop_last() =~= w);
        }
        let nf = if self.match_kind.is_standard() {
            if s == ROOT_STATE_ID {
                ROOT_STATE_ID
            } else {
                self.fail_walk(self.states[s as usize].fail, c, Ghost(ch), Ghost(bound))
            }
        } else if self.states[child as usize].output.is_some() {
            proof {
                assert(d.is_pattern(w1));
            }
            DEAD_STATE_ID
        } else if s == ROOT_STATE_ID {
            ROOT_STATE_ID
        } else {
            let pf = self.states[s as usize].fail;
            if pf == DEAD_STATE_ID {
                DEAD_STATE_ID
            } else {
                self.fail_walk_leftmost(pf, c, Ghost(ch), Ghost(bound))
            }
        };
        self.states[child as usize].fail = nf;
        proof {
            self.lemma_frame(s0, Seq::<char>::empty());
        }
        child
    }
}

impl<V: Copy> NfaBuilder<V> {
    /// The turn of state `t`: -1 for the root, the place in the queue for a state
    /// that is in it, and a turn that never comes for every other state.
    pub open spec fn rank(&self, b: BfsGhost, t: int) -> int {
        if t == 0 {
            -1
        } else if b.pos[t] >= 0 {
            b.pos[t]
        } else {
            self.states.len() as int
        }
    }

    /// State `t` has got its failure link: its parent had its turn before `qi`, or
    /// has it now and has come to its child `e` already.
    pub open spec fn in_front(&self, b: BfsGhost, t: int, qi: int, e: int) -> bool {
        let g = self.gh@;
        self.rank(b, g.par[t]) < qi || (self.rank(b, g.par[t]) == qi && g.eix[t] < e)
    }

    /// The number of characters of the state whose turn it is.
    pub open spec fn turn_depth(&self, q: Seq<u32>, qi: int) -> int {
        if qi < 0 {
            0
        } else {
            self.gh@.nodes[q[qi] as int].len() as int
        }
    }

    /// The queue holds the states that have got their failure link, the shorter first.
    pub open spec fn bfs_ok(&self, q: Seq<u32>, b: BfsGhost, qi: int, e: int) -> bool {
        let g = self.gh@;
        let n = self.states.len();
        &&& b.pos.len() == n
        &&& -1 <= qi <= q.len()
        &&& self.states[0].fail == ROOT_STATE_ID
        &&& forall|j: int|
            0 <= j < q.len() ==> 1 <= #[trigger] q[j] < n && b.pos[q[j] as int] == j
                && self.fail_ok_at(q[j] as int)
        &&& forall|t: int|
            0 <= t < n && #[trigger] b.pos[t] >= 0 ==> b.pos[t] < q.len() && q[b.pos[t]] == t
        &&& forall|t: int| 1 <= t < n ==> (b.pos[t] >= 0 <==> #[trigger] self.in_front(b, t, qi, e))
        &&& forall|j: int, k: int|
            0 <= j <= k < q.len() ==> g.nodes[#[trigger] q[j] as int].len() <= g.nodes[
            #[trigger] q[k] as int].len()
        &&& qi < q.len() ==> forall|j: int|
            0 <= j < q.len() ==> g.nodes[#[trigger] q[j] as int].len() <= self.turn_depth(q, qi) + 1
    }

    /// Every state that is no longer than the state whose turn it is is in the queue.
    proof fn lemma_shorter_queued(&self, q: Seq<u32>, b: BfsGhost, qi: int, e: int, t: int)
        requires
            self.trie_ok(Seq::<char>::empty()),
            self.gh@.dict.pats.len() > 0,
            self.bfs_ok(q, b, qi, e),
            qi < q.len(),
            1 <= t < self.states.len(),
            self.gh@.nodes[t].len() <= self.turn_depth(q, qi),
        ensures
            b.pos[t] >= 0,
            self.fail_ok_at(t),
        decreases t,
    {
        let g = self.gh@;
        let p = g.par[t];
        assert(0 <= p < t);
        let ex = g.eix[t];
        assert(self.edge_ok(p, ex));
        self.lemma_nodes(t, 'a');
        assert(qi >= 0);
        if p == 0 {
            assert(self.in_front(b, t, qi, e));
        } else {
            self.lemma_shorter_queued(q, b, qi, e, p);
            let j = b.pos[p];
            assert(q[j] == p);
            if j >= qi {
                assert(g.nodes[q[qi] as int].len() <= g.nodes[q[j] as int].len());
            }
            assert(self.in_front(b, t, qi, e));
        }
        assert(q[b.pos[t]] == t);
    }

    /// When the state whose turn it is is done with its children, the next state has its turn.
    proof fn lemma_next_turn(&self, q: Seq<u32>, b: BfsGhost, qi: int, s: int)
        requires
            self.trie_ok(Seq::<char>::empty()),
            self.gh@.dict.pats.len() > 0,
            self.bfs_ok(q, b, qi, self.states[s].edges.len() as int),
            qi < q.len(),
            s == (if qi < 0 {
                0
            } else {
                q[qi] as int
            }),
        ensures
            self.bfs_ok(q, b, qi + 1, 0),
    {
        let g = self.gh@;
        let n = self.states.len();
        let e = self.states[s].edges.len() as int;
        self.lemma_queue_len(q, b, qi, e);
        assert forall|t: int| 1 <= t < n implies (b.pos[t] >= 0 <==> #[trigger] self.in_front(
            b,
            t,
            qi + 1,
            0,
        )) by {
            assert(self.in_front(b, t, qi, e) == (b.pos[t] >= 0));
            let p = g.par[t];
            assert(0 <= p < t);
            if self.rank(b, p) == qi {
                if qi >= 0 {
                    assert(q[b.pos[p]] == p);
                }
                assert(p == s);
            }
        }
        if qi + 1 < q.len() {
            assert forall|j: int| 0 <= j < q.len() implies g.nodes[#[trigger] q[j] as int].len()
                <= self.turn_depth(q, qi + 1) + 1 by {
                if qi >= 0 {
                    assert(g.nodes[q[qi] as int].len() <= g.nodes[q[qi + 1] as int].len());
                }
            }
        }
    }

    /// When every state in the queue has had its turn, every state is in the queue.
    proof fn lemma_all_queued(&self, q: Seq<u32>, b: BfsGhost, t: int)
        requires
            self.trie_ok(Seq::<char>::empty()),
            self.bfs_ok(q, b, q.len() as int, 0),
            1 <= t < self.states.len(),
        ensures
            b.pos[t] >= 0,
            self.fail_ok_at(t),
        decreases t,
    {
        let g = self.gh@;
        let p = g.par[t];
        assert(0 <= p < t);
        if p != 0 {
            self.lemma_all_queued(q, b, p);
        }
        assert(self.in_front(b, t, q.len() as int, 0));
        assert(q[b.pos[t]] == t);
    }

    /// The queue is no longer than the trie has states.
    proof fn lemma_queue_len(&self, q: Seq<u32>, b: BfsGhost, qi: int, e: int)
        requires
            self.bfs_ok(q, b, qi, e),
            self.states.len() >= 1,
        ensures
            q.len() < self.states.len(),
            q.no_duplicates(),
    {
        let n = self.states.len() as int;
        let all = Seq::new((n - 1) as nat, |i: int| (i + 1) as u32);
        assert forall|j: int, k: int| 0 <= j < q.len() && 0 <= k < q.len() && j != k implies q[j]
            != q[k] by {
            assert(b.pos[q[j] as int] == j);
            assert(b.pos[q[k] as int] == k);
        }
        assert forall|j: int| 0 <= j < q.len() implies all.contains(#[trigger] q[j]) by {
            assert(all[q[j] as int - 1] == q[j]);
        }
        crate::model::lemma_injection_len(q, all);
    }
}

impl<V: Copy> NfaBuilder<V> {
    /// A child that has just got its failure link joins the queue at its end.
    proof fn lemma_push_child(
        &self,
        s0: Self,
        q0: Seq<u32>,
        b0: BfsGhost,
        qi: int,
        s: int,
        e: int,
        child: u32,
    )
        requires
            s0.trie_ok(Seq::<char>::empty()),
            self.trie_ok(Seq::<char>::empty()),
            s0.gh@.dict.pats.len() > 0,
            s0.bfs_ok(q0, b0, qi, e),
            qi < q0.len(),
            s == (if qi < 0 {
                0
            } else {
                q0[qi] as int
            }),
            0 <= e < s0.states[s].edges.len(),
            child == s0.states[s].edges[e].1,
            self.gh@ == s0.gh@,
            self.states.len() == s0.states.len(),
            self.fail_ok_at(child as int),
            forall|i: int|
                0 <= i < s0.states.len() && i != child ==> #[trigger] self.states[i] == s0.states[i],
            self.states[child as int].edges == s0.states[child as int].edges,
        ensures
            self.bfs_ok(
                q0.push(child),
                BfsGhost { pos: b0.pos.update(child as int, q0.len() as int) },
                qi,
                e + 1,
            ),
    {
        let g = self.gh@;
        let n = self.states.len() as int;
        let q1 = q0.push(child);
        let b1 = BfsGhost { pos: b0.pos.update(child as int, q0.len() as int) };
        let c = child as int;
        s0.lemma_queue_len(q0, b0, qi, e);
        assert(s0.edge_ok(s, e));
        assert(s0.rank(b0, s) == qi) by {
            if qi >= 0 {
                assert(b0.pos[q0[qi] as int] == qi);
            }
        }
        assert(!s0.in_front(b0, c, qi, e));
        assert(b0.pos[c] < 0);
        assert(s != c);
        assert(self.states[0] == s0.states[0]);
        assert forall|j: int| 0 <= j < q1.len() implies 1 <= #[trigger] q1[j] < n && b1.pos[q1[j] as int]
            == j && self.fail_ok_at(q1[j] as int) by {
            if j < q0.len() {
                assert(q0[j] == q1[j]);
                assert(b0.pos[q0[j] as int] == j);
                assert(s0.fail_ok_at(q0[j] as int));
                assert(self.states[q0[j] as int] == s0.states[q0[j] as int]);
            }
        }
        assert forall|t: int| 0 <= t < n && #[trigger] b1.pos[t] >= 0 implies b1.pos[t] < q1.len()
            && q1[b1.pos[t]] == t by {
            if t != c {
                assert(b0.pos[t] >= 0);
            }
        }
        assert forall|t: int| 1 <= t < n implies (b1.pos[t] >= 0 <==> #[trigger] self.in_front(
            b1,
            t,
            qi,
            e + 1,
        )) by {
            let p = g.par[t];
            assert(0 <= p < t);
            assert(s0.in_front(b0, t, qi, e) == (b0.pos[t] >= 0));
            if t == c {
                assert(self.rank(b1, s) == qi);
            } else if p == c {
                assert(s0.rank(b0, p) == n);
                assert(self.rank(b1, p) == q0.len());
            } else {
                assert(self.rank(b1, p) == s0.rank(b0, p));
                if s0.rank(b0, p) == qi {
                    if qi >= 0 {
                        assert(q0[b0.pos[p]] == p);
                    }
                    assert(p == s);
                    assert(s0.states[g.par[t]].edges[g.eix[t]].1 == t);
                }
            }
        }
        assert forall|j: int, k: int| 0 <= j <= k < q1.len() implies g.nodes[
        #[trigger] q1[j] as int].len() <= g.nodes[#[trigger] q1[k] as int].len() by {
            if k < q0.len() {
                assert(g.nodes[q0[j] as int].len() <= g.nodes[q0[k] as int].len());
            } else if j < q0.len() {
                assert(g.nodes[q0[j] as int].len() <= s0.turn_depth(q0, qi) + 1);
            }
        }
        assert forall|j: int| 0 <= j < q1.len() implies g.nodes[#[trigger] q1[j] as int].len()
            <= self.turn_depth(q1, qi) + 1 by {
            if j < q0.len() {
                assert(g.nodes[q0[j] as int].len() <= s0.turn_depth(q0, qi) + 1);
            }
        }
    }

    /// Gives every child of the state `s` its failure link and puts it in the queue.
    fn expand(&mut self, s: u32, q: &mut Vec<u32>, Ghost(b): Ghost<BfsGhost>, Ghost(qi): Ghost<int>) -> (r:
        Ghost<BfsGhost>)
        requires
            old(self).trie_ok(Seq::<char>::empty()),
            old(self).gh@.dict.pats.len() > 0,
            old(self).bfs_ok(old(q)@, b, qi, 0),
            qi < old(q)@.len(),
            s == (if qi < 0 {
                0
            } else {
                old(q)@[qi] as int
            }),
        ensures
            final(self).trie_ok(Seq::<char>::empty()),
            final(self).gh@ == old(self).gh@,
            final(self).outputs == old(self).outputs,
            final(self).match_kind == old(self).match_kind,
            final(self).states.len() == old(self).states.len(),
            final(self).bfs_ok(final(q)@, r@, qi + 1, 0),
            old(q)@.is_prefix_of(final(q)@),
            forall|i: int|
                0 <= i < old(self).states.len() ==> (#[trigger] final(self).states[i]).output_pos
                    == old(self).states[i].output_pos,
    {
        let ghost mut b = b;
        let ghost q_old = q@;
        let ghost st_old = self.states@;
        let mut e: usize = 0;
        proof {
            assert(q@ =~= q@.subrange(0, q@.len() as int));
        }
        while e < self.states[s as usize].edges.len()
            invariant
                self.trie_ok(Seq::<char>::empty()),
                self.gh@.dict.pats.len() > 0,
                self.gh@ == old(self).gh@,
                self.outputs == old(self).outputs,
                self.match_kind == old(self).match_kind,
                self.states.len() == old(self).states.len(),
                st_old == old(self).states@,
                self.bfs_ok(q@, b, qi, e as int),
                qi < q_old.len(),
                q_old.is_prefix_of(q@),
                s < self.states.len(),
                s == (if qi < 0 {
                    0
                } else {
                    q_old[qi] as int
                }),
                e <= self.states[s as int].edges.len(),
                forall|i: int|
                    0 <= i < st_old.len() ==> (#[trigger] self.states[i]).output_pos
                        == st_old[i].output_pos,
            decreases self.states[s as int].edges.len() - e,
        {
            let ghost s0 = *self;
            let ghost q0 = q@;
            proof {
                assert(qi >= 0 ==> q@[qi] == q_old[qi]) by {
                    if qi >= 0 {
                        assert(q_old[qi] == q@.subrange(0, q_old.len() as int)[qi]);
                    }
                }
                if s != 0 {
                    self.lemma_shorter_queued(q@, b, qi, e as int, s as int);
                }
                assert(self.fails_ok_upto(self.gh@.nodes[s as int].len() - 1)) by {
                    assert forall|t: int|
                        1 <= t < self.states.len() && self.gh@.nodes[t].len()
                            <= self.gh@.nodes[s as int].len() - 1 implies #[trigger] self.fail_ok_at(
                        t,
                    ) by {
                        self.lemma_nodes(t, 'a');
                        self.lemma_nodes(s as int, 'a');
                        self.lemma_shorter_queued(q@, b, qi, e as int, t);
                    }
                }
            }
            let child = self.set_child_fail(s, e);
            q.push(child);
            proof {
                self.lemma_push_child(s0, q0, b, qi, s as int, e as int, child);
                b = BfsGhost { pos: b.pos.update(child as int, q0.len() as int) };
                assert(q_old.is_prefix_of(q@)) by {
                    assert(q_old =~= q@.subrange(0, q_old.len() as int)) by {
                        assert forall|k: int| 0 <= k < q_old.len() implies q_old[k] == q@[k] by {
                            assert(q_old[k] == q0.subrange(0, q_old.len() as int)[k]);
                        }
                    }
                }
                assert(self.states[s as int].edges == s0.states[s as int].edges);
            }
            e += 1;
        }
        proof {
            assert(qi >= 0 ==> q@[qi] == q_old[qi]) by {
                if qi >= 0 {
                    assert(q_old[qi] == q@.subrange(0, q_old.len() as int)[qi]);
                }
            }
            self.lemma_next_turn(q@, b, qi, s as int);
        }
        Ghost(b)
    }

    /// Gives every state its failure link, the shorter states first, and returns the
    /// states other than the root in the order in which they got theirs.
    pub fn build_fails(&mut self) -> (q: Vec<u32>)
        requires
            old(self).trie_ok(Seq::<char>::empty()),
            old(self).gh@.dict.pats.len() > 0,
        ensures
            final(self).trie_ok(Seq::<char>::empty()),
            final(self).gh@ == old(self).gh@,
            final(self).outputs == old(self).outputs,
            final(self).match_kind == old(self).match_kind,
            final(self).states.len() == old(self).states.len(),
            final(self).fails_ok(),
            final(self).order_ok(q@),
            forall|i: int|
                0 <= i < old(self).states.len() ==> (#[trigger] final(self).states[i]).output_pos
                    == old(self).states[i].output_pos,
    {
        let ghost st_old = self.states@;
        let ghost s0 = *self;
        let mut q: Vec<u32> = Vec::new();
        self.states[0].fail = ROOT_STATE_ID;
        let ghost n = self.states.len() as int;
        let ghost mut b = BfsGhost { pos: Seq::new(n as nat, |i: int| -1int) };
        proof {
            self.lemma_frame(s0, Seq::<char>::empty());
            assert forall|t: int| 1 <= t < n implies (b.pos[t] >= 0 <==> #[trigger] self.in_front(
                b,
                t,
                -1,
                0,
            )) by {
                assert(0 <= self.gh@.par[t] < t);
            }
            assert(self.bfs_ok(q@, b, -1, 0));
        }
        let Ghost(b1) = self.expand(ROOT_STATE_ID, &mut q, Ghost(b), Ghost(-1));
        proof {
            b = b1;
        }
        let mut qi: usize = 0;
        while qi < q.len()
            invariant
                self.trie_ok(Seq::<char>::empty()),
                self.gh@.dict.pats.len() > 0,
                self.gh@ == old(self).gh@,
                self.outputs == old(self).outputs,
                self.match_kind == old(self).match_kind,
                self.states.len() == old(self).states.len(),
                st_old == old(self).states@,
                self.bfs_ok(q@, b, qi as int, 0),
                forall|i: int|
                    0 <= i < st_old.len() ==> (#[trigger] self.states[i]).output_pos
                        == st_old[i].output_pos,
            decreases self.states.len() - qi,
        {
            proof {
                self.lemma_queue_len(q@, b, qi as int, 0);
            }
            let s = q[qi];
            let Ghost(b2) = self.expand(s, &mut q, Ghost(b), Ghost(qi as int));
            proof {
                b = b2;
            }
            qi += 1;
        }
        proof {
            self.lemma_queue_len(q@, b, qi as int, 0);
            assert forall|t: int| 1 <= t < self.states.len() implies #[trigger] self.fail_ok_at(t) by {
                self.lemma_all_queued(q@, b, t);
            }
            assert forall|t: u32| 1 <= t < self.states.len() implies #[trigger] q@.contains(t) by {
                self.lemma_all_queued(q@, b, t as int);
                assert(q@[b.pos[t as int]] == t);
            }
        }
        q
    }

    /// `q` holds every state but the root once, and no state before a shorter one.
    pub open spec fn order_ok(&self, q: Seq<u32>) -> bool {
        &&& q.no_duplicates()
        &&& forall|j: int| 0 <= j < q.len() ==> 1 <= #[trigger] q[j] < self.states.len()
        &&& forall|t: u32| 1 <= t < self.states.len() ==> #[trigger] q.contains(t)
        &&& forall|j: int, k: int|
            0 <= j <= k < q.len() ==> self.gh@.nodes[#[trigger] q[j] as int].len() <= self.gh@.nodes[
            #[trigger] q[k] as int].len()
    }
}

/// A chain of output entries does not change when an entry is put behind it.
pub proof fn lemma_chain_push<V>(outputs: Seq<Output<V>>, pat: Seq<int>, o: Output<V>, x: int, pos: int)
    requires
        pat.len() == outputs.len(),
        0 <= pos <= outputs.len(),
    ensures
        chain(outputs.push(o), pat.push(x), pos) == chain(outputs, pat, pos),
    decreases pos,
{
    if 0 < pos && outputs[pos - 1].parent < pos {
        lemma_chain_push(outputs, pat, o, x, outputs[pos - 1].parent as int);
        assert(outputs.push(o)[pos - 1] == outputs[pos - 1]);
        assert(pat.push(x)[pos - 1] == pat[pos - 1]);
    }
}

impl<V: Copy> NfaBuilder<V> {
    /// Every entry of the output table holds the value and the byte length of the
    /// pattern it reports, and points to an earlier entry or to none.
    pub open spec fn entries_ok(&self) -> bool {
        let g = self.gh@;
        &&& g.out_pat.len() == self.outputs.len()
        &&& forall|k: int|
            0 <= k < self.outputs.len() ==> {
                let o = #[trigger] self.outputs[k];
                &&& o.parent <= k
                &&& g.dict.kept(g.out_pat[k])
                &&& o.value == g.dict.vals[g.out_pat[k]]
                &&& o.length == g.dict.size(g.dict.pats[g.out_pat[k]])
            }
    }

    /// State `i` reports the patterns that the trie says it reports.
    pub open spec fn out_ok_at(&self, i: int) -> bool {
        let pos = self.states[i].output_pos as int;
        &&& pos <= self.outputs.len()
        &&& chain(self.outputs@, self.gh@.out_pat, pos) == self.gh@.dict.output_list(
            self.gh@.nodes[i],
        )
    }

    /// Every state reports the patterns that the trie says it reports.
    pub open spec fn outs_ok(&self) -> bool {
        forall|i: int| 0 <= i < self.states.len() ==> #[trigger] self.out_ok_at(i)
    }

    /// What a state reports: the pattern that ends at it, if one does, and then
    /// what the state behind its failure link reports.
    proof fn lemma_output_list(&self, i: int)
        requires
            self.trie_ok(Seq::<char>::empty()),
            self.gh@.dict.valid(),
            self.fails_ok(),
            1 <= i < self.states.len(),
        ensures
            self.gh@.dict.output_list(self.gh@.nodes[i]) == (match self.states[i].output {
                Some(o) => seq![self.gh@.pat_at[i]],
                None => Seq::<int>::empty(),
            }) + (if self.states[i].fail == DEAD_STATE_ID {
                Seq::<int>::empty()
            } else {
                self.gh@.dict.output_list(self.gh@.nodes[self.states[i].fail as int])
            }),
            self.states[i].fail != DEAD_STATE_ID ==> self.states[i].fail < self.states.len()
                && self.gh@.nodes[self.states[i].fail as int].len() < self.gh@.nodes[i].len(),
    {
        let g = self.gh@;
        let d = g.dict;
        let w = g.nodes[i];
        self.lemma_nodes(i, 'a');
        assert(self.output_ok(i));
        assert(self.fail_ok_at(i));
        d.lemma_fail_shorter(w);
        d.lemma_suffix_patterns_fail(w);
        if self.states[i].output is Some {
            d.lemma_pattern_index(g.pat_at[i]);
        }
        if d.kind == MatchKind::Standard {
        } else {
            let f = d.fail_of(w);
            if d.is_pattern(w) {
                assert(d.leftmost_dead(w));
                assert(d.output_list(w) =~= seq![g.pat_at[i]] + Seq::<int>::empty());
            } else if d.leftmost_dead(w) {
                assert(d.output_list(w) =~= Seq::<int>::empty() + Seq::<int>::empty());
            } else {
                assert(d.leftmost_output(w) == d.leftmost_output(f));
                assert(d.output_list(w) =~= Seq::<int>::empty() + d.output_list(f));
            }
        }
    }

    /// An order of the states is shorter than the trie has states.
    proof fn lemma_order_len(&self, q: Seq<u32>)
        requires
            self.order_ok(q),
            self.states.len() >= 1,
        ensures
            q.len() < self.states.len(),
    {
        let n = self.states.len() as int;
        let all = Seq::new((n - 1) as nat, |i: int| (i + 1) as u32);
        assert forall|j: int| 0 <= j < q.len() implies all.contains(#[trigger] q[j]) by {
            assert(all[q[j] as int - 1] == q[j]);
        }
        crate::model::lemma_injection_len(q, all);
    }

    /// Puts together, for every state, the patterns that it reports: the pattern
    /// that ends at it, and then what the state behind its failure link reports.
    /// The states are taken in the order `q`, so that the shorter come first.
    pub fn build_outputs(&mut self, q: &Vec<u32>)
        requires
            old(self).trie_ok(Seq::<char>::empty()),
            old(self).gh@.dict.valid(),
            old(self).fails_ok(),
            old(self).order_ok(q@),
            old(self).outputs@.len() == 0,
            old(self).gh@.out_pat.len() == 0,
        ensures
            final(self).trie_ok(Seq::<char>::empty()),
            final(self).gh@.dict == old(self).gh@.dict,
            final(self).gh@.nodes == old(self).gh@.nodes,
            final(self).match_kind == old(self).match_kind,
            final(self).states.len() == old(self).states.len(),
            final(self).fails_ok(),
            final(self).entries_ok(),
            final(self).outs_ok(),
            final(self).outputs.len() < old(self).states.len(),
    {
        let ghost s_in = *self;
        self.states[0].output_pos = 0;
        proof {
            s_in.lemma_order_len(q@);
            self.lemma_frame(s_in, Seq::<char>::empty());
            assert forall|t: int| 1 <= t < self.states.len() implies #[trigger] self.fail_ok_at(t) by {
                assert(s_in.fail_ok_at(t));
            }
            self.lemma_nodes(0, 'a');
            assert(self.gh@.nodes[0] =~= Seq::<char>::empty());
            assert(self.out_ok_at(0)) by {
                reveal_with_fuel(chain, 1);
                assert(self.gh@.dict.suffix_patterns(Seq::<char>::empty()) =~= Seq::<int>::empty());
                assert(self.gh@.dict.leftmost_output(Seq::<char>::empty()) is None);
                assert(chain(self.outputs@, self.gh@.out_pat, 0) =~= Seq::<int>::empty());
            }
        }
        let mut j: usize = 0;
        while j < q.len()
            invariant
                self.trie_ok(Seq::<char>::empty()),
                self.gh@.dict.valid(),
                self.gh@.dict == old(self).gh@.dict,
                self.gh@.nodes == old(self).gh@.nodes,
                self.match_kind == old(self).match_kind,
                self.states.len() == old(self).states.len(),
                self.fails_ok(),
                self.order_ok(q@),
                self.entries_ok(),
                self.outputs.len() <= j,
                j <= q.len(),
                q.len() < self.states.len(),
                self.out_ok_at(0),
                forall|k: int| 0 <= k < j ==> self.out_ok_at(#[trigger] q@[k] as int),
            decreases q.len() - j,
        {
            let ghost s0 = *self;
            let ghost g = self.gh@;
            let s = q[j];
            let fail = self.states[s as usize].fail;
            proof {
                self.lemma_output_list(s as int);
                if fail != DEAD_STATE_ID && fail != 0 {
                    assert(q@.contains(fail));
                    let k = choose|k: int| 0 <= k < q@.len() && q@[k] == fail;
                    if k >= j {
                        assert(g.nodes[q@[j as int] as int].len() <= g.nodes[q@[k] as int].len());
                    }
                    assert(self.out_ok_at(q@[k] as int));
                }
            }
            let fail_pos = if fail == DEAD_STATE_ID {
                0
            } else {
                self.states[fail as usize].output_pos
            };
            proof {
                if fail == DEAD_STATE_ID {
                    assert(chain(self.outputs@, g.out_pat, 0) =~= Seq::<int>::empty());
                }
                assert(chain(self.outputs@, g.out_pat, fail_pos as int) == (if fail
                    == DEAD_STATE_ID {
                    Seq::<int>::empty()
                } else {
                    g.dict.output_list(g.nodes[fail as int])
                }));
                assert(self.output_ok(s as int));
            }
            match self.states[s as usize].output {
                None => {
                    self.states[s as usize].output_pos = fail_pos;
                    proof {
                        self.lemma_frame(s0, Seq::<char>::empty());
                        assert forall|t: int| 1 <= t < self.states.len() implies #[trigger] self.fail_ok_at(
                            t,
                        ) by {
                            assert(s0.fail_ok_at(t));
                        }
                        assert(self.out_ok_at(s as int)) by {
                            assert(Seq::<int>::empty() + chain(
                                self.outputs@,
                                g.out_pat,
                                fail_pos as int,
                            ) =~= chain(self.outputs@, g.out_pat, fail_pos as int));
                        }
                        assert forall|k: int| 0 <= k < j + 1 implies self.out_ok_at(
                            #[trigger] q@[k] as int,
                        ) by {
                            if k < j {
                                assert(s0.out_ok_at(q@[k] as int));
                                assert(q@[k] != q@[j as int]);
                            }
                        }
                        assert(self.outputs == s0.outputs);
                    }
                },
                Some(o) => {
                    let ghost x = g.pat_at[s as int];
                    let ghost outs0 = self.outputs@;
                    let entry = Output { value: o.0, length: o.1, parent: fail_pos };
                    self.outputs.push(entry);
                    let pos = self.outputs.len() as u32;
                    self.states[s as usize].output_pos = pos;
                    proof {
                        self.gh@ = NfaGhost { out_pat: g.out_pat.push(x), ..g };
                        let g1 = self.gh@;
                        self.lemma_frame(s0, Seq::<char>::empty());
                        assert forall|t: int| 1 <= t < self.states.len() implies #[trigger] self.fail_ok_at(
                            t,
                        ) by {
                            assert(s0.fail_ok_at(t));
                        }
                        assert(self.entries_ok()) by {
                            assert forall|k: int| 0 <= k < self.outputs.len() implies {
                                let o = #[trigger] self.outputs[k];
                                &&& o.parent <= k
                                &&& g1.dict.kept(g1.out_pat[k])
                                &&& o.value == g1.dict.vals[g1.out_pat[k]]
                                &&& o.length == g1.dict.size(g1.dict.pats[g1.out_pat[k]])
                            } by {
                                if k < outs0.len() {
                                    assert(s0.outputs[k] == self.outputs[k]);
                                }
                            }
                        }
                        assert forall|i: int| 0 <= i < self.states.len() && i != s
                            && s0.out_ok_at(i) implies self.out_ok_at(i) by {
                            lemma_chain_push(outs0, g.out_pat, entry, x, s0.states[i].output_pos as int);
                        }
                        assert(self.out_ok_at(s as int)) by {
                            lemma_chain_push(outs0, g.out_pat, entry, x, fail_pos as int);
                            assert(self.outputs@[pos - 1] == entry);
                            assert(chain(self.outputs@, g1.out_pat, pos as int) == seq![x] + chain(
                                self.outputs@,
                                g1.out_pat,
                                fail_pos as int,
                            ));
                        }
                        assert forall|k: int| 0 <= k < j + 1 implies self.out_ok_at(
                            #[trigger] q@[k] as int,
                        ) by {
                            if k < j {
                                assert(s0.out_ok_at(q@[k] as int));
                                assert(q@[k] != q@[j as int]);
                            }
                        }
                    }
                },
            }
            j += 1;
        }
        proof {
            assert forall|i: int| 0 <= i < self.states.len() implies #[trigger] self.out_ok_at(i) by {
                if i > 0 {
                    assert(q@.contains(i as u32));
                    let k = choose|k: int| 0 <= k < q@.len() && q@[k] == i as u32;
                    assert(self.out_ok_at(q@[k] as int));
                }
            }
        }
    }
}

} // verus!
