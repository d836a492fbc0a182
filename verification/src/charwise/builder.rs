//! Builds a character-wise automaton: the trie of the patterns is packed into a
//! double array, state after state.
use crate::build_helper::{is_pow2, lemma_xor_in_range, low_mask, BuildHelper, MAX_SLOTS};
use crate::charwise::mapper::{code_at, identity_table, table_ok, CodeMapper};
use crate::charwise::{child_slot, AutomatonView, CharwiseDoubleArrayAhoCorasick, Layout, State, DEAD_STATE_IDX, ROOT_STATE_IDX};
use crate::errors::{DaachorseError, Result};
use crate::model::{PatternSet, Unit, Word};
use crate::nfa_builder::{symbols_of, NfaBuilder, DEAD_STATE_ID};
use crate::MatchKind;
use vstd::prelude::*;

verus! {

/// State `t` of the trie has a slot when the children of the state `i` up to the
/// child `e` have been placed: the root, the children of earlier states, and the
/// first `e` children of `i`.
pub open spec fn placed<V: Copy>(nfa: &NfaBuilder<V>, t: int, i: int, e: int) -> bool {
    t == 0 || nfa.gh@.par[t] < i || (nfa.gh@.par[t] == i && nfa.gh@.eix[t] < e)
}

/// Every character that labels an edge of the trie has a code.
pub open spec fn labels_mapped<V: Copy>(nfa: &NfaBuilder<V>, table: Seq<u32>) -> bool {
    forall|p: int, e: int|
        0 <= p < nfa.states.len() && 0 <= e < nfa.states[p].edges.len() ==> code_at(
            table,
            (#[trigger] nfa.states[p].edges[e]).0,
        ) is Some
}

/// The double array while the states of a trie are packed into it.
pub struct PackState {
    pub states: Vec<State>,
    pub helper: BuildHelper,
    pub slot_map: Vec<u32>,
    /// For each slot the state that lies in it, or -1.
    pub owner: Ghost<Seq<int>>,
}

impl PackState {
    /// The edge `e` of the state `p` is in the double array, under the base `b`.
    pub open spec fn edge_packed<V: Copy>(
        &self,
        nfa: &NfaBuilder<V>,
        table: Seq<u32>,
        p: int,
        e: int,
        b: u32,
    ) -> bool {
        let c = nfa.states[p].edges[e].0;
        let t = nfa.states[p].edges[e].1 as int;
        &&& code_at(table, c) is Some
        &&& b != 0
        &&& self.slot_map[t] == b ^ code_at(table, c)->0
        &&& self.states[self.slot_map[t] as int].check == self.slot_map[p]
    }

    /// The states placed so far lie in slots of their own, and the edges of the
    /// states before `i`, and the first `e` edges of `i`, are in the double array.
    pub open spec fn pack_ok<V: Copy>(
        &self,
        nfa: &NfaBuilder<V>,
        mapper: &CodeMapper,
        i: int,
        e: int,
        pending: u32,
    ) -> bool {
        let n = nfa.states.len();
        let len = self.states.len();
        let owner = self.owner@;
        let table = mapper.table@;
        &&& self.helper.wf()
        &&& self.helper.spec_len() == len
        &&& owner.len() == len
        &&& self.slot_map.len() == n
        &&& 0 <= i <= n
        &&& mapper.alphabet_size <= self.helper.block_len
        &&& table_ok(table, mapper.alphabet_size)
        &&& labels_mapped(nfa, table)
        &&& self.slot_map[0] == 0
        &&& owner[0] == 0
        &&& owner[1] == -1
        &&& self.states[0].check == DEAD_STATE_IDX
        &&& forall|t: int|
            0 <= t < n && placed(nfa, t, i, e) ==> (#[trigger] self.slot_map[t]) < self.helper.fresh
                && self.slot_map[t] != 1 && owner[self.slot_map[t] as int] == t
        &&& forall|s: int|
            0 <= s < len && (#[trigger] owner[s]) >= 0 ==> owner[s] < n && placed(nfa, owner[s], i, e)
                && self.slot_map[owner[s]] == s
        &&& forall|s: int|
            0 <= s < len ==> ((#[trigger] self.helper.used@[s]) <==> (owner[s] >= 0 || s == 1))
        &&& forall|s: int| 0 <= s < len && owner[s] < 0 ==> (#[trigger] self.states[s]) == State::unused()
        &&& forall|s: int| 0 <= s < len ==> (#[trigger] self.states[s]).base < self.helper.fresh
        &&& forall|p: int, f2: int|
            0 <= p < i && 0 <= f2 < nfa.states[p].edges.len() ==> #[trigger] self.edge_packed(
                nfa,
                table,
                p,
                f2,
                self.states[self.slot_map[p] as int].base,
            )
        &&& forall|f2: int| 0 <= f2 < e ==> #[trigger] self.edge_packed(nfa, table, i, f2, pending)
        &&& forall|t: int|
            0 <= t < n && placed(nfa, t, i, e) && t >= i ==> self.states[(
            #[trigger] self.slot_map[t]) as int].base == 0
    }
}

/// Two edges of one state carry characters with different codes.
pub proof fn lemma_codes_distinct<V: Copy>(nfa: &NfaBuilder<V>, table: Seq<u32>, alphabet_size: u32, i: int, e1: int, f2: int)
    requires
        nfa.trie_ok(Seq::<char>::empty()),
        table_ok(table, alphabet_size),
        labels_mapped(nfa, table),
        0 <= i < nfa.states.len(),
        0 <= e1 < nfa.states[i].edges.len(),
        0 <= f2 < nfa.states[i].edges.len(),
        e1 != f2,
    ensures
        code_at(table, nfa.states[i].edges[e1].0) != code_at(table, nfa.states[i].edges[f2].0),
        nfa.states[i].edges[e1].1 != nfa.states[i].edges[f2].1,
{
    let g = nfa.gh@;
    let c1 = nfa.states[i].edges[e1].0;
    let c2 = nfa.states[i].edges[f2].0;
    let t1 = nfa.states[i].edges[e1].1 as int;
    let t2 = nfa.states[i].edges[f2].1 as int;
    assert(nfa.edge_ok(i, e1));
    assert(nfa.edge_ok(i, f2));
    assert(t1 != t2);
    if c1 == c2 {
        crate::charwise::mapper::lemma_char_eq(g.nodes[t1].last(), g.nodes[t2].last());
        assert(g.nodes[t1] =~= g.nodes[t1].drop_last().push(g.nodes[t1].last()));
        assert(g.nodes[t2] =~= g.nodes[t2].drop_last().push(g.nodes[t2].last()));
        assert(g.nodes[t1] == g.nodes[t2]);
    }
    assert(code_at(table, c1) is Some);
    assert(code_at(table, c2) is Some);
}

impl PackState {
    /// The codes of the characters on the edges of the state `i` are what `codes` holds.
    pub open spec fn codes_of<V: Copy>(nfa: &NfaBuilder<V>, table: Seq<u32>, i: int, codes: Seq<u32>) -> bool {
        &&& codes.len() == nfa.states[i].edges.len()
        &&& forall|e: int|
            0 <= e < codes.len() ==> code_at(table, nfa.states[i].edges[e].0) == Some(
                #[trigger] codes[e],
            )
    }

    /// Returns the codes of the characters on the edges of the state `i`.
    fn collect_codes<V: Copy>(nfa: &NfaBuilder<V>, mapper: &CodeMapper, i: u32) -> (codes: Vec<u32>)
        requires
            i < nfa.states.len(),
            table_ok(mapper.table@, mapper.alphabet_size),
            labels_mapped(nfa, mapper.table@),
        ensures
            Self::codes_of(nfa, mapper.table@, i as int, codes@),
            forall|e: int| 0 <= e < codes@.len() ==> (#[trigger] codes@[e]) < mapper.alphabet_size,
    {
        let mut codes: Vec<u32> = Vec::new();
        let mut e: usize = 0;
        let edges = &nfa.states[i as usize].edges;
        while e < edges.len()
            invariant
                i < nfa.states.len(),
                edges == &nfa.states[i as int].edges,
                table_ok(mapper.table@, mapper.alphabet_size),
                labels_mapped(nfa, mapper.table@),
                e <= edges.len(),
                codes@.len() == e,
                forall|k: int|
                    0 <= k < e ==> code_at(mapper.table@, nfa.states[i as int].edges[k].0) == Some(
                        #[trigger] codes@[k],
                    ),
                forall|k: int| 0 <= k < e ==> (#[trigger] codes@[k]) < mapper.alphabet_size,
            decreases edges.len() - e,
        {
            let label = edges[e].0;
            proof {
                assert(code_at(mapper.table@, nfa.states[i as int].edges[e as int].0) is Some);
            }
            match mapper.get(label) {
                Some(x) => {
                    proof {
                        assert(mapper.table@[label as int] != crate::charwise::mapper::INVALID_CODE);
                    }
                    codes.push(x);
                },
                None => {
                    proof {
                        assert(false);
                    }
                },
            }
            e += 1;
        }
        codes
    }

    /// Placing the child `e` of the state `i` keeps the packing in order.
    proof fn lemma_place<V: Copy>(
        &self,
        s0: &PackState,
        nfa: &NfaBuilder<V>,
        mapper: &CodeMapper,
        i: int,
        e: int,
        base: u32,
        codes: Seq<u32>,
    )
        requires
            nfa.trie_ok(Seq::<char>::empty()),
            s0.pack_ok(nfa, mapper, i, e, base),
            0 <= i < nfa.states.len(),
            0 <= e < nfa.states[i].edges.len(),
            Self::codes_of(nfa, mapper.table@, i, codes),
            base != 0,
            (base ^ codes[e]) < s0.helper.fresh,
            !s0.helper.used@[(base ^ codes[e]) as int],
            self.helper.wf(),
            self.helper.used@ == s0.helper.used@.update((base ^ codes[e]) as int, true),
            self.helper.block_len == s0.helper.block_len,
            self.helper.fresh == s0.helper.fresh,
            self.states@ == s0.states@.update(
                (base ^ codes[e]) as int,
                State { check: s0.slot_map[i], ..s0.states[(base ^ codes[e]) as int] },
            ),
            self.slot_map@ == s0.slot_map@.update(nfa.states[i].edges[e].1 as int, base ^ codes[e]),
            self.owner@ == s0.owner@.update((base ^ codes[e]) as int, nfa.states[i].edges[e].1 as int),
        ensures
            self.pack_ok(nfa, mapper, i, e + 1, base),
    {
        let n = nfa.states.len() as int;
        let len = self.states.len() as int;
        let table = mapper.table@;
        let idx = (base ^ codes[e]) as int;
        let child = nfa.states[i].edges[e].1 as int;
        let g = nfa.gh@;
        assert(nfa.edge_ok(i, e));
        assert(!placed(nfa, child, i, e));
        assert(s0.owner@[idx] < 0);
        assert(s0.states[idx] == State::unused());
        assert forall|t: int| 0 <= t < n implies (placed(nfa, t, i, e + 1) <==> (placed(nfa, t, i, e)
            || t == child)) by {
            if t != 0 && g.par[t] == i && g.eix[t] == e {
                assert(0 <= g.par[t] < t);
                assert(nfa.states[g.par[t]].edges[g.eix[t]].1 == t);
            }
        }
        assert forall|t: int| 0 <= t < n && placed(nfa, t, i, e + 1) implies (
        #[trigger] self.slot_map[t]) < self.helper.fresh && self.slot_map[t] != 1
            && self.owner@[self.slot_map[t] as int] == t by {
            if t != child {
                assert(s0.slot_map[t] < s0.helper.fresh);
                assert(s0.helper.used@[s0.slot_map[t] as int]);
            }
        }
        assert forall|s: int| 0 <= s < len && (#[trigger] self.owner@[s]) >= 0 implies self.owner@[s]
            < n && placed(nfa, self.owner@[s], i, e + 1) && self.slot_map[self.owner@[s]] == s by {
            if s != idx {
                assert(s0.owner@[s] >= 0);
            }
        }
        assert forall|s: int| 0 <= s < len implies ((#[trigger] self.helper.used@[s]) <==> (
        self.owner@[s] >= 0 || s == 1)) by {
            assert(s0.helper.used@[s] <==> (s0.owner@[s] >= 0 || s == 1));
        }
        assert forall|s: int| 0 <= s < len && self.owner@[s] < 0 implies (#[trigger] self.states[s])
            == State::unused() by {
            assert(s0.states[s] == State::unused());
        }
        assert forall|s: int| 0 <= s < len implies (#[trigger] self.states[s]).base
            < self.helper.fresh by {
            assert(s0.states[s].base < s0.helper.fresh);
        }
        assert forall|p: int, f2: int|
            0 <= p < i && 0 <= f2 < nfa.states[p].edges.len() implies #[trigger] self.edge_packed(
            nfa,
            table,
            p,
            f2,
            self.states[self.slot_map[p] as int].base,
        ) by {
            assert(s0.edge_packed(nfa, table, p, f2, s0.states[s0.slot_map[p] as int].base));
            assert(nfa.edge_ok(p, f2));
            let t = nfa.states[p].edges[f2].1 as int;
            assert(placed(nfa, t, i, e));
            assert(placed(nfa, p, i, e)) by {
                if p != 0 {
                    assert(0 <= g.par[p] < p);
                }
            }
            assert(s0.helper.used@[s0.slot_map[t] as int]);
            assert(s0.helper.used@[s0.slot_map[p] as int]);
        }
        assert(placed(nfa, i, i, e)) by {
            if i != 0 {
                assert(0 <= g.par[i] < i);
            }
        }
        assert(s0.helper.used@[s0.slot_map[i] as int]);
        assert forall|f2: int| 0 <= f2 < e + 1 implies #[trigger] self.edge_packed(
            nfa,
            table,
            i,
            f2,
            base,
        ) by {
            if f2 < e {
                assert(s0.edge_packed(nfa, table, i, f2, base));
                assert(nfa.edge_ok(i, f2));
                let t = nfa.states[i].edges[f2].1 as int;
                assert(placed(nfa, t, i, e));
                assert(s0.helper.used@[s0.slot_map[t] as int]);
            } else {
                assert(code_at(table, nfa.states[i].edges[e].0) == Some(codes[e]));
            }
        }
        assert forall|t: int| 0 <= t < n && placed(nfa, t, i, e + 1) && t >= i implies self.states[(
        #[trigger] self.slot_map[t]) as int].base == 0 by {
            if t != child {
                assert(s0.states[s0.slot_map[t] as int].base == 0);
                assert(s0.helper.used@[s0.slot_map[t] as int]);
            }
        }
        assert(s0.helper.used@[0]);
    }

    /// When all children of the state `i` are placed and the state has got its
    /// base, the next state has its turn.
    proof fn lemma_close<V: Copy>(
        &self,
        s0: &PackState,
        nfa: &NfaBuilder<V>,
        mapper: &CodeMapper,
        i: int,
        base: u32,
    )
        requires
            nfa.trie_ok(Seq::<char>::empty()),
            0 <= i < nfa.states.len(),
            s0.pack_ok(nfa, mapper, i, nfa.states[i].edges.len() as int, base),
            self.helper == s0.helper,
            self.slot_map == s0.slot_map,
            self.owner == s0.owner,
            nfa.states[i].edges.len() > 0 ==> base < s0.helper.fresh && self.states@
                == s0.states@.update(
                s0.slot_map[i] as int,
                State { base, ..s0.states[s0.slot_map[i] as int] },
            ),
            nfa.states[i].edges.len() == 0 ==> self.states@ == s0.states@,
        ensures
            self.pack_ok(nfa, mapper, i + 1, 0, 0),
    {
        let n = nfa.states.len() as int;
        let len = self.states.len() as int;
        let table = mapper.table@;
        let g = nfa.gh@;
        let ne = nfa.states[i].edges.len() as int;
        let sp = s0.slot_map[i] as int;
        assert(placed(nfa, i, i, ne)) by {
            if i != 0 {
                assert(0 <= g.par[i] < i);
            }
        }
        assert(s0.owner@[sp] == i);
        assert forall|t: int| 0 <= t < n implies (placed(nfa, t, i + 1, 0) <==> placed(nfa, t, i, ne)) by {
            if t != 0 {
                assert(0 <= g.par[t] < t);
            }
        }
        assert forall|s: int| 0 <= s < len && (#[trigger] self.owner@[s]) >= 0 implies self.owner@[s]
            < n && placed(nfa, self.owner@[s], i + 1, 0) && self.slot_map[self.owner@[s]] == s by {
            assert(placed(nfa, s0.owner@[s], i, ne));
        }
        assert forall|s: int| 0 <= s < len && self.owner@[s] < 0 implies (#[trigger] self.states[s])
            == State::unused() by {
            assert(s0.states[s] == State::unused());
        }
        assert forall|s: int| 0 <= s < len implies (#[trigger] self.states[s]).base
            < self.helper.fresh by {
            assert(s0.states[s].base < s0.helper.fresh);
        }
        assert forall|p: int, f2: int|
            0 <= p < i + 1 && 0 <= f2 < nfa.states[p].edges.len() implies #[trigger] self.edge_packed(
            nfa,
            table,
            p,
            f2,
            self.states[self.slot_map[p] as int].base,
        ) by {
            assert(nfa.edge_ok(p, f2));
            let t = nfa.states[p].edges[f2].1 as int;
            assert(placed(nfa, p, i, ne)) by {
                if p != 0 {
                    assert(0 <= g.par[p] < p);
                }
            }
            assert(s0.owner@[s0.slot_map[p] as int] == p);
            if p < i {
                assert(s0.edge_packed(nfa, table, p, f2, s0.states[s0.slot_map[p] as int].base));
                assert(s0.slot_map[p] != sp);
            } else {
                assert(s0.edge_packed(nfa, table, i, f2, base));
            }
        }
        assert forall|t: int| 0 <= t < n && placed(nfa, t, i + 1, 0) && t >= i + 1 implies self.states[(
        #[trigger] self.slot_map[t]) as int].base == 0 by {
            assert(placed(nfa, t, i, ne));
            assert(s0.states[s0.slot_map[t] as int].base == 0);
            assert(s0.owner@[s0.slot_map[t] as int] == t);
        }
    }

    /// Places the children of the state `i` under the base `base`, and gives the
    /// state its base.
    fn place_children<V: Copy>(
        &mut self,
        nfa: &NfaBuilder<V>,
        mapper: &CodeMapper,
        i: u32,
        base: u32,
        codes: &Vec<u32>,
    )
        requires
            nfa.trie_ok(Seq::<char>::empty()),
            old(self).pack_ok(nfa, mapper, i as int, 0, base),
            i < nfa.states.len(),
            nfa.states[i as int].edges.len() > 0,
            Self::codes_of(nfa, mapper.table@, i as int, codes@),
            old(self).helper.fits(base, codes@),
        ensures
            final(self).pack_ok(nfa, mapper, i + 1, 0, 0),
            final(self).states.len() == old(self).states.len(),
            final(self).helper.fresh == old(self).helper.fresh,
            final(self).helper.block_len == old(self).helper.block_len,
    {
        let sp = self.slot_map[i as usize];
        let ne = nfa.states[i as usize].edges.len();
        let ghost g = nfa.gh@;
        proof {
            assert(placed(nfa, i as int, i as int, 0)) by {
                if i != 0 {
                    assert(0 <= g.par[i as int] < i);
                }
            }
        }
        let mut e: usize = 0;
        while e < ne
            invariant
                nfa.trie_ok(Seq::<char>::empty()),
                self.pack_ok(nfa, mapper, i as int, e as int, base),
                i < nfa.states.len(),
                ne == nfa.states[i as int].edges.len(),
                e <= ne,
                Self::codes_of(nfa, mapper.table@, i as int, codes@),
                base != 0,
                base < self.helper.fresh,
                sp == self.slot_map[i as int],
                self.states.len() == old(self).states.len(),
                self.helper.fresh == old(self).helper.fresh,
                self.helper.block_len == old(self).helper.block_len,
                forall|k: int|
                    e <= k < codes@.len() ==> (#[trigger] (base ^ codes@[k])) < self.helper.fresh
                        && !self.helper.used@[(base ^ codes@[k]) as int],
            decreases ne - e,
        {
            let ghost s0 = *self;
            let child = nfa.states[i as usize].edges[e].1;
            let idx = base ^ codes[e];
            proof {
                assert(nfa.edge_ok(i as int, e as int));
                assert((base ^ codes@[e as int]) < self.helper.fresh);
            }
            self.helper.use_index(idx);
            self.states[idx as usize].check = sp;
            self.slot_map[child as usize] = idx;
            proof {
                self.owner@ = self.owner@.update(idx as int, child as int);
                self.lemma_place(&s0, nfa, mapper, i as int, e as int, base, codes@);
                assert forall|k: int| e + 1 <= k < codes@.len() implies (#[trigger] (base ^ codes@[k]))
                    < self.helper.fresh && !self.helper.used@[(base ^ codes@[k]) as int] by {
                    lemma_codes_distinct(nfa, mapper.table@, mapper.alphabet_size, i as int, e as int, k);
                    if (base ^ codes@[k]) == (base ^ codes@[e as int]) {
                        crate::charwise::lemma_xor_cancel(base, codes@[k], codes@[e as int]);
                    }
                    assert(!s0.helper.used@[(base ^ codes@[k]) as int]);
                }
                assert(i != child);
            }
            e += 1;
        }
        let ghost s1 = *self;
        self.states[sp as usize].base = base;
        proof {
            self.lemma_close(&s1, nfa, mapper, i as int, base);
        }
    }
}

impl PackState {
    /// The packing does not depend on the list of free slots, and before a state has
    /// placed a child it does not depend on the base that the state will get.
    proof fn lemma_helper_frame<V: Copy>(
        &self,
        s0: &PackState,
        nfa: &NfaBuilder<V>,
        mapper: &CodeMapper,
        i: int,
        pending: u32,
    )
        requires
            s0.pack_ok(nfa, mapper, i, 0, 0),
            self.helper.wf(),
            self.helper.used@ == s0.helper.used@,
            self.helper.block_len == s0.helper.block_len,
            self.helper.fresh == s0.helper.fresh,
            self.states == s0.states,
            self.slot_map == s0.slot_map,
            self.owner == s0.owner,
        ensures
            self.pack_ok(nfa, mapper, i, 0, pending),
    {
        let table = mapper.table@;
        assert forall|t: int| 0 <= t < nfa.states.len() && placed(nfa, t, i, 0) implies (
        #[trigger] self.slot_map[t]) < self.helper.fresh && self.slot_map[t] != 1
            && self.owner@[self.slot_map[t] as int] == t by {
            assert(s0.slot_map[t] < s0.helper.fresh);
        }
        assert forall|s: int| 0 <= s < self.states.len() implies ((#[trigger] self.helper.used@[s])
            <==> (self.owner@[s] >= 0 || s == 1)) by {
            assert(s0.helper.used@[s] <==> (s0.owner@[s] >= 0 || s == 1));
        }
        assert forall|s: int| 0 <= s < self.states.len() implies (#[trigger] self.states[s]).base
            < self.helper.fresh by {
            assert(s0.states[s].base < s0.helper.fresh);
        }
        assert forall|p: int, f2: int|
            0 <= p < i && 0 <= f2 < nfa.states[p].edges.len() implies #[trigger] self.edge_packed(
            nfa,
            table,
            p,
            f2,
            self.states[self.slot_map[p] as int].base,
        ) by {
            assert(s0.edge_packed(nfa, table, p, f2, s0.states[s0.slot_map[p] as int].base));
        }
    }

    /// Opening a block, and making the array as long as the book-keeping says,
    /// keeps the packing in order.
    proof fn lemma_grown<V: Copy>(&self, s0: &PackState, nfa: &NfaBuilder<V>, mapper: &CodeMapper, i: int)
        requires
            nfa.trie_ok(Seq::<char>::empty()),
            s0.pack_ok(nfa, mapper, i, 0, 0),
            self.helper.wf(),
            self.helper.block_len == s0.helper.block_len,
            self.helper.fresh >= s0.helper.fresh,
            s0.helper.used@.is_prefix_of(self.helper.used@),
            forall|s: int|
                s0.helper.used@.len() <= s < self.helper.used@.len() ==> !#[trigger] self.helper.used@[s],
            self.slot_map == s0.slot_map,
            self.states.len() == self.helper.spec_len(),
            s0.states@.is_prefix_of(self.states@),
            forall|s: int|
                s0.states.len() <= s < self.states.len() ==> #[trigger] self.states[s]
                    == State::unused(),
            self.owner@.len() == self.states.len(),
            s0.owner@.is_prefix_of(self.owner@),
            forall|s: int| s0.owner@.len() <= s < self.owner@.len() ==> #[trigger] self.owner@[s] == -1,
        ensures
            self.pack_ok(nfa, mapper, i, 0, 0),
    {
        let n = nfa.states.len() as int;
        let len0 = s0.states.len() as int;
        let len = self.states.len() as int;
        let table = mapper.table@;
        assert forall|s: int| 0 <= s < len0 implies self.states[s] == s0.states[s] && self.owner@[s]
            == s0.owner@[s] && self.helper.used@[s] == s0.helper.used@[s] by {
            assert(s0.states@[s] == self.states@.subrange(0, len0)[s]);
            assert(s0.owner@[s] == self.owner@.subrange(0, len0)[s]);
            assert(s0.helper.used@[s] == self.helper.used@.subrange(0, len0)[s]);
        }
        assert forall|t: int| 0 <= t < n && placed(nfa, t, i, 0) implies (#[trigger] self.slot_map[t])
            < self.helper.fresh && self.slot_map[t] != 1 && self.owner@[self.slot_map[t] as int]
            == t by {
            assert(s0.slot_map[t] < s0.helper.fresh);
        }
        assert forall|s: int| 0 <= s < len && (#[trigger] self.owner@[s]) >= 0 implies self.owner@[s]
            < n && placed(nfa, self.owner@[s], i, 0) && self.slot_map[self.owner@[s]] == s by {
            assert(s < len0);
            assert(s0.owner@[s] >= 0);
        }
        assert forall|s: int| 0 <= s < len implies ((#[trigger] self.helper.used@[s]) <==> (
        self.owner@[s] >= 0 || s == 1)) by {
            if s < len0 {
                assert(s0.helper.used@[s] <==> (s0.owner@[s] >= 0 || s == 1));
            }
        }
        assert forall|s: int| 0 <= s < len && self.owner@[s] < 0 implies (#[trigger] self.states[s])
            == State::unused() by {
            if s < len0 {
                assert(s0.states[s] == State::unused());
            }
        }
        assert forall|s: int| 0 <= s < len implies (#[trigger] self.states[s]).base
            < self.helper.fresh by {
            if s < len0 {
                assert(s0.states[s].base < s0.helper.fresh);
            }
        }
        assert forall|p: int, f2: int|
            0 <= p < i && 0 <= f2 < nfa.states[p].edges.len() implies #[trigger] self.edge_packed(
            nfa,
            table,
            p,
            f2,
            self.states[self.slot_map[p] as int].base,
        ) by {
            assert(s0.edge_packed(nfa, table, p, f2, s0.states[s0.slot_map[p] as int].base));
            assert(nfa.edge_ok(p, f2));
            let t = nfa.states[p].edges[f2].1 as int;
            assert(placed(nfa, t, i, 0));
            assert(placed(nfa, p, i, 0)) by {
                if p != 0 {
                    assert(0 <= nfa.gh@.par[p] < p);
                }
            }
            assert(s0.slot_map[t] < s0.helper.fresh);
            assert(s0.slot_map[p] < s0.helper.fresh);
        }
        assert forall|t: int| 0 <= t < n && placed(nfa, t, i, 0) && t >= i implies self.states[(
        #[trigger] self.slot_map[t]) as int].base == 0 by {
            assert(s0.states[s0.slot_map[t] as int].base == 0);
            assert(s0.slot_map[t] < s0.helper.fresh);
        }
    }

    /// Makes the array as long as the book-keeping says, with slots that no state occupies.
    fn extend_array(&mut self)
        requires
            old(self).states.len() <= old(self).helper.spec_len(),
            old(self).owner@.len() == old(self).states.len(),
        ensures
            final(self).helper == old(self).helper,
            final(self).slot_map == old(self).slot_map,
            final(self).states.len() == final(self).helper.spec_len(),
            old(self).states@.is_prefix_of(final(self).states@),
            forall|s: int|
                old(self).states.len() <= s < final(self).states.len() ==> #[trigger] final(self).states[s] == State::unused(),
            final(self).owner@.len() == final(self).states.len(),
            old(self).owner@.is_prefix_of(final(self).owner@),
            forall|s: int|
                old(self).owner@.len() <= s < final(self).owner@.len() ==> #[trigger] final(self).owner@[s] == -1,
    {
        let target = self.helper.used.len();
        let ghost st0 = self.states@;
        let ghost ow0 = self.owner@;
        proof {
            assert(st0 =~= st0.subrange(0, st0.len() as int));
            assert(ow0 =~= ow0.subrange(0, ow0.len() as int));
        }
        while self.states.len() < target
            invariant
                self.helper == old(self).helper,
                self.slot_map == old(self).slot_map,
                target == self.helper.spec_len(),
                self.states.len() <= target,
                st0 == old(self).states@,
                ow0 == old(self).owner@,
                st0.is_prefix_of(self.states@),
                ow0.is_prefix_of(self.owner@),
                self.owner@.len() == self.states.len(),
                forall|s: int|
                    st0.len() <= s < self.states.len() ==> #[trigger] self.states[s] == State::unused(),
                forall|s: int| ow0.len() <= s < self.owner@.len() ==> #[trigger] self.owner@[s] == -1,
            decreases target - self.states.len(),
        {
            let ghost st1 = self.states@;
            let ghost ow1 = self.owner@;
            self.states.push(State::default());
            proof {
                self.owner@ = self.owner@.push(-1);
                assert(st0 =~= self.states@.subrange(0, st0.len() as int)) by {
                    assert forall|k: int| 0 <= k < st0.len() implies st0[k] == self.states@[k] by {
                        assert(st0[k] == st1.subrange(0, st0.len() as int)[k]);
                    }
                }
                assert(ow0 =~= self.owner@.subrange(0, ow0.len() as int)) by {
                    assert forall|k: int| 0 <= k < ow0.len() implies ow0[k] == self.owner@[k] by {
                        assert(ow0[k] == ow1.subrange(0, ow0.len() as int)[k]);
                    }
                }
            }
        }
    }

    /// Creates an array of one block that holds the root and the dead state.
    fn new<V: Copy>(nfa: &NfaBuilder<V>, mapper: &CodeMapper, block_len: u32) -> (r: Self)
        requires
            nfa.trie_ok(Seq::<char>::empty()),
            is_pow2(block_len),
            2 <= block_len <= 0x20_0000,
            mapper.alphabet_size <= block_len,
            table_ok(mapper.table@, mapper.alphabet_size),
            labels_mapped(nfa, mapper.table@),
        ensures
            r.pack_ok(nfa, mapper, 0, 0, 0),
            r.helper.block_len == block_len,
            r.states.len() == block_len,
            r.helper.fresh == block_len,
    {
        let helper = BuildHelper::new(block_len);
        let mut slot_map: Vec<u32> = Vec::new();
        let n = nfa.states.len();
        let mut t: usize = 0;
        while t < n
            invariant
                t <= n,
                slot_map@.len() == t,
                forall|k: int| 0 <= k < t ==> #[trigger] slot_map@[k] == (if k == 0 {
                    ROOT_STATE_IDX
                } else {
                    DEAD_STATE_IDX
                }),
            decreases n - t,
        {
            slot_map.push(if t == 0 {
                ROOT_STATE_IDX
            } else {
                DEAD_STATE_IDX
            });
            t += 1;
        }
        let mut r = Self { states: Vec::new(), helper, slot_map, owner: Ghost(Seq::empty()) };
        r.extend_array();
        proof {
            r.owner@ = r.owner@.update(0, 0);
            let g = nfa.gh@;
            assert forall|t: int| 0 <= t < n implies (placed(nfa, t, 0, 0) <==> t == 0) by {
                if t != 0 {
                    assert(0 <= g.par[t] < t);
                }
            }
        }
        r
    }

    /// Packs the states of the trie into a double array: each state in turn gets
    /// a base under which every child falls on a free slot, and its children get
    /// those slots. The free slots are tried first; when none of them fits, the
    /// state gets a block of its own, for which the array is doubled if need be.
    ///
    /// Fails when the array would get more slots than can be addressed.
    fn pack<V: Copy>(nfa: &NfaBuilder<V>, mapper: &CodeMapper, block_len: u32) -> (r: Option<Self>)
        requires
            nfa.trie_ok(Seq::<char>::empty()),
            is_pow2(block_len),
            2 <= block_len <= 0x20_0000,
            mapper.alphabet_size <= block_len,
            table_ok(mapper.table@, mapper.alphabet_size),
            labels_mapped(nfa, mapper.table@),
        ensures
            r matches Some(ps) ==> ps.pack_ok(nfa, mapper, nfa.states.len() as int, 0, 0)
                && ps.helper.block_len == block_len,
            r is None ==> nfa.states.len() * block_len > MAX_SLOTS / 2,
    {
        let mut ps = Self::new(nfa, mapper, block_len);
        let n = nfa.states.len();
        let mut i: usize = 0;
        while i < n
            invariant
                nfa.trie_ok(Seq::<char>::empty()),
                n == nfa.states.len(),
                i <= n,
                ps.pack_ok(nfa, mapper, i as int, 0, 0),
                ps.helper.block_len == block_len,
                ps.helper.fresh <= (i + 1) * block_len,
            decreases n - i,
        {
            if nfa.states[i].edges.len() > 0 {
                let codes = Self::collect_codes(nfa, mapper, i as u32);
                let limit = if block_len <= 0x1000 {
                    block_len * 16
                } else {
                    0x1_0000
                };
                let ghost s_in = ps;
                let found = ps.helper.find_base(&codes, limit);
                proof {
                    ps.lemma_helper_frame(&s_in, nfa, mapper, i as int, 0);
                }
                let base = match found {
                    Some(base) => base,
                    None => {
                        let ghost s0 = ps;
                        match ps.helper.open_block() {
                            None => {
                                proof {
                                    assert(s0.helper.fresh <= (i + 1) * block_len);
                                    assert((i + 1) * block_len <= n * block_len) by (nonlinear_arith)
                                        requires
                                            i + 1 <= n,
                                            block_len >= 0,
                                    ;
                                }
                                return None;
                            },
                            Some(start) => {
                                ps.extend_array();
                                proof {
                                    ps.lemma_grown(&s0, nfa, mapper, i as int);
                                    assert((i + 1) * block_len + block_len == (i + 2) * block_len)
                                        by (nonlinear_arith);
                                }
                                start
                            },
                        }
                    },
                };
                proof {
                    assert(ps.helper.fits(base, codes@));
                    ps.lemma_helper_frame(&ps, nfa, mapper, i as int, base);
                }
                ps.place_children(nfa, mapper, i as u32, base, &codes);
            } else {
                proof {
                    ps.lemma_close(&ps, nfa, mapper, i as int, 0);
                }
            }
            proof {
                assert((i + 1) * block_len <= (i + 2) * block_len) by (nonlinear_arith)
                    requires
                        block_len >= 0,
                ;
            }
            i += 1;
        }
        Some(ps)
    }
}

/// Every edge of the trie carries the code point of a character.
pub proof fn lemma_label_is_char<V: Copy>(nfa: &NfaBuilder<V>, p: int, e: int)
    requires
        nfa.trie_ok(Seq::<char>::empty()),
        0 <= p < nfa.states.len(),
        0 <= e < nfa.states[p].edges.len(),
    ensures
        nfa.states[p].edges[e].0 <= 0x10_ffff,
{
    assert(nfa.edge_ok(p, e));
    let t = nfa.states[p].edges[e].1 as int;
    vstd::utf8::char_is_scalar(nfa.gh@.nodes[t].last());
}

/// An edge of the trie carries the code point `c`.
pub open spec fn is_label<V: Copy>(nfa: &NfaBuilder<V>, c: int) -> bool {
    exists|p: int, e: int|
        0 <= p < nfa.states.len() && 0 <= e < nfa.states[p].edges.len() && (
        #[trigger] nfa.states[p].edges[e]).0 == c
}

/// An edge of the trie that carries the code point `c`, when there is one: its
/// state and its place among the edges of the state.
pub open spec fn label_edge<V: Copy>(nfa: &NfaBuilder<V>, c: int) -> (int, int) {
    choose|p: int, e: int|
        0 <= p < nfa.states.len() && 0 <= e < nfa.states[p].edges.len() && (
        #[trigger] nfa.states[p].edges[e]).0 == c
}

/// The character whose code point an edge of the trie carries.
pub open spec fn label_char<V: Copy>(nfa: &NfaBuilder<V>, c: int) -> char {
    let pe = label_edge(nfa, c);
    nfa.gh@.nodes[nfa.states[pe.0].edges[pe.1].1 as int].last()
}

/// The trie has as many states, and its edges carry as many different
/// characters, as a pattern set within scale allows.
pub proof fn lemma_scale<V: Copy>(nfa: &NfaBuilder<V>, freqs: Seq<u32>, n: nat, a: nat)
    requires
        nfa.trie_ok(Seq::<char>::empty()),
        nfa.gh@.dict.pats.len() > 0,
        nfa.gh@.dict.at_most_nodes(n),
        nfa.gh@.dict.at_most_chars(a),
        forall|c: int| 0 <= c < freqs.len() && freqs[c] != 0 ==> #[trigger] is_label(nfa, c),
    ensures
        nfa.states.len() <= n,
        crate::charwise::mapper::count_seen(freqs) <= a,
{
    let g = nfa.gh@;
    let d = g.dict;
    assert(g.nodes.no_duplicates());
    assert forall|i: int| 0 <= i < g.nodes.len() implies d.is_node(#[trigger] g.nodes[i]) by {
        nfa.lemma_nodes(i, 'a');
    }
    crate::charwise::mapper::lemma_seen_list(freqs);
    let seen = crate::charwise::mapper::seen_list(freqs);
    let cs = Seq::new(seen.len(), |i: int| label_char(nfa, seen[i]));
    assert forall|i: int| 0 <= i < cs.len() implies d.occurs(#[trigger] cs[i]) && cs[i] as u32
        == seen[i] by {
        let c = seen[i];
        assert(is_label(nfa, c));
        let pe = label_edge(nfa, c);
        let p = pe.0;
        let e = pe.1;
        assert(nfa.edge_ok(p, e));
        let t = nfa.states[p].edges[e].1 as int;
        nfa.lemma_nodes(t, 'a');
        assert(g.nodes[t] =~= g.nodes[p].push(cs[i]));
        assert(d.is_node(g.nodes[p].push(cs[i])));
    }
    assert(cs.no_duplicates()) by {
        assert forall|i: int, j: int| 0 <= i < cs.len() && 0 <= j < cs.len() && i != j implies cs[i]
            != cs[j] by {
            assert(d.occurs(cs[i]) && cs[i] as u32 == seen[i]);
            assert(d.occurs(cs[j]) && cs[j] as u32 == seen[j]);
            assert(seen[i] != seen[j]);
        }
    }
}

/// Counts for each code point the edges of the trie that carry it. A count that
/// has reached the largest number stays there.
fn count_labels<V: Copy>(nfa: &NfaBuilder<V>) -> (freqs: Vec<u32>)
    requires
        nfa.trie_ok(Seq::<char>::empty()),
    ensures
        freqs@.len() <= 0x11_0000,
        forall|p: int, e: int|
            0 <= p < nfa.states.len() && 0 <= e < nfa.states[p].edges.len() ==> (
            #[trigger] nfa.states[p].edges[e]).0 < freqs@.len()
                && freqs@[nfa.states[p].edges[e].0 as int] != 0,
        forall|c: int| 0 <= c < freqs@.len() && freqs@[c] != 0 ==> #[trigger] is_label(nfa, c),
{
    let n = nfa.states.len();
    // the largest code point on an edge
    let mut max_label: u32 = 0;
    let mut p: usize = 0;
    while p < n
        invariant
            nfa.trie_ok(Seq::<char>::empty()),
            n == nfa.states.len(),
            p <= n,
            max_label <= 0x10_ffff,
            forall|q2: int, f2: int|
                0 <= q2 < p && 0 <= f2 < nfa.states[q2].edges.len() ==> (
                #[trigger] nfa.states[q2].edges[f2]).0 <= max_label,
        decreases n - p,
    {
        let edges = &nfa.states[p].edges;
        let mut e: usize = 0;
        while e < edges.len()
            invariant
                nfa.trie_ok(Seq::<char>::empty()),
                p < nfa.states.len(),
                edges == &nfa.states[p as int].edges,
                e <= edges.len(),
                max_label <= 0x10_ffff,
                forall|q2: int, f2: int|
                    0 <= q2 < p && 0 <= f2 < nfa.states[q2].edges.len() ==> (
                    #[trigger] nfa.states[q2].edges[f2]).0 <= max_label,
                forall|f2: int| 0 <= f2 < e ==> (#[trigger] nfa.states[p as int].edges[f2]).0 <= max_label,
            decreases edges.len() - e,
        {
            proof {
                lemma_label_is_char(nfa, p as int, e as int);
            }
            if edges[e].0 > max_label {
                max_label = edges[e].0;
            }
            e += 1;
        }
        p += 1;
    }
    let mut freqs: Vec<u32> = Vec::new();
    let mut c: u32 = 0;
    while c <= max_label
        invariant
            max_label <= 0x10_ffff,
            c <= max_label + 1,
            freqs@.len() == c,
            forall|k: int| 0 <= k < c ==> #[trigger] freqs@[k] == 0,
        decreases max_label + 1 - c,
    {
        freqs.push(0);
        c += 1;
    }
    let mut p: usize = 0;
    while p < n
        invariant
            nfa.trie_ok(Seq::<char>::empty()),
            n == nfa.states.len(),
            p <= n,
            freqs@.len() == max_label + 1,
            max_label <= 0x10_ffff,
            forall|q2: int, f2: int|
                0 <= q2 < nfa.states.len() && 0 <= f2 < nfa.states[q2].edges.len() ==> (
                #[trigger] nfa.states[q2].edges[f2]).0 <= max_label,
            forall|q2: int, f2: int|
                0 <= q2 < p && 0 <= f2 < nfa.states[q2].edges.len() ==> freqs@[(
                #[trigger] nfa.states[q2].edges[f2]).0 as int] != 0,
            forall|c: int| 0 <= c < freqs@.len() && freqs@[c] != 0 ==> #[trigger] is_label(nfa, c),
        decreases n - p,
    {
        let edges = &nfa.states[p].edges;
        let mut e: usize = 0;
        while e < edges.len()
            invariant
                nfa.trie_ok(Seq::<char>::empty()),
                p < nfa.states.len(),
                edges == &nfa.states[p as int].edges,
                e <= edges.len(),
                freqs@.len() == max_label + 1,
                forall|q2: int, f2: int|
                    0 <= q2 < nfa.states.len() && 0 <= f2 < nfa.states[q2].edges.len() ==> (
                    #[trigger] nfa.states[q2].edges[f2]).0 <= max_label,
                forall|q2: int, f2: int|
                    0 <= q2 < p && 0 <= f2 < nfa.states[q2].edges.len() ==> freqs@[(
                    #[trigger] nfa.states[q2].edges[f2]).0 as int] != 0,
                forall|f2: int|
                    0 <= f2 < e ==> freqs@[(#[trigger] nfa.states[p as int].edges[f2]).0 as int] != 0,
                forall|c: int| 0 <= c < freqs@.len() && freqs@[c] != 0 ==> #[trigger] is_label(nfa, c),
            decreases edges.len() - e,
        {
            let label = edges[e].0 as usize;
            proof {
                assert(nfa.states[p as int].edges[e as int].0 <= max_label);
                assert(is_label(nfa, label as int)) by {
                    assert(nfa.states[p as int].edges[e as int].0 == label);
                }
            }
            if freqs[label] < u32::MAX {
                freqs[label] = freqs[label] + 1;
            }
            e += 1;
        }
        p += 1;
    }
    freqs
}

/// Returns the smallest power of two that is at least `x` and at least two.
fn block_len_for(x: u32) -> (b: u32)
    requires
        x <= 0x11_0000,
    ensures
        is_pow2(b),
        2 <= b <= 0x20_0000,
        x <= b,
        b == 2 || b < 2 * x,
{
    let mut b: u32 = 2;
    proof {
        assert(2u32 & ((2u32 - 1) as u32) == 0) by (bit_vector);
    }
    while b < x
        invariant
            is_pow2(b),
            2 <= b <= 0x20_0000,
            x <= 0x11_0000,
            b == 2 || b < 2 * x,
        decreases 0x20_0000 - b,
    {
        proof {
            crate::build_helper::lemma_pow2_double(b);
            let m = low_mask(b);
            assert(b > 0 && m == (b - 1) as u32 && b & m == 0 && b < 0x11_0000 ==> b <= 0x10_0000)
                by (bit_vector);
        }
        b = b * 2;
    }
    b
}

impl PackState {
    /// The failure links and the outputs of the first `t` states of the trie are
    /// in the double array.
    pub open spec fn links_ok<V: Copy>(&self, nfa: &NfaBuilder<V>, t: int) -> bool {
        forall|k: int|
            0 <= k < t ==> {
                let st = self.states[(#[trigger] self.slot_map[k]) as int];
                &&& st.output_pos == nfa.states[k].output_pos
                &&& st.fail == (if nfa.states[k].fail == DEAD_STATE_ID {
                    DEAD_STATE_IDX
                } else {
                    self.slot_map[nfa.states[k].fail as int]
                })
            }
    }

    /// Writing the failure link and the output of a state into its slot keeps the
    /// packing in order.
    proof fn lemma_link<V: Copy>(&self, s0: &PackState, nfa: &NfaBuilder<V>, mapper: &CodeMapper, t: int)
        requires
            nfa.trie_ok(Seq::<char>::empty()),
            s0.pack_ok(nfa, mapper, nfa.states.len() as int, 0, 0),
            s0.links_ok(nfa, t),
            0 <= t < nfa.states.len(),
            self.helper == s0.helper,
            self.slot_map == s0.slot_map,
            self.owner == s0.owner,
            self.states@.len() == s0.states@.len(),
            forall|s: int|
                0 <= s < s0.states.len() && s != s0.slot_map[t] ==> #[trigger] self.states[s]
                    == s0.states[s],
            self.states[s0.slot_map[t] as int].base == s0.states[s0.slot_map[t] as int].base,
            self.states[s0.slot_map[t] as int].check == s0.states[s0.slot_map[t] as int].check,
            self.states[s0.slot_map[t] as int].output_pos == nfa.states[t].output_pos,
            self.states[s0.slot_map[t] as int].fail == (if nfa.states[t].fail == DEAD_STATE_ID {
                DEAD_STATE_IDX
            } else {
                s0.slot_map[nfa.states[t].fail as int]
            }),
        ensures
            self.pack_ok(nfa, mapper, nfa.states.len() as int, 0, 0),
            self.links_ok(nfa, t + 1),
    {
        let n = nfa.states.len() as int;
        let len = self.states.len() as int;
        let table = mapper.table@;
        let g = nfa.gh@;
        let idx = s0.slot_map[t] as int;
        assert forall|k: int| 0 <= k < n implies placed(nfa, k, n, 0) by {
            if k != 0 {
                assert(0 <= g.par[k] < k);
            }
        }
        assert(s0.owner@[idx] == t);
        assert forall|s: int| 0 <= s < len && self.owner@[s] < 0 implies (#[trigger] self.states[s])
            == State::unused() by {
            assert(s0.states[s] == State::unused());
        }
        assert forall|s: int| 0 <= s < len implies (#[trigger] self.states[s]).base
            < self.helper.fresh by {
            assert(s0.states[s].base < s0.helper.fresh);
        }
        assert forall|p: int, f2: int|
            0 <= p < n && 0 <= f2 < nfa.states[p].edges.len() implies #[trigger] self.edge_packed(
            nfa,
            table,
            p,
            f2,
            self.states[self.slot_map[p] as int].base,
        ) by {
            assert(s0.edge_packed(nfa, table, p, f2, s0.states[s0.slot_map[p] as int].base));
            assert(nfa.edge_ok(p, f2));
            assert(s0.slot_map[p] < s0.helper.fresh);
            assert(s0.slot_map[nfa.states[p].edges[f2].1 as int] < s0.helper.fresh);
        }
        assert forall|k: int| 0 <= k < t + 1 implies {
            let st = self.states[(#[trigger] self.slot_map[k]) as int];
            &&& st.output_pos == nfa.states[k].output_pos
            &&& st.fail == (if nfa.states[k].fail == DEAD_STATE_ID {
                DEAD_STATE_IDX
            } else {
                self.slot_map[nfa.states[k].fail as int]
            })
        } by {
            if k < t {
                assert(s0.owner@[s0.slot_map[k] as int] == k);
                let st0 = s0.states[(s0.slot_map[k]) as int];
                assert(st0.output_pos == nfa.states[k].output_pos);
            }
        }
    }

    /// Writes the failure link and the output of every state of the trie into the
    /// slot of the state.
    fn set_links<V: Copy>(&mut self, nfa: &NfaBuilder<V>, mapper: &CodeMapper)
        requires
            nfa.trie_ok(Seq::<char>::empty()),
            nfa.gh@.dict.pats.len() > 0,
            nfa.fails_ok(),
            old(self).pack_ok(nfa, mapper, nfa.states.len() as int, 0, 0),
        ensures
            final(self).pack_ok(nfa, mapper, nfa.states.len() as int, 0, 0),
            final(self).links_ok(nfa, nfa.states.len() as int),
            final(self).helper.block_len == old(self).helper.block_len,
    {
        let n = nfa.states.len();
        let mut t: usize = 0;
        while t < n
            invariant
                nfa.trie_ok(Seq::<char>::empty()),
                nfa.gh@.dict.pats.len() > 0,
                nfa.fails_ok(),
                n == nfa.states.len(),
                t <= n,
                self.pack_ok(nfa, mapper, n as int, 0, 0),
                self.links_ok(nfa, t as int),
                self.helper.block_len == old(self).helper.block_len,
            decreases n - t,
        {
            let ghost s0 = *self;
            proof {
                assert(placed(nfa, t as int, n as int, 0)) by {
                    if t != 0 {
                        assert(0 <= nfa.gh@.par[t as int] < t);
                    }
                }
                if t != 0 {
                    assert(nfa.fail_ok_at(t as int));
                }
            }
            let idx = self.slot_map[t];
            let f = nfa.states[t].fail;
            let fail_idx = if f == DEAD_STATE_ID {
                DEAD_STATE_IDX
            } else {
                self.slot_map[f as usize]
            };
            self.states[idx as usize].fail = fail_idx;
            self.states[idx as usize].output_pos = nfa.states[t].output_pos;
            proof {
                self.lemma_link(&s0, nfa, mapper, t as int);
            }
            t += 1;
        }
    }

    /// The slot of each state of the trie.
    pub open spec fn slots(&self) -> Seq<int> {
        Seq::new(self.slot_map@.len(), |t: int| self.slot_map@[t] as int)
    }

    /// A trie that is packed, links and outputs included, is an automaton for the
    /// patterns of the trie.
    proof fn lemma_layout<V: Copy>(&self, nfa: &NfaBuilder<V>, mapper: &CodeMapper)
        requires
            nfa.trie_ok(Seq::<char>::empty()),
            nfa.gh@.dict.valid(),
            nfa.fails_ok(),
            nfa.entries_ok(),
            nfa.outs_ok(),
            nfa.outputs.len() < nfa.states.len(),
            self.pack_ok(nfa, mapper, nfa.states.len() as int, 0, 0),
            self.links_ok(nfa, nfa.states.len() as int),
        ensures
            (AutomatonView {
                states: self.states@,
                table: mapper.table@,
                alphabet_size: mapper.alphabet_size,
                outputs: nfa.outputs@,
                match_kind: nfa.match_kind,
                num_states: nfa.states.len() as u32,
            }).layout_ok(
                nfa.gh@.dict,
                Layout {
                    nodes: nfa.gh@.nodes,
                    slot: self.slots(),
                    owner: self.owner@,
                    pat: nfa.gh@.out_pat,
                },
            ),
    {
        let a = AutomatonView {
            states: self.states@,
            table: mapper.table@,
            alphabet_size: mapper.alphabet_size,
            outputs: nfa.outputs@,
            match_kind: nfa.match_kind,
            num_states: nfa.states.len() as u32,
        };
        let g = nfa.gh@;
        let d = g.dict;
        let lay = Layout { nodes: g.nodes, slot: self.slots(), owner: self.owner@, pat: g.out_pat };
        let n = nfa.states.len() as int;
        let len = self.states.len() as int;
        let table = mapper.table@;
        let empty = Seq::<char>::empty();
        assert forall|k: int| 0 <= k < n implies placed(nfa, k, n, 0) by {
            if k != 0 {
                assert(0 <= g.par[k] < k);
            }
        }
        assert(a.nodes_ok(d, lay)) by {
            assert forall|i: int| 0 <= i < lay.nodes.len() implies d.is_node(#[trigger] lay.nodes[i]) by {
                nfa.lemma_nodes(i, 'a');
            }
            assert forall|w: Word| #[trigger] d.is_node(w) implies lay.nodes.contains(w) by {
                assert(nfa.in_trie(w, empty));
            }
        }
        assert(a.slots_ok(lay)) by {
            assert forall|i: int| 0 <= i < lay.nodes.len() implies 0 <= #[trigger] lay.slot[i]
                < a.states.len() && lay.slot[i] != 1 && lay.owner[lay.slot[i]] == i by {
                assert(self.slot_map[i] < self.helper.fresh);
            }
            assert forall|s: int| 0 <= s < a.states.len() && 0 <= #[trigger] lay.owner[s] implies lay.owner[s]
                < lay.nodes.len() && lay.slot[lay.owner[s]] == s by {
                assert(self.slot_map[self.owner@[s]] == s);
            }
        }
        assert(a.base_ok()) by {
            assert forall|s: int, x: u32|
                0 <= s < a.states.len() && a.states[s].base != 0 && x < a.alphabet_size implies (
            #[trigger] (a.states[s].base ^ x)) < a.states.len() by {
                assert(self.states[s].base < self.helper.fresh);
                lemma_xor_in_range(a.states[s].base, x, len as u32, self.helper.block_len);
            }
        }
        assert(a.goto_ok(d, lay)) by {
            assert forall|i: int, c: char|
                0 <= i < lay.nodes.len() && #[trigger] d.is_node(lay.nodes[i].push(c)) implies {
                &&& code_at(a.table, c as u32) is Some
                &&& a.states[lay.slot[i]].base != 0
                &&& child_slot(a.states, lay.slot[i], code_at(a.table, c as u32)->0) is Some
                &&& lay.live(child_slot(a.states, lay.slot[i], code_at(a.table, c as u32)->0)->0 as int)
                &&& lay.word(child_slot(a.states, lay.slot[i], code_at(a.table, c as u32)->0)->0 as int)
                    == lay.nodes[i].push(c)
            } by {
                nfa.lemma_nodes(i, c);
                nfa.lemma_edge(empty, i, c);
                let e = choose|e: int|
                    0 <= e < nfa.states[i].edges.len() && (#[trigger] nfa.states[i].edges[e]).0
                        == c as u32;
                let t = nfa.states[i].edges[e].1;
                assert(nfa.has_edge(i, c as u32, t));
                assert(self.edge_packed(nfa, table, i, e, self.states[self.slot_map[i] as int].base));
                assert(self.slot_map[t as int] < self.helper.fresh);
                assert(self.owner@[self.slot_map[t as int] as int] == t);
            }
        }
        assert(a.owner_ok(lay)) by {
            assert forall|j: int|
                0 <= j < a.states.len() && lay.live((#[trigger] a.states[j]).check as int) implies {
                let p = a.states[j].check as int;
                &&& lay.live(j)
                &&& lay.word(j).len() > 0
                &&& lay.word(j).drop_last() == lay.word(p)
                &&& a.states[p].base != 0
                &&& code_at(a.table, lay.word(j).last() as u32) is Some
                &&& j == a.states[p].base ^ code_at(a.table, lay.word(j).last() as u32)->0
            } by {
                let ps = a.states[j].check as int;
                if self.owner@[j] < 0 {
                    assert(self.states[j] == State::unused());
                }
                let t = self.owner@[j];
                assert(t != 0);
                let p = g.par[t];
                let e = g.eix[t];
                assert(0 <= p < t);
                assert(nfa.edge_ok(p, e));
                assert(self.edge_packed(nfa, table, p, e, self.states[self.slot_map[p] as int].base));
                assert(self.slot_map[t] == j);
                assert(self.owner@[self.slot_map[p] as int] == p);
            }
        }
        assert(a.fail_ok(d, lay)) by {
            assert forall|i: int| 1 <= i < lay.nodes.len() implies {
                let f = (#[trigger] a.states[lay.slot[i]]).fail as int;
                match d.fail_target(lay.nodes[i]) {
                    Some(v) => lay.live(f) && lay.word(f) == v,
                    None => f == DEAD_STATE_IDX,
                }
            } by {
                assert(nfa.fail_ok_at(i));
                let st = self.states[self.slot_map[i] as int];
                assert(st.output_pos == nfa.states[i].output_pos);
                if nfa.states[i].fail != DEAD_STATE_ID {
                    let f = nfa.states[i].fail as int;
                    assert(self.slot_map[f] < self.helper.fresh);
                    assert(self.owner@[self.slot_map[f] as int] == f);
                }
            }
        }
        assert(a.entries_ok(d, lay)) by {
            assert forall|j: int| 0 <= j < a.outputs.len() implies {
                let o = #[trigger] a.outputs[j];
                &&& o.parent <= j
                &&& d.kept(lay.pat[j])
                &&& o.value == d.vals[lay.pat[j]]
                &&& o.length == d.size(d.pats[lay.pat[j]])
            } by {
                let o = nfa.outputs[j];
                assert(o.parent <= j);
            }
        }
        assert(a.outputs_ok(d, lay)) by {
            assert forall|i: int| 0 <= i < lay.nodes.len() implies {
                let pos = (#[trigger] a.states[lay.slot[i]]).output_pos as int;
                &&& pos <= a.outputs.len()
                &&& crate::charwise::chain(a.outputs, lay.pat, pos) == d.output_list(lay.nodes[i])
            } by {
                assert(nfa.out_ok_at(i));
                let st = self.states[self.slot_map[i] as int];
                assert(st.output_pos == nfa.states[i].output_pos);
            }
        }
    }
}

/// The first pattern with which something is wrong decides how the build ends:
/// with the error of that pattern. When nothing is wrong with any pattern, a set
/// without patterns is an invalid argument, and any other set gives an automaton,
/// unless it turns out too large to be packed.
pub open spec fn first_fault_decides<V, A>(d: PatternSet<V>, r: Result<A>) -> bool {
    &&& forall|k: int|
        0 <= k < d.pats.len() && d.no_fault_before(k) && #[trigger] d.fault_at(k) is Some ==> r
            == Err::<A, DaachorseError>(d.fault_at(k)->0)
    &&& d.no_fault_before(d.pats.len() as int) && d.pats.len() == 0 ==> r == Err::<
        A,
        DaachorseError,
    >(DaachorseError::InvalidArgument)
    &&& d.no_fault_before(d.pats.len() as int) && d.pats.len() > 0 ==> r is Ok || r == Err::<
        A,
        DaachorseError,
    >(DaachorseError::AutomatonScale)
    &&& r is Ok ==> d.no_fault_before(d.pats.len() as int) && d.pats.len() > 0
}

/// What building an automaton from the pattern set `d` gives.
///
/// An automaton that is returned was built from `d`, and when the symbols are
/// bytes its code table gives each byte itself. An error says what is wrong with
/// `d`. A valid set within scale gives an automaton, and a valid set whose trie
/// has more states than can be addressed gives the error of the scale. The first
/// pattern with which something is wrong decides.
pub open spec fn built<V>(d: PatternSet<V>, r: Result<AutomatonView<V>>) -> bool {
    &&& r matches Ok(a) ==> a.recognizes(d) && (d.unit == Unit::Bytes ==> a.table == identity_table()
        && a.alphabet_size == 256)
    &&& r matches Err(e) ==> {
        &&& e == DaachorseError::InvalidArgument ==> d.pats.len() == 0 || d.has_empty()
        &&& e == DaachorseError::DuplicatePattern ==> d.has_duplicate()
        &&& e == DaachorseError::AutomatonScale ==> !d.within_scale()
        &&& e != DaachorseError::InvalidConversion
    }
    &&& d.valid() && d.within_scale() ==> r is Ok
    &&& d.valid() && !d.at_most_nodes(crate::charwise::MAX_STATES as nat) ==> r == Err::<
        AutomatonView<V>,
        DaachorseError,
    >(DaachorseError::AutomatonScale)
    &&& first_fault_decides(d, r)
}

/// The values that the patterns get when none are given: each pattern its
/// position, converted to the type of the values.
pub open spec fn positions<V: TryFrom<usize>>(n: nat) -> Seq<V> {
    Seq::new(n, |i: int| <V as vstd::std_specs::convert::TryFromSpec<usize>>::try_from_spec(i as usize)->Ok_0)
}

/// The position `k` can be converted to the type of the values.
pub open spec fn converts<V: TryFrom<usize>>(k: int) -> bool {
    <V as vstd::std_specs::convert::TryFromSpec<usize>>::try_from_spec(k as usize) is Ok
}

/// The positions of the first `k` patterns can be converted to the type of the
/// values, and nothing is wrong with these patterns.
pub open spec fn no_fault_at_all_before<V: TryFrom<usize>>(d: PatternSet<V>, k: int) -> bool {
    forall|j: int| 0 <= j < k ==> #[trigger] converts::<V>(j) && d.fault_at(j) is None
}

/// The first pattern with which something is wrong decides how the build ends,
/// when the patterns get their positions as values: a position that cannot be
/// converted is an invalid conversion, and it comes before what is wrong with
/// the pattern itself.
pub open spec fn first_fault_decides_build<V: TryFrom<usize>, A>(d: PatternSet<V>, r: Result<A>) -> bool {
    &&& forall|k: int|
        0 <= k < d.pats.len() && no_fault_at_all_before(d, k) && !#[trigger] converts::<V>(k) ==> r
            == Err::<A, DaachorseError>(DaachorseError::InvalidConversion)
    &&& forall|k: int|
        0 <= k < d.pats.len() && no_fault_at_all_before(d, k) && converts::<V>(k)
            && #[trigger] d.fault_at(k) is Some ==> r == Err::<A, DaachorseError>(d.fault_at(k)->0)
    &&& no_fault_at_all_before(d, d.pats.len() as int) && d.pats.len() == 0 ==> r == Err::<
        A,
        DaachorseError,
    >(DaachorseError::InvalidArgument)
    &&& no_fault_at_all_before(d, d.pats.len() as int) && d.pats.len() > 0 ==> r is Ok || r == Err::<
        A,
        DaachorseError,
    >(DaachorseError::AutomatonScale)
    &&& r is Ok ==> no_fault_at_all_before(d, d.pats.len() as int) && d.pats.len() > 0
}

/// The pattern set of the words `words`, each with its position as its value.
pub open spec fn with_positions<V: TryFrom<usize>>(words: Seq<Word>, kind: MatchKind, unit: Unit) -> PatternSet<
    V,
> {
    PatternSet { pats: words, vals: positions::<V>(words.len()), kind, unit }
}

/// What building an automaton from the words `words` gives, when each gets its
/// position as its value.
///
/// An automaton that is returned was built from the words with some values, and
/// with their positions as values if the conversion of positions is specified. An
/// error says what is wrong. A valid set within scale whose positions can be
/// converted gives an automaton, and no set whose trie has more states than can
/// be addressed gives one. The first pattern with which something is wrong decides.
pub open spec fn built_with_positions<V: TryFrom<usize>>(
    words: Seq<Word>,
    kind: MatchKind,
    unit: Unit,
    r: Result<AutomatonView<V>>,
) -> bool {
    let d = with_positions::<V>(words, kind, unit);
    let specified = <V as vstd::std_specs::convert::TryFromSpec<usize>>::obeys_try_from_spec();
    &&& r matches Ok(a) ==> {
        &&& exists|vals: Seq<V>| a.recognizes(PatternSet { pats: words, vals, kind, unit })
        &&& specified ==> a.recognizes(d)
        &&& unit == Unit::Bytes ==> a.table == identity_table() && a.alphabet_size == 256
        &&& d.at_most_nodes(crate::charwise::MAX_STATES as nat)
    }
    &&& r matches Err(e) ==> {
        &&& e == DaachorseError::InvalidArgument ==> d.pats.len() == 0 || d.has_empty()
        &&& e == DaachorseError::DuplicatePattern ==> d.has_duplicate()
        &&& e == DaachorseError::AutomatonScale ==> !d.within_scale()
        &&& e == DaachorseError::InvalidConversion && specified ==> exists|i: int|
            0 <= i < words.len() && !#[trigger] converts::<V>(i)
    }
    &&& d.valid() && d.within_scale() && specified && (forall|i: int|
        0 <= i < words.len() ==> #[trigger] converts::<V>(i)) ==> r is Ok
    &&& specified ==> first_fault_decides_build(d, r)
}

/// The symbols of a text that is given as bytes: its characters, when the bytes
/// are read as UTF-8, and else the bytes.
pub open spec fn unit_of(utf8: bool) -> Unit {
    if utf8 {
        Unit::Chars
    } else {
        Unit::Bytes
    }
}

/// The words that a slice of patterns given as bytes holds.
pub open spec fn words_of_bytes(patterns: Seq<&[u8]>, utf8: bool) -> Seq<Word> {
    Seq::new(patterns.len(), |i: int| symbols_of(utf8, patterns[i]@))
}

/// The patterns and values that a slice of pairs holds, the patterns given as bytes.
pub open spec fn pattern_set_of_bytes<V>(patvals: Seq<(&[u8], V)>, kind: MatchKind, utf8: bool) -> PatternSet<
    V,
> {
    PatternSet {
        pats: Seq::new(patvals.len(), |i: int| symbols_of(utf8, patvals[i].0@)),
        vals: Seq::new(patvals.len(), |i: int| patvals[i].1),
        kind,
        unit: unit_of(utf8),
    }
}

/// What an automaton that was or was not built is, without the automaton itself.
pub open spec fn view_of<V>(r: Result<CharwiseDoubleArrayAhoCorasick<V>>) -> Result<AutomatonView<V>> {
    match r {
        Ok(a) => Ok(a@),
        Err(e) => Err(e),
    }
}

/// The symbols of a word of bytes are bytes.
pub proof fn lemma_word_of_bytes(b: Seq<u8>, j: int)
    requires
        0 <= j < b.len(),
    ensures
        crate::model::word_of_bytes(b).len() == b.len(),
        crate::model::word_of_bytes(b)[j] as u32 == b[j],
{
}

/// Finishes a trie that holds all patterns: gives the states their failure
/// links and their outputs, and packs the trie into a double array. The codes of
/// the symbols are the bytes themselves where the symbols are bytes, and else
/// they go by how often the characters occur.
fn finish<V: Copy>(nfa: NfaBuilder<V>, identity: bool) -> (r: Result<CharwiseDoubleArrayAhoCorasick<V>>)
    requires
        nfa.trie_ok(Seq::<char>::empty()),
        nfa.gh@.dict.valid(),
        nfa.outputs@.len() == 0,
        nfa.gh@.out_pat.len() == 0,
        identity <==> nfa.gh@.dict.unit == Unit::Bytes,
        identity ==> nfa.gh@.dict.bytes_only(),
    ensures
        r matches Ok(a) ==> a@.recognizes(nfa.gh@.dict) && nfa.gh@.dict.at_most_nodes(
            crate::charwise::MAX_STATES as nat,
        ) && (identity ==> a@.table == identity_table() && a@.alphabet_size == 256),
        r matches Err(e) ==> e == DaachorseError::AutomatonScale && !nfa.gh@.dict.within_scale(),
{
    let mut nfa = nfa;
    let ghost d = nfa.gh@.dict;
    let q = nfa.build_fails();
    nfa.build_outputs(&q);
    let ghost mut freqs: Seq<u32> = Seq::empty();
    let mapper = if identity {
        proof {
            assert(labels_mapped(&nfa, identity_table())) by {
                assert forall|p: int, e: int|
                    0 <= p < nfa.states.len() && 0 <= e < nfa.states[p].edges.len() implies code_at(
                    identity_table(),
                    (#[trigger] nfa.states[p].edges[e]).0,
                ) is Some by {
                    assert(nfa.edge_ok(p, e));
                    let t = nfa.states[p].edges[e].1 as int;
                    let w = nfa.gh@.nodes[t];
                    nfa.lemma_nodes(t, 'a');
                    let i = choose|i: int| #[trigger] d.kept(i) && w.is_prefix_of(d.pats[i]);
                    assert(w.last() == d.pats[i].subrange(0, w.len() as int)[w.len() - 1]);
                    assert(d.pats[i][w.len() - 1] as u32 <= 0xff);
                }
            }
        }
        CodeMapper::identity()
    } else {
        let counted = count_labels(&nfa);
        let mapper = CodeMapper::new(&counted);
        proof {
            freqs = counted@;
            assert(labels_mapped(&nfa, mapper.table@)) by {
                assert forall|p: int, e: int|
                    0 <= p < nfa.states.len() && 0 <= e < nfa.states[p].edges.len() implies code_at(
                    mapper.table@,
                    (#[trigger] nfa.states[p].edges[e]).0,
                ) is Some by {
                    let c = nfa.states[p].edges[e].0;
                    assert(counted@[c as int] != 0);
                    assert(mapper.table@[c as int] != crate::charwise::mapper::INVALID_CODE);
                }
            }
            crate::charwise::mapper::lemma_count_seen_bound(counted@);
        }
        mapper
    };
    let block_len = block_len_for(mapper.alphabet_size());
    match PackState::pack(&nfa, &mapper, block_len) {
        None => {
            proof {
                let m = nfa.states.len() as int;
                let b = block_len as int;
                if d.within_scale() {
                    if identity {
                        nfa.lemma_exact_count();
                        assert(b <= 256) by {
                            assert(b == 2 || b < 2 * 256);
                            assert(is_pow2(block_len));
                            let x = low_mask(block_len);
                            assert(block_len > 0 && x == (block_len - 1) as u32 && block_len & x == 0
                                && block_len < 512 ==> block_len <= 256) by (bit_vector);
                        }
                        assert(m * b <= 0x40_0000 * 256) by (nonlinear_arith)
                            requires
                                0 <= m <= 0x40_0000,
                                0 <= b <= 256,
                        ;
                    } else {
                        let (n, a) = choose|n: nat, a: nat|
                            #![trigger d.at_most_nodes(n), d.at_most_chars(a)]
                            d.at_most_nodes(n) && d.at_most_chars(a) && a >= 1 && n * a
                                <= 0x2000_0000;
                        lemma_scale(&nfa, freqs, n, a);
                        assert(b <= 2 * a);
                        assert(m * b <= n * (2 * a)) by (nonlinear_arith)
                            requires
                                0 <= m <= n,
                                0 <= b <= 2 * a,
                        ;
                        assert(n * (2 * a) == 2 * (n * a)) by (nonlinear_arith);
                    }
                }
            }
            Err(DaachorseError::AutomatonScale)
        },
        Some(ps) => {
            let mut ps = ps;
            ps.set_links(&nfa, &mapper);
            proof {
                ps.lemma_layout(&nfa, &mapper);
                let view = AutomatonView {
                    states: ps.states@,
                    table: mapper.table@,
                    alphabet_size: mapper.alphabet_size,
                    outputs: nfa.outputs@,
                    match_kind: nfa.match_kind,
                    num_states: nfa.states.len() as u32,
                };
                crate::charwise::laws::law_state_count(view, nfa.gh@.dict);
            }
            let num_states = nfa.states.len() as u32;
            let match_kind = nfa.match_kind;
            Ok(
                CharwiseDoubleArrayAhoCorasick::from_parts(
                    ps.states,
                    mapper,
                    nfa.outputs,
                    match_kind,
                    num_states,
                ),
            )
        },
    }
}

/// Builds an automaton from pairs of a pattern and a value, the patterns given
/// as bytes that are read as UTF-8 or as they are.
///
/// The patterns are taken in order. The first that is empty, or that was there
/// before, stops the build with its error; so does a pattern set without
/// patterns, and one too large to be addressed.
pub(crate) fn build_from_bytes_with_values<V: Copy>(
    match_kind: MatchKind,
    patvals: &[(&[u8], V)],
    utf8: bool,
) -> (r: Result<CharwiseDoubleArrayAhoCorasick<V>>)
    requires
        utf8 ==> forall|i: int| 0 <= i < patvals@.len() ==> vstd::utf8::valid_utf8((#[trigger] patvals@[i]).0@),
    ensures
        built(pattern_set_of_bytes(patvals@, match_kind, utf8), view_of(r)),
{
    let ghost d = pattern_set_of_bytes(patvals@, match_kind, utf8);
    proof {
        if d.valid() {
            d.lemma_valid();
        }
    }
    let mut nfa: NfaBuilder<V> = NfaBuilder::new(match_kind, Ghost(unit_of(utf8)));
    let mut k: usize = 0;
    proof {
        assert(d.take(0).pats =~= Seq::<Word>::empty());
        assert(d.take(0).vals =~= Seq::<V>::empty());
    }
    while k < patvals.len()
        invariant
            k <= patvals.len(),
            utf8 ==> forall|i: int|
                0 <= i < patvals@.len() ==> vstd::utf8::valid_utf8((#[trigger] patvals@[i]).0@),
            d == pattern_set_of_bytes(patvals@, match_kind, utf8),
            d.no_fault_before(k as int),
            nfa.trie_ok(Seq::<char>::empty()),
            nfa.gh@.dict == d.take(k as int),
            nfa.outputs@.len() == 0,
            nfa.gh@.out_pat.len() == 0,
            nfa.match_kind == match_kind,
        decreases patvals.len() - k,
    {
        let bytes = patvals[k].0;
        let value = patvals[k].1;
        let ghost word = symbols_of(utf8, bytes@);
        let ghost dk = nfa.gh@.dict;
        proof {
            assert(d.pats[k as int] == word);
            assert(d.vals[k as int] == value);
            assert(dk.push(word, value).pats =~= d.take(k + 1).pats);
            assert(dk.push(word, value).vals =~= d.take(k + 1).vals);
            assert(d.fault_at(k as int) == dk.push_fault(word, value));
        }
        match nfa.add(bytes, utf8, value) {
            Ok(()) => {},
            Err(e) => {
                proof {
                    if e == DaachorseError::DuplicatePattern {
                        let i = dk.pattern_index(word);
                        assert(dk.kept(i) && dk.pats[i] == word);
                        d.lemma_take_kept(k as int, i);
                        d.lemma_take_kept(k + 1, k as int);
                        assert(d.kept(i) && d.kept(k as int) && i != k && d.pats[i] == d.pats[k as int]);
                    }
                    if e == DaachorseError::AutomatonScale && d.within_scale() {
                        d.lemma_take_scale(
                            k + 1,
                            dk.push(word, value),
                            crate::nfa_builder::MAX_STATES as nat,
                        );
                    }
                    if e == DaachorseError::InvalidArgument {
                        assert(d.pats[k as int].len() == 0);
                    }
                }
                return Err(e);
            },
        }
        k += 1;
    }
    if patvals.len() == 0 {
        return Err(DaachorseError::InvalidArgument);
    }
    proof {
        assert(d.take(k as int).pats =~= d.pats);
        assert(d.take(k as int).vals =~= d.vals);
        assert(d.take(k as int) == d);
        if !utf8 {
            assert(d.bytes_only()) by {
                assert forall|i: int, j: int|
                    0 <= i < d.pats.len() && 0 <= j < d.pats[i].len() implies (
                #[trigger] d.pats[i][j]) as u32 <= 0xff by {
                    lemma_word_of_bytes(patvals@[i].0@, j);
                }
            }
        }
    }
    finish(nfa, !utf8)
}

/// Builds an automaton from patterns given as bytes that are read as UTF-8 or
/// as they are. Each pattern gets its position among the patterns as its value,
/// converted to the type of the values.
///
/// The patterns are taken in order. The first whose position cannot be
/// converted, or that is empty, or that was there before, stops the build with
/// its error; so does a pattern set without patterns, and one too large to be
/// addressed.
pub(crate) fn build_from_bytes<V: Copy + TryFrom<usize>>(match_kind: MatchKind, patterns: &[&[u8]], utf8: bool) -> (r:
    Result<CharwiseDoubleArrayAhoCorasick<V>>)
    requires
        utf8 ==> forall|i: int| 0 <= i < patterns@.len() ==> vstd::utf8::valid_utf8(#[trigger] patterns@[i]@),
    ensures
        built_with_positions(words_of_bytes(patterns@, utf8), match_kind, unit_of(utf8), view_of(r)),
{
    let ghost words = words_of_bytes(patterns@, utf8);
    let ghost kind = match_kind;
    let ghost unit = unit_of(utf8);
    let ghost mut vals: Seq<V> = Seq::empty();
    let ghost d_pos = with_positions::<V>(words, kind, unit);
    let mut nfa: NfaBuilder<V> = NfaBuilder::new(match_kind, Ghost(unit));
    let mut k: usize = 0;
    proof {
        assert(words.take(0) =~= Seq::<Word>::empty());
        if d_pos.valid() {
            d_pos.lemma_valid();
        }
    }
    while k < patterns.len()
        invariant
            k <= patterns.len(),
            utf8 ==> forall|i: int|
                0 <= i < patterns@.len() ==> vstd::utf8::valid_utf8(#[trigger] patterns@[i]@),
            words == words_of_bytes(patterns@, utf8),
            kind == match_kind,
            unit == unit_of(utf8),
            d_pos == with_positions::<V>(words, kind, unit),
            vals.len() == k,
            nfa.trie_ok(Seq::<char>::empty()),
            nfa.gh@.dict == (PatternSet { pats: words.take(k as int), vals, kind, unit }),
            nfa.outputs@.len() == 0,
            nfa.gh@.out_pat.len() == 0,
            nfa.match_kind == match_kind,
            <V as vstd::std_specs::convert::TryFromSpec<usize>>::obeys_try_from_spec()
                ==> forall|i: int|
                0 <= i < k ==> <V as vstd::std_specs::convert::TryFromSpec<usize>>::try_from_spec(
                    i as usize,
                ) == Ok::<V, <V as TryFrom<usize>>::Error>(#[trigger] vals[i]),
            <V as vstd::std_specs::convert::TryFromSpec<usize>>::obeys_try_from_spec()
                ==> no_fault_at_all_before(d_pos, k as int),
        decreases patterns.len() - k,
    {
        let bytes = patterns[k];
        let ghost word = symbols_of(utf8, bytes@);
        let converted = V::try_from(k);
        let value = match converted {
            Ok(v) => v,
            Err(_) => {
                proof {
                    if <V as vstd::std_specs::convert::TryFromSpec<usize>>::obeys_try_from_spec() {
                        let i = k as int;
                        assert(<V as vstd::std_specs::convert::TryFromSpec<usize>>::try_from_spec(
                            i as usize,
                        ) is Err);
                        assert(!converts::<V>(k as int));
                    }
                }
                return Err(DaachorseError::InvalidConversion);
            },
        };
        let ghost dk = nfa.gh@.dict;
        proof {
            if <V as vstd::std_specs::convert::TryFromSpec<usize>>::obeys_try_from_spec() {
                assert(converts::<V>(k as int));
                assert(d_pos.vals[k as int] == value);
                assert(d_pos.take(k as int).pats =~= dk.pats);
                assert(d_pos.take(k as int).vals =~= dk.vals);
                assert(d_pos.pats[k as int] == word);
                assert(d_pos.fault_at(k as int) == dk.push_fault(word, value));
            }
            assert(words[k as int] == word);
            assert(dk.push(word, value).pats =~= words.take(k + 1));
        }
        match nfa.add(bytes, utf8, value) {
            Ok(()) => {},
            Err(e) => {
                proof {
                    if e == DaachorseError::DuplicatePattern {
                        let i = dk.pattern_index(word);
                        let dk1 = dk.push(word, value);
                        assert(dk.kept(i) && dk.pats[i] == word);
                        dk.lemma_push_kept(word, value, i);
                        lemma_kept_same_words(dk1, d_pos.take(k + 1), i);
                        lemma_kept_same_words(dk1, d_pos.take(k + 1), k as int);
                        d_pos.lemma_take_kept(k + 1, i);
                        d_pos.lemma_take_kept(k + 1, k as int);
                        assert(d_pos.kept(i) && d_pos.kept(k as int) && i != k && d_pos.pats[i]
                            == d_pos.pats[k as int]);
                    }
                    if e == DaachorseError::AutomatonScale && d_pos.within_scale() {
                        d_pos.lemma_take_scale(
                            k + 1,
                            dk.push(word, value),
                            crate::nfa_builder::MAX_STATES as nat,
                        );
                    }
                    if e == DaachorseError::InvalidArgument {
                        assert(d_pos.pats[k as int].len() == 0);
                    }
                }
                return Err(e);
            },
        }
        proof {
            vals = vals.push(value);
            if <V as vstd::std_specs::convert::TryFromSpec<usize>>::obeys_try_from_spec() {
                assert(converts::<V>(k as int));
                assert(d_pos.fault_at(k as int) is None);
                assert forall|j: int| 0 <= j < k + 1 implies #[trigger] converts::<V>(j)
                    && d_pos.fault_at(j) is None by {
                    if j < k {
                        assert(no_fault_at_all_before(d_pos, k as int));
                    }
                }
            }
        }
        k += 1;
    }
    if patterns.len() == 0 {
        return Err(DaachorseError::InvalidArgument);
    }
    proof {
        assert(words.take(k as int) =~= words);
        if <V as vstd::std_specs::convert::TryFromSpec<usize>>::obeys_try_from_spec() {
            assert(vals =~= positions::<V>(words.len()));
        }
        lemma_same_words(nfa.gh@.dict, d_pos);
        if !utf8 {
            assert(nfa.gh@.dict.bytes_only()) by {
                assert forall|i: int, j: int|
                    0 <= i < words.len() && 0 <= j < words[i].len() implies (#[trigger] words[i][j]) as u32
                    <= 0xff by {
                    lemma_word_of_bytes(patterns@[i]@, j);
                }
            }
        }
    }
    finish(nfa, !utf8)
}

/// Which words are states, which patterns are twice in a set, and whether a set
/// is within scale, depends on the words of the patterns only, not on the values.
pub proof fn lemma_same_words<V>(a: PatternSet<V>, b: PatternSet<V>)
    requires
        a.pats == b.pats,
        a.kind == b.kind,
        a.unit == b.unit,
    ensures
        forall|w: Word| a.is_node(w) == b.is_node(w),
        forall|n: nat| a.at_most_nodes(n) == b.at_most_nodes(n),
        forall|n: nat| a.at_most_chars(n) == b.at_most_chars(n),
        a.within_scale() == b.within_scale(),
        a.has_duplicate() == b.has_duplicate(),
        a.has_empty() == b.has_empty(),
{
    assert forall|i: int| a.kept(i) == b.kept(i) by {
        lemma_kept_same_words(a, b, i);
    }
    assert forall|w: Word| a.is_node(w) == b.is_node(w) by {
        if a.is_node(w) {
            let i = choose|i: int| #[trigger] a.kept(i) && w.is_prefix_of(a.pats[i]);
            assert(b.kept(i));
        }
        if b.is_node(w) {
            let i = choose|i: int| #[trigger] b.kept(i) && w.is_prefix_of(b.pats[i]);
            assert(a.kept(i));
        }
    }
    assert forall|c: char| a.occurs(c) == b.occurs(c) by {
        if a.occurs(c) {
            let w = choose|w: Word| a.is_node(#[trigger] w.push(c));
            assert(b.is_node(w.push(c)));
        }
        if b.occurs(c) {
            let w = choose|w: Word| b.is_node(#[trigger] w.push(c));
            assert(a.is_node(w.push(c)));
        }
    }
    assert forall|n: nat| a.at_most_nodes(n) == b.at_most_nodes(n) by {
    }
    assert forall|n: nat| a.at_most_chars(n) == b.at_most_chars(n) by {
    }
    if a.unit == Unit::Chars {
        if a.within_scale() {
            let (n, m) = choose|n: nat, m: nat|
                #![trigger a.at_most_nodes(n), a.at_most_chars(m)]
                a.at_most_nodes(n) && a.at_most_chars(m) && m >= 1 && n * m <= 0x2000_0000;
            assert(b.at_most_nodes(n) && b.at_most_chars(m));
        }
        if b.within_scale() {
            let (n, m) = choose|n: nat, m: nat|
                #![trigger b.at_most_nodes(n), b.at_most_chars(m)]
                b.at_most_nodes(n) && b.at_most_chars(m) && m >= 1 && n * m <= 0x2000_0000;
            assert(a.at_most_nodes(n) && a.at_most_chars(m));
        }
    }
    if a.has_duplicate() {
        let (i, j) = choose|i: int, j: int|
            #![trigger a.kept(i), a.kept(j)]
            a.kept(i) && a.kept(j) && i != j && a.pats[i] == a.pats[j];
        assert(b.kept(i) && b.kept(j));
    }
    if b.has_duplicate() {
        let (i, j) = choose|i: int, j: int|
            #![trigger b.kept(i), b.kept(j)]
            b.kept(i) && b.kept(j) && i != j && b.pats[i] == b.pats[j];
        assert(a.kept(i) && a.kept(j));
    }
}

/// Whether a pattern takes part depends on the words of the patterns only.
pub proof fn lemma_kept_same_words<V>(a: PatternSet<V>, b: PatternSet<V>, i: int)
    requires
        a.pats == b.pats,
        a.kind == b.kind,
    ensures
        a.kept(i) == b.kept(i),
{
}

/// The patterns and values that a slice of pairs holds.
pub open spec fn pattern_set_of<V>(patvals: Seq<(&str, V)>, kind: MatchKind) -> PatternSet<V> {
    PatternSet {
        pats: Seq::new(patvals.len(), |i: int| patvals[i].0@),
        vals: Seq::new(patvals.len(), |i: int| patvals[i].1),
        kind,
        unit: Unit::Chars,
    }
}

/// The words that a slice of patterns holds.
pub open spec fn words_of(patterns: Seq<&str>) -> Seq<Word> {
    Seq::new(patterns.len(), |i: int| patterns[i]@)
}

/// Builder of a [`CharwiseDoubleArrayAhoCorasick`].
pub struct CharwiseDoubleArrayAhoCorasickBuilder {
    match_kind: MatchKind,
}

impl CharwiseDoubleArrayAhoCorasickBuilder {
    /// The match kind that the automaton will have.
    pub closed spec fn kind(&self) -> MatchKind {
        self.match_kind
    }

    /// Creates a builder of an automaton of the standard kind.
    pub fn new() -> (r: Self)
        ensures
            r.kind() == MatchKind::Standard,
    {
        Self { match_kind: MatchKind::Standard }
    }

    /// Sets the match kind that the automaton will have.
    pub fn match_kind(self, kind: MatchKind) -> (r: Self)
        ensures
            r.kind() == kind,
    {
        Self { match_kind: kind }
    }

    /// Builds an automaton from patterns. Each pattern gets its position among
    /// the patterns as its value, converted to the type of the values.
    ///
    /// The patterns are taken in order. The first whose position cannot be
    /// converted, or that is empty, or that was there before, stops the build with
    /// its error; so does a pattern set without patterns, and one too large to be
    /// addressed.
    pub fn build<V: Copy + TryFrom<usize>>(self, patterns: &[&str]) -> (r: Result<
        CharwiseDoubleArrayAhoCorasick<V>,
    >)
        ensures
            built_with_positions(words_of(patterns@), self.kind(), Unit::Chars, view_of(r)),
    {
        let mut bytes: Vec<&[u8]> = Vec::new();
        let mut k: usize = 0;
        while k < patterns.len()
            invariant
                k <= patterns.len(),
                bytes@.len() == k,
                forall|i: int|
                    0 <= i < k ==> (#[trigger] bytes@[i])@ == vstd::utf8::encode_utf8(patterns@[i]@),
            decreases patterns.len() - k,
        {
            bytes.push(patterns[k].as_bytes());
            k += 1;
        }
        proof {
            assert forall|i: int| 0 <= i < bytes@.len() implies vstd::utf8::valid_utf8(
                #[trigger] bytes@[i]@,
            ) by {
                vstd::utf8::encode_utf8_valid_utf8(patterns@[i]@);
            }
            assert(words_of_bytes(bytes@, true) =~= words_of(patterns@)) by {
                assert forall|i: int| 0 <= i < bytes@.len() implies symbols_of(true, bytes@[i]@)
                    == patterns@[i]@ by {
                    vstd::utf8::encode_utf8_decode_utf8(patterns@[i]@);
                }
            }
        }
        build_from_bytes(self.match_kind, bytes.as_slice(), true)
    }

    /// Builds an automaton from pairs of a pattern and a value.
    ///
    /// The patterns are taken in order. The first that is empty, or that was there
    /// before, stops the build with its error; so does a pattern set without
    /// patterns, and one too large to be addressed.
    pub fn build_with_values<V: Copy>(self, patvals: &[(&str, V)]) -> (r: Result<
        CharwiseDoubleArrayAhoCorasick<V>,
    >)
        ensures
            built(pattern_set_of(patvals@, self.kind()), view_of(r)),
    {
        let mut bytes: Vec<(&[u8], V)> = Vec::new();
        let mut k: usize = 0;
        while k < patvals.len()
            invariant
                k <= patvals.len(),
                bytes@.len() == k,
                forall|i: int|
                    0 <= i < k ==> (#[trigger] bytes@[i]).0@ == vstd::utf8::encode_utf8(patvals@[i].0@)
                        && bytes@[i].1 == patvals@[i].1,
            decreases patvals.len() - k,
        {
            bytes.push((patvals[k].0.as_bytes(), patvals[k].1));
            k += 1;
        }
        proof {
            assert forall|i: int| 0 <= i < bytes@.len() implies vstd::utf8::valid_utf8(
                (#[trigger] bytes@[i]).0@,
            ) by {
                vstd::utf8::encode_utf8_valid_utf8(patvals@[i].0@);
            }
            let d1 = pattern_set_of_bytes(bytes@, self.match_kind, true);
            let d2 = pattern_set_of(patvals@, self.kind());
            assert(d1.pats =~= d2.pats) by {
                assert forall|i: int| 0 <= i < bytes@.len() implies symbols_of(true, bytes@[i].0@)
                    == patvals@[i].0@ by {
                    vstd::utf8::encode_utf8_decode_utf8(patvals@[i].0@);
                }
            }
            assert(d1.vals =~= d2.vals);
            assert(d1 == d2);
        }
        build_from_bytes_with_values(self.match_kind, bytes.as_slice(), true)
    }
}

} // verus!
