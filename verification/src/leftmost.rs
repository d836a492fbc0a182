//! What a search under the leftmost kinds finds: of all occurrences of patterns
//! the one that starts first, and of those that start there the longest.
//!
//! The automaton finds it with failure links, some of which are dead. This file
//! proves that what it finds is what these words say.
use crate::model::{
    lemma_suffix_drop_first, lemma_suffix_refl, lemma_suffix_total, lemma_suffix_trans, PatternSet,
    Word,
};
use crate::{MatchKind, MatchView};
use vstd::prelude::*;

verus! {

impl<V> PatternSet<V> {
    /// The pattern `i` takes part and occurs in `w` from character `t` on.
    pub open spec fn occurs_at(self, w: Word, t: int, i: int) -> bool {
        &&& self.kept(i)
        &&& 0 <= t
        &&& t + self.pats[i].len() <= w.len()
        &&& w.subrange(t, t + self.pats[i].len()) == self.pats[i]
    }

    /// A pattern occurs in `w` from a character before `b` on.
    pub open spec fn occurs_before(self, w: Word, b: int) -> bool {
        exists|t: int, i: int| #[trigger] self.occurs_at(w, t, i) && t < b
    }

    /// Where in the state `w` the state begins that the failure link of `w` leads
    /// to under the standard kind.
    pub open spec fn fail_offset(self, w: Word) -> int {
        w.len() - self.fail_of(w).len()
    }

    /// An occurrence in a suffix of a word is an occurrence in the word, further in.
    pub proof fn lemma_occurs_in_suffix(self, w: Word, o: int, t: int, i: int)
        requires
            0 <= o <= w.len(),
            0 <= t,
        ensures
            self.occurs_at(w.skip(o), t, i) <==> self.occurs_at(w, o + t, i),
    {
        let f = w.skip(o);
        let n = self.pats[i].len() as int;
        if self.kept(i) && t + n <= f.len() {
            assert(f.subrange(t, t + n) =~= w.subrange(o + t, o + t + n));
        }
    }

    /// An occurrence in a prefix of a word is an occurrence in the word that ends
    /// inside the prefix.
    pub proof fn lemma_occurs_in_prefix(self, w: Word, m: int, t: int, i: int)
        requires
            0 <= m <= w.len(),
        ensures
            self.occurs_at(w.take(m), t, i) <==> self.occurs_at(w, t, i) && t + self.pats[i].len()
                <= m,
    {
        let u = w.take(m);
        let n = self.pats[i].len() as int;
        if self.kept(i) && 0 <= t && t + n <= m {
            assert(u.subrange(t, t + n) =~= w.subrange(t, t + n));
        }
    }

    /// A pattern that occurs at the end of a state and not at its start begins no
    /// earlier than the state that the failure link leads to.
    pub proof fn lemma_suffix_occurrence(self, w: Word, t: int, i: int)
        requires
            self.valid(),
            w.len() > 0,
            self.occurs_at(w, t, i),
            t + self.pats[i].len() == w.len(),
            t > 0,
        ensures
            t >= self.fail_offset(w),
    {
        let p = self.pats[i];
        assert(p =~= w.subrange(w.len() - p.len(), w.len() as int));
        assert(p.is_suffix_of(w));
        lemma_suffix_drop_first(p, w);
        assert(self.is_pattern(p));
        self.lemma_pattern_is_node(p);
        self.lemma_longest_node_suffix(w.drop_first());
        assert(p.is_suffix_of(self.fail_of(w)));
    }

    /// The state that the failure link of a state leads to is the state from the
    /// failure offset on.
    pub proof fn lemma_fail_is_skip(self, w: Word)
        requires
            self.valid(),
            w.len() > 0,
        ensures
            1 <= self.fail_offset(w) <= w.len(),
            self.fail_of(w) == w.skip(self.fail_offset(w)),
    {
        self.lemma_fail_shorter(w);
        let f = self.fail_of(w);
        assert(f =~= w.subrange(w.len() - f.len(), w.len() as int));
    }

    /// A pattern occurs in the state `w` before the place `b` exactly when it
    /// occurs before the failure offset, or in the state behind the failure link
    /// before the place that `b` is there.
    proof fn lemma_split_at_fail(self, w: Word, b: int)
        requires
            self.valid(),
            w.len() > 0,
            b >= self.fail_offset(w),
        ensures
            self.occurs_before(w, b) <==> self.occurs_before(w, self.fail_offset(w))
                || self.occurs_before(self.fail_of(w), b - self.fail_offset(w)),
    {
        let o = self.fail_offset(w);
        let f = self.fail_of(w);
        self.lemma_fail_is_skip(w);
        if self.occurs_before(w, b) {
            let (t, i) = choose|t: int, i: int| #[trigger] self.occurs_at(w, t, i) && t < b;
            if t >= o {
                self.lemma_occurs_in_suffix(w, o, t - o, i);
                assert(self.occurs_at(f, t - o, i) && t - o < b - o);
            }
        }
        if self.occurs_before(f, b - o) {
            let (t, i) = choose|t: int, i: int| #[trigger] self.occurs_at(f, t, i) && t < b - o;
            self.lemma_occurs_in_suffix(w, o, t, i);
            assert(self.occurs_at(w, o + t, i) && o + t < b);
        }
    }

    /// Under the leftmost kinds the failure link of a state is dead exactly when a
    /// pattern occurs in the state that begins before the state to which the link
    /// would lead under the standard kind.
    pub proof fn lemma_dead(self, w: Word)
        requires
            self.valid(),
            self.is_node(w),
            w.len() > 0,
        ensures
            self.leftmost_dead(w) <==> self.occurs_before(w, self.fail_offset(w)),
        decreases w.len(), 1nat,
    {
        let o = self.fail_offset(w);
        self.lemma_fail_is_skip(w);
        if self.is_pattern(w) {
            let i = self.pattern_index(w);
            assert(w.subrange(0, w.len() as int) =~= w);
            assert(self.occurs_at(w, 0, i));
        } else {
            // an occurrence before the failure offset ends before the last character
            let u = w.drop_last();
            let c = w.last();
            assert(w =~= u.push(c));
            self.lemma_node_parent(u, c);
            assert forall|t: int, i: int| #[trigger] self.occurs_at(w, t, i) && t < o implies t
                + self.pats[i].len() < w.len() by {
                if t + self.pats[i].len() == w.len() {
                    if t == 0 {
                        assert(w.subrange(0, w.len() as int) =~= w);
                        assert(self.is_pattern(w));
                    } else {
                        self.lemma_suffix_occurrence(w, t, i);
                    }
                }
            }
            if w.len() == 1 {
                assert(!self.leftmost_dead(w));
                if self.occurs_before(w, o) {
                    let (t, i) = choose|t: int, i: int| #[trigger] self.occurs_at(w, t, i) && t < o;
                    assert(self.pats[i].len() > 0);
                }
            } else {
                let f = self.fail_of(u);
                self.lemma_fail_is_skip(u);
                self.lemma_fail_shorter(u);
                self.lemma_fail_child(u, c);
                self.lemma_dead(u);
                self.lemma_walk_dead(f, c);
                let ou = self.fail_offset(u);
                let bf = f.len() + 1 - self.step(f, c).len();
                assert(o == ou + bf);
                self.lemma_step_len(f, c);
                self.lemma_split_at_fail(u, o);
                // occurrences in w before o are the occurrences in u before o
                if self.occurs_before(w, o) {
                    let (t, i) = choose|t: int, i: int| #[trigger] self.occurs_at(w, t, i) && t < o;
                    self.lemma_occurs_in_prefix(w, w.len() - 1, t, i);
                    assert(w.take(w.len() - 1) =~= u);
                    assert(self.occurs_at(u, t, i));
                }
                if self.occurs_before(u, o) {
                    let (t, i) = choose|t: int, i: int| #[trigger] self.occurs_at(u, t, i) && t < o;
                    self.lemma_occurs_in_prefix(w, w.len() - 1, t, i);
                    assert(w.take(w.len() - 1) =~= u);
                    assert(self.occurs_at(w, t, i));
                }
            }
        }
    }

    /// The state reached on a character is no longer than the state before with
    /// the character behind it.
    pub proof fn lemma_step_len(self, v: Word, c: char)
        requires
            self.valid(),
        ensures
            self.step(v, c).len() <= v.len() + 1,
            self.is_node(self.step(v, c)),
            self.step(v, c).is_suffix_of(v.push(c)),
    {
        self.lemma_longest_node_suffix(v.push(c));
    }

    /// Under the leftmost kinds the walk from the state `v` on the character `c`
    /// comes to a dead link exactly when a pattern occurs in `v` that begins before
    /// the state from which the walk would go on under the standard kind.
    pub proof fn lemma_walk_dead(self, v: Word, c: char)
        requires
            self.valid(),
            self.is_node(v),
        ensures
            self.leftmost_walk_dead(v, c) <==> self.occurs_before(
                v,
                v.len() + 1 - self.step(v, c).len(),
            ),
        decreases v.len(), 2nat,
    {
        let b = v.len() + 1 - self.step(v, c).len();
        self.lemma_step_unfold(v, c);
        self.lemma_step_len(v, c);
        if self.is_node(v.push(c)) {
            assert(b == 0);
            if self.occurs_before(v, b) {
                let (t, i) = choose|t: int, i: int| #[trigger] self.occurs_at(v, t, i) && t < b;
            }
        } else if v.len() == 0 {
            if self.occurs_before(v, b) {
                let (t, i) = choose|t: int, i: int| #[trigger] self.occurs_at(v, t, i) && t < b;
                assert(self.pats[i].len() > 0);
            }
        } else {
            let f = self.fail_of(v);
            self.lemma_fail_shorter(v);
            self.lemma_fail_is_skip(v);
            self.lemma_dead(v);
            self.lemma_walk_dead(f, c);
            self.lemma_step_len(f, c);
            self.lemma_split_at_fail(v, b);
        }
    }

    /// Under the leftmost kinds a state leads on a character where it leads under
    /// the standard kind, unless the walk comes to a dead link: then it leads to
    /// the root.
    pub proof fn lemma_leftmost_step_is_step(self, w: Word, c: char)
        requires
            self.valid(),
            self.is_node(w),
        ensures
            self.leftmost_step(w, c) == (if self.leftmost_walk_dead(w, c) {
                Seq::<char>::empty()
            } else {
                self.step(w, c)
            }),
        decreases w.len(),
    {
        self.lemma_step_unfold(w, c);
        if self.is_node(w.push(c)) {
        } else if w.len() == 0 {
            assert(w =~= Seq::<char>::empty());
        } else if self.leftmost_dead(w) {
        } else {
            let f = self.fail_of(w);
            self.lemma_fail_shorter(w);
            self.lemma_leftmost_step_is_step(f, c);
        }
    }

    /// What a scan under the leftmost kinds remembers in a state: a pattern that
    /// occurs at the end of the state, when no pattern occurs in the state that
    /// begins earlier; and nothing, when every pattern that occurs at the end of the
    /// state begins later than some other pattern that occurs in the state.
    pub proof fn lemma_leftmost_output_first(self, w: Word)
        requires
            self.valid(),
            self.is_node(w),
        ensures
            self.leftmost_output(w) matches Some(i) ==> {
                &&& self.occurs_at(w, w.len() - self.pats[i].len(), i)
                &&& !self.occurs_before(w, w.len() - self.pats[i].len())
            },
            self.leftmost_output(w) is None ==> forall|t: int, i: int|
                #[trigger] self.occurs_at(w, t, i) && t + self.pats[i].len() == w.len()
                    ==> self.occurs_before(w, t),
        decreases w.len(),
    {
        if w.len() == 0 {
            assert forall|t: int, i: int| #[trigger] self.occurs_at(w, t, i) implies false by {
                assert(self.pats[i].len() > 0);
            }
        } else if self.is_pattern(w) {
            let i = self.pattern_index(w);
            assert(w.subrange(0, w.len() as int) =~= w);
            assert(self.occurs_at(w, 0, i));
            if self.occurs_before(w, 0) {
                let (t, j) = choose|t: int, j: int| #[trigger] self.occurs_at(w, t, j) && t < 0;
            }
        } else {
            let o = self.fail_offset(w);
            let f = self.fail_of(w);
            self.lemma_fail_is_skip(w);
            self.lemma_fail_shorter(w);
            self.lemma_dead(w);
            if self.leftmost_dead(w) {
                let (t0, i0) = choose|t: int, i: int| #[trigger] self.occurs_at(w, t, i) && t < o;
                assert forall|t: int, i: int|
                    #[trigger] self.occurs_at(w, t, i) && t + self.pats[i].len()
                        == w.len() implies self.occurs_before(w, t) by {
                    if t == 0 {
                        assert(w.subrange(0, w.len() as int) =~= w);
                        assert(self.is_pattern(w));
                    } else {
                        self.lemma_suffix_occurrence(w, t, i);
                        assert(self.occurs_at(w, t0, i0) && t0 < t);
                    }
                }
            } else {
                self.lemma_leftmost_output_first(f);
                match self.leftmost_output(f) {
                    Some(i) => {
                        let tf = f.len() - self.pats[i].len();
                        self.lemma_occurs_in_suffix(w, o, tf, i);
                        if self.occurs_before(w, o + tf) {
                            let (t, j) = choose|t: int, j: int|
                                #[trigger] self.occurs_at(w, t, j) && t < o + tf;
                            assert(t >= o) by {
                                if t < o {
                                    assert(self.occurs_before(w, o));
                                }
                            }
                            self.lemma_occurs_in_suffix(w, o, t - o, j);
                            assert(self.occurs_at(f, t - o, j) && t - o < tf);
                        }
                    },
                    None => {
                        assert forall|t: int, i: int|
                            #[trigger] self.occurs_at(w, t, i) && t + self.pats[i].len()
                                == w.len() implies self.occurs_before(w, t) by {
                            assert(t >= o) by {
                                if t < o {
                                    assert(self.occurs_before(w, o));
                                }
                            }
                            self.lemma_occurs_in_suffix(w, o, t - o, i);
                            assert(self.occurs_at(f, t - o, i));
                            assert(self.occurs_before(f, t - o));
                            let (t2, j) = choose|t2: int, j: int|
                                #[trigger] self.occurs_at(f, t2, j) && t2 < t - o;
                            self.lemma_occurs_in_suffix(w, o, t2, j);
                            assert(self.occurs_at(w, o + t2, j) && o + t2 < t);
                        }
                    },
                }
            }
        }
    }
}

impl<V> PatternSet<V> {
    /// The pattern `i` occurs in `h` from character `t` on, no earlier than at
    /// character `s`, and ends no later than after `k` characters.
    pub open spec fn in_window(self, h: Word, s: int, k: int, t: int, i: int) -> bool {
        self.occurs_at(h, t, i) && s <= t && t + self.pats[i].len() <= k
    }

    /// Of the occurrences of patterns in `h` that begin no earlier than at
    /// character `s` and end no later than after `k` characters, the occurrence of
    /// the pattern `b.0` that ends after `b.1` characters begins first, and of those
    /// that begin where it begins it is the longest.
    pub open spec fn is_best(self, h: Word, s: int, k: int, b: (int, int)) -> bool {
        let t = b.1 - self.pats[b.0].len();
        &&& self.in_window(h, s, k, t, b.0)
        &&& forall|t2: int, i2: int|
            #[trigger] self.occurs_at(h, t2, i2) && s <= t2 && t2 + self.pats[i2].len() <= k ==> t2
                > t || (t2 == t && self.pats[i2].len() <= self.pats[b.0].len())
    }

    /// `best` is what a scan has to remember of the occurrences between character
    /// `s` and character `k`: nothing if there are none, and else the first and
    /// longest of them.
    pub open spec fn best_ok(self, h: Word, s: int, k: int, best: Option<(int, int)>) -> bool {
        match best {
            None => forall|t: int, i: int|
                #[trigger] self.occurs_at(h, t, i) && s <= t ==> t + self.pats[i].len() > k,
            Some(b) => self.is_best(h, s, k, b),
        }
    }

    /// No pattern occurs in `h` that begins at or after character `p` and before
    /// character `s`.
    pub open spec fn nothing_starts(self, h: Word, p: int, s: int) -> bool {
        forall|t: int, i: int| #[trigger] self.occurs_at(h, t, i) && p <= t ==> s <= t
    }

    /// An occurrence in a part of a text is an occurrence in the text that lies in
    /// that part.
    pub proof fn lemma_occurs_in_part(self, h: Word, s: int, k: int, t: int, i: int)
        requires
            0 <= s <= k <= h.len(),
            0 <= t,
        ensures
            self.occurs_at(h.subrange(s, k), t, i) <==> self.occurs_at(h, s + t, i) && s + t
                + self.pats[i].len() <= k,
    {
        let w = h.subrange(s, k);
        let n = self.pats[i].len() as int;
        if self.kept(i) && t + n <= w.len() {
            assert(w.subrange(t, t + n) =~= h.subrange(s + t, s + t + n));
        }
    }

    /// A pattern that occurs in a text and runs over the place `k` begins no
    /// earlier than the longest state that ends right after `k`.
    proof fn lemma_runs_over(self, h: Word, s: int, k: int, t: int, i: int)
        requires
            self.valid(),
            0 <= s <= k < h.len(),
            self.occurs_at(h, t, i),
            s <= t <= k,
            t + self.pats[i].len() > k,
        ensures
            t >= k + 1 - self.step(h.subrange(s, k), h[k]).len(),
    {
        let w = h.subrange(s, k);
        let c = h[k];
        let wc = w.push(c);
        assert(wc =~= h.subrange(s, k + 1));
        let y = h.subrange(t, k + 1);
        let p = self.pats[i];
        assert(y =~= p.subrange(0, y.len() as int)) by {
            assert forall|j: int| 0 <= j < y.len() implies y[j] == p[j] by {
                assert(p[j] == h.subrange(t, t + p.len())[j]);
            }
        }
        assert(self.kept(i) && y.is_prefix_of(p));
        assert(self.is_node(y));
        assert(y =~= wc.subrange(wc.len() - y.len(), wc.len() as int));
        assert(y.is_suffix_of(wc));
        self.lemma_longest_node_suffix(wc);
        assert(y.is_suffix_of(self.step(w, c)));
    }

    /// When every pattern that occurs at the end of a state begins later than
    /// another one that occurs in the state, every such pattern begins later than
    /// one that ends before the end of the state.
    proof fn lemma_descent(self, w: Word, t: int, i: int)
        requires
            self.valid(),
            forall|t2: int, i2: int|
                #[trigger] self.occurs_at(w, t2, i2) && t2 + self.pats[i2].len() == w.len()
                    ==> self.occurs_before(w, t2),
            self.occurs_at(w, t, i),
            t + self.pats[i].len() == w.len(),
        ensures
            exists|t3: int, i3: int|
                #[trigger] self.occurs_at(w, t3, i3) && t3 < t && t3 + self.pats[i3].len() < w.len(),
        decreases t,
    {
        assert(self.occurs_before(w, t));
        let (t2, i2) = choose|t2: int, i2: int| #[trigger] self.occurs_at(w, t2, i2) && t2 < t;
        if t2 + self.pats[i2].len() == w.len() {
            self.lemma_descent(w, t2, i2);
            let (t3, i3) = choose|t3: int, i3: int|
                #[trigger] self.occurs_at(w, t3, i3) && t3 < t2 && t3 + self.pats[i3].len()
                    < w.len();
            assert(self.occurs_at(w, t3, i3) && t3 < t && t3 + self.pats[i3].len() < w.len());
        } else {
            assert(self.occurs_at(w, t2, i2) && t2 < t && t2 + self.pats[i2].len() < w.len());
        }
    }

    /// A pattern occurs in `h` that begins at or after character `s` and before
    /// character `b`, and ends no later than after `k` characters.
    pub open spec fn starts_in(self, h: Word, s: int, b: int, k: int) -> bool {
        exists|t: int, i: int|
            #[trigger] self.occurs_at(h, t, i) && s <= t < b && t + self.pats[i].len() <= k
    }

    /// Every pattern that occurs in `h` from character `s` on and runs over
    /// character `k` begins at character `b` or later.
    pub open spec fn none_over(self, h: Word, s: int, k: int, b: int) -> bool {
        forall|t: int, i: int|
            #[trigger] self.occurs_at(h, t, i) && s <= t <= k && t + self.pats[i].len() > k ==> t
                >= b
    }

    /// The longest state that ends behind character `k` of a text, when the part
    /// of the text from `s` to `k` is a state, is a part of the text.
    proof fn lemma_next_part(self, h: Word, s: int, k: int)
        requires
            self.valid(),
            0 <= s <= k < h.len(),
        ensures
            ({
                let x = self.step(h.subrange(s, k), h[k]);
                let sx = k + 1 - x.len();
                &&& s <= sx <= k + 1
                &&& self.is_node(x)
                &&& x == h.subrange(sx, k + 1)
            }),
    {
        let w = h.subrange(s, k);
        let c = h[k];
        let x = self.step(w, c);
        let sx = k + 1 - x.len();
        self.lemma_step_len(w, c);
        let wc = w.push(c);
        assert(wc =~= h.subrange(s, k + 1));
        assert(x =~= wc.subrange(wc.len() - x.len(), wc.len() as int));
        assert(x =~= h.subrange(sx, k + 1));
    }

    /// No pattern that runs over character `k` begins before the longest state
    /// that ends behind `k`.
    proof fn lemma_none_over(self, h: Word, s: int, k: int)
        requires
            self.valid(),
            0 <= s <= k < h.len(),
        ensures
            self.none_over(h, s, k, k + 1 - self.step(h.subrange(s, k), h[k]).len()),
    {
        let sx = k + 1 - self.step(h.subrange(s, k), h[k]).len();
        assert forall|t: int, i: int|
            #[trigger] self.occurs_at(h, t, i) && s <= t <= k && t + self.pats[i].len()
                > k implies t >= sx by {
            self.lemma_runs_over(h, s, k, t, i);
        }
    }

    /// The walk from a state comes to a dead link exactly when a pattern occurs
    /// in the state that begins before the longest state that ends behind the next
    /// character.
    proof fn lemma_dead_is_start(self, h: Word, s: int, k: int)
        requires
            self.valid(),
            0 <= s <= k < h.len(),
            self.is_node(h.subrange(s, k)),
        ensures
            self.leftmost_walk_dead(h.subrange(s, k), h[k]) <==> self.starts_in(
                h,
                s,
                k + 1 - self.step(h.subrange(s, k), h[k]).len(),
                k,
            ),
    {
        let w = h.subrange(s, k);
        let c = h[k];
        let x = self.step(w, c);
        let sx = k + 1 - x.len();
        self.lemma_walk_dead(w, c);
        self.lemma_step_len(w, c);
        if self.leftmost_walk_dead(w, c) {
            let (t0, i0) = choose|t: int, i: int|
                #[trigger] self.occurs_at(w, t, i) && t < w.len() + 1 - x.len();
            self.lemma_occurs_in_part(h, s, k, t0, i0);
            assert(self.occurs_at(h, s + t0, i0) && s <= s + t0 < sx && s + t0 + self.pats[i0].len()
                <= k);
        }
        if self.starts_in(h, s, sx, k) {
            let (t, i) = choose|t: int, i: int|
                #[trigger] self.occurs_at(h, t, i) && s <= t < sx && t + self.pats[i].len() <= k;
            self.lemma_occurs_in_part(h, s, k, t - s, i);
            assert(self.occurs_at(w, t - s, i) && t - s < w.len() + 1 - x.len());
        }
    }

    /// What the next character of a text does to a scan that stands in the state
    /// `w`: it leads to the longest state that ends behind the character, unless a
    /// pattern occurs in `w` that begins before that state; then it leads to the root.
    proof fn lemma_next_state(self, h: Word, s: int, k: int)
        requires
            self.valid(),
            0 <= s <= k < h.len(),
            self.is_node(h.subrange(s, k)),
        ensures
            ({
                let w = h.subrange(s, k);
                let x = self.step(w, h[k]);
                let sx = k + 1 - x.len();
                &&& s <= sx <= k + 1
                &&& self.is_node(x)
                &&& x == h.subrange(sx, k + 1)
                &&& self.none_over(h, s, k, sx)
                &&& self.leftmost_walk_dead(w, h[k]) <==> self.starts_in(h, s, sx, k)
                &&& self.leftmost_step(w, h[k]) == (if self.starts_in(h, s, sx, k) {
                    Seq::<char>::empty()
                } else {
                    x
                })
            }),
    {
        self.lemma_next_part(h, s, k);
        self.lemma_none_over(h, s, k);
        self.lemma_dead_is_start(h, s, k);
        self.lemma_leftmost_step_is_step(h.subrange(s, k), h[k]);
    }

    /// When a scan ends, what it remembers is the first and longest occurrence from
    /// where it began.
    proof fn lemma_scan_stop(self, h: Word, p: int, s: int, k: int, sx: int, b: (int, int))
        requires
            self.valid(),
            0 <= p <= s <= k < h.len(),
            s <= sx <= k + 1,
            self.nothing_starts(h, p, s),
            self.is_best(h, s, k, b),
            self.none_over(h, s, k, sx),
            self.starts_in(h, s, sx, k) || sx == k + 1,
        ensures
            self.is_best(h, p, h.len() as int, b),
    {
        let tb = b.1 - self.pats[b.0].len();
        assert(self.pats[b.0].len() > 0);
        assert(tb < sx) by {
            if self.starts_in(h, s, sx, k) {
                let (t, i) = choose|t: int, i: int|
                    #[trigger] self.occurs_at(h, t, i) && s <= t < sx && t + self.pats[i].len()
                        <= k;
            }
        }
        assert forall|t2: int, i2: int|
            #[trigger] self.occurs_at(h, t2, i2) && p <= t2 && t2 + self.pats[i2].len()
                <= h.len() implies t2 > tb || (t2 == tb && self.pats[i2].len()
            <= self.pats[b.0].len()) by {
            assert(s <= t2);
            if t2 + self.pats[i2].len() > k && t2 <= k {
                assert(t2 >= sx);
            }
        }
    }

    /// When a scan is back at the root with nothing to remember, no pattern
    /// occurs that begins before the next character.
    proof fn lemma_scan_restart(self, h: Word, p: int, s: int, k: int)
        requires
            self.valid(),
            0 <= p <= s <= k < h.len(),
            self.nothing_starts(h, p, s),
            self.best_ok(h, s, k, None),
            self.none_over(h, s, k, k + 1),
        ensures
            self.nothing_starts(h, p, k + 1),
            self.best_ok(h, k + 1, k + 1, None),
    {
        assert forall|t: int, i: int| #[trigger] self.occurs_at(h, t, i) && p <= t implies k + 1
            <= t by {
            assert(s <= t);
        }
        assert forall|t: int, i: int| #[trigger] self.occurs_at(h, t, i) && k + 1 <= t implies t
            + self.pats[i].len() > k + 1 by {
            assert(self.pats[i].len() > 0);
        }
    }

    /// When a scan goes on in the state that begins at character `sx`, no pattern
    /// occurs that begins before `sx`.
    proof fn lemma_scan_moves(self, h: Word, p: int, s: int, k: int, sx: int)
        requires
            self.valid(),
            0 <= p <= s <= k < h.len(),
            s <= sx <= k + 1,
            self.nothing_starts(h, p, s),
            self.none_over(h, s, k, sx),
            !self.starts_in(h, s, sx, k),
        ensures
            self.nothing_starts(h, p, sx),
    {
        assert forall|t: int, i: int| #[trigger] self.occurs_at(h, t, i) && p <= t implies sx
            <= t by {
            assert(s <= t);
            if t < sx {
                if t + self.pats[i].len() <= k {
                    assert(self.starts_in(h, s, sx, k));
                }
            }
        }
    }

    /// When the state that a scan has come to remembers a pattern, that pattern
    /// is the first and longest of the occurrences within the state.
    proof fn lemma_scan_new_best(self, h: Word, sx: int, k: int, i: int)
        requires
            self.valid(),
            0 <= sx <= k < h.len(),
            self.is_node(h.subrange(sx, k + 1)),
            self.leftmost_output(h.subrange(sx, k + 1)) == Some(i),
        ensures
            self.is_best(h, sx, k + 1, (i, k + 1)),
    {
        let x = h.subrange(sx, k + 1);
        self.lemma_leftmost_output_first(x);
        let tx = x.len() - self.pats[i].len();
        self.lemma_occurs_in_part(h, sx, k + 1, tx, i);
        assert forall|t2: int, i2: int|
            #[trigger] self.occurs_at(h, t2, i2) && sx <= t2 && t2 + self.pats[i2].len() <= k
                + 1 implies t2 > sx + tx || (t2 == sx + tx && self.pats[i2].len()
            <= self.pats[i].len()) by {
            self.lemma_occurs_in_part(h, sx, k + 1, t2 - sx, i2);
            if t2 - sx < tx {
                assert(self.occurs_at(x, t2 - sx, i2));
                assert(self.occurs_before(x, tx));
            }
        }
    }

    /// When the state that a scan has come to remembers nothing, every pattern
    /// that ends with the state begins later than one that ends before.
    proof fn lemma_scan_old_best(self, h: Word, sx: int, k: int, t2: int, i2: int)
        requires
            self.valid(),
            0 <= sx <= k < h.len(),
            self.is_node(h.subrange(sx, k + 1)),
            self.leftmost_output(h.subrange(sx, k + 1)) is None,
            self.occurs_at(h, t2, i2),
            sx <= t2,
            t2 + self.pats[i2].len() == k + 1,
        ensures
            exists|t3: int, i3: int|
                #[trigger] self.occurs_at(h, t3, i3) && sx <= t3 < t2 && t3 + self.pats[i3].len()
                    <= k,
    {
        let x = h.subrange(sx, k + 1);
        self.lemma_leftmost_output_first(x);
        self.lemma_occurs_in_part(h, sx, k + 1, t2 - sx, i2);
        self.lemma_descent(x, t2 - sx, i2);
        let (t3, i3) = choose|t3: int, i3: int|
            #[trigger] self.occurs_at(x, t3, i3) && t3 < t2 - sx && t3 + self.pats[i3].len()
                < x.len();
        self.lemma_occurs_in_part(h, sx, k + 1, t3, i3);
        assert(self.occurs_at(h, sx + t3, i3) && sx <= sx + t3 < t2 && sx + t3 + self.pats[i3].len()
            <= k);
    }

    /// What a scan remembers after a character that led it to another state than
    /// the root is right for the occurrences within that state.
    proof fn lemma_scan_best(self, h: Word, s: int, k: int, sx: int, best: Option<(int, int)>)
        requires
            self.valid(),
            0 <= s <= sx <= k < h.len(),
            self.is_node(h.subrange(sx, k + 1)),
            self.best_ok(h, s, k, best),
            !self.starts_in(h, s, sx, k),
        ensures
            self.best_ok(
                h,
                sx,
                k + 1,
                match self.leftmost_output(h.subrange(sx, k + 1)) {
                    Some(i) => Some((i, k + 1)),
                    None => best,
                },
            ),
    {
        let x = h.subrange(sx, k + 1);
        match self.leftmost_output(x) {
            Some(i) => {
                self.lemma_scan_new_best(h, sx, k, i);
            },
            None => {
                match best {
                    None => {
                        assert forall|t: int, i: int|
                            #[trigger] self.occurs_at(h, t, i) && sx <= t implies t
                            + self.pats[i].len() > k + 1 by {
                            if t + self.pats[i].len() == k + 1 {
                                self.lemma_scan_old_best(h, sx, k, t, i);
                                let (t3, i3) = choose|t3: int, i3: int|
                                    #[trigger] self.occurs_at(h, t3, i3) && sx <= t3 < t && t3
                                        + self.pats[i3].len() <= k;
                                assert(s <= t3);
                            }
                        }
                    },
                    Some(b) => {
                        let tb = b.1 - self.pats[b.0].len();
                        assert(tb >= sx) by {
                            if tb < sx {
                                assert(self.occurs_at(h, tb, b.0));
                                assert(self.starts_in(h, s, sx, k));
                            }
                        }
                        assert forall|t2: int, i2: int|
                            #[trigger] self.occurs_at(h, t2, i2) && sx <= t2 && t2
                                + self.pats[i2].len() <= k + 1 implies t2 > tb || (t2 == tb
                            && self.pats[i2].len() <= self.pats[b.0].len()) by {
                            if t2 + self.pats[i2].len() == k + 1 {
                                self.lemma_scan_old_best(h, sx, k, t2, i2);
                                let (t3, i3) = choose|t3: int, i3: int|
                                    #[trigger] self.occurs_at(h, t3, i3) && sx <= t3 < t2 && t3
                                        + self.pats[i3].len() <= k;
                                assert(s <= t3);
                            }
                        }
                    },
                }
            },
        }
    }

    /// What a scan under the leftmost kinds remembers at the end of the text is
    /// the first and longest occurrence from where the scan began.
    pub proof fn lemma_scan(self, h: Word, p: int, k: int, w: Word, best: Option<(int, int)>)
        requires
            self.valid(),
            0 <= p <= k <= h.len(),
            self.is_node(w),
            w.len() <= k - p,
            w == h.subrange(k - w.len(), k),
            self.nothing_starts(h, p, k - w.len()),
            self.best_ok(h, k - w.len(), k, best),
        ensures
            self.best_ok(h, p, h.len() as int, self.leftmost_scan(h, k, w, best)),
        decreases h.len() - k,
    {
        let s = k - w.len();
        if k >= h.len() {
            match best {
                None => {},
                Some(b) => {},
            }
        } else {
            let c = h[k];
            let x = self.step(w, c);
            let w1 = self.leftmost_step(w, c);
            let sx = k + 1 - x.len();
            self.lemma_next_state(h, s, k);
            if w1.len() == 0 {
                match best {
                    None => {
                        assert(!self.starts_in(h, s, sx, k));
                        assert(sx == k + 1);
                        self.lemma_scan_restart(h, p, s, k);
                        assert(h.subrange(k + 1, k + 1) =~= w1);
                        self.lemma_scan(h, p, k + 1, w1, None);
                    },
                    Some(b) => {
                        self.lemma_scan_stop(h, p, s, k, sx, b);
                    },
                }
            } else {
                self.lemma_scan_moves(h, p, s, k, sx);
                self.lemma_scan_best(h, s, k, sx, best);
                let best1 = match self.leftmost_output(x) {
                    Some(i) => Some((i, k + 1)),
                    None => best,
                };
                self.lemma_scan(h, p, k + 1, x, best1);
            }
        }
    }
}

impl<V> PatternSet<V> {
    /// The first and longest occurrence of a pattern in `h` that begins at or
    /// after character `p`: the pattern and the number of characters after which it
    /// ends; `None` when no pattern occurs there.
    pub open spec fn first_longest(self, h: Word, p: int) -> Option<(int, int)> {
        if exists|b: (int, int)| #[trigger] self.is_best(h, p, h.len() as int, b) {
            Some(choose|b: (int, int)| #[trigger] self.is_best(h, p, h.len() as int, b))
        } else {
            None
        }
    }

    /// The occurrences found from left to right without overlap in `h` from
    /// character `p` on: the first and longest occurrence from `p` on, and then
    /// what is found from its end on.
    pub open spec fn first_longest_from(self, h: Word, p: int) -> Seq<MatchView<V>>
        decreases h.len() - p,
    {
        match self.first_longest(h, p) {
            None => seq![],
            Some(b) => if p < b.1 <= h.len() {
                seq![self.match_at(b.0, h.take(b.1))] + self.first_longest_from(h, b.1)
            } else {
                seq![]
            },
        }
    }

    /// The occurrences found from left to right without overlap in `h`, each the
    /// first and longest from the end of the one before on.
    pub open spec fn first_longest_matches(self, h: Word) -> Seq<MatchView<V>> {
        self.first_longest_from(h, 0)
    }

    /// There is one first and longest occurrence at most.
    pub proof fn lemma_best_unique(self, h: Word, s: int, k: int, b1: (int, int), b2: (int, int))
        requires
            self.valid(),
            self.is_best(h, s, k, b1),
            self.is_best(h, s, k, b2),
        ensures
            b1 == b2,
    {
        let t1 = b1.1 - self.pats[b1.0].len();
        let t2 = b2.1 - self.pats[b2.0].len();
        assert(self.occurs_at(h, t1, b1.0));
        assert(self.occurs_at(h, t2, b2.0));
        assert(t1 == t2);
        assert(self.pats[b1.0].len() == self.pats[b2.0].len());
        assert(self.pats[b1.0] == self.pats[b2.0]);
        if b1.0 != b2.0 {
            assert(self.kept(b1.0) && self.kept(b2.0));
        }
    }

    /// A scan under the leftmost kinds ends with the first and longest occurrence
    /// from where it began.
    pub proof fn lemma_scan_is_first_longest(self, h: Word, p: int)
        requires
            self.valid(),
            0 <= p <= h.len(),
        ensures
            self.leftmost_scan(h, p, Seq::<char>::empty(), None) == self.first_longest(h, p),
            self.first_longest(h, p) matches Some(b) ==> p < b.1 <= h.len(),
    {
        let empty = Seq::<char>::empty();
        let n = h.len() as int;
        self.lemma_root_is_node();
        assert(h.subrange(p, p) =~= empty);
        assert(self.best_ok(h, p, p, None)) by {
            assert forall|t: int, i: int| #[trigger] self.occurs_at(h, t, i) && p <= t implies t
                + self.pats[i].len() > p by {
                assert(self.pats[i].len() > 0);
            }
        }
        self.lemma_scan(h, p, p, empty, None);
        let r = self.leftmost_scan(h, p, empty, None);
        match r {
            None => {
                if exists|b: (int, int)| #[trigger] self.is_best(h, p, n, b) {
                    let b = choose|b: (int, int)| #[trigger] self.is_best(h, p, n, b);
                    assert(self.occurs_at(h, b.1 - self.pats[b.0].len(), b.0));
                }
            },
            Some(b) => {
                assert(self.is_best(h, p, n, b));
                let b2 = choose|b2: (int, int)| #[trigger] self.is_best(h, p, n, b2);
                self.lemma_best_unique(h, p, n, b, b2);
                assert(self.pats[b.0].len() > 0);
            },
        }
    }

    /// The automaton finds the first and longest. What a search under the leftmost
    /// kinds reports from character `p` of `h` on is: the occurrence of a pattern
    /// that begins first, at or after `p`, and is the longest of those that begin
    /// there; and then the same from the end of that occurrence on.
    pub proof fn lemma_leftmost_from(self, h: Word, p: int)
        requires
            self.valid(),
            0 <= p <= h.len(),
        ensures
            self.leftmost_from(h, p) == self.first_longest_from(h, p),
        decreases h.len() - p,
    {
        self.lemma_scan_is_first_longest(h, p);
        match self.first_longest(h, p) {
            None => {},
            Some(b) => {
                self.lemma_leftmost_from(h, b.1);
            },
        }
    }

    /// Under the leftmost-first kind the pattern that is reported is the one
    /// registered first. Of all patterns of the set that occur from character `p`
    /// on, those that take no part included, none begins before the first and
    /// longest occurrence, and none that begins where it begins was registered
    /// before its pattern.
    pub proof fn law_first_registered(self, h: Word, p: int, b: (int, int), t2: int, j: int)
        requires
            self.valid(),
            self.kind == MatchKind::LeftmostFirst,
            0 <= p,
            self.is_best(h, p, h.len() as int, b),
            0 <= j < self.pats.len(),
            p <= t2,
            t2 + self.pats[j].len() <= h.len(),
            h.subrange(t2, t2 + self.pats[j].len()) == self.pats[j],
        ensures
            t2 > b.1 - self.pats[b.0].len() || (t2 == b.1 - self.pats[b.0].len() && b.0 <= j),
    {
        let i = b.0;
        let t = b.1 - self.pats[i].len();
        assert(self.occurs_at(h, t, i));
        // a pattern that takes part and occurs where the pattern j occurs, no later registered
        let j3 = if self.kept(j) {
            j
        } else {
            let j2 = choose|j2: int|
                0 <= j2 < j && crate::model::proper_prefix(#[trigger] self.pats[j2], self.pats[j]);
            self.lemma_kept_prefix(j2, self.pats[j]);
            choose|j3: int| #[trigger]
                self.kept(j3) && j3 <= j2 && crate::model::proper_prefix(self.pats[j3], self.pats[j])
        };
        let q = self.pats[j3];
        assert(q =~= h.subrange(t2, t2 + q.len())) by {
            if !self.kept(j) {
                assert forall|x: int| 0 <= x < q.len() implies q[x] == h[t2 + x] by {
                    assert(q[x] == self.pats[j].subrange(0, q.len() as int)[x]);
                    assert(self.pats[j][x] == h.subrange(t2, t2 + self.pats[j].len())[x]);
                }
            }
        }
        assert(self.occurs_at(h, t2, j3));
        if t2 == t && j3 != i {
            if q.len() == self.pats[i].len() {
                assert(q == self.pats[i]);
                assert(self.kept(j3) && self.kept(i));
            }
            assert(q =~= self.pats[i].subrange(0, q.len() as int)) by {
                assert forall|x: int| 0 <= x < q.len() implies q[x] == self.pats[i][x] by {
                    assert(q[x] == h.subrange(t, t + q.len())[x]);
                    assert(self.pats[i][x] == h.subrange(t, t + self.pats[i].len())[x]);
                }
            }
            assert(crate::model::proper_prefix(self.pats[j3], self.pats[i]));
        }
    }
}

} // verus!
