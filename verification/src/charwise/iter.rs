//! Iterators over the occurrences of the patterns in a text.
//!
//! Each iterator reads the text once from left to right, one character at a
//! time, and hands out the occurrences one by one.
use crate::charwise::{chain, AutomatonView, CharwiseDoubleArrayAhoCorasick, Layout, ROOT_STATE_IDX};
use crate::model::{size_in, word_of_bytes, PatternSet, Unit, Word};
use crate::{Match, MatchKind, MatchView};
use vstd::prelude::*;
use vstd::utf8::{decode_utf8, encode_utf8, valid_utf8};

verus! {

/// Reads the characters of a text in UTF-8 one by one, each with the position at
/// which it ends.
#[derive(Clone, Copy)]
pub struct CharWithEndOffsetIterator<'a> {
    bytes: &'a [u8],
    pos: usize,
    utf8: bool,
    text: Ghost<Word>,
    index: Ghost<int>,
}

impl<'a> CharWithEndOffsetIterator<'a> {
    /// The text that is read.
    pub closed spec fn text(&self) -> Word {
        self.text@
    }

    /// The number of characters read so far.
    pub closed spec fn index(&self) -> int {
        self.index@
    }

    /// What the symbols of the text are: its characters or its bytes.
    pub closed spec fn unit(&self) -> Unit {
        if self.utf8 {
            Unit::Chars
        } else {
            Unit::Bytes
        }
    }

    /// The symbols read so far are a prefix of the text, and the reader stands
    /// where they end.
    pub closed spec fn wf(&self) -> bool {
        &&& 0 <= self.index@ <= self.text@.len()
        &&& self.pos == size_in(self.unit(), self.text@.take(self.index@))
        &&& self.pos <= self.bytes@.len()
        &&& self.utf8 ==> self.bytes@ == encode_utf8(self.text@) && self.bytes@.skip(self.pos as int)
            == encode_utf8(self.text@.skip(self.index@))
        &&& !self.utf8 ==> self.text@ == word_of_bytes(self.bytes@)
    }

    /// The position in bytes at which the reader stands.
    pub closed spec fn spec_pos(&self) -> int {
        self.pos as int
    }

    /// Returns the position in bytes at which the reader stands.
    pub fn pos(&self) -> (r: usize)
        requires
            self.wf(),
        ensures
            r == self.spec_pos(),
            r == size_in(self.unit(), self.text().take(self.index())),
    {
        self.pos
    }

    /// The characters read so far are no more than the text has.
    pub proof fn lemma_bounds(&self)
        requires
            self.wf(),
        ensures
            0 <= self.index() <= self.text().len(),
    {
    }

    /// Starts to read the bytes `bytes` one by one.
    pub fn new_bytes(bytes: &'a [u8]) -> (r: Self)
        ensures
            r.wf(),
            r.unit() == Unit::Bytes,
            r.text() == word_of_bytes(bytes@),
            r.index() == 0,
    {
        let ghost text = word_of_bytes(bytes@);
        proof {
            assert(text.take(0) =~= Seq::<char>::empty());
        }
        Self { bytes, pos: 0, utf8: false, text: Ghost(text), index: Ghost(0) }
    }

    /// Starts to read `bytes`, which must be the UTF-8 form of a text, character
    /// by character.
    pub fn new(bytes: &'a [u8]) -> (r: Self)
        requires
            valid_utf8(bytes@),
        ensures
            r.wf(),
            r.unit() == Unit::Chars,
            r.text() == decode_utf8(bytes@),
            r.index() == 0,
    {
        let ghost text = decode_utf8(bytes@);
        proof {
            vstd::utf8::decode_utf8_encode_utf8(bytes@);
            assert(text.take(0) =~= Seq::<char>::empty());
            assert(encode_utf8(text.take(0)) =~= Seq::<u8>::empty());
            assert(text.skip(0) =~= text);
            assert(bytes@.skip(0) =~= bytes@);
        }
        Self { bytes, pos: 0, utf8: true, text: Ghost(text), index: Ghost(0) }
    }

    /// Reads the next symbol. Returns the position at which it ends and its code
    /// point, or `None` at the end of the text.
    pub fn next(&mut self) -> (r: Option<(usize, u32)>)
        requires
            old(self).wf(),
        ensures
            final(self).wf(),
            final(self).text() == old(self).text(),
            final(self).unit() == old(self).unit(),
            old(self).index() == old(self).text().len() ==> r is None && final(self).index() == old(
                self,
            ).index(),
            old(self).index() < old(self).text().len() ==> {
                &&& r matches Some(item)
                &&& final(self).index() == old(self).index() + 1
                &&& r.unwrap().0 == size_in(
                    old(self).unit(),
                    old(self).text().take(old(self).index() + 1),
                )
                &&& r.unwrap().1 == old(self).text()[old(self).index()] as u32
            },
    {
        let ghost text = self.text@;
        let ghost k = self.index@;
        if !self.utf8 {
            proof {
                assert(text.take(k).len() == k);
            }
            if self.pos >= self.bytes.len() {
                return None;
            }
            let b = self.bytes[self.pos];
            proof {
                assert(text.take(k + 1).len() == k + 1);
                assert(text[k] == b as char);
            }
            self.pos = self.pos + 1;
            self.index = Ghost(k + 1);
            return Some((self.pos, b as u32));
        }
        let ghost t = text.skip(k);
        let ghost rest = self.bytes@.skip(self.pos as int);
        proof {
            crate::model::lemma_byte_len_lower(t);
        }
        if self.pos >= self.bytes.len() {
            proof {
                assert(rest.len() == 0);
                assert(t.len() == 0);
            }
            return None;
        }
        proof {
            if t.len() == 0 {
                assert(encode_utf8(t) =~= Seq::<u8>::empty());
            }
            assert(t.len() > 0);
            vstd::utf8::encode_utf8_first_scalar(t);
            assert(t[0] == text[k]);
            assert(rest[0] == self.bytes@[self.pos as int]);
            assert(rest.len() >= 2 ==> rest[1] == self.bytes@[self.pos + 1]);
            assert(rest.len() >= 3 ==> rest[2] == self.bytes@[self.pos + 2]);
            assert(rest.len() >= 4 ==> rest[3] == self.bytes@[self.pos + 3]);
        }
        let b0 = self.bytes[self.pos];
        let code: u32;
        let width: usize;
        if b0 < 0x80 {
            code = (b0 & 0x7f) as u32;
            width = 1;
        } else if b0 < 0xe0 {
            let b1 = self.bytes[self.pos + 1];
            code = (((b0 & 0x1f) as u32) << 6) | ((b1 & 0x3f) as u32);
            width = 2;
        } else if b0 < 0xf0 {
            let b1 = self.bytes[self.pos + 1];
            let b2 = self.bytes[self.pos + 2];
            code = (((b0 & 0x0f) as u32) << 12) | (((b1 & 0x3f) as u32) << 6) | ((b2 & 0x3f) as u32);
            width = 3;
        } else {
            let b1 = self.bytes[self.pos + 1];
            let b2 = self.bytes[self.pos + 2];
            let b3 = self.bytes[self.pos + 3];
            code = (((b0 & 0x07) as u32) << 18) | (((b1 & 0x3f) as u32) << 12) | (((b2 & 0x3f) as u32)
                << 6) | ((b3 & 0x3f) as u32);
            width = 4;
        }
        proof {
            assert(code == vstd::utf8::decode_first_scalar(rest));
            assert(width == vstd::utf8::length_of_first_scalar(rest));
            assert(width == vstd::utf8::encode_scalar(t[0] as u32).len());
            assert(width <= rest.len());
            // the bytes after this character are the rest of the text
            assert(t.drop_first() =~= text.skip(k + 1));
            assert(self.bytes@.skip(self.pos + width) =~= encode_utf8(t.drop_first())) by {
                assert(encode_utf8(t) == vstd::utf8::encode_scalar(t[0] as u32) + encode_utf8(
                    t.drop_first(),
                ));
                assert(self.bytes@.skip(self.pos + width) =~= rest.skip(width as int));
            }
            // the characters read take the bytes up to here
            assert(text.take(k + 1) =~= text.take(k) + seq![text[k]]);
            crate::model::lemma_byte_len_concat(text.take(k), seq![text[k]]);
            crate::model::lemma_byte_len_char(text[k]);
        }
        self.pos = self.pos + width;
        self.index = Ghost(k + 1);
        Some((self.pos, code))
    }
}

/// The entries of the output table that the chain starting at `pos` runs through
/// report patterns that end where the text `u` ends.
pub open spec fn chain_fits<V>(a: AutomatonView<V>, d: PatternSet<V>, g: Layout, pos: int, u: Word) -> bool {
    forall|k: int|
        0 <= k < chain(a.outputs, g.pat, pos).len() ==> d.size(
            d.pats[#[trigger] chain(a.outputs, g.pat, pos)[k]],
        ) <= d.size(u)
}

/// Taking the first entry off a chain of the output table.
pub proof fn lemma_chain_unfold<V>(a: AutomatonView<V>, d: PatternSet<V>, g: Layout, pos: int, u: Word)
    requires
        a.layout_ok(d, g),
        0 < pos <= a.outputs.len(),
        chain_fits(a, d, g, pos, u),
    ensures
        a.outputs[pos - 1].parent < pos,
        chain(a.outputs, g.pat, pos) == seq![g.pat[pos - 1]] + chain(
            a.outputs,
            g.pat,
            a.outputs[pos - 1].parent as int,
        ),
        d.matches_of(chain(a.outputs, g.pat, pos), u)[0] == d.match_at(g.pat[pos - 1], u),
        d.matches_of(chain(a.outputs, g.pat, pos), u).drop_first() == d.matches_of(
            chain(a.outputs, g.pat, a.outputs[pos - 1].parent as int),
            u,
        ),
        chain_fits(a, d, g, a.outputs[pos - 1].parent as int, u),
        a.outputs[pos - 1].length == d.size(d.pats[g.pat[pos - 1]]),
        a.outputs[pos - 1].value == d.vals[g.pat[pos - 1]],
        d.size(d.pats[g.pat[pos - 1]]) <= d.size(u),
{
    let o = a.outputs[pos - 1];
    let c = chain(a.outputs, g.pat, pos);
    let t = chain(a.outputs, g.pat, o.parent as int);
    assert(c == seq![g.pat[pos - 1]] + t);
    assert(c[0] == g.pat[pos - 1]);
    assert(d.matches_of(c, u).drop_first() =~= d.matches_of(t, u)) by {
        assert forall|k: int| 0 <= k < t.len() implies c[k + 1] == t[k] by {}
    }
    assert forall|k: int| 0 <= k < t.len() implies d.size(d.pats[#[trigger] t[k]]) <= d.size(
        u,
    ) by {
        assert(c[k + 1] == t[k]);
    }
}

/// Under the standard kind the chain of a state that stands for the text `u`
/// reports the patterns that end where `u` ends.
pub proof fn lemma_chain_at_state<V>(a: AutomatonView<V>, d: PatternSet<V>, g: Layout, s: int, u: Word)
    requires
        a.layout_ok(d, g),
        d.kind == MatchKind::Standard,
        g.live(s),
        g.word(s) == d.longest_node_suffix(u),
    ensures
        a.states[s].output_pos <= a.outputs.len(),
        chain(a.outputs, g.pat, a.states[s].output_pos as int) == d.suffix_patterns(u),
        chain_fits(a, d, g, a.states[s].output_pos as int, u),
{
    let i = g.owner[s];
    assert(g.slot[i] == s);
    d.lemma_suffix_patterns_state(u);
    let c = chain(a.outputs, g.pat, a.states[s].output_pos as int);
    assert forall|k: int| 0 <= k < c.len() implies d.size(d.pats[#[trigger] c[k]]) <= d.size(
        u,
    ) by {
        d.lemma_suffix_patterns_sound(u, k);
        crate::model::lemma_size_suffix(d.unit, d.pats[c[k]], u);
    }
}

/// Iterator over all occurrences of the patterns in a text, overlapping or not.
pub struct FindOverlappingIterator<'a, V> {
    pma: &'a CharwiseDoubleArrayAhoCorasick<V>,
    haystack: CharWithEndOffsetIterator<'a>,
    state_id: u32,
    pos: usize,
    output_pos: u32,
    d: Ghost<PatternSet<V>>,
    g: Ghost<Layout>,
}

impl<'a, V: Copy> FindOverlappingIterator<'a, V> {
    /// The iterator stands in the state that the text read so far leads to.
    pub closed spec fn wf(&self) -> bool {
        let u = self.haystack.text().take(self.haystack.index());
        &&& self.haystack.wf()
        &&& self.haystack.unit() == self.d@.unit
        &&& self.pma@.layout_ok(self.d@, self.g@)
        &&& self.pma@.match_kind == MatchKind::Standard
        &&& self.g@.live(self.state_id as int)
        &&& self.g@.word(self.state_id as int) == self.d@.longest_node_suffix(u)
        &&& self.output_pos <= self.pma@.outputs.len()
        &&& self.output_pos != 0 ==> self.pos == self.d@.size(u)
        &&& chain_fits(self.pma@, self.d@, self.g@, self.output_pos as int, u)
    }

    /// The occurrences that the iterator has yet to hand out.
    pub closed spec fn remaining(&self) -> Seq<MatchView<V>> {
        let u = self.haystack.text().take(self.haystack.index());
        self.d@.matches_of(chain(self.pma@.outputs, self.g@.pat, self.output_pos as int), u)
            + self.d@.overlapping_from(self.haystack.text(), self.haystack.index())
    }

    /// Starts at the root, before the first character of the text.
    pub(crate) fn new(
        pma: &'a CharwiseDoubleArrayAhoCorasick<V>,
        haystack: CharWithEndOffsetIterator<'a>,
        Ghost(d): Ghost<PatternSet<V>>,
        Ghost(g): Ghost<Layout>,
    ) -> (r: Self)
        requires
            haystack.wf(),
            haystack.index() == 0,
            haystack.unit() == d.unit,
            pma@.layout_ok(d, g),
            pma@.match_kind == MatchKind::Standard,
        ensures
            r.wf(),
            r.remaining() == d.overlapping_matches(haystack.text()),
    {
        proof {
            let u = haystack.text().take(0);
            assert(u =~= Seq::<char>::empty());
            assert(g.owner[g.slot[0]] == 0);
            assert(chain(pma@.outputs, g.pat, 0) =~= Seq::<int>::empty());
            assert(d.matches_of(Seq::<int>::empty(), u) =~= Seq::<MatchView<V>>::empty());
        }
        Self { pma, haystack, state_id: ROOT_STATE_IDX, pos: 0, output_pos: 0, d: Ghost(d), g: Ghost(g) }
    }

    /// Hands out the next occurrence, or `None` when there is none left.
    pub fn next(&mut self) -> (r: Option<Match<V>>)
        requires
            old(self).wf(),
        ensures
            final(self).wf(),
            old(self).remaining().len() == 0 ==> r is None && final(self).remaining().len() == 0,
            old(self).remaining().len() > 0 ==> r is Some && r.unwrap()@ == old(self).remaining()[0]
                && final(self).remaining() == old(self).remaining().drop_first(),
    {
        let ghost d = self.d@;
        let ghost g = self.g@;
        let ghost text = self.haystack.text();
        if self.output_pos != 0 {
            let ghost u = text.take(self.haystack.index());
            proof {
                lemma_chain_unfold(self.pma@, d, g, self.output_pos as int, u);
            }
            let out = self.pma.output_at(self.output_pos);
            self.output_pos = out.parent;
            return Some(Match::new(out.length as usize, self.pos, out.value));
        }
        loop
            invariant
                self.wf(),
                self.output_pos == 0,
                self.d@ == d,
                self.g@ == g,
                self.haystack.text() == text,
                self.remaining() == old(self).remaining(),
            decreases text.len() - self.haystack.index(),
        {
            let ghost k = self.haystack.index();
            let ghost u = text.take(k);
            proof {
                assert(chain(self.pma@.outputs, g.pat, 0) =~= Seq::<int>::empty());
                assert(d.matches_of(Seq::<int>::empty(), u) =~= Seq::<MatchView<V>>::empty());
            }
            match self.haystack.next() {
                None => {
                    return None;
                },
                Some((pos, c)) => {
                    let ghost ch = text[k];
                    let ghost u1 = text.take(k + 1);
                    self.state_id =
                    self.pma.next_state_id_unchecked(self.state_id, c, Ghost(d), Ghost(g), Ghost(ch));
                    proof {
                        assert(u1 =~= u.push(ch));
                        d.lemma_step(u, ch);
                        lemma_chain_at_state(self.pma@, d, g, self.state_id as int, u1);
                    }
                    let output_pos = self.pma.output_pos_of(self.state_id);
                    if output_pos != 0 {
                        proof {
                            lemma_chain_unfold(self.pma@, d, g, output_pos as int, u1);
                        }
                        self.pos = pos;
                        let out = self.pma.output_at(output_pos);
                        self.output_pos = out.parent;
                        return Some(Match::new(out.length as usize, pos, out.value));
                    }
                    proof {
                        assert(chain(self.pma@.outputs, g.pat, 0) =~= Seq::<int>::empty());
                        assert(d.matches_at(u1) =~= Seq::<MatchView<V>>::empty());
                    }
                },
            }
        }
    }
}

/// A part of a text that ends where the first `k` characters end takes no more
/// bytes than they do.
pub proof fn lemma_subrange_bytes(unit: Unit, text: Word, p: int, k: int)
    requires
        0 <= p <= k <= text.len(),
    ensures
        size_in(unit, text.subrange(p, k)) <= size_in(unit, text.take(k)),
        text.subrange(p, k).is_suffix_of(text.take(k)),
{
    let u = text.subrange(p, k);
    let t = text.take(k);
    assert(u =~= t.subrange(t.len() - u.len(), t.len() as int));
    crate::model::lemma_size_suffix(unit, u, t);
}

/// A chain of the output table that starts at a position other than zero is not empty.
pub proof fn lemma_chain_nonempty<V>(a: AutomatonView<V>, d: PatternSet<V>, g: Layout, pos: int)
    requires
        a.layout_ok(d, g),
        0 < pos <= a.outputs.len(),
    ensures
        chain(a.outputs, g.pat, pos).len() > 0,
        chain(a.outputs, g.pat, pos)[0] == g.pat[pos - 1],
{
    let o = a.outputs[pos - 1];
    assert(o.parent <= pos - 1);
}

/// Iterator over the occurrences of the patterns in a text that do not overlap.
pub struct FindIterator<'a, V> {
    pma: &'a CharwiseDoubleArrayAhoCorasick<V>,
    haystack: CharWithEndOffsetIterator<'a>,
    d: Ghost<PatternSet<V>>,
    g: Ghost<Layout>,
}

impl<'a, V: Copy> FindIterator<'a, V> {
    /// The iterator belongs to an automaton of the standard kind.
    pub closed spec fn wf(&self) -> bool {
        &&& self.haystack.wf()
        &&& self.haystack.unit() == self.d@.unit
        &&& self.pma@.layout_ok(self.d@, self.g@)
        &&& self.pma@.match_kind == MatchKind::Standard
    }

    /// The occurrences that the iterator has yet to hand out.
    pub closed spec fn remaining(&self) -> Seq<MatchView<V>> {
        self.d@.find_from(self.haystack.text(), self.haystack.index(), self.haystack.index())
    }

    /// Starts before the first character of the text.
    pub(crate) fn new(
        pma: &'a CharwiseDoubleArrayAhoCorasick<V>,
        haystack: CharWithEndOffsetIterator<'a>,
        Ghost(d): Ghost<PatternSet<V>>,
        Ghost(g): Ghost<Layout>,
    ) -> (r: Self)
        requires
            haystack.wf(),
            haystack.index() == 0,
            haystack.unit() == d.unit,
            pma@.layout_ok(d, g),
            pma@.match_kind == MatchKind::Standard,
        ensures
            r.wf(),
            r.remaining() == d.find_matches(haystack.text()),
    {
        Self { pma, haystack, d: Ghost(d), g: Ghost(g) }
    }

    /// Hands out the next occurrence, or `None` when there is none left.
    pub fn next(&mut self) -> (r: Option<Match<V>>)
        requires
            old(self).wf(),
        ensures
            final(self).wf(),
            old(self).remaining().len() == 0 ==> r is None && final(self).remaining().len() == 0,
            old(self).remaining().len() > 0 ==> r is Some && r.unwrap()@ == old(self).remaining()[0]
                && final(self).remaining() == old(self).remaining().drop_first(),
    {
        let ghost d = self.d@;
        let ghost g = self.g@;
        let ghost text = self.haystack.text();
        let ghost p = self.haystack.index();
        let mut state_id = ROOT_STATE_IDX;
        proof {
            self.haystack.lemma_bounds();
            assert(g.owner[g.slot[0]] == 0);
            assert(text.subrange(p, p) =~= Seq::<char>::empty());
        }
        loop
            invariant
                self.wf(),
                self.d@ == d,
                self.g@ == g,
                self.haystack.text() == text,
                0 <= p <= self.haystack.index() <= text.len(),
                g.live(state_id as int),
                g.word(state_id as int) == d.longest_node_suffix(text.subrange(p, self.haystack.index())),
                d.find_from(text, p, self.haystack.index()) == old(self).remaining(),
            decreases text.len() - self.haystack.index(),
        {
            let ghost k = self.haystack.index();
            let ghost u = text.subrange(p, k);
            match self.haystack.next() {
                None => {
                    return None;
                },
                Some((pos, c)) => {
                    let ghost ch = text[k];
                    let ghost u1 = text.subrange(p, k + 1);
                    state_id =
                    self.pma.next_state_id_unchecked(state_id, c, Ghost(d), Ghost(g), Ghost(ch));
                    proof {
                        assert(u1 =~= u.push(ch));
                        d.lemma_step(u, ch);
                        lemma_chain_at_state(self.pma@, d, g, state_id as int, u1);
                        lemma_subrange_bytes(d.unit, text, p, k + 1);
                    }
                    let output_pos = self.pma.output_pos_of(state_id);
                    if output_pos != 0 {
                        proof {
                            lemma_chain_nonempty(self.pma@, d, g, output_pos as int);
                            lemma_chain_unfold(self.pma@, d, g, output_pos as int, u1);
                        }
                        let out = self.pma.output_at(output_pos);
                        return Some(Match::new(out.length as usize, pos, out.value));
                    }
                    proof {
                        assert(chain(self.pma@.outputs, g.pat, 0) =~= Seq::<int>::empty());
                    }
                },
            }
        }
    }
}

/// Iterator over the occurrences of the patterns in a text, of which it hands
/// out the longest for each place at which a pattern ends.
pub struct FindOverlappingNoSuffixIterator<'a, V> {
    pma: &'a CharwiseDoubleArrayAhoCorasick<V>,
    haystack: CharWithEndOffsetIterator<'a>,
    state_id: u32,
    d: Ghost<PatternSet<V>>,
    g: Ghost<Layout>,
}

impl<'a, V: Copy> FindOverlappingNoSuffixIterator<'a, V> {
    /// The iterator stands in the state that the text read so far leads to.
    pub closed spec fn wf(&self) -> bool {
        let u = self.haystack.text().take(self.haystack.index());
        &&& self.haystack.wf()
        &&& self.haystack.unit() == self.d@.unit
        &&& self.pma@.layout_ok(self.d@, self.g@)
        &&& self.pma@.match_kind == MatchKind::Standard
        &&& self.g@.live(self.state_id as int)
        &&& self.g@.word(self.state_id as int) == self.d@.longest_node_suffix(u)
    }

    /// The occurrences that the iterator has yet to hand out.
    pub closed spec fn remaining(&self) -> Seq<MatchView<V>> {
        self.d@.no_suffix_from(self.haystack.text(), self.haystack.index())
    }

    /// Starts at the root, before the first character of the text.
    pub(crate) fn new(
        pma: &'a CharwiseDoubleArrayAhoCorasick<V>,
        haystack: CharWithEndOffsetIterator<'a>,
        Ghost(d): Ghost<PatternSet<V>>,
        Ghost(g): Ghost<Layout>,
    ) -> (r: Self)
        requires
            haystack.wf(),
            haystack.index() == 0,
            haystack.unit() == d.unit,
            pma@.layout_ok(d, g),
            pma@.match_kind == MatchKind::Standard,
        ensures
            r.wf(),
            r.remaining() == d.overlapping_no_suffix_matches(haystack.text()),
    {
        proof {
            let u = haystack.text().take(0);
            assert(u =~= Seq::<char>::empty());
            assert(g.owner[g.slot[0]] == 0);
        }
        Self { pma, haystack, state_id: ROOT_STATE_IDX, d: Ghost(d), g: Ghost(g) }
    }

    /// Hands out the next occurrence, or `None` when there is none left.
    pub fn next(&mut self) -> (r: Option<Match<V>>)
        requires
            old(self).wf(),
        ensures
            final(self).wf(),
            old(self).remaining().len() == 0 ==> r is None && final(self).remaining().len() == 0,
            old(self).remaining().len() > 0 ==> r is Some && r.unwrap()@ == old(self).remaining()[0]
                && final(self).remaining() == old(self).remaining().drop_first(),
    {
        let ghost d = self.d@;
        let ghost g = self.g@;
        let ghost text = self.haystack.text();
        loop
            invariant
                self.wf(),
                self.d@ == d,
                self.g@ == g,
                self.haystack.text() == text,
                self.remaining() == old(self).remaining(),
            decreases text.len() - self.haystack.index(),
        {
            let ghost k = self.haystack.index();
            let ghost u = text.take(k);
            match self.haystack.next() {
                None => {
                    return None;
                },
                Some((pos, c)) => {
                    let ghost ch = text[k];
                    let ghost u1 = text.take(k + 1);
                    self.state_id =
                    self.pma.next_state_id_unchecked(self.state_id, c, Ghost(d), Ghost(g), Ghost(ch));
                    proof {
                        assert(u1 =~= u.push(ch));
                        d.lemma_step(u, ch);
                        lemma_chain_at_state(self.pma@, d, g, self.state_id as int, u1);
                    }
                    let output_pos = self.pma.output_pos_of(self.state_id);
                    if output_pos != 0 {
                        proof {
                            lemma_chain_nonempty(self.pma@, d, g, output_pos as int);
                            lemma_chain_unfold(self.pma@, d, g, output_pos as int, u1);
                        }
                        let out = self.pma.output_at(output_pos);
                        return Some(Match::new(out.length as usize, pos, out.value));
                    }
                    proof {
                        assert(chain(self.pma@.outputs, g.pat, 0) =~= Seq::<int>::empty());
                        assert(d.longest_at(u1, u1) =~= Seq::<MatchView<V>>::empty());
                    }
                },
            }
        }
    }
}

/// Iterator over the occurrences of the patterns in a text under the leftmost kinds.
pub struct LeftmostFindIterator<'a, V> {
    pma: &'a CharwiseDoubleArrayAhoCorasick<V>,
    haystack: CharWithEndOffsetIterator<'a>,
    d: Ghost<PatternSet<V>>,
    g: Ghost<Layout>,
}

impl<'a, V: Copy> LeftmostFindIterator<'a, V> {
    /// The iterator belongs to an automaton of a leftmost kind.
    pub closed spec fn wf(&self) -> bool {
        &&& self.haystack.wf()
        &&& self.haystack.unit() == self.d@.unit
        &&& self.pma@.layout_ok(self.d@, self.g@)
        &&& self.pma@.match_kind != MatchKind::Standard
    }

    /// The occurrences that the iterator has yet to hand out.
    pub closed spec fn remaining(&self) -> Seq<MatchView<V>> {
        self.d@.leftmost_from(self.haystack.text(), self.haystack.index())
    }

    /// Starts before the first character of the text.
    pub(crate) fn new(
        pma: &'a CharwiseDoubleArrayAhoCorasick<V>,
        haystack: CharWithEndOffsetIterator<'a>,
        Ghost(d): Ghost<PatternSet<V>>,
        Ghost(g): Ghost<Layout>,
    ) -> (r: Self)
        requires
            haystack.wf(),
            haystack.index() == 0,
            haystack.unit() == d.unit,
            pma@.layout_ok(d, g),
            pma@.match_kind != MatchKind::Standard,
        ensures
            r.wf(),
            r.remaining() == d.leftmost_matches(haystack.text()),
    {
        Self { pma, haystack, d: Ghost(d), g: Ghost(g) }
    }

    /// Hands out the next occurrence, or `None` when there is none left.
    pub fn next(&mut self) -> (r: Option<Match<V>>)
        requires
            old(self).wf(),
        ensures
            final(self).wf(),
            old(self).remaining().len() == 0 ==> r is None && final(self).remaining().len() == 0,
            old(self).remaining().len() > 0 ==> r is Some && r.unwrap()@ == old(self).remaining()[0]
                && final(self).remaining() == old(self).remaining().drop_first(),
    {
        let ghost d = self.d@;
        let ghost g = self.g@;
        let ghost text = self.haystack.text();
        let ghost p = self.haystack.index();
        let ghost empty = Seq::<char>::empty();
        let mut state_id = ROOT_STATE_IDX;
        let mut last_output_pos: u32 = 0;
        let mut last_place = self.haystack;
        let ghost mut best: Option<(int, int)> = None;
        proof {
            self.haystack.lemma_bounds();
            assert(g.owner[g.slot[0]] == 0);
            assert(g.word(0) =~= empty);
            lemma_suffix_empty(text.take(p));
        }
        loop
            invariant_except_break
                p <= self.haystack.index() <= text.len(),
                g.live(state_id as int),
                g.word(state_id as int).is_suffix_of(text.take(self.haystack.index())),
                d.leftmost_scan(text, self.haystack.index(), g.word(state_id as int), best)
                    == d.leftmost_scan(text, p, empty, None),
            invariant
                old(self).wf(),
                self.haystack.wf(),
                self.haystack.unit() == d.unit,
                self.haystack.text() == text,
                self.d@ == d,
                self.g@ == g,
                d == old(self).d@,
                g == old(self).g@,
                self.pma == old(self).pma,
                text == old(self).haystack.text(),
                p == old(self).haystack.index(),
                self.pma@.layout_ok(d, g),
                self.pma@.match_kind != MatchKind::Standard,
                empty == Seq::<char>::empty(),
                0 <= p <= text.len(),
                g.live(0),
                g.word(0) == empty,
                last_output_pos <= self.pma@.outputs.len(),
                last_output_pos != 0 <==> best is Some,
                best matches Some(b) ==> {
                    &&& p < b.1 <= text.len()
                    &&& last_place.wf()
                    &&& last_place.unit() == d.unit
                    &&& last_place.text() == text
                    &&& last_place.index() == b.1
                    &&& crate::charwise::chain(self.pma@.outputs, g.pat, last_output_pos as int)[0]
                        == b.0
                    &&& d.kept(b.0)
                    &&& d.size(d.pats[b.0]) <= d.size(text.take(b.1))
                },
                d.leftmost_scan(text, p, empty, None) == d.leftmost_scan(
                    text,
                    old(self).haystack.index(),
                    empty,
                    None,
                ),
            ensures
                d.leftmost_scan(text, p, empty, None) == best,
                best is None ==> self.haystack.index() == text.len(),
            decreases text.len() - self.haystack.index(),
        {
            let ghost k = self.haystack.index();
            let ghost w = g.word(state_id as int);
            match self.haystack.next() {
                None => {
                    break ;
                },
                Some((pos, c)) => {
                    let ghost ch = text[k];
                    let ghost u1 = text.take(k + 1);
                    state_id =
                    self.pma.next_state_id_leftmost_unchecked(
                        state_id,
                        c,
                        Ghost(d),
                        Ghost(g),
                        Ghost(ch),
                    );
                    let ghost w1 = g.word(state_id as int);
                    proof {
                        assert(u1 =~= text.take(k).push(ch));
                        d.lemma_leftmost_step(w, ch);
                        lemma_suffix_push(w, text.take(k), ch);
                        lemma_suffix_trans(w1, w.push(ch), u1);
                        assert(g.slot[g.owner[state_id as int]] == state_id);
                        assert(w1.len() == 0 <==> state_id == 0) by {
                            if w1.len() == 0 {
                                assert(w1 =~= g.nodes[0]);
                            }
                        }
                    }
                    if state_id == ROOT_STATE_IDX {
                        if last_output_pos != 0 {
                            break ;
                        }
                    } else {
                        let output_pos = self.pma.output_pos_of(state_id);
                        proof {
                            let i = g.owner[state_id as int];
                            assert(g.slot[i] == state_id);
                            let st = self.pma@.states[g.slot[i]];
                            assert(crate::charwise::chain(self.pma@.outputs, g.pat, st.output_pos as int)
                                == d.output_list(w1));
                            assert(crate::charwise::chain(self.pma@.outputs, g.pat, 0)
                                =~= Seq::<int>::empty());
                            if output_pos != 0 {
                                lemma_chain_nonempty(self.pma@, d, g, output_pos as int);
                                d.lemma_leftmost_output(w1);
                                let b0 = d.leftmost_output(w1)->0;
                                lemma_suffix_trans(d.pats[b0], w1, u1);
                                crate::model::lemma_size_suffix(d.unit, d.pats[b0], u1);
                            }
                        }
                        if output_pos != 0 {
                            last_output_pos = output_pos;
                            last_place = self.haystack;
                            proof {
                                best = Some((d.leftmost_output(w1)->0, k + 1));
                            }
                        }
                    }
                },
            }
        }
        if last_output_pos != 0 {
            proof {
                lemma_chain_nonempty(self.pma@, d, g, last_output_pos as int);
                let j = last_output_pos - 1;
                let o = self.pma@.outputs[j];
                assert(d.kept(g.pat[j]));
            }
            let out = self.pma.output_at(last_output_pos);
            self.haystack = last_place;
            let end = self.haystack.pos();
            Some(Match::new(out.length as usize, end, out.value))
        } else {
            None
        }
    }
}

/// The empty word is a suffix of every word.
pub proof fn lemma_suffix_empty(u: Word)
    ensures
        Seq::<char>::empty().is_suffix_of(u),
{
    crate::model::lemma_suffix_refl(u);
}

use crate::model::{lemma_suffix_push, lemma_suffix_trans};

} // verus!
