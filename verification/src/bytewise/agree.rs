//! Why a search on bytes and a search on characters find the same.
//!
//! A pattern occurs in a text as a sequence of characters exactly where its
//! UTF-8 form occurs in the UTF-8 form of the text: an occurrence on bytes can
//! neither begin nor end inside a character.
use crate::charwise::builder::{pattern_set_of, pattern_set_of_bytes};
use crate::charwise::AutomatonView;
use crate::model::{
    byte_len, lemma_byte_len_char, lemma_encode_concat, word_of_bytes, PatternSet, Unit, Word,
};
use crate::MatchKind;
use crate::MatchView;
use vstd::prelude::*;
use vstd::utf8::{encode_scalar, encode_utf8, is_continuation_byte};

verus! {

/// The UTF-8 form of one character.
pub open spec fn char_bytes(c: char) -> Seq<u8> {
    encode_scalar(c as u32)
}

/// The UTF-8 form of a character is one leading byte and up to three
/// continuation bytes, and it is the UTF-8 form of the word of that character.
pub proof fn lemma_char_bytes(c: char)
    ensures
        1 <= char_bytes(c).len() <= 4,
        !is_continuation_byte(char_bytes(c)[0]),
        forall|j: int| 1 <= j < char_bytes(c).len() ==> is_continuation_byte(#[trigger] char_bytes(c)[j]),
        encode_utf8(seq![c]) == char_bytes(c),
        char_bytes(c).len() == vstd::utf8::length_of_first_scalar(char_bytes(c)),
{
    let s = seq![c];
    lemma_byte_len_char(c);
    assert(s.drop_first() =~= Seq::<char>::empty());
    assert(encode_utf8(s.drop_first()) =~= Seq::<u8>::empty()) by {
        reveal_with_fuel(encode_utf8, 1);
    }
    assert(encode_utf8(s) =~= char_bytes(c)) by {
        reveal_with_fuel(encode_utf8, 2);
    }
    vstd::utf8::encode_utf8_first_scalar(s);
}

/// The UTF-8 form of a word that is not empty is the form of its first character
/// and then the form of the rest.
pub proof fn lemma_encode_first(w: Word)
    requires
        w.len() > 0,
    ensures
        encode_utf8(w) == char_bytes(w[0]) + encode_utf8(w.drop_first()),
        !is_continuation_byte(encode_utf8(w)[0]),
        encode_utf8(w).len() >= char_bytes(w[0]).len(),
{
    lemma_char_bytes(w[0]);
}

/// The leading byte of a character tells how many bytes the character takes.
pub proof fn lemma_width_by_leading_byte(a: char, b: char)
    requires
        char_bytes(a)[0] == char_bytes(b)[0],
    ensures
        char_bytes(a).len() == char_bytes(b).len(),
{
    lemma_char_bytes(a);
    lemma_char_bytes(b);
}

impl<V> PatternSet<V> {
    /// The UTF-8 form of the pattern `i`.
    pub open spec fn pattern_bytes(self, i: int) -> Seq<u8> {
        encode_utf8(self.pats[i])
    }

    /// `b` is the UTF-8 form of a pattern that takes part.
    pub open spec fn is_byte_pattern(self, b: Seq<u8>) -> bool {
        exists|i: int| #[trigger] self.kept(i) && self.pattern_bytes(i) == b
    }

    /// The position of the pattern whose UTF-8 form is `b`.
    pub open spec fn byte_pattern_index(self, b: Seq<u8>) -> int {
        choose|i: int| #[trigger] self.kept(i) && self.pattern_bytes(i) == b
    }

    /// The patterns whose UTF-8 forms are suffixes of the bytes `u`, by position,
    /// the longest first.
    pub open spec fn byte_suffix_patterns(self, u: Seq<u8>) -> Seq<int>
        decreases u.len(),
    {
        if u.len() == 0 {
            seq![]
        } else if self.is_byte_pattern(u) {
            seq![self.byte_pattern_index(u)] + self.byte_suffix_patterns(u.drop_first())
        } else {
            self.byte_suffix_patterns(u.drop_first())
        }
    }

    /// The occurrence of the pattern `i` that ends after the first `end` bytes of a text.
    pub open spec fn byte_match_at(self, i: int, end: nat) -> MatchView<V> {
        MatchView { length: self.pattern_bytes(i).len(), end, value: self.vals[i] }
    }

    /// Every pattern whose UTF-8 form ends where the bytes `u` end, the longest first.
    pub open spec fn byte_matches_at(self, u: Seq<u8>) -> Seq<MatchView<V>> {
        Seq::new(
            self.byte_suffix_patterns(u).len(),
            |k: int| self.byte_match_at(self.byte_suffix_patterns(u)[k], u.len()),
        )
    }

    /// All occurrences of the UTF-8 forms of the patterns that end after the first
    /// `e` bytes of `hb`: by end, and at one end the longest first.
    pub open spec fn byte_overlapping_from(self, hb: Seq<u8>, e: int) -> Seq<MatchView<V>>
        decreases hb.len() - e,
    {
        if e < 0 || e >= hb.len() {
            seq![]
        } else {
            self.byte_matches_at(hb.take(e + 1)) + self.byte_overlapping_from(hb, e + 1)
        }
    }

    /// All occurrences of the UTF-8 forms of the patterns in the bytes `hb`,
    /// overlapping or not: what a search that reads the text byte by byte reports.
    pub open spec fn byte_overlapping_matches(self, hb: Seq<u8>) -> Seq<MatchView<V>> {
        self.byte_overlapping_from(hb, 0)
    }

    /// Bytes that begin with a continuation byte are not the UTF-8 form of a pattern.
    proof fn lemma_continuation_start(self, u: Seq<u8>)
        requires
            self.valid(),
            u.len() > 0,
            is_continuation_byte(u[0]),
        ensures
            !self.is_byte_pattern(u),
    {
        if self.is_byte_pattern(u) {
            let i = self.byte_pattern_index(u);
            assert(self.pats[i].len() > 0);
            lemma_encode_first(self.pats[i]);
        }
    }

    /// Continuation bytes in front of some bytes add no pattern that ends where
    /// the bytes end.
    proof fn lemma_skip_continuation(self, conts: Seq<u8>, tail: Seq<u8>)
        requires
            self.valid(),
            forall|j: int| 0 <= j < conts.len() ==> is_continuation_byte(#[trigger] conts[j]),
        ensures
            self.byte_suffix_patterns(conts + tail) == self.byte_suffix_patterns(tail),
        decreases conts.len(),
    {
        if conts.len() == 0 {
            assert(conts + tail =~= tail);
        } else {
            let u = conts + tail;
            self.lemma_continuation_start(u);
            assert(u.drop_first() =~= conts.drop_first() + tail);
            self.lemma_skip_continuation(conts.drop_first(), tail);
        }
    }

    /// The patterns that end where a character and some bytes behind it end: the
    /// pattern that is all of it, if there is one, and then those that end where
    /// the bytes behind the character end.
    proof fn lemma_peel(self, c: char, tail: Seq<u8>)
        requires
            self.valid(),
        ensures
            self.byte_suffix_patterns(char_bytes(c) + tail) == (if self.is_byte_pattern(
                char_bytes(c) + tail,
            ) {
                seq![self.byte_pattern_index(char_bytes(c) + tail)]
            } else {
                Seq::<int>::empty()
            }) + self.byte_suffix_patterns(tail),
    {
        lemma_char_bytes(c);
        let s = char_bytes(c);
        let u = s + tail;
        let conts = s.drop_first();
        assert(u.drop_first() =~= conts + tail);
        self.lemma_skip_continuation(conts, tail);
        if self.is_byte_pattern(u) {
        } else {
            assert(Seq::<int>::empty() + self.byte_suffix_patterns(tail) =~= self.byte_suffix_patterns(
                tail,
            ));
        }
    }

    /// A word is a pattern exactly when its UTF-8 form is the form of a pattern,
    /// and it is the same pattern.
    proof fn lemma_byte_pattern(self, u: Word)
        requires
            self.valid(),
        ensures
            self.is_byte_pattern(encode_utf8(u)) <==> self.is_pattern(u),
            self.is_pattern(u) ==> self.byte_pattern_index(encode_utf8(u)) == self.pattern_index(u),
    {
        if self.is_pattern(u) {
            let i = self.pattern_index(u);
            assert(self.kept(i) && self.pattern_bytes(i) == encode_utf8(u));
        }
        if self.is_byte_pattern(encode_utf8(u)) {
            let i = self.byte_pattern_index(encode_utf8(u));
            vstd::utf8::encode_utf8_decode_utf8(u);
            vstd::utf8::encode_utf8_decode_utf8(self.pats[i]);
            assert(self.pats[i] == u);
            self.lemma_pattern_index(i);
        }
    }

    /// The patterns whose UTF-8 forms end where the UTF-8 form of a word ends are
    /// the patterns that end where the word ends, in the same order.
    pub proof fn lemma_byte_suffix_patterns(self, u: Word)
        requires
            self.valid(),
        ensures
            self.byte_suffix_patterns(encode_utf8(u)) == self.suffix_patterns(u),
        decreases u.len(),
    {
        if u.len() == 0 {
            assert(encode_utf8(u) =~= Seq::<u8>::empty());
        } else {
            lemma_encode_first(u);
            self.lemma_peel(u[0], encode_utf8(u.drop_first()));
            self.lemma_byte_pattern(u);
            self.lemma_byte_suffix_patterns(u.drop_first());
            if !self.is_pattern(u) {
                assert(Seq::<int>::empty() + self.suffix_patterns(u.drop_first())
                    =~= self.suffix_patterns(u.drop_first()));
            }
        }
    }

    /// The UTF-8 form of a word is never that of another word with a part of a
    /// character behind it.
    proof fn lemma_not_partial(p: Word, x: Word, c: char, j: int)
        requires
            1 <= j < char_bytes(c).len(),
        ensures
            encode_utf8(p) != encode_utf8(x) + char_bytes(c).take(j),
        decreases x.len(),
    {
        let partial = char_bytes(c).take(j);
        lemma_char_bytes(c);
        if encode_utf8(p) == encode_utf8(x) + partial {
            if p.len() == 0 {
                assert(encode_utf8(p) =~= Seq::<u8>::empty());
                assert((encode_utf8(x) + partial).len() > 0);
            } else {
                lemma_encode_first(p);
                lemma_char_bytes(p[0]);
                if x.len() == 0 {
                    assert(encode_utf8(x) =~= Seq::<u8>::empty());
                    assert(encode_utf8(x) + partial =~= partial);
                    assert(partial[0] == char_bytes(c)[0]);
                    lemma_width_by_leading_byte(p[0], c);
                } else {
                    lemma_encode_first(x);
                    lemma_char_bytes(x[0]);
                    let lhs = encode_utf8(p);
                    assert(lhs[0] == char_bytes(p[0])[0]);
                    assert(lhs[0] == char_bytes(x[0])[0]);
                    lemma_width_by_leading_byte(p[0], x[0]);
                    let n = char_bytes(x[0]).len() as int;
                    assert(encode_utf8(p.drop_first()) =~= lhs.skip(n));
                    assert(encode_utf8(x.drop_first()) + partial =~= lhs.skip(n));
                    Self::lemma_not_partial(p.drop_first(), x.drop_first(), c, j);
                }
            }
        }
    }

    /// No pattern ends inside a character: where the bytes end with a part of a
    /// character, no UTF-8 form of a pattern ends.
    proof fn lemma_inside_char(self, x: Word, c: char, j: int)
        requires
            self.valid(),
            1 <= j < char_bytes(c).len(),
        ensures
            self.byte_suffix_patterns(encode_utf8(x) + char_bytes(c).take(j)) == Seq::<int>::empty(),
        decreases x.len(),
    {
        let partial = char_bytes(c).take(j);
        lemma_char_bytes(c);
        let u = encode_utf8(x) + partial;
        if self.is_byte_pattern(u) {
            let i = self.byte_pattern_index(u);
            Self::lemma_not_partial(self.pats[i], x, c, j);
        }
        if x.len() == 0 {
            assert(encode_utf8(x) =~= Seq::<u8>::empty());
            assert(u =~= partial);
            let conts = partial.drop_first();
            assert(u.drop_first() =~= conts + Seq::<u8>::empty());
            assert forall|k: int| 0 <= k < conts.len() implies is_continuation_byte(
                #[trigger] conts[k],
            ) by {
                assert(conts[k] == char_bytes(c)[k + 1]);
            }
            self.lemma_skip_continuation(conts, Seq::<u8>::empty());
        } else {
            lemma_encode_first(x);
            let tail = encode_utf8(x.drop_first()) + partial;
            assert(u =~= char_bytes(x[0]) + tail);
            self.lemma_peel(x[0], tail);
            self.lemma_inside_char(x.drop_first(), c, j);
        }
    }

    /// What a search on bytes reports between the end of one character and the
    /// end of the next is what a search on characters reports at the end of the
    /// next.
    proof fn lemma_one_char(self, h: Word, k: int, j: int)
        requires
            self.valid(),
            self.unit == Unit::Chars,
            0 <= k < h.len(),
            0 <= j < char_bytes(h[k]).len(),
        ensures
            byte_len(h.take(k)) + char_bytes(h[k]).len() == byte_len(h.take(k + 1)),
            byte_len(h.take(k + 1)) <= encode_utf8(h).len(),
            self.byte_overlapping_from(encode_utf8(h), byte_len(h.take(k)) + j) == self.matches_at(
                h.take(k + 1),
            ) + self.byte_overlapping_from(encode_utf8(h), byte_len(h.take(k + 1)) as int),
        decreases char_bytes(h[k]).len() - j,
    {
        let hb = encode_utf8(h);
        let c = h[k];
        let n = char_bytes(c).len() as int;
        let e0 = byte_len(h.take(k)) as int;
        let e1 = byte_len(h.take(k + 1)) as int;
        lemma_char_bytes(c);
        assert(h.take(k + 1) =~= h.take(k) + seq![c]);
        lemma_encode_concat(h.take(k), seq![c]);
        assert(h =~= h.take(k + 1) + h.skip(k + 1));
        lemma_encode_concat(h.take(k + 1), h.skip(k + 1));
        let e = e0 + j;
        let u = hb.take(e + 1);
        if j + 1 < n {
            assert(u =~= encode_utf8(h.take(k)) + char_bytes(c).take(j + 1));
            self.lemma_inside_char(h.take(k), c, j + 1);
            assert(self.byte_matches_at(u) =~= Seq::<MatchView<V>>::empty());
            self.lemma_one_char(h, k, j + 1);
            assert(Seq::<MatchView<V>>::empty() + self.byte_overlapping_from(hb, e + 1)
                =~= self.byte_overlapping_from(hb, e + 1));
        } else {
            assert(u =~= encode_utf8(h.take(k + 1)));
            self.lemma_byte_suffix_patterns(h.take(k + 1));
            assert(self.byte_matches_at(u) =~= self.matches_at(h.take(k + 1)));
        }
    }

    /// From the end of a character on, a search on bytes reports what a search on
    /// characters reports.
    proof fn lemma_bytes_from(self, h: Word, k: int)
        requires
            self.valid(),
            self.unit == Unit::Chars,
            0 <= k <= h.len(),
        ensures
            self.byte_overlapping_from(encode_utf8(h), byte_len(h.take(k)) as int)
                == self.overlapping_from(h, k),
        decreases h.len() - k,
    {
        if k < h.len() {
            lemma_char_bytes(h[k]);
            self.lemma_one_char(h, k, 0);
            self.lemma_bytes_from(h, k + 1);
        } else {
            assert(h.take(k) =~= h);
        }
    }

    /// A search on characters and a search on bytes agree. The occurrences of the
    /// patterns of a valid set in a text, with their places counted in bytes, are
    /// the occurrences of the UTF-8 forms of the patterns in the UTF-8 form of the
    /// text: the same occurrences in the same order.
    pub proof fn law_characters_and_bytes_agree(self, h: Word)
        requires
            self.valid(),
            self.unit == Unit::Chars,
        ensures
            self.overlapping_matches(h) == self.byte_overlapping_matches(encode_utf8(h)),
    {
        assert(h.take(0) =~= Seq::<char>::empty());
        assert(encode_utf8(h.take(0)) =~= Seq::<u8>::empty());
        self.lemma_bytes_from(h, 0);
    }
}

/// Two sequences of bytes that stand for the same word are the same.
pub proof fn lemma_word_of_bytes_inj(a: Seq<u8>, b: Seq<u8>)
    requires
        word_of_bytes(a) == word_of_bytes(b),
    ensures
        a == b,
{
    assert(a.len() == word_of_bytes(a).len());
    assert(b.len() == word_of_bytes(b).len());
    assert(a =~= b) by {
        assert forall|i: int| 0 <= i < a.len() implies a[i] == b[i] by {
            assert(word_of_bytes(a)[i] == a[i] as char);
            assert(word_of_bytes(b)[i] == b[i] as char);
            assert((a[i] as char) as u32 == a[i]);
            assert((b[i] as char) as u32 == b[i]);
        }
    }
}

impl<V> PatternSet<V> {
    /// The pattern set whose patterns are the UTF-8 forms of the patterns of this
    /// set, taken as sequences of bytes: what an automaton on bytes is built from
    /// when it is given the same patterns.
    pub open spec fn as_bytes(self) -> PatternSet<V> {
        PatternSet {
            pats: Seq::new(self.pats.len(), |i: int| word_of_bytes(self.pattern_bytes(i))),
            vals: self.vals,
            kind: self.kind,
            unit: Unit::Bytes,
        }
    }

    /// Bytes are the UTF-8 form of a pattern exactly when the word they stand for
    /// is a pattern of the set on bytes, and it is the same pattern.
    proof fn lemma_as_bytes_pattern(self, u: Seq<u8>)
        requires
            self.valid(),
            self.kind == MatchKind::Standard,
        ensures
            self.as_bytes().is_pattern(word_of_bytes(u)) <==> self.is_byte_pattern(u),
            self.is_byte_pattern(u) ==> self.as_bytes().pattern_index(word_of_bytes(u))
                == self.byte_pattern_index(u),
    {
        let db = self.as_bytes();
        let w = word_of_bytes(u);
        assert forall|i: int| db.kept(i) == self.kept(i) by {}
        if self.is_byte_pattern(u) {
            let i = self.byte_pattern_index(u);
            assert(db.kept(i) && db.pats[i] == w);
            let j = db.pattern_index(w);
            assert(db.kept(j) && db.pats[j] == w);
            lemma_word_of_bytes_inj(self.pattern_bytes(j), u);
            if i != j {
                vstd::utf8::encode_utf8_decode_utf8(self.pats[i]);
                vstd::utf8::encode_utf8_decode_utf8(self.pats[j]);
                assert(self.kept(i) && self.kept(j));
            }
        }
        if db.is_pattern(w) {
            let j = db.pattern_index(w);
            assert(db.kept(j) && db.pats[j] == w);
            lemma_word_of_bytes_inj(self.pattern_bytes(j), u);
            assert(self.kept(j) && self.pattern_bytes(j) == u);
        }
    }

    /// The patterns of the set on bytes that end where a word of bytes ends are
    /// the patterns whose UTF-8 forms end where the bytes end.
    proof fn lemma_as_bytes_suffix_patterns(self, u: Seq<u8>)
        requires
            self.valid(),
            self.kind == MatchKind::Standard,
        ensures
            self.as_bytes().suffix_patterns(word_of_bytes(u)) == self.byte_suffix_patterns(u),
        decreases u.len(),
    {
        let w = word_of_bytes(u);
        if u.len() > 0 {
            self.lemma_as_bytes_pattern(u);
            self.lemma_as_bytes_suffix_patterns(u.drop_first());
            assert(w.drop_first() =~= word_of_bytes(u.drop_first()));
        }
    }

    /// From every place on, a search of the set on bytes in a word of bytes
    /// reports what a search for the UTF-8 forms of the patterns reports in the bytes.
    proof fn lemma_as_bytes_from(self, hb: Seq<u8>, e: int)
        requires
            self.valid(),
            self.kind == MatchKind::Standard,
            0 <= e,
        ensures
            self.as_bytes().overlapping_from(word_of_bytes(hb), e) == self.byte_overlapping_from(hb, e),
        decreases hb.len() - e,
    {
        let db = self.as_bytes();
        let h = word_of_bytes(hb);
        if e < hb.len() {
            let u = hb.take(e + 1);
            assert(h.take(e + 1) =~= word_of_bytes(u));
            self.lemma_as_bytes_suffix_patterns(u);
            assert(db.matches_at(word_of_bytes(u)) =~= self.byte_matches_at(u)) by {
                let list = self.byte_suffix_patterns(u);
                assert forall|k: int| 0 <= k < list.len() implies db.match_at(list[k], word_of_bytes(u))
                    == self.byte_match_at(list[k], u.len()) by {
                    self.lemma_byte_suffix_sound(u, k);
                }
            }
            self.lemma_as_bytes_from(hb, e + 1);
        }
    }

    /// The patterns whose UTF-8 forms end where the bytes `u` end are patterns of the set.
    proof fn lemma_byte_suffix_sound(self, u: Seq<u8>, k: int)
        requires
            0 <= k < self.byte_suffix_patterns(u).len(),
        ensures
            0 <= self.byte_suffix_patterns(u)[k] < self.pats.len(),
        decreases u.len(),
    {
        if u.len() > 0 {
            if self.is_byte_pattern(u) {
                if k > 0 {
                    self.lemma_byte_suffix_sound(u.drop_first(), k - 1);
                }
            } else {
                self.lemma_byte_suffix_sound(u.drop_first(), k);
            }
        }
    }
}

/// An automaton on characters and an automaton on bytes agree. When the two were
/// built from the same patterns and values, the one from the patterns as
/// characters and the other from their UTF-8 forms as bytes, then what the first
/// reports in an overlapping search of a text is what the second reports in an
/// overlapping search of the UTF-8 form of the text: the same occurrences, with
/// the same places counted in bytes, in the same order.
pub proof fn law_automata_agree<V>(on_chars: AutomatonView<V>, on_bytes: AutomatonView<V>, d: PatternSet<V>, h: Word)
    requires
        d.unit == Unit::Chars,
        d.kind == MatchKind::Standard,
        on_chars.recognizes(d),
        on_bytes.recognizes(d.as_bytes()),
    ensures
        on_chars.find_overlapping(Unit::Chars, h) == on_bytes.find_overlapping(
            Unit::Bytes,
            word_of_bytes(encode_utf8(h)),
        ),
{
    on_chars.lemma_meaning(d, h);
    on_bytes.lemma_meaning(d.as_bytes(), word_of_bytes(encode_utf8(h)));
    d.law_characters_and_bytes_agree(h);
    d.lemma_as_bytes_from(encode_utf8(h), 0);
}

/// The pairs `on_bytes` hold the patterns of the pairs `on_chars` in their UTF-8
/// forms, in the same order and with the same values.
pub open spec fn same_pairs<V>(on_chars: Seq<(&str, V)>, on_bytes: Seq<(&[u8], V)>) -> bool {
    &&& on_bytes.len() == on_chars.len()
    &&& forall|i: int|
        0 <= i < on_chars.len() ==> (#[trigger] on_bytes[i]).0@ == encode_utf8(on_chars[i].0@)
            && on_bytes[i].1 == on_chars[i].1
}

/// An automaton on characters and an automaton on bytes that recognize the same
/// pairs of a pattern and a value — the one the patterns as strings, the other the
/// bytes of these strings — report the same in an overlapping search of a text and
/// of its bytes.
pub proof fn law_same_pairs_agree<V>(
    on_chars: AutomatonView<V>,
    on_bytes: AutomatonView<V>,
    patvals: Seq<(&str, V)>,
    bytevals: Seq<(&[u8], V)>,
    h: Word,
)
    requires
        same_pairs(patvals, bytevals),
        on_chars.recognizes(pattern_set_of(patvals, MatchKind::Standard)),
        on_bytes.recognizes(pattern_set_of_bytes(bytevals, MatchKind::Standard, false)),
    ensures
        on_chars.find_overlapping(Unit::Chars, h) == on_bytes.find_overlapping(
            Unit::Bytes,
            word_of_bytes(encode_utf8(h)),
        ),
{
    let d = pattern_set_of(patvals, MatchKind::Standard);
    let db = pattern_set_of_bytes(bytevals, MatchKind::Standard, false);
    assert(d.as_bytes().pats =~= db.pats) by {
        assert forall|i: int| 0 <= i < patvals.len() implies d.as_bytes().pats[i] == db.pats[i] by {
            assert(bytevals[i].0@ == encode_utf8(patvals[i].0@));
        }
    }
    assert(d.as_bytes().vals =~= db.vals) by {
        assert forall|i: int| 0 <= i < patvals.len() implies d.vals[i] == db.vals[i] by {
            assert(bytevals[i].1 == patvals[i].1);
        }
    }
    law_automata_agree(on_chars, on_bytes, d, h);
}

} // verus!
