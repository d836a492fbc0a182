//! What holds of every automaton that was built from patterns.
use crate::charwise::{AutomatonView, Layout, MAX_STATES};
use crate::model::{PatternSet, Unit, Word};
use crate::serializer::Serializable;
use crate::{MatchKind, MatchView};
use vstd::prelude::*;

verus! {

/// Every occurrence of a pattern is found. An automaton of the standard kind
/// that was built from the patterns `d` reports, in an overlapping search of the
/// text `h`, the pattern `i` at every place `e` at which it ends, with its value.
pub proof fn law_every_occurrence_is_found<V>(a: AutomatonView<V>, d: PatternSet<V>, h: Word, i: int, e: int)
    requires
        a.recognizes(d),
        a.match_kind == MatchKind::Standard,
        0 <= i < d.pats.len(),
        0 <= e <= h.len(),
        d.pats[i].is_suffix_of(h.take(e)),
    ensures
        a.find_overlapping(d.unit, h).contains(
            MatchView { length: d.size(d.pats[i]), end: d.size(h.take(e)), value: d.vals[i] },
        ),
{
    let g = choose|g: Layout| a.layout_ok(d, g);
    a.lemma_meaning(d, h);
    d.lemma_standard_keeps_all(i);
    d.law_every_occurrence_is_found(h, i, e);
}

/// Nothing is found that is not there. What an automaton of the standard kind
/// that was built from the patterns `d` reports in an overlapping search of the
/// text `h` is the occurrence of a pattern at a place at which the pattern ends.
pub proof fn law_only_occurrences_are_found<V>(a: AutomatonView<V>, d: PatternSet<V>, h: Word, x: int)
    requires
        a.recognizes(d),
        a.match_kind == MatchKind::Standard,
        0 <= x < a.find_overlapping(d.unit, h).len(),
    ensures
        exists|i: int, e: int|
            #![trigger d.match_at(i, h.take(e))]
            0 <= i < d.pats.len() && 0 < e <= h.len() && d.pats[i].is_suffix_of(h.take(e))
                && a.find_overlapping(d.unit, h)[x] == d.match_at(i, h.take(e)),
{
    let g = choose|g: Layout| a.layout_ok(d, g);
    a.lemma_meaning(d, h);
    d.law_only_occurrences_are_found(h, x);
}

/// Writing an automaton down and reading it back gives the same automaton, and
/// so the same reports on every text, whatever the match kind and the search.
pub proof fn law_round_trip<V: Serializable>(a: AutomatonView<V>, unit: Unit, h: Word)
    requires
        a.wf(),
    ensures
        AutomatonView::<V>::de(a.ser()) == (a, Seq::<u8>::empty()),
        AutomatonView::<V>::de(a.ser()).0.find_overlapping(unit, h) == a.find_overlapping(unit, h),
        AutomatonView::<V>::de(a.ser()).0.find_overlapping_no_suffix(unit, h) == a.find_overlapping_no_suffix(
            unit,
            h,
        ),
        AutomatonView::<V>::de(a.ser()).0.find(unit, h) == a.find(unit, h),
        AutomatonView::<V>::de(a.ser()).0.leftmost_find(unit, h) == a.leftmost_find(unit, h),
{
    a.lemma_writable();
    a.lemma_round_trip(Seq::<u8>::empty());
    assert(a.ser() + Seq::<u8>::empty() =~= a.ser());
}

/// Two searches of one text with one automaton report the same: what is
/// reported depends on the patterns and on the text only. Any two pattern sets
/// that an automaton was built from give the same reports.
pub proof fn law_same_reports<V>(a: AutomatonView<V>, d1: PatternSet<V>, d2: PatternSet<V>, h: Word)
    requires
        a.recognizes(d1),
        a.recognizes(d2),
        d1.unit == d2.unit,
    ensures
        a.match_kind == MatchKind::Standard ==> {
            &&& d1.overlapping_matches(h) == d2.overlapping_matches(h)
            &&& d1.overlapping_no_suffix_matches(h) == d2.overlapping_no_suffix_matches(h)
            &&& d1.find_matches(h) == d2.find_matches(h)
        },
        a.match_kind != MatchKind::Standard ==> d1.leftmost_matches(h) == d2.leftmost_matches(h),
{
    a.lemma_meaning(d1, h);
    a.lemma_meaning(d2, h);
}

/// A search under the leftmost kinds finds the first and longest. What an
/// automaton of a leftmost kind that was built from the patterns `d` reports on
/// the text `h` is, again and again, the occurrence of a pattern that begins
/// first behind the occurrence reported before, and of the patterns that occur
/// there the longest that takes part. Under the leftmost-longest kind every
/// pattern takes part; under the leftmost-first kind the longest that takes
/// part is the one that was registered first.
pub proof fn law_leftmost_finds_first_longest<V>(a: AutomatonView<V>, d: PatternSet<V>, h: Word)
    requires
        a.recognizes(d),
        a.match_kind != MatchKind::Standard,
    ensures
        a.leftmost_find(d.unit, h) == d.first_longest_matches(h),
{
    a.lemma_meaning(d, h);
}

/// An automaton has as many states as the trie of its patterns, and never more
/// than can be addressed: a pattern set whose trie has more states is not the
/// pattern set of any automaton.
pub proof fn law_state_count<V>(a: AutomatonView<V>, d: PatternSet<V>)
    requires
        a.recognizes(d),
    ensures
        d.at_most_nodes(a.num_states as nat),
        !d.at_most_nodes((a.num_states - 1) as nat),
        d.at_most_nodes(MAX_STATES as nat),
        a.num_states <= MAX_STATES,
        a.num_states < a.states.len(),
{
    let g = choose|g: Layout| a.layout_ok(d, g);
    assert(g.nodes.no_duplicates() && (forall|i: int|
        0 <= i < g.nodes.len() ==> d.is_node(#[trigger] g.nodes[i])));
    assert forall|ns: Seq<Word>|
        #![trigger ns.no_duplicates()]
        ns.no_duplicates() && (forall|i: int| 0 <= i < ns.len() ==> d.is_node(
            #[trigger] ns[i],
        )) implies ns.len() <= a.num_states by {
        assert forall|i: int| 0 <= i < ns.len() implies g.nodes.contains(#[trigger] ns[i]) by {
            assert(d.is_node(ns[i]));
        }
        crate::model::lemma_injection_len(ns, g.nodes);
    }
    // the states lie in slots of their own, and none in slot 1
    let slots = Seq::new(g.nodes.len(), |i: int| g.slot[i]);
    let all = Seq::new((a.states.len() - 1) as nat, |s: int| if s == 0 {
        0
    } else {
        s + 1
    });
    assert(slots.no_duplicates()) by {
        assert forall|i: int, j: int|
            0 <= i < slots.len() && 0 <= j < slots.len() && i != j implies slots[i] != slots[j] by {
            assert(g.owner[g.slot[i]] == i);
            assert(g.owner[g.slot[j]] == j);
        }
    }
    assert forall|i: int| 0 <= i < slots.len() implies all.contains(#[trigger] slots[i]) by {
        let s = g.slot[i];
        assert(0 <= s < a.states.len() && s != 1);
        if s == 0 {
            assert(all[0] == 0);
        } else {
            assert(all[s - 1] == s);
        }
    }
    crate::model::lemma_injection_len(slots, all);
}

} // verus!
