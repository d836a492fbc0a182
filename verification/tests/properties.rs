use daachorse::charwise::State;
use daachorse::{
    CharwiseDoubleArrayAhoCorasick, CharwiseDoubleArrayAhoCorasickBuilder, Empty, MatchKind,
    Serializable,
};

fn overlapping(pma: &CharwiseDoubleArrayAhoCorasick<u32>, haystack: &str) -> Vec<(usize, usize, u32)> {
    let mut found = vec![];
    let mut it = pma.find_overlapping_iter(haystack);
    while let Some(m) = it.next() {
        found.push((m.start(), m.end(), m.value()));
    }
    found
}

/// Every place at which a pattern occurs in the bytes of the text, by end and
/// at one end the longest first, found by comparing bytes.
fn occurrences_on_bytes(patterns: &[&str], haystack: &str) -> Vec<(usize, usize, u32)> {
    let text = haystack.as_bytes();
    let mut found = vec![];
    for end in 1..=text.len() {
        let mut here = vec![];
        for (i, p) in patterns.iter().enumerate() {
            let p = p.as_bytes();
            if p.len() <= end && &text[end - p.len()..end] == p {
                here.push((end - p.len(), end, i as u32));
            }
        }
        here.sort();
        found.extend(here);
    }
    found
}

#[test]
fn every_pattern_is_found_with_its_value() {
    let patterns = vec!["he", "she", "his", "hers", "s", "世界", "界"];
    let pma = CharwiseDoubleArrayAhoCorasick::<u32>::new(&patterns).unwrap();
    let haystack = "ushers find his 世界 here";
    let found = overlapping(&pma, haystack);
    for (i, p) in patterns.iter().enumerate() {
        let start = haystack.find(p).unwrap();
        assert!(found.contains(&(start, start + p.len(), i as u32)));
    }
}

#[test]
fn characters_and_bytes_agree() {
    let patterns = vec!["全世界", "世界", "界", "に", "a", "ab", "é", "éa", "😀", "😀a"];
    let pma = CharwiseDoubleArrayAhoCorasick::<u32>::new(&patterns).unwrap();
    for haystack in ["全世界中に", "aébéa😀ab😀a界に", "", "xyz", "世世界界"] {
        assert_eq!(overlapping(&pma, haystack), occurrences_on_bytes(&patterns, haystack));
    }
}

#[test]
fn a_character_of_no_pattern_leads_to_the_root() {
    let patterns = vec!["ab", "b"];
    let pma = CharwiseDoubleArrayAhoCorasick::<u32>::new(&patterns).unwrap();
    assert_eq!(overlapping(&pma, "a世b"), vec![(4, 5, 1)]);
    assert_eq!(overlapping(&pma, "a\u{10ffff}ab"), vec![(5, 7, 0), (6, 7, 1)]);
    assert_eq!(overlapping(&pma, "\u{0}"), vec![]);
}

#[test]
fn an_iterator_that_is_done_stays_done() {
    let patterns = vec!["a"];
    let pma = CharwiseDoubleArrayAhoCorasick::<u32>::new(&patterns).unwrap();
    let mut it = pma.find_overlapping_iter("a");
    assert!(it.next().is_some());
    assert!(it.next().is_none());
    assert!(it.next().is_none());
    let mut it = pma.find_iter("");
    assert!(it.next().is_none());
    let mut it = pma.find_overlapping_no_suffix_iter("");
    assert!(it.next().is_none());
}

#[test]
fn no_suffix_reports_one_match_for_each_end() {
    let patterns = vec!["bcd", "cd", "d", "ab"];
    let pma = CharwiseDoubleArrayAhoCorasick::<u32>::new(&patterns).unwrap();
    let mut found = vec![];
    let mut it = pma.find_overlapping_no_suffix_iter("abcd");
    while let Some(m) = it.next() {
        found.push((m.start(), m.end(), m.value()));
    }
    assert_eq!(found, vec![(0, 2, 3), (1, 4, 0)]);
}

#[test]
fn find_starts_again_behind_each_match() {
    let patterns = vec!["aa", "aaa"];
    let pma = CharwiseDoubleArrayAhoCorasick::<u32>::new(&patterns).unwrap();
    let mut found = vec![];
    let mut it = pma.find_iter("aaaaa");
    while let Some(m) = it.next() {
        found.push((m.start(), m.end(), m.value()));
    }
    assert_eq!(found, vec![(0, 2, 0), (2, 4, 0)]);
}

#[test]
fn leftmost_kinds_differ_where_a_pattern_extends_an_earlier_one() {
    let patterns = vec!["b", "abc", "bcd", "a", "bcde"];
    let mut found = vec![];
    let longest: CharwiseDoubleArrayAhoCorasick<u32> = CharwiseDoubleArrayAhoCorasickBuilder::new()
        .match_kind(MatchKind::LeftmostLongest)
        .build(&patterns)
        .unwrap();
    let mut it = longest.leftmost_find_iter("xabcdebcdeb");
    while let Some(m) = it.next() {
        found.push((m.start(), m.end(), m.value()));
    }
    assert_eq!(found, vec![(1, 4, 1), (6, 10, 4), (10, 11, 0)]);

    let mut found = vec![];
    let first: CharwiseDoubleArrayAhoCorasick<u32> = CharwiseDoubleArrayAhoCorasickBuilder::new()
        .match_kind(MatchKind::LeftmostFirst)
        .build(&patterns)
        .unwrap();
    let mut it = first.leftmost_find_iter("xabcdebcdeb");
    while let Some(m) = it.next() {
        found.push((m.start(), m.end(), m.value()));
    }
    assert_eq!(found, vec![(1, 4, 1), (6, 7, 0), (10, 11, 0)]);
}

#[test]
fn the_character_seen_most_gets_the_smallest_code() {
    let patterns = vec!["ab", "cb", "db", "b"];
    let pma = CharwiseDoubleArrayAhoCorasick::<u32>::new(&patterns).unwrap();
    let table = pma.code_table();
    assert_eq!(pma.alphabet_size(), 4);
    assert_eq!(table.len(), 'd' as usize + 1);
    assert_eq!(table['b' as usize], 0);
    assert_eq!(table['a' as usize], 1);
    assert_eq!(table['c' as usize], 2);
    assert_eq!(table['d' as usize], 3);
    assert_eq!(table[0], u32::MAX);
}

#[test]
fn a_large_pattern_set_is_built() {
    let owned: Vec<String> = (0..20_000).map(|i| format!("{:05}語{}", i, i % 7)).collect();
    let patterns: Vec<&str> = owned.iter().map(|s| s.as_str()).collect();
    let pma = CharwiseDoubleArrayAhoCorasick::<u32>::new(&patterns).unwrap();
    let mut states = std::collections::BTreeSet::new();
    for p in &patterns {
        for (i, _) in p.char_indices() {
            states.insert(&p[..i]);
        }
        states.insert(p);
    }
    assert_eq!(pma.num_states(), states.len());
    assert!(pma.num_elements() > pma.num_states());
    assert_eq!(pma.num_elements() & (pma.num_elements() - 1), 0);
    assert_eq!(overlapping(&pma, "x12345語4y"), vec![(1, 10, 12345)]);
}

#[test]
fn the_array_holds_the_root_and_the_dead_state() {
    let patterns = vec!["a"];
    let pma = CharwiseDoubleArrayAhoCorasick::<u32>::new(&patterns).unwrap();
    let states = pma.states();
    assert_eq!(pma.num_states(), 2);
    assert_eq!(states[1], State::default());
    assert_eq!(states[1].base(), None);
    assert_eq!(states[1].check(), 1);
    assert_eq!(states[1].fail(), 1);
    assert_eq!(states[1].output_pos(), None);
    let root = states[0];
    let child = root.base().unwrap().get() as usize;
    assert_eq!(states[child].check(), 0);
    assert_eq!(states[child].fail(), 0);
    assert_eq!(states[child].output_pos().map(|p| p.get()), Some(1));
    assert_eq!(pma.outputs()[0].value(), 0);
    assert_eq!(pma.outputs()[0].length(), 1);
    assert_eq!(pma.match_kind(), MatchKind::Standard);
}

#[test]
fn a_value_of_no_size_takes_no_bytes() {
    let mut data = vec![];
    Empty.serialize_to_vec(&mut data);
    assert!(data.is_empty());
    assert_eq!(Empty::serialized_bytes(), 0);
    let patterns = vec!["ab", "b"];
    let pma = CharwiseDoubleArrayAhoCorasick::<Empty>::new(&patterns).unwrap();
    let bytes = pma.serialize();
    let (other, rest) = CharwiseDoubleArrayAhoCorasick::<Empty>::deserialize_unchecked(&bytes);
    assert!(rest.is_empty());
    let mut it = other.find_overlapping_iter("ab");
    let m = it.next().unwrap();
    assert_eq!((0, 2), (m.start(), m.end()));
}

#[test]
fn a_state_is_written_as_four_words() {
    let mut state = State::default();
    state.set_check(7);
    state.set_fail(9);
    let mut data = vec![];
    state.serialize_to_vec(&mut data);
    assert_eq!(data.len(), State::serialized_bytes());
    assert_eq!(&data[4..8], &7u32.to_ne_bytes());
    assert_eq!(&data[8..12], &9u32.to_ne_bytes());
    let (other, rest) = State::deserialize_from_slice(&data);
    assert!(rest.is_empty());
    assert_eq!(state, other);
}
