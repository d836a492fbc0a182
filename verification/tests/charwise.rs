use daachorse::{CharwiseDoubleArrayAhoCorasick, CharwiseDoubleArrayAhoCorasickBuilder, MatchKind};

#[test]
fn find_reports_non_overlapping_occurrences() {
    let patterns = vec!["bcd", "ab", "a"];
    let pma = CharwiseDoubleArrayAhoCorasick::<u32>::new(&patterns).unwrap();
    let mut it = pma.find_iter("abcd");

    let m = it.next().unwrap();
    assert_eq!((0, 1, 2), (m.start(), m.end(), m.value()));

    let m = it.next().unwrap();
    assert_eq!((1, 4, 0), (m.start(), m.end(), m.value()));

    assert_eq!(None, it.next());
}

#[test]
fn find_on_multibyte_text() {
    let patterns = vec!["全世界", "世界", "に"];
    let pma = CharwiseDoubleArrayAhoCorasick::<u32>::new(&patterns).unwrap();
    let mut it = pma.find_iter("全世界中に");

    let m = it.next().unwrap();
    assert_eq!((0, 9, 0), (m.start(), m.end(), m.value()));

    let m = it.next().unwrap();
    assert_eq!((12, 15, 2), (m.start(), m.end(), m.value()));

    assert_eq!(None, it.next());
}

#[test]
fn find_from_bytes_in_utf8() {
    let patterns = vec!["全世界", "世界", "に"];
    let pma = CharwiseDoubleArrayAhoCorasick::<u32>::new(&patterns).unwrap();
    let haystack: Vec<u8> = "全世界".as_bytes().iter().chain("中に".as_bytes()).copied().collect();
    let mut it = pma.find_iter_from_iter(&haystack);

    let m = it.next().unwrap();
    assert_eq!((0, 9, 0), (m.start(), m.end(), m.value()));

    let m = it.next().unwrap();
    assert_eq!((12, 15, 2), (m.start(), m.end(), m.value()));

    assert_eq!(None, it.next());
}

#[test]
fn overlapping_completeness() {
    let patterns = vec!["a", "ab", "abc"];
    let pma = CharwiseDoubleArrayAhoCorasick::<u32>::new(&patterns).unwrap();
    let mut it = pma.find_overlapping_iter("abc");

    let m = it.next().unwrap();
    assert_eq!((0, 1, 0), (m.start(), m.end(), m.value()));

    let m = it.next().unwrap();
    assert_eq!((0, 2, 1), (m.start(), m.end(), m.value()));

    let m = it.next().unwrap();
    assert_eq!((0, 3, 2), (m.start(), m.end(), m.value()));

    assert_eq!(None, it.next());
}

#[test]
fn overlapping_longest_first_at_one_end() {
    let patterns = vec!["c", "bc", "abc"];
    let pma = CharwiseDoubleArrayAhoCorasick::<u32>::new(&patterns).unwrap();
    let mut it = pma.find_overlapping_iter("abc");

    let m = it.next().unwrap();
    assert_eq!((0, 3, 2), (m.start(), m.end(), m.value()));

    let m = it.next().unwrap();
    assert_eq!((1, 3, 1), (m.start(), m.end(), m.value()));

    let m = it.next().unwrap();
    assert_eq!((2, 3, 0), (m.start(), m.end(), m.value()));

    assert_eq!(None, it.next());
}

#[test]
fn overlapping_no_suffix_reports_the_longest_at_each_end() {
    let patterns = vec!["全世界", "世界", "に"];
    let pma = CharwiseDoubleArrayAhoCorasick::<u32>::new(&patterns).unwrap();
    let mut it = pma.find_overlapping_no_suffix_iter("全世界中に");

    let m = it.next().unwrap();
    assert_eq!((0, 9, 0), (m.start(), m.end(), m.value()));

    let m = it.next().unwrap();
    assert_eq!((12, 15, 2), (m.start(), m.end(), m.value()));

    assert_eq!(None, it.next());
}

#[test]
fn leftmost_longest() {
    let patterns = vec!["ab", "a", "abcd"];
    let pma: CharwiseDoubleArrayAhoCorasick<u32> = CharwiseDoubleArrayAhoCorasickBuilder::new()
        .match_kind(MatchKind::LeftmostLongest)
        .build(&patterns)
        .unwrap();
    let mut it = pma.leftmost_find_iter("abcd");

    let m = it.next().unwrap();
    assert_eq!((0, 4, 2), (m.start(), m.end(), m.value()));

    assert_eq!(None, it.next());
}

#[test]
fn leftmost_first() {
    let patterns = vec!["ab", "a", "abcd"];
    let pma: CharwiseDoubleArrayAhoCorasick<u32> = CharwiseDoubleArrayAhoCorasickBuilder::new()
        .match_kind(MatchKind::LeftmostFirst)
        .build(&patterns)
        .unwrap();
    let mut it = pma.leftmost_find_iter("abcd");

    let m = it.next().unwrap();
    assert_eq!((0, 2, 0), (m.start(), m.end(), m.value()));

    assert_eq!(None, it.next());
}

#[test]
fn leftmost_longest_on_multibyte_text() {
    let patterns = vec!["世界", "世", "世界中に"];
    let pma: CharwiseDoubleArrayAhoCorasick<u32> = CharwiseDoubleArrayAhoCorasickBuilder::new()
        .match_kind(MatchKind::LeftmostLongest)
        .build(&patterns)
        .unwrap();
    let mut it = pma.leftmost_find_iter("世界中に");

    let m = it.next().unwrap();
    assert_eq!((0, 12, 2), (m.start(), m.end(), m.value()));

    assert_eq!(None, it.next());
}

#[test]
fn leftmost_first_on_multibyte_text() {
    let patterns = vec!["世界", "世", "世界中に"];
    let pma: CharwiseDoubleArrayAhoCorasick<u32> = CharwiseDoubleArrayAhoCorasickBuilder::new()
        .match_kind(MatchKind::LeftmostFirst)
        .build(&patterns)
        .unwrap();
    let mut it = pma.leftmost_find_iter("世界中に");

    let m = it.next().unwrap();
    assert_eq!((0, 6, 0), (m.start(), m.end(), m.value()));

    assert_eq!(None, it.next());
}

#[test]
fn leftmost_goes_on_after_a_match() {
    let patterns = vec!["abcd", "bc", "cdx"];
    let pma: CharwiseDoubleArrayAhoCorasick<u32> = CharwiseDoubleArrayAhoCorasickBuilder::new()
        .match_kind(MatchKind::LeftmostLongest)
        .build(&patterns)
        .unwrap();
    let mut it = pma.leftmost_find_iter("abcxbcdxabcd");

    let m = it.next().unwrap();
    assert_eq!((1, 3, 1), (m.start(), m.end(), m.value()));

    let m = it.next().unwrap();
    assert_eq!((4, 6, 1), (m.start(), m.end(), m.value()));

    let m = it.next().unwrap();
    assert_eq!((8, 12, 0), (m.start(), m.end(), m.value()));

    assert_eq!(None, it.next());
    assert_eq!(None, it.next());
}

#[test]
fn with_values_reports_the_given_values() {
    let patvals = vec![("bcd", 0u32), ("ab", 10), ("a", 20)];
    let pma = CharwiseDoubleArrayAhoCorasick::with_values(&patvals).unwrap();
    let mut it = pma.find_overlapping_iter("abcd");

    let m = it.next().unwrap();
    assert_eq!((0, 1, 20), (m.start(), m.end(), m.value()));

    let m = it.next().unwrap();
    assert_eq!((0, 2, 10), (m.start(), m.end(), m.value()));

    let m = it.next().unwrap();
    assert_eq!((1, 4, 0), (m.start(), m.end(), m.value()));

    assert_eq!(None, it.next());
}

#[test]
fn find_overlapping_from_bytes_in_utf8() {
    let patterns = vec!["全世界", "世界", "に"];
    let pma = CharwiseDoubleArrayAhoCorasick::<u32>::new(&patterns).unwrap();
    let haystack: Vec<u8> = "全世界".as_bytes().iter().chain("中に".as_bytes()).copied().collect();
    let mut it = pma.find_overlapping_iter_from_iter(&haystack);

    let m = it.next().unwrap();
    assert_eq!((0, 9, 0), (m.start(), m.end(), m.value()));

    let m = it.next().unwrap();
    assert_eq!((3, 9, 1), (m.start(), m.end(), m.value()));

    let m = it.next().unwrap();
    assert_eq!((12, 15, 2), (m.start(), m.end(), m.value()));

    assert_eq!(None, it.next());
}

#[test]
fn find_overlapping_no_suffix_from_bytes_in_utf8() {
    let patterns = vec!["全世界", "世界", "に"];
    let pma = CharwiseDoubleArrayAhoCorasick::<u32>::new(&patterns).unwrap();
    let haystack: Vec<u8> = "全世界".as_bytes().iter().chain("中に".as_bytes()).copied().collect();
    let mut it = pma.find_overlapping_no_suffix_iter_from_iter(&haystack);

    let m = it.next().unwrap();
    assert_eq!((0, 9, 0), (m.start(), m.end(), m.value()));

    let m = it.next().unwrap();
    assert_eq!((12, 15, 2), (m.start(), m.end(), m.value()));

    assert_eq!(None, it.next());
}

#[test]
fn match_kind_predicates() {
    assert!(MatchKind::Standard.is_standard());
    assert!(!MatchKind::Standard.is_leftmost());
    assert!(!MatchKind::Standard.is_leftmost_first());
    assert!(!MatchKind::LeftmostLongest.is_standard());
    assert!(MatchKind::LeftmostLongest.is_leftmost());
    assert!(!MatchKind::LeftmostLongest.is_leftmost_first());
    assert!(!MatchKind::LeftmostFirst.is_standard());
    assert!(MatchKind::LeftmostFirst.is_leftmost());
    assert!(MatchKind::LeftmostFirst.is_leftmost_first());
}
