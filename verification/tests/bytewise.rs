use daachorse::errors::DaachorseError;
use daachorse::{
    CharwiseDoubleArrayAhoCorasick, DoubleArrayAhoCorasick, DoubleArrayAhoCorasickBuilder,
    MatchKind,
};

fn bytes_of<'a>(patterns: &[&'a str]) -> Vec<&'a [u8]> {
    patterns.iter().map(|p| p.as_bytes()).collect()
}

fn overlapping_on_bytes(pma: &DoubleArrayAhoCorasick<u32>, haystack: &[u8]) -> Vec<(usize, usize, u32)> {
    let mut found = vec![];
    let mut it = pma.find_overlapping_iter(haystack);
    while let Some(m) = it.next() {
        found.push((m.start(), m.end(), m.value()));
    }
    found
}

#[test]
fn bytes_find_overlapping() {
    let patterns = bytes_of(&["bcd", "ab", "a"]);
    let pma = DoubleArrayAhoCorasick::<u32>::new(&patterns).unwrap();
    assert_eq!(overlapping_on_bytes(&pma, b"abcd"), vec![(0, 1, 2), (0, 2, 1), (1, 4, 0)]);
}

#[test]
fn bytes_find_overlapping_longest_first_at_one_end() {
    let patterns = bytes_of(&["a", "ab", "abc", "bc", "c"]);
    let pma = DoubleArrayAhoCorasick::<u32>::new(&patterns).unwrap();
    assert_eq!(
        overlapping_on_bytes(&pma, b"abc"),
        vec![(0, 1, 0), (0, 2, 1), (0, 3, 2), (1, 3, 3), (2, 3, 4)]
    );
}

#[test]
fn bytes_find() {
    let patterns = bytes_of(&["bcd", "ab", "a"]);
    let pma = DoubleArrayAhoCorasick::<u32>::new(&patterns).unwrap();
    let mut it = pma.find_iter(b"abcd");
    let m = it.next().unwrap();
    assert_eq!((0, 1, 2), (m.start(), m.end(), m.value()));
    let m = it.next().unwrap();
    assert_eq!((1, 4, 0), (m.start(), m.end(), m.value()));
    assert!(it.next().is_none());
    assert!(it.next().is_none());
}

#[test]
fn bytes_find_overlapping_no_suffix() {
    let patterns = bytes_of(&["bcd", "cd", "abc"]);
    let pma = DoubleArrayAhoCorasick::<u32>::new(&patterns).unwrap();
    let mut it = pma.find_overlapping_no_suffix_iter(b"abcd");
    let m = it.next().unwrap();
    assert_eq!((0, 3, 2), (m.start(), m.end(), m.value()));
    let m = it.next().unwrap();
    assert_eq!((1, 4, 0), (m.start(), m.end(), m.value()));
    assert!(it.next().is_none());
}

#[test]
fn bytes_leftmost_longest() {
    let patterns = bytes_of(&["ab", "a", "abcd"]);
    let pma = DoubleArrayAhoCorasickBuilder::new()
        .match_kind(MatchKind::LeftmostLongest)
        .build::<u32>(&patterns)
        .unwrap();
    assert_eq!(pma.match_kind(), MatchKind::LeftmostLongest);
    let mut it = pma.leftmost_find_iter(b"abcd");
    let m = it.next().unwrap();
    assert_eq!((0, 4, 2), (m.start(), m.end(), m.value()));
    assert!(it.next().is_none());
}

#[test]
fn bytes_leftmost_first() {
    let patterns = bytes_of(&["ab", "a", "abcd"]);
    let pma = DoubleArrayAhoCorasickBuilder::new()
        .match_kind(MatchKind::LeftmostFirst)
        .build::<u32>(&patterns)
        .unwrap();
    let mut it = pma.leftmost_find_iter(b"abcd");
    let m = it.next().unwrap();
    assert_eq!((0, 2, 0), (m.start(), m.end(), m.value()));
    assert!(it.next().is_none());
}

#[test]
fn bytes_leftmost_goes_on_behind_a_match() {
    let patterns = bytes_of(&["abcd", "bce", "b", "cd"]);
    let pma = DoubleArrayAhoCorasickBuilder::new()
        .match_kind(MatchKind::LeftmostLongest)
        .build::<u32>(&patterns)
        .unwrap();
    let mut it = pma.leftmost_find_iter(b"abcbcdabcd");
    let mut found = vec![];
    while let Some(m) = it.next() {
        found.push((m.start(), m.end(), m.value()));
    }
    assert_eq!(found, vec![(1, 2, 2), (3, 4, 2), (4, 6, 3), (6, 10, 0)]);
}

#[test]
fn bytes_that_are_no_text() {
    let patvals: Vec<(&[u8], u32)> = vec![
        (&[0xff, 0xfe], 10),
        (&[0x80], 20),
        (&[0x00], 30),
        (&[0xfe, 0x80, 0x00], 40),
    ];
    let pma = DoubleArrayAhoCorasick::with_values(&patvals).unwrap();
    let haystack = [0x00u8, 0xff, 0xfe, 0x80, 0x00, 0x7f];
    assert_eq!(
        overlapping_on_bytes(&pma, &haystack),
        vec![(0, 1, 30), (1, 3, 10), (3, 4, 20), (2, 5, 40), (4, 5, 30)]
    );
}

#[test]
fn bytes_and_characters_report_the_same() {
    let patterns = vec!["全世界", "世界", "界", "に", "a", "ab", "é", "éa", "😀", "😀a"];
    let on_chars = CharwiseDoubleArrayAhoCorasick::<u32>::new(&patterns).unwrap();
    let on_bytes = DoubleArrayAhoCorasick::<u32>::new(&bytes_of(&patterns)).unwrap();
    for haystack in ["全世界中に", "aébéa😀ab😀a界に", "", "xyz", "世世界界"] {
        let mut found = vec![];
        let mut it = on_chars.find_overlapping_iter(haystack);
        while let Some(m) = it.next() {
            found.push((m.start(), m.end(), m.value()));
        }
        assert_eq!(found, overlapping_on_bytes(&on_bytes, haystack.as_bytes()));
    }
}

#[test]
fn bytes_a_pattern_may_end_inside_a_character() {
    let first_two: &[u8] = &"世".as_bytes()[..2];
    let patterns = vec![first_two];
    let pma = DoubleArrayAhoCorasick::<u32>::new(&patterns).unwrap();
    assert_eq!(overlapping_on_bytes(&pma, "全世界".as_bytes()), vec![(3, 5, 0)]);
}

#[test]
fn bytes_build_errors() {
    let none: Vec<&[u8]> = vec![];
    assert_eq!(
        DoubleArrayAhoCorasick::<u32>::new(&none).unwrap_err(),
        DaachorseError::InvalidArgument
    );
    let with_empty: Vec<&[u8]> = vec![b"a", b""];
    assert_eq!(
        DoubleArrayAhoCorasick::<u32>::new(&with_empty).unwrap_err(),
        DaachorseError::InvalidArgument
    );
    let twice: Vec<&[u8]> = vec![b"ab", b"c", b"ab"];
    assert_eq!(
        DoubleArrayAhoCorasick::<u32>::new(&twice).unwrap_err(),
        DaachorseError::DuplicatePattern
    );
    let many: Vec<Vec<u8>> = (0..300u32).map(|i| format!("p{i};").into_bytes()).collect();
    let many: Vec<&[u8]> = many.iter().map(|p| p.as_slice()).collect();
    assert_eq!(
        DoubleArrayAhoCorasick::<u8>::new(&many).unwrap_err(),
        DaachorseError::InvalidConversion
    );
}

#[test]
fn bytes_leftmost_first_leaves_out_what_cannot_be_found() {
    let patterns = bytes_of(&["ab", "abc", "abcd"]);
    let pma = DoubleArrayAhoCorasickBuilder::new()
        .match_kind(MatchKind::LeftmostFirst)
        .build::<u32>(&patterns)
        .unwrap();
    let mut it = pma.leftmost_find_iter(b"abcdabc");
    let m = it.next().unwrap();
    assert_eq!((0, 2, 0), (m.start(), m.end(), m.value()));
    let m = it.next().unwrap();
    assert_eq!((4, 6, 0), (m.start(), m.end(), m.value()));
    assert!(it.next().is_none());
    assert_eq!(pma.num_states(), 3);
}

#[test]
fn bytes_round_trip() {
    for kind in [MatchKind::Standard, MatchKind::LeftmostLongest, MatchKind::LeftmostFirst] {
        let patvals: Vec<(&[u8], u32)> = vec![(b"abcd", 3), (b"bc", 5), (&[0xff, 0x00], 7), (b"d", 9)];
        let pma = DoubleArrayAhoCorasickBuilder::new()
            .match_kind(kind)
            .build_with_values(&patvals)
            .unwrap();
        let mut bytes = pma.serialize();
        let written = bytes.len();
        bytes.extend_from_slice(&[1, 2, 3]);
        let (back, rest) = DoubleArrayAhoCorasick::<u32>::deserialize_unchecked(&bytes);
        assert_eq!(rest, &[1, 2, 3]);
        assert!(back == pma);
        assert_eq!(back.serialize().len(), written);
        assert_eq!(back.num_states(), pma.num_states());
        assert_eq!(back.num_elements(), pma.num_elements());
        assert_eq!(back.heap_bytes(), pma.heap_bytes());
        let haystack = [b'a', b'b', b'c', b'd', 0xff, 0x00, b'b', b'c'];
        let mut a = vec![];
        let mut b = vec![];
        if kind == MatchKind::Standard {
            let mut it = pma.find_overlapping_iter(&haystack);
            while let Some(m) = it.next() {
                a.push((m.start(), m.end(), m.value()));
            }
            let mut it = back.find_overlapping_iter(&haystack);
            while let Some(m) = it.next() {
                b.push((m.start(), m.end(), m.value()));
            }
            assert_eq!(a, vec![(1, 3, 5), (0, 4, 3), (3, 4, 9), (4, 6, 7), (6, 8, 5)]);
        } else {
            let mut it = pma.leftmost_find_iter(&haystack);
            while let Some(m) = it.next() {
                a.push((m.start(), m.end(), m.value()));
            }
            let mut it = back.leftmost_find_iter(&haystack);
            while let Some(m) = it.next() {
                b.push((m.start(), m.end(), m.value()));
            }
            assert_eq!(a, vec![(0, 4, 3), (4, 6, 7), (6, 8, 5)]);
        }
        assert_eq!(a, b);
    }
}

#[test]
fn bytes_binary_form() {
    let patterns = bytes_of(&["a"]);
    let pma = DoubleArrayAhoCorasick::<u32>::new(&patterns).unwrap();
    let bytes = pma.serialize();
    let elements = pma.num_elements();
    assert_eq!(pma.num_states(), 2);
    assert_eq!(bytes.len(), 4 + 16 * elements + 4 + 12 + 1 + 4);
    assert_eq!(&bytes[..4], &(elements as u32).to_ne_bytes());
    assert_eq!(bytes[bytes.len() - 5], 0);
    assert_eq!(&bytes[bytes.len() - 4..], &2u32.to_ne_bytes());
}

#[test]
fn bytes_state_count() {
    let patterns = bytes_of(&["abc", "abd", "b"]);
    let pma = DoubleArrayAhoCorasick::<u32>::new(&patterns).unwrap();
    assert_eq!(pma.num_states(), 6);
    assert!(pma.num_elements() >= 256);
    assert_eq!(pma.num_elements() % 256, 0);
}
