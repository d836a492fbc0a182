use daachorse::errors::DaachorseError;
use daachorse::intpack::{U24nU8, U24};
use daachorse::{
    CharwiseDoubleArrayAhoCorasick, CharwiseDoubleArrayAhoCorasickBuilder, Empty, MatchKind,
    NonZeroU32, Output, Serializable,
};

fn all_overlapping(pma: &CharwiseDoubleArrayAhoCorasick<u32>, haystack: &str) -> Vec<(usize, usize, u32)> {
    let mut found = vec![];
    let mut it = pma.find_overlapping_iter(haystack);
    while let Some(m) = it.next() {
        found.push((m.start(), m.end(), m.value()));
    }
    found
}

fn all_leftmost(pma: &CharwiseDoubleArrayAhoCorasick<u32>, haystack: &str) -> Vec<(usize, usize, u32)> {
    let mut found = vec![];
    let mut it = pma.leftmost_find_iter(haystack);
    while let Some(m) = it.next() {
        found.push((m.start(), m.end(), m.value()));
    }
    found
}

#[test]
fn round_trip_keeps_the_matches() {
    let patterns = vec!["全世界", "世界", "に"];
    let pma = CharwiseDoubleArrayAhoCorasick::<u32>::new(&patterns).unwrap();
    let bytes = pma.serialize();
    let (other, rest) = CharwiseDoubleArrayAhoCorasick::<u32>::deserialize_unchecked(&bytes);
    assert!(rest.is_empty());
    assert_eq!(pma, other);
    assert_eq!(
        vec![(0, 9, 0), (3, 9, 1), (12, 15, 2)],
        all_overlapping(&other, "全世界中に")
    );
    assert_eq!(all_overlapping(&pma, "全世界中に"), all_overlapping(&other, "全世界中に"));
}

#[test]
fn round_trip_keeps_the_match_kind() {
    let patterns = vec!["ab", "a", "abcd"];
    for kind in [MatchKind::LeftmostLongest, MatchKind::LeftmostFirst] {
        let pma: CharwiseDoubleArrayAhoCorasick<u32> = CharwiseDoubleArrayAhoCorasickBuilder::new()
            .match_kind(kind)
            .build(&patterns)
            .unwrap();
        let bytes = pma.serialize();
        let (other, rest) = CharwiseDoubleArrayAhoCorasick::<u32>::deserialize_unchecked(&bytes);
        assert!(rest.is_empty());
        assert_eq!(all_leftmost(&pma, "xabcdab"), all_leftmost(&other, "xabcdab"));
    }
}

#[test]
fn deserialize_leaves_what_follows() {
    let patterns = vec!["ab", "baaba", "ababa"];
    let pma = CharwiseDoubleArrayAhoCorasick::<u32>::new(&patterns).unwrap();
    let mut bytes = pma.serialize();
    bytes.extend_from_slice(&[7, 8, 9]);
    let (other, rest) = CharwiseDoubleArrayAhoCorasick::<u32>::deserialize_unchecked(&bytes);
    assert_eq!(rest, &[7, 8, 9]);
    assert_eq!(pma, other);
}

#[test]
fn the_kind_is_written_as_one_byte_before_the_state_count() {
    let patterns = vec!["a"];
    let pma: CharwiseDoubleArrayAhoCorasick<u32> = CharwiseDoubleArrayAhoCorasickBuilder::new()
        .match_kind(MatchKind::LeftmostFirst)
        .build(&patterns)
        .unwrap();
    let bytes = pma.serialize();
    let n = bytes.len();
    assert_eq!(bytes[n - 5], 2);
    assert_eq!(&bytes[n - 4..], &2u32.to_ne_bytes());
}

#[test]
fn two_iterators_report_the_same() {
    let patterns = vec!["bcd", "ab", "a", "abcd", "cd"];
    let pma = CharwiseDoubleArrayAhoCorasick::<u32>::new(&patterns).unwrap();
    assert_eq!(all_overlapping(&pma, "abcdabxcd"), all_overlapping(&pma, "abcdabxcd"));
}

#[test]
fn heap_bytes_counts_the_three_tables() {
    let patterns = vec!["bcd", "ab", "a"];
    let pma = CharwiseDoubleArrayAhoCorasick::<u32>::new(&patterns).unwrap();
    assert_eq!(568, pma.heap_bytes());
}

#[test]
fn an_empty_pattern_set_is_refused() {
    let patterns: Vec<&str> = vec![];
    let r = CharwiseDoubleArrayAhoCorasick::<u32>::new(&patterns);
    assert_eq!(r.err(), Some(DaachorseError::InvalidArgument));
}

#[test]
fn an_empty_pattern_is_refused() {
    let patterns = vec!["a", ""];
    let r = CharwiseDoubleArrayAhoCorasick::<u32>::new(&patterns);
    assert_eq!(r.err(), Some(DaachorseError::InvalidArgument));
}

#[test]
fn a_duplicate_pattern_is_refused() {
    let patterns = vec!["ab", "cd", "ab"];
    let r = CharwiseDoubleArrayAhoCorasick::<u32>::new(&patterns);
    assert_eq!(r.err(), Some(DaachorseError::DuplicatePattern));
    let patvals = vec![("ab", 1u32), ("ab", 2)];
    let r = CharwiseDoubleArrayAhoCorasick::with_values(&patvals);
    assert_eq!(r.err(), Some(DaachorseError::DuplicatePattern));
}

#[test]
fn a_position_that_does_not_fit_the_values_is_refused() {
    let owned: Vec<String> = (0..300).map(|i| format!("p{}", i)).collect();
    let patterns: Vec<&str> = owned.iter().map(|s| s.as_str()).collect();
    let r = CharwiseDoubleArrayAhoCorasick::<u8>::new(&patterns);
    assert_eq!(r.err(), Some(DaachorseError::InvalidConversion));
    let r = CharwiseDoubleArrayAhoCorasick::<u16>::new(&patterns);
    assert!(r.is_ok());
}

#[test]
fn leftmost_first_leaves_out_a_pattern_that_extends_an_earlier_one() {
    let patterns = vec!["a", "ab", "a"];
    let r: Result<CharwiseDoubleArrayAhoCorasick<u32>, _> = CharwiseDoubleArrayAhoCorasickBuilder::new()
        .match_kind(MatchKind::LeftmostFirst)
        .build(&patterns);
    assert_eq!(r.err(), Some(DaachorseError::DuplicatePattern));
    let patterns = vec!["a", "ab", "ab"];
    let pma: CharwiseDoubleArrayAhoCorasick<u32> = CharwiseDoubleArrayAhoCorasickBuilder::new()
        .match_kind(MatchKind::LeftmostFirst)
        .build(&patterns)
        .unwrap();
    assert_eq!(vec![(0, 1, 0)], all_leftmost(&pma, "ab"));
    assert_eq!(pma.num_states(), 2);
}

#[test]
fn the_error_says_what_went_wrong() {
    assert!(DaachorseError::DuplicatePattern.message().starts_with("duplicate pattern"));
    assert!(DaachorseError::InvalidArgument.message().starts_with("invalid argument"));
    assert!(DaachorseError::AutomatonScale.message().starts_with("automaton scale"));
    assert!(DaachorseError::InvalidConversion.message().starts_with("invalid conversion"));
}

#[test]
fn values_of_no_size_are_accepted() {
    let patterns = vec!["bcd", "ab", "a"];
    let pma = CharwiseDoubleArrayAhoCorasick::<Empty>::new(&patterns).unwrap();
    let mut it = pma.find_overlapping_iter("abcd");
    let m = it.next().unwrap();
    assert_eq!((0, 1), (m.start(), m.end()));
}

#[test]
fn u24_holds_numbers_of_24_bits() {
    assert_eq!(U24::try_from(42).unwrap().get(), 42);
    assert_eq!(U24::try_from(U24::MAX).unwrap().get(), 0x00ff_ffff);
    assert!(U24::try_from(U24::MAX + 1).is_err());
    assert_eq!(U24::default().get(), 0);
}

#[test]
fn packed_fields_are_set_one_by_one() {
    let mut x = U24nU8::default();
    x.set_a(U24::try_from(0x12_3456).unwrap());
    x.set_b(0x78);
    assert_eq!(x.a().get(), 0x12_3456);
    assert_eq!(x.b(), 0x78);
    x.set_b(0xff);
    assert_eq!(x.a().get(), 0x12_3456);
    assert_eq!(x.b(), 0xff);
    x.set_a(U24::try_from(1).unwrap());
    assert_eq!(x.a().get(), 1);
    assert_eq!(x.b(), 0xff);
}

#[test]
fn an_output_is_read_through_its_getters() {
    let x = Output::new(42u32, 57, NonZeroU32::new(13));
    assert_eq!(x.value(), 42);
    assert_eq!(x.length(), 57);
    assert_eq!(x.parent().map(|p| p.get()), Some(13));
    let y = Output::new(1u32, 2, None);
    assert_eq!(y.parent(), None);
    assert_eq!(NonZeroU32::new(0), None);
}

#[test]
fn a_number_is_written_in_the_byte_order_of_the_machine() {
    let mut data = vec![];
    0x1234_5678u32.serialize_to_vec(&mut data);
    assert_eq!(data, 0x1234_5678u32.to_ne_bytes());
    let (x, rest) = u32::deserialize_from_slice(&data);
    assert_eq!(x, 0x1234_5678);
    assert!(rest.is_empty());
}

#[test]
fn match_kind_converts_to_and_from_its_tag() {
    assert_eq!(u8::from(MatchKind::Standard), 0);
    assert_eq!(u8::from(MatchKind::LeftmostLongest), 1);
    assert_eq!(u8::from(MatchKind::LeftmostFirst), 2);
    assert_eq!(MatchKind::from(0), MatchKind::Standard);
    assert_eq!(MatchKind::from(1), MatchKind::LeftmostLongest);
    assert_eq!(MatchKind::from(2), MatchKind::LeftmostFirst);
    assert_eq!(MatchKind::from(9), MatchKind::Standard);
}

#[test]
fn packed_fields_are_written_as_one_word() {
    let mut x = U24nU8::default();
    x.set_a(U24::try_from(0x12_3456).unwrap());
    x.set_b(0x78);
    let mut data = vec![];
    x.serialize_to_vec(&mut data);
    assert_eq!(data.len(), U24nU8::serialized_bytes());
    assert_eq!(data, 0x1234_5678u32.to_ne_bytes());
    let (y, rest) = U24nU8::deserialize_from_slice(&data);
    assert!(rest.is_empty());
    assert_eq!(x, y);
}
