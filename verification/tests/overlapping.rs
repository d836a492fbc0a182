use daachorse::CharwiseDoubleArrayAhoCorasick;

#[test]
fn overlapping_reports_every_occurrence() {
    let patterns = vec!["bcd", "ab", "a"];
    let pma = CharwiseDoubleArrayAhoCorasick::<u32>::new(&patterns).unwrap();
    let mut it = pma.find_overlapping_iter("abcd");

    let m = it.next().unwrap();
    assert_eq!((0, 1, 2), (m.start(), m.end(), m.value()));

    let m = it.next().unwrap();
    assert_eq!((0, 2, 1), (m.start(), m.end(), m.value()));

    let m = it.next().unwrap();
    assert_eq!((1, 4, 0), (m.start(), m.end(), m.value()));

    assert_eq!(None, it.next());
}

#[test]
fn overlapping_on_multibyte_text() {
    let patterns = vec!["全世界", "世界", "に"];
    let pma = CharwiseDoubleArrayAhoCorasick::<u32>::new(&patterns).unwrap();
    let mut it = pma.find_overlapping_iter("全世界中に");

    let m = it.next().unwrap();
    assert_eq!((0, 9, 0), (m.start(), m.end(), m.value()));

    let m = it.next().unwrap();
    assert_eq!((3, 9, 1), (m.start(), m.end(), m.value()));

    let m = it.next().unwrap();
    assert_eq!((12, 15, 2), (m.start(), m.end(), m.value()));

    assert_eq!(None, it.next());
}

#[test]
fn counts_states_and_elements() {
    let patterns = vec!["bcd", "ab", "a"];
    let pma = CharwiseDoubleArrayAhoCorasick::<usize>::new(&patterns).unwrap();
    assert_eq!(pma.num_states(), 6);
    assert_eq!(pma.num_elements(), 8);
}
