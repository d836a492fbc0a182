use daachorse::charwise::State;
use daachorse::intpack::{U24nU8, U24};
use daachorse::{CharwiseDoubleArrayAhoCorasick, Match, MatchKind, NonZeroU32, Output};

type Parts = (Vec<(u32, u32, u32, u32)>, Vec<u32>, u32, Vec<(u32, u32, u32)>, u8, u32);

fn parts_of(pma: &CharwiseDoubleArrayAhoCorasick<u32>) -> Parts {
    (
        pma.states()
            .iter()
            .map(|s| {
                (
                    s.base().map_or(0, |x| x.get()),
                    s.check(),
                    s.fail(),
                    s.output_pos().map_or(0, |x| x.get()),
                )
            })
            .collect(),
        pma.code_table().clone(),
        pma.alphabet_size(),
        pma.outputs()
            .iter()
            .map(|o| (o.value(), o.length(), o.parent().map_or(0, |x| x.get())))
            .collect(),
        u8::from(pma.match_kind()),
        pma.num_states() as u32,
    )
}

fn automaton_of(parts: Parts) -> CharwiseDoubleArrayAhoCorasick<u32> {
    let states = parts
        .0
        .into_iter()
        .map(|(base, check, fail, output_pos)| {
            let mut s = State::default();
            if let Some(base) = NonZeroU32::new(base) {
                s.set_base(base);
            }
            s.set_check(check);
            s.set_fail(fail);
            s.set_output_pos(NonZeroU32::new(output_pos));
            s
        })
        .collect();
    let outputs = parts
        .3
        .into_iter()
        .map(|(value, length, parent)| Output::new(value, length, NonZeroU32::new(parent)))
        .collect();
    CharwiseDoubleArrayAhoCorasick::from_parts_unchecked(
        states,
        parts.1,
        parts.2,
        outputs,
        MatchKind::from(parts.4),
        parts.5,
    )
}

#[test]
fn test_serde_pma() {
    let patterns = vec!["ab", "baaba", "ababa"];
    let pma = CharwiseDoubleArrayAhoCorasick::<u32>::new(&patterns).unwrap();
    let serialized = serde_json::to_string(&parts_of(&pma)).unwrap();
    let other = automaton_of(serde_json::from_str(&serialized).unwrap());
    assert_eq!(pma, other);
}

#[test]
fn test_bitcode_pma() {
    let patterns = vec!["ab", "baaba", "ababa"];
    let pma = CharwiseDoubleArrayAhoCorasick::<u32>::new(&patterns).unwrap();
    let encoded = bitcode::encode(&parts_of(&pma));
    let other = automaton_of(bitcode::decode::<Parts>(&encoded).unwrap());
    assert_eq!(pma, other);
}

#[test]
fn test_serde_u24() {
    let x = U24::try_from(42).unwrap();
    let serialized = serde_json::to_string(&x.get()).unwrap();
    let y = U24::try_from(serde_json::from_str::<u32>(&serialized).unwrap()).unwrap();
    assert_eq!(x, y);
}

#[test]
fn test_bitcode_u24() {
    let x = U24::try_from(42).unwrap();
    let encoded = bitcode::encode(&x.get());
    let y = U24::try_from(bitcode::decode::<u32>(&encoded).unwrap()).unwrap();
    assert_eq!(x, y);
}

fn packed(word: u32) -> U24nU8 {
    let mut x = U24nU8::default();
    x.set_a(U24::try_from(word >> 8).unwrap());
    x.set_b((word & 0xff) as u8);
    x
}

fn word_of(x: U24nU8) -> u32 {
    (x.a().get() << 8) | u32::from(x.b())
}

#[test]
fn test_serde_u24nu8() {
    let x = packed(0x1234_5678);
    let serialized = serde_json::to_string(&word_of(x)).unwrap();
    let y = packed(serde_json::from_str(&serialized).unwrap());
    assert_eq!(x, y);
    assert_eq!(word_of(y), 0x1234_5678);
}

#[test]
fn test_bitcode_u24nu8() {
    let x = packed(0x1234_5678);
    let encoded = bitcode::encode(&word_of(x));
    let y = packed(bitcode::decode::<u32>(&encoded).unwrap());
    assert_eq!(x, y);
    assert_eq!(word_of(y), 0x1234_5678);
}

fn output_parts(x: Output<u32>) -> (u32, u32, u32) {
    (x.value(), x.length(), x.parent().map_or(0, |p| p.get()))
}

#[test]
fn test_serde_output() {
    let x = Output::new(42u32, 57, NonZeroU32::new(13));
    let serialized = serde_json::to_string(&output_parts(x)).unwrap();
    let (value, length, parent): (u32, u32, u32) = serde_json::from_str(&serialized).unwrap();
    let y = Output::new(value, length, NonZeroU32::new(parent));
    assert_eq!(x, y);
}

#[test]
fn test_bitcode_output() {
    let x = Output::new(42u32, 57, NonZeroU32::new(13));
    let encoded = bitcode::encode(&output_parts(x));
    let (value, length, parent) = bitcode::decode::<(u32, u32, u32)>(&encoded).unwrap();
    let y = Output::new(value, length, NonZeroU32::new(parent));
    assert_eq!(x, y);
}

#[test]
fn test_serde_match() {
    let x = Match::from_parts(4, 10, 42u32).unwrap();
    let serialized = serde_json::to_string(&(x.length(), x.end(), x.value())).unwrap();
    let (length, end, value): (usize, usize, u32) = serde_json::from_str(&serialized).unwrap();
    let y = Match::from_parts(length, end, value).unwrap();
    assert_eq!(x, y);
    assert_eq!((y.start(), y.end(), y.value()), (6, 10, 42));
}

#[test]
fn test_bitcode_match() {
    let x = Match::from_parts(4, 10, 42u32).unwrap();
    let encoded = bitcode::encode(&(x.length(), x.end(), x.value()));
    let (length, end, value) = bitcode::decode::<(usize, usize, u32)>(&encoded).unwrap();
    let y = Match::from_parts(length, end, value).unwrap();
    assert_eq!(x, y);
    assert_eq!((y.start(), y.end(), y.value()), (6, 10, 42));
}

#[test]
fn test_serde_match_kind() {
    let x = MatchKind::LeftmostLongest;
    let serialized = serde_json::to_string(&u8::from(x)).unwrap();
    let y = MatchKind::from(serde_json::from_str::<u8>(&serialized).unwrap());
    assert_eq!(x, y);
}

#[test]
fn test_bitcode_match_kind() {
    let x = MatchKind::LeftmostLongest;
    let encoded = bitcode::encode(&u8::from(x));
    let y = MatchKind::from(bitcode::decode::<u8>(&encoded).unwrap());
    assert_eq!(x, y);
}
