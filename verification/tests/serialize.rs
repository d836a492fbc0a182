use daachorse::{MatchKind, NonZeroU32, Output, Serializable};

#[test]
fn test_serialize_output() {
    let x = Output::new(42u32, 57, NonZeroU32::new(13));
    let mut data = vec![];
    x.serialize_to_vec(&mut data);
    assert_eq!(data.len(), Output::<u32>::serialized_bytes());
    let (y, rest) = Output::deserialize_from_slice(&data);
    assert!(rest.is_empty());
    assert_eq!(x, y);
}

#[test]
fn test_serialize_match_kind() {
    let x = MatchKind::LeftmostLongest;
    let mut data = vec![];
    x.serialize_to_vec(&mut data);
    assert_eq!(data.len(), MatchKind::serialized_bytes());
    let (y, rest) = MatchKind::deserialize_from_slice(&data);
    assert!(rest.is_empty());
    assert_eq!(x, y);
}
