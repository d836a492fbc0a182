use daachorse::build_helper::BuildHelper;

#[test]
fn the_first_free_slot_that_fits_gives_the_base() {
    let mut helper = BuildHelper::new(8);
    assert_eq!(helper.find_base(&vec![0], 4), Some(2));
    assert_eq!(helper.find_base(&vec![0, 1], 4), Some(2));
    assert_eq!(helper.find_base(&vec![1], 4), Some(3));
}

#[test]
fn a_base_is_never_zero() {
    let mut helper = BuildHelper::new(8);
    // slot 2 as the place of the child on code 2 would give the base 0
    assert_eq!(helper.find_base(&vec![2], 4), Some(1));
}

#[test]
fn taken_slots_are_passed_over() {
    let mut helper = BuildHelper::new(8);
    helper.use_index(2);
    helper.use_index(3);
    assert_eq!(helper.find_base(&vec![0, 1], 8), Some(4));
    helper.use_index(5);
    // slot 4 is free, but the child on code 1 would fall on the taken slot 5
    assert_eq!(helper.find_base(&vec![0, 1], 8), Some(6));
    assert_eq!(helper.find_base(&vec![0], 8), Some(4));
}

#[test]
fn no_more_slots_are_tried_than_the_limit_allows() {
    let mut helper = BuildHelper::new(8);
    assert_eq!(helper.find_base(&vec![0], 0), None);
    helper.use_index(4);
    // only slot 2 is tried, and from there the child on code 6 falls on the
    // taken slot 4
    assert_eq!(helper.find_base(&vec![0, 6], 1), None);
    assert_eq!(helper.find_base(&vec![0, 6], 2), Some(3));
}

#[test]
fn a_full_block_has_no_base() {
    let mut helper = BuildHelper::new(4);
    helper.use_index(2);
    helper.use_index(3);
    assert_eq!(helper.find_base(&vec![0], 16), None);
    assert_eq!(helper.len(), 4);
    let start = helper.open_block();
    assert_eq!(start, Some(4));
    assert_eq!(helper.len(), 8);
    assert_eq!(helper.find_base(&vec![0], 16), Some(7));
}
