use sortnetopt::matching::Matching;

fn rows_a(matching: &Matching, channels: usize) -> Vec<u16> {
    (0..channels).map(|a| matching.matches_a(a)).collect()
}

fn rows_b(matching: &Matching, channels: usize) -> Vec<u16> {
    (0..channels).map(|b| matching.matches_b(b)).collect()
}

#[test]
fn a_new_matching_allows_everything() {
    let matching = Matching::new(3);
    assert_eq!(rows_a(&matching, 3), vec![0b111, 0b111, 0b111]);
    assert_eq!(rows_b(&matching, 3), vec![0b111, 0b111, 0b111]);
    for a in 0..3 {
        for b in 0..3 {
            assert!(matching.contains(a, b));
        }
        assert_eq!(matching.unique_match_a(a), None);
    }
    let one = Matching::new(1);
    assert_eq!(one.unique_match_a(0), Some(0));
    let widest = Matching::new(15);
    assert_eq!(widest.matches_a(14), 0x7fff);
}

#[test]
fn remove_takes_a_pair_out_of_both_sides() {
    let mut matching = Matching::new(3);
    assert!(!matching.remove(0, 0));
    assert!(!matching.contains(0, 0));
    assert_eq!(rows_a(&matching, 3), vec![0b110, 0b111, 0b111]);
    assert_eq!(rows_b(&matching, 3), vec![0b110, 0b111, 0b111]);
    assert!(!matching.remove(0, 0));
    assert_eq!(rows_a(&matching, 3), vec![0b110, 0b111, 0b111]);
}

#[test]
fn remove_concludes_from_a_single_candidate() {
    let mut matching = Matching::new(3);
    assert!(!matching.remove(0, 0));
    assert!(!matching.remove(0, 1));
    assert_eq!(rows_a(&matching, 3), vec![0b100, 0b011, 0b011]);
    assert_eq!(rows_b(&matching, 3), vec![0b110, 0b110, 0b001]);
    assert_eq!(matching.unique_match_a(0), Some(2));
    assert_eq!(matching.unique_match_a(1), None);
    assert!(!matching.remove(1, 0));
    assert_eq!(rows_a(&matching, 3), vec![0b100, 0b010, 0b001]);
    assert_eq!(rows_b(&matching, 3), vec![0b100, 0b010, 0b001]);
}

#[test]
fn remove_sets_the_mark_when_a_channel_is_left_without_a_candidate() {
    let mut matching = Matching::new(2);
    assert!(!matching.remove(0, 0));
    assert_eq!(rows_a(&matching, 2), vec![0b10, 0b01]);
    assert!(matching.remove(0, 1));
    assert!(matching.remove(1, 0));
    assert!(matching.remove(1, 1));
    assert!(matching.select(1, 0));
    assert!(matching.filter(|_, _| true));
    assert_eq!(matching.unique_match_a(1), None);
}

#[test]
fn remove_sets_the_mark_when_two_channels_are_left_with_the_same_one() {
    let mut matching = Matching::new(3);
    assert!(!matching.remove(0, 0));
    assert!(!matching.remove(1, 0));
    // channel 2 is now the only one that channel 0 of the other side is a
    // candidate of, so channels 0 and 1 share what is left
    assert_eq!(rows_a(&matching, 3), vec![0b110, 0b110, 0b001]);
    assert!(!matching.remove(0, 1));
    assert_eq!(rows_a(&matching, 3), vec![0b100, 0b010, 0b001]);
    assert!(matching.remove(1, 1));
}

#[test]
fn select_leaves_one_candidate() {
    let mut matching = Matching::new(3);
    assert!(!matching.select(1, 2));
    assert_eq!(rows_a(&matching, 3), vec![0b011, 0b100, 0b011]);
    assert_eq!(rows_b(&matching, 3), vec![0b101, 0b101, 0b010]);
    assert_eq!(matching.unique_match_a(1), Some(2));
    assert!(!matching.select(0, 0));
    assert_eq!(rows_a(&matching, 3), vec![0b001, 0b100, 0b010]);
    let mut other = Matching::new(3);
    assert!(!other.remove(0, 0));
    assert!(other.select(0, 0));
    assert!(other.select(1, 1));
}

#[test]
fn filter_keeps_the_pairs_that_pass() {
    let mut matching = Matching::new(3);
    assert!(!matching.filter(|a, b| a != b));
    assert_eq!(rows_a(&matching, 3), vec![0b110, 0b101, 0b011]);
    assert_eq!(rows_b(&matching, 3), vec![0b110, 0b101, 0b011]);
    let mut forced = Matching::new(3);
    assert!(!forced.filter(|a, b| a <= b));
    assert_eq!(rows_a(&forced, 3), vec![0b001, 0b010, 0b100]);
    let mut none = Matching::new(3);
    assert!(none.filter(|a, b| a < b));
    let mut calls = 0;
    let mut counted = Matching::new(2);
    assert!(!counted.filter(|_, _| {
        calls += 1;
        true
    }));
    assert_eq!(calls, 4);
}

#[test]
fn swap_channels_renames_the_channels_of_one_side() {
    let mut matching = Matching::new(3);
    assert!(!matching.remove(0, 0));
    assert!(!matching.remove(0, 1));
    matching.swap_channels_b(0, 2);
    assert_eq!(rows_a(&matching, 3), vec![0b001, 0b110, 0b110]);
    assert_eq!(rows_b(&matching, 3), vec![0b001, 0b110, 0b110]);
    matching.swap_channels_a(0, 1);
    assert_eq!(rows_a(&matching, 3), vec![0b110, 0b001, 0b110]);
    assert_eq!(rows_b(&matching, 3), vec![0b010, 0b101, 0b101]);
    matching.swap_channels_a(2, 2);
    matching.swap_channels_b(1, 1);
    assert_eq!(rows_a(&matching, 3), vec![0b110, 0b001, 0b110]);
    assert_eq!(rows_b(&matching, 3), vec![0b010, 0b101, 0b101]);
    for a in 0..3 {
        for b in 0..3 {
            assert_eq!(matching.contains(a, b), matching.matches_b(b) & (1 << a) != 0);
        }
    }
}

#[test]
fn a_set_mark_stays_set_and_nothing_is_tried() {
    let mut matching = Matching::new(2);
    assert!(!matching.remove(0, 0));
    assert!(matching.remove(0, 1));
    let rows = rows_a(&matching, 2);
    let mut calls = 0;
    assert!(matching.filter(|_, _| {
        calls += 1;
        false
    }));
    assert_eq!(calls, 0);
    assert!(matching.remove(1, 0));
    assert!(matching.select(1, 0));
    assert_eq!(rows_a(&matching, 2), rows);
}

#[test]
fn a_copy_is_independent() {
    let mut matching = Matching::new(3);
    let copy = matching.clone();
    assert!(!matching.remove(1, 1));
    assert!(copy.contains(1, 1));
    assert!(!matching.contains(1, 1));
}
