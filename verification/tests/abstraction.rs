use sortnetopt::output_set::OutputSet;

#[test]
fn abstraction_counts_by_channel_weight_and_value() {
    let set = OutputSet::all_values(2).apply_comparator(0, 1);
    assert_eq!(set.values(), &[0, 1, 3]);
    let abstraction = set.abstraction();
    assert_eq!(abstraction.channels(), 2);
    assert_eq!(abstraction.values(), &[1, 1, 0, 1, 1, 0, 1, 1]);
}

#[test]
fn abstraction_of_one_channel() {
    let abstraction = OutputSet::all_values(1).abstraction();
    assert_eq!(abstraction.values(), &[1, 1]);
    assert!(OutputSet::all_values(0).abstraction().values().is_empty());
}

#[test]
fn abstraction_counts_every_value_once_per_channel() {
    for width in 1..=8usize {
        let mut set = OutputSet::all_values(width);
        for j in 1..width {
            set = set.apply_comparator(0, j);
            let abstraction = set.abstraction();
            assert_eq!(abstraction.values().len(), 2 * width * width);
            let sum: usize = abstraction.values().iter().map(|&count| count as usize).sum();
            assert_eq!(sum, width * set.values().len());
        }
    }
}

#[test]
fn abstraction_of_the_largest_width() {
    let abstraction = OutputSet::all_values(15).abstraction();
    assert_eq!(abstraction.values().len(), 450);
    // 14 choose 7 values have a one on channel 3 and seven ones elsewhere
    assert_eq!(abstraction.values()[2 * (15 * 3 + 7) + 1], 3432);
}

#[test]
fn abstraction_agrees_with_counting_by_hand() {
    let width = 5usize;
    let set = OutputSet::all_values(width)
        .apply_comparator(0, 3)
        .apply_comparator(1, 4)
        .apply_comparator(2, 3);
    let abstraction = set.abstraction();
    for channel in 0..width {
        for weight in 0..width {
            for bit in 0..2usize {
                let expected = set
                    .values()
                    .iter()
                    .filter(|&&v| {
                        let on = ((v >> channel) & 1) as usize;
                        on == bit && (v.count_ones() as usize) - on == weight
                    })
                    .count();
                let index = 2 * (width * channel + weight) + bit;
                assert_eq!(abstraction.values()[index] as usize, expected);
            }
        }
    }
}

#[test]
fn update_min_and_max_work_place_by_place() {
    let one = OutputSet::all_values(2).apply_comparator(0, 1).abstraction();
    let other = OutputSet::all_values(2).apply_comparator(1, 0).abstraction();
    assert_eq!(one.values(), &[1, 1, 0, 1, 1, 0, 1, 1]);
    assert_eq!(other.values(), &[1, 0, 1, 1, 1, 1, 0, 1]);
    let mut low = one.clone();
    low.update_min(&other);
    assert_eq!(low.values(), &[1, 0, 0, 1, 1, 0, 0, 1]);
    let mut high = one.clone();
    high.update_max(&other);
    assert_eq!(high.values(), &[1, 1, 1, 1, 1, 1, 1, 1]);
}

#[test]
fn largest_range_is_the_last_of_the_largest() {
    let one = OutputSet::all_values(2).apply_comparator(0, 1).abstraction();
    let other = OutputSet::all_values(2).apply_comparator(1, 0).abstraction();
    assert_eq!(one.largest_range(&other), Some(6));
    assert_eq!(other.largest_range(&one), Some(6));
    assert_eq!(one.largest_range(&one), None);
    let all = OutputSet::all_values(2).abstraction();
    assert_eq!(all.values(), &[1, 1, 1, 1, 1, 1, 1, 1]);
    assert_eq!(all.largest_range(&one), Some(5));
    let wide = OutputSet::all_values(3).abstraction();
    assert_eq!(&wide.values()[..8], &[1, 1, 2, 2, 1, 1, 1, 1]);
    assert_eq!(all.largest_range(&wide), Some(3));
    let none = OutputSet::all_values(0).abstraction();
    assert_eq!(none.largest_range(&all), None);
}

#[test]
fn channel_le_compares_the_counts_of_two_channels() {
    let one = OutputSet::all_values(2).apply_comparator(0, 1).abstraction();
    let all = OutputSet::all_values(2).abstraction();
    for a in 0..2 {
        for b in 0..2 {
            assert!(one.channel_le(a, &all, b));
            assert!(!all.channel_le(a, &one, b));
        }
    }
    assert!(one.channel_le(0, &one, 0));
    assert!(one.channel_le(1, &one, 1));
    assert!(!one.channel_le(0, &one, 1));
    assert!(!one.channel_le(1, &one, 0));
}

#[test]
fn swap_channels_of_an_abstraction_follows_the_output_set() {
    for (i, j) in [(0usize, 2usize), (1, 3), (3, 0), (2, 2)] {
        let mut set = OutputSet::all_values(4).apply_comparator(0, 1).apply_comparator(1, 3);
        let mut abstraction = set.abstraction();
        abstraction.swap_channels(i, j);
        set.swap_channels(i, j);
        assert_eq!(abstraction.values(), set.abstraction().values());
    }
    let mut small = OutputSet::all_values(2).apply_comparator(0, 1).abstraction();
    small.swap_channels(0, 1);
    assert_eq!(small.values(), &[1, 0, 1, 1, 1, 1, 0, 1]);
}
