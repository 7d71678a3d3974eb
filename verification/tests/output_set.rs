use sortnetopt::output_set::OutputSet;

const SORT_11: [(usize, usize); 35] = [
    (0, 9), (1, 6), (2, 4), (3, 7), (5, 8),
    (0, 1), (3, 5), (4, 10), (6, 9), (7, 8),
    (1, 3), (2, 5), (4, 7), (8, 10),
    (0, 4), (1, 2), (3, 7), (5, 9), (6, 8),
    (0, 1), (2, 6), (4, 5), (7, 8), (9, 10),
    (2, 4), (3, 6), (5, 7), (8, 9),
    (1, 2), (3, 4), (5, 6), (7, 8),
    (2, 3), (4, 5), (6, 7),
];

#[test]
fn sort_11_sorts() {
    let mut output_set = OutputSet::all_values(11);

    for &(a, b) in SORT_11.iter() {
        assert!(!output_set.is_sorted());
        output_set = output_set.apply_comparator(a, b);
    }

    assert!(output_set.is_sorted());
    assert_eq!(output_set.values().len(), 12);
}

#[test]
fn sort_11_order_channels() {
    let mut output_set = OutputSet::all_values(11);

    for &(a, b) in SORT_11.iter() {
        assert!(!output_set.is_sorted());

        let mut ordered_output_set = output_set.clone();

        let channel_weights = output_set.channel_weights();

        let perm = ordered_output_set.order_channels_by_weight();

        let ordered_channel_weights = ordered_output_set.channel_weights();

        assert!(ordered_channel_weights
            .iter()
            .zip(ordered_channel_weights.iter().skip(1))
            .all(|(a, b)| a >= b));

        assert!(perm
            .iter()
            .map(|&i| channel_weights[i])
            .zip(ordered_channel_weights.iter().cloned())
            .all(|(a, b)| a == b));

        let mut inv_perm = perm.clone();

        for (from, &to) in perm.iter().enumerate() {
            inv_perm[to] = from;
        }

        ordered_output_set.permute_channels(inv_perm);

        assert_eq!(output_set, ordered_output_set);

        output_set = output_set.apply_comparator(a, b);
    }
}
