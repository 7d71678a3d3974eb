use arrayvec::ArrayVec;
use sortnetopt::fixed_vec::{AVec, CVec, MAX_CHANNELS};
use sortnetopt::output_set::OutputSet;
use sortnetopt::permutation::{identity, is_channel_permutation};

fn perm_of(entries: &[usize]) -> CVec<usize> {
    let mut perm = ArrayVec::new();
    for &entry in entries {
        perm.push(entry);
    }
    perm
}

fn brute_force_comparator(values: &[u16], i: usize, j: usize) -> Vec<u16> {
    let mut out: Vec<u16> = values
        .iter()
        .map(|&v| {
            let low = (v >> i) & 1;
            let high = (v >> j) & 1;
            if low == 0 && high == 1 {
                v ^ ((1 << i) | (1 << j))
            } else {
                v
            }
        })
        .collect();
    out.sort_unstable();
    out.dedup();
    out
}

fn brute_force_permutation(values: &[u16], perm: &[usize]) -> Vec<u16> {
    let mut out: Vec<u16> = values
        .iter()
        .map(|&v| {
            let mut image = 0u16;
            for (to, &from) in perm.iter().enumerate() {
                image |= ((v >> from) & 1) << to;
            }
            image
        })
        .collect();
    out.sort_unstable();
    out.dedup();
    out
}

fn all_pairs_of(width: usize) -> Vec<(usize, usize)> {
    let mut pairs = vec![];
    for i in 0..width {
        for j in 0..width {
            if i != j {
                pairs.push((i, j));
            }
        }
    }
    pairs
}

#[test]
fn avec_capacity() {
    assert!(AVec::new().capacity() >= MAX_CHANNELS * MAX_CHANNELS * 2);
}

#[test]
fn all_values_enumerates_every_value() {
    for width in 0..=8usize {
        let set = OutputSet::all_values(width);
        let expected: Vec<u16> = (0..(1u32 << width)).map(|v| v as u16).collect();
        assert_eq!(set.channels(), width);
        assert_eq!(set.values(), &expected[..]);
        assert_eq!(set.values().len(), 1 << width);
    }
}

#[test]
fn all_values_of_the_largest_width() {
    let set = OutputSet::all_values(15);
    assert_eq!(set.values().len(), 32768);
    assert_eq!(set.values()[0], 0);
    assert_eq!(set.values()[32767], 32767);
}

#[test]
fn apply_comparator_on_two_channels() {
    let set = OutputSet::all_values(2);
    assert_eq!(set.apply_comparator(0, 1).values(), &[0, 1, 3]);
    assert_eq!(set.apply_comparator(1, 0).values(), &[0, 2, 3]);
}

#[test]
fn apply_comparator_on_the_largest_width() {
    let set = OutputSet::all_values(15).apply_comparator(3, 14);
    assert_eq!(set.values().len(), 32768 / 4 * 3);
    assert_eq!(set.values()[0], 0);
    assert_eq!(*set.values().last().unwrap(), 32767);
}

#[test]
fn apply_comparator_equals_brute_force() {
    for width in 2..=6usize {
        let start = OutputSet::all_values(width);
        for (i, j) in all_pairs_of(width) {
            let once = start.apply_comparator(i, j);
            assert_eq!(once.values(), &brute_force_comparator(start.values(), i, j)[..]);
            for (k, l) in all_pairs_of(width) {
                let twice = once.apply_comparator(k, l);
                assert_eq!(twice.values(), &brute_force_comparator(once.values(), k, l)[..]);
            }
        }
    }
}

#[test]
fn apply_comparator_keeps_the_invariant() {
    for width in 2..=8usize {
        let mut set = OutputSet::all_values(width);
        for (i, j) in all_pairs_of(width) {
            let next = set.apply_comparator(i, j);
            assert!(next.values().len() <= set.values().len());
            assert!(next.values().windows(2).all(|pair| pair[0] < pair[1]));
            assert_eq!(next.values()[0], 0);
            assert_eq!(*next.values().last().unwrap(), (1u16 << width) - 1);
            if i < j {
                set = next;
            }
        }
    }
}

#[test]
fn apply_comparator_is_idempotent() {
    for width in 2..=8usize {
        let start = OutputSet::all_values(width).apply_comparator(1, 0);
        for (i, j) in all_pairs_of(width) {
            let once = start.apply_comparator(i, j);
            let twice = once.apply_comparator(i, j);
            assert_eq!(once, twice);
        }
    }
}

#[test]
fn is_sorted_tells_runs_of_ones() {
    assert!(OutputSet::all_values(0).is_sorted());
    assert!(OutputSet::all_values(1).is_sorted());
    assert!(!OutputSet::all_values(2).is_sorted());
    assert!(OutputSet::all_values(2).apply_comparator(0, 1).is_sorted());
    assert!(!OutputSet::all_values(2).apply_comparator(1, 0).is_sorted());
    let three = OutputSet::all_values(3)
        .apply_comparator(0, 1)
        .apply_comparator(1, 2)
        .apply_comparator(0, 1);
    assert_eq!(three.values(), &[0, 1, 3, 7]);
    assert!(three.is_sorted());
}

#[test]
fn swap_channels_exchanges_two_channels() {
    let mut set = OutputSet::all_values(3).apply_comparator(0, 1);
    assert_eq!(set.values(), &[0, 1, 3, 4, 5, 7]);
    set.swap_channels(0, 2);
    assert_eq!(set.values(), &[0, 1, 4, 5, 6, 7]);
    set.swap_channels(1, 1);
    assert_eq!(set.values(), &[0, 1, 4, 5, 6, 7]);
    set.swap_channels(2, 0);
    assert_eq!(set.values(), &[0, 1, 3, 4, 5, 7]);
}

#[test]
fn swap_channels_equals_brute_force() {
    for width in 2..=6usize {
        for (i, j) in all_pairs_of(width) {
            let start = OutputSet::all_values(width)
                .apply_comparator(0, 1)
                .apply_comparator(width - 1, 0);
            let mut swapped = start.clone();
            swapped.swap_channels(i, j);
            let mut perm: Vec<usize> = (0..width).collect();
            perm.swap(i, j);
            assert_eq!(swapped.values(), &brute_force_permutation(start.values(), &perm)[..]);
            assert_eq!(swapped.values().len(), start.values().len());
        }
    }
}

#[test]
fn permute_channels_equals_brute_force() {
    let start = OutputSet::all_values(4).apply_comparator(0, 1).apply_comparator(2, 3);
    let perms: [[usize; 4]; 4] = [[0, 1, 2, 3], [1, 2, 3, 0], [3, 2, 1, 0], [2, 0, 3, 1]];
    for perm in perms.iter() {
        let mut permuted = start.clone();
        permuted.permute_channels(perm_of(perm));
        assert_eq!(permuted.values(), &brute_force_permutation(start.values(), perm)[..]);
    }
    let mut same = start.clone();
    same.permute_channels(identity(4));
    assert_eq!(same, start);
}

#[test]
fn permute_channels_puts_the_values_in_order() {
    let mut set = OutputSet::all_values(3).apply_comparator(0, 1);
    set.permute_channels(perm_of(&[2, 0, 1]));
    assert_eq!(set.values(), &[0, 1, 2, 3, 6, 7]);
}

#[test]
fn channel_weights_count_ones() {
    let set = OutputSet::all_values(3).apply_comparator(0, 1);
    assert_eq!(set.values(), &[0, 1, 3, 4, 5, 7]);
    assert_eq!(&set.channel_weights()[..], &[4, 2, 3]);
}

#[test]
fn order_channels_by_weight_orders_and_is_idempotent() {
    let mut set = OutputSet::all_values(3).apply_comparator(0, 1);
    let perm = set.order_channels_by_weight();
    assert_eq!(&perm[..], &[0, 2, 1]);
    assert_eq!(&set.channel_weights()[..], &[4, 3, 2]);
    assert_eq!(set.values(), &[0, 1, 2, 3, 5, 7]);
    let ordered = set.clone();
    let again = set.order_channels_by_weight();
    assert_eq!(&again[..], &[0, 1, 2]);
    assert_eq!(set, ordered);
}

#[test]
fn order_channels_by_weight_breaks_ties_by_index() {
    let mut set = OutputSet::all_values(4);
    let perm = set.order_channels_by_weight();
    assert_eq!(&perm[..], &[0, 1, 2, 3]);
    assert_eq!(set, OutputSet::all_values(4));
}

#[test]
fn order_channels_by_weight_descends_for_all_small_networks() {
    for width in 2..=6usize {
        for (i, j) in all_pairs_of(width) {
            for (k, l) in all_pairs_of(width) {
                let mut set = OutputSet::all_values(width)
                    .apply_comparator(i, j)
                    .apply_comparator(k, l);
                set.order_channels_by_weight();
                let weights = set.channel_weights();
                assert!(weights.windows(2).all(|pair| pair[0] >= pair[1]));
                let ordered = set.clone();
                set.order_channels_by_weight();
                assert_eq!(set, ordered);
            }
        }
    }
}

#[test]
fn subsumes_is_an_order() {
    let all = OutputSet::all_values(4);
    let one = all.apply_comparator(0, 1);
    let two = one.apply_comparator(2, 3);
    let other = all.apply_comparator(1, 0);
    for set in [&all, &one, &two, &other] {
        assert!(set.subsumes(set));
    }
    assert!(one.subsumes(&all));
    assert!(two.subsumes(&one));
    assert!(two.subsumes(&all));
    assert!(!all.subsumes(&one));
    assert!(!one.subsumes(&two));
    assert!(!one.subsumes(&other));
    assert!(!other.subsumes(&one));
    let same = all.apply_comparator(0, 1);
    assert!(one.subsumes(&same) && same.subsumes(&one));
    assert_eq!(one, same);
}

#[test]
fn subsumes_rejects_when_a_value_is_missing() {
    let all = OutputSet::all_values(3);
    let low = all.apply_comparator(0, 1);
    let high = all.apply_comparator(1, 0);
    assert_eq!(low.values(), &[0, 1, 3, 4, 5, 7]);
    assert_eq!(high.values(), &[0, 2, 3, 4, 6, 7]);
    assert!(!low.subsumes(&high));
    assert!(!high.subsumes(&low));
    let both = low.apply_comparator(1, 0);
    assert_eq!(both.values(), &[0, 2, 3, 4, 6, 7]);
    assert!(both.subsumes(&high));
}

#[test]
fn same_as_compares_channels_and_values() {
    let one = OutputSet::all_values(3).apply_comparator(0, 1);
    assert!(one.same_as(&OutputSet::all_values(3).apply_comparator(0, 1)));
    assert!(!one.same_as(&OutputSet::all_values(3).apply_comparator(1, 0)));
    assert!(!OutputSet::all_values(0).same_as(&OutputSet::all_values(1)));
}

#[test]
fn permutations_are_told_from_other_lists() {
    assert!(is_channel_permutation(&perm_of(&[2, 0, 1]), 3));
    assert!(is_channel_permutation(&perm_of(&[]), 0));
    assert!(!is_channel_permutation(&perm_of(&[2, 0, 2]), 3));
    assert!(!is_channel_permutation(&perm_of(&[0, 1, 3]), 3));
    assert!(!is_channel_permutation(&perm_of(&[0, 1]), 3));
    assert_eq!(&identity(4)[..], &[0, 1, 2, 3]);
}
