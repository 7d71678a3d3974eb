use sortnetopt::layer::{expand, place_of, prune, successor_by, Place};
use sortnetopt::output_set::OutputSet;

fn one_carries_wherever_the_other_does(set: &OutputSet, i: usize, j: usize) -> bool {
    let up = set.values().iter().all(|&v| (v >> i) & 1 <= (v >> j) & 1);
    let down = set.values().iter().all(|&v| (v >> j) & 1 <= (v >> i) & 1);
    up || down
}

fn subsumes_under_some_permutation(a: &OutputSet, b: &OutputSet) -> bool {
    fn extend(a: &OutputSet, b: &OutputSet, prefix: &mut Vec<usize>) -> bool {
        if prefix.len() == a.channels() {
            let mut moved = b.clone();
            moved.permute_channels(prefix.iter().cloned().collect());
            return a.subsumes(&moved);
        }
        for next in 0..a.channels() {
            if !prefix.contains(&next) {
                prefix.push(next);
                let found = extend(a, b, prefix);
                prefix.pop();
                if found {
                    return true;
                }
            }
        }
        false
    }
    extend(a, b, &mut vec![])
}

fn expand_by_hand(set: &OutputSet) -> Vec<OutputSet> {
    let mut next = vec![];
    for j in 0..set.channels() {
        for i in 0..j {
            if one_carries_wherever_the_other_does(set, i, j) {
                continue;
            }
            let mut successor = set.apply_comparator(i, j);
            successor.order_channels_by_weight();
            next.push(successor);
        }
    }
    next.sort_unstable();
    next.dedup();
    next
}

#[test]
fn implications_tell_which_channel_carries_a_one_wherever_another_does() {
    let set = OutputSet::all_values(3).apply_comparator(0, 1);
    let implications = set.implications();
    assert!(implications.is_associated(0, 1));
    assert!(implications.is_associated(1, 0));
    assert!(!implications.is_associated(0, 2));
    assert!(!implications.is_associated(2, 1));
    assert!(implications.is_associated(2, 2));
    let all = OutputSet::all_values(4).implications();
    for i in 0..4 {
        for j in 0..4 {
            assert_eq!(all.is_associated(i, j), i == j);
        }
    }
}

#[test]
fn implications_agree_with_looking_at_every_value() {
    let mut set = OutputSet::all_values(6);
    for (a, b) in [(0, 1), (2, 3), (4, 5), (0, 2), (1, 3), (3, 5), (1, 2)] {
        set = set.apply_comparator(a, b);
        let implications = set.implications();
        for i in 0..6 {
            for j in 0..6 {
                assert_eq!(
                    implications.is_associated(i, j),
                    one_carries_wherever_the_other_does(&set, i, j)
                );
                if i != j && set.values().iter().all(|&v| (v >> j) & 1 <= (v >> i) & 1) {
                    assert_eq!(set.apply_comparator(i, j), set);
                }
            }
        }
    }
}

#[test]
fn sequences_are_put_in_order_by_their_first_difference() {
    assert_eq!(place_of(&[0, 1, 3], &[0, 2, 3]), Place::Before);
    assert_eq!(place_of(&[0, 2, 3], &[0, 1, 3]), Place::After);
    assert_eq!(place_of(&[0, 1, 3], &[0, 1, 3]), Place::Same);
    assert_eq!(place_of(&[0, 1], &[0, 1, 3]), Place::Before);
    assert_eq!(place_of(&[0, 1, 3], &[0, 1]), Place::After);
    assert_eq!(place_of(&[], &[]), Place::Same);
    assert_eq!(place_of(&[], &[0]), Place::Before);
    assert_eq!(place_of(&[5], &[0, 9]), Place::After);
}

#[test]
fn a_successor_is_the_comparator_and_then_the_order_of_weight() {
    let start = OutputSet::all_values(3);
    let successor = successor_by(&start, 1, 2);
    let mut by_hand = start.apply_comparator(1, 2);
    by_hand.order_channels_by_weight();
    assert_eq!(successor, by_hand);
    assert_eq!(successor.values(), &[0, 1, 2, 3, 5, 7]);
}

#[test]
fn one_comparator_leads_from_all_values_to_one_set() {
    for width in 2..=6usize {
        let next = expand(&OutputSet::all_values(width));
        assert_eq!(next.len(), 1);
        assert_eq!(next[0].values().len(), (1 << width) / 4 * 3);
    }
    assert!(expand(&OutputSet::all_values(0)).is_empty());
    assert!(expand(&OutputSet::all_values(1)).is_empty());
}

#[test]
fn expand_gives_the_successors_in_order_and_each_once() {
    let mut layer = vec![OutputSet::all_values(5)];
    for _ in 0..3 {
        let mut next_layer = vec![];
        for set in layer.iter() {
            let next = expand(set);
            assert_eq!(next, expand_by_hand(set));
            assert!(next.windows(2).all(|pair| pair[0] < pair[1]));
            next_layer.extend(next);
        }
        next_layer.sort_unstable();
        next_layer.dedup();
        layer = next_layer;
    }
    assert!(layer.len() > 1);
}

#[test]
fn expand_leaves_out_comparators_that_only_rename() {
    let sorted = OutputSet::all_values(3)
        .apply_comparator(0, 1)
        .apply_comparator(1, 2)
        .apply_comparator(0, 1);
    assert!(sorted.is_sorted());
    assert!(expand(&sorted).is_empty());
}

#[test]
fn prune_keeps_an_antichain() {
    let mut layer = vec![OutputSet::all_values(4)];
    let mut sizes = vec![];
    for _ in 0..4 {
        let mut next_layer = vec![];
        for set in layer.iter() {
            next_layer.extend(expand(set));
        }
        let given = next_layer.clone();
        layer = prune(next_layer);
        for kept in layer.iter() {
            assert!(given.contains(kept));
        }
        for (i, a) in layer.iter().enumerate() {
            for (j, b) in layer.iter().enumerate() {
                assert_eq!(subsumes_under_some_permutation(a, b), i == j);
            }
        }
        for set in given.iter() {
            assert!(layer.iter().any(|kept| subsumes_under_some_permutation(kept, set)));
        }
        sizes.push(layer.len());
    }
    assert_eq!(sizes, vec![1, 3, 4, 2]);
    assert!(prune(vec![]).is_empty());
}
