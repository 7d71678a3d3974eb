use arrayvec::ArrayVec;
use sortnetopt::fixed_vec::CVec;
use sortnetopt::output_set::OutputSet;
use sortnetopt::subsume_index::{
    admit_pair, incremental_minimal_elements, merge_round, AbstractedPair, Node, SubsumeIndex,
    SubsumeIndexItem,
};

fn permutations_of(width: usize) -> Vec<Vec<usize>> {
    fn extend(width: usize, prefix: &mut Vec<usize>, out: &mut Vec<Vec<usize>>) {
        if prefix.len() == width {
            out.push(prefix.clone());
            return;
        }
        for next in 0..width {
            if !prefix.contains(&next) {
                prefix.push(next);
                extend(width, prefix, out);
                prefix.pop();
            }
        }
    }
    let mut out = vec![];
    extend(width, &mut vec![], &mut out);
    out
}

fn perm_of(entries: &[usize]) -> CVec<usize> {
    let mut perm = ArrayVec::new();
    for &entry in entries {
        perm.push(entry);
    }
    perm
}

fn permuted(set: &OutputSet, perm: &[usize]) -> OutputSet {
    let mut out = set.clone();
    out.permute_channels(perm_of(perm));
    out
}

fn subsumes_under_some_permutation(a: &OutputSet, b: &OutputSet) -> bool {
    permutations_of(a.channels())
        .iter()
        .any(|perm| a.subsumes(&permuted(b, perm)))
}

fn two_comparator_sets(width: usize) -> Vec<OutputSet> {
    let start = OutputSet::all_values(width);
    let mut sets = vec![start.clone()];
    for j in 0..width {
        for i in 0..j {
            let one = start.apply_comparator(i, j);
            for l in 0..width {
                for k in 0..l {
                    sets.push(one.apply_comparator(k, l));
                }
            }
            sets.push(one);
        }
    }
    sets
}

fn three_comparator_sets(channels: usize) -> Vec<OutputSet> {
    let all_values = OutputSet::all_values(channels);
    let mut some_outputs = vec![];
    for j in 0..channels {
        for i in 0..j {
            let tmp = all_values.apply_comparator(i, j);
            for j_2 in 0..channels {
                for i_2 in 0..j_2 {
                    let tmp_2 = tmp.apply_comparator(i_2, j_2);
                    for j_3 in 0..channels {
                        for i_3 in 0..j_3 {
                            let mut tmp_3 = tmp_2.apply_comparator(i_3, j_3);
                            tmp_3.order_channels_by_weight();
                            some_outputs.push(tmp_3);
                        }
                    }
                }
            }
        }
    }
    some_outputs
}

fn is_antichain(sets: &[OutputSet]) -> bool {
    for (i, a) in sets.iter().enumerate() {
        for (j, b) in sets.iter().enumerate() {
            if i != j && subsumes_under_some_permutation(a, b) {
                return false;
            }
        }
    }
    true
}

#[derive(Debug, PartialEq)]
struct Names(Vec<(usize, Vec<usize>)>);

impl SubsumeIndexItem for Names {
    fn combine(&mut self, perm: CVec<usize>, other: Self) {
        for (name, _) in other.0 {
            self.0.push((name, perm.to_vec()));
        }
    }
}

#[test]
fn the_tree_finds_a_subsuming_pair_exactly_if_there_is_one() {
    let sets = two_comparator_sets(4);
    for a in sets.iter() {
        let tree = Node::new(vec![AbstractedPair::new(a.clone(), ())]);
        for b in sets.iter() {
            let expected = subsumes_under_some_permutation(a, b);
            let found = tree.combine_with_subsuming(AbstractedPair::new(b.clone(), ()));
            assert_eq!(found.is_ok(), expected);
            if let Err(back) = found {
                assert_eq!(&back.output_set, b);
                assert_eq!(back.abstraction.values(), b.abstraction().values());
            }
        }
    }
}

#[test]
fn subsumption_under_permutation_on_five_channels() {
    let s = OutputSet::all_values(5).apply_comparator(0, 1);
    let shifted = permuted(&s, &[1, 2, 3, 4, 0]);
    assert_eq!(s.subsumes(&shifted), shifted.values().iter().all(|v| s.values().contains(v)));
    assert!(!s.subsumes(&shifted));
    let tree = Node::new(vec![AbstractedPair::new(s.clone(), ())]);
    for perm in permutations_of(5) {
        let query = permuted(&s, &perm);
        let direct = permutations_of(5)
            .iter()
            .any(|back| s.subsumes(&permuted(&query, back)));
        assert!(direct);
        assert!(tree.combine_with_subsuming(AbstractedPair::new(query, ())).is_ok());
    }
    let other = OutputSet::all_values(5).apply_comparator(0, 1).apply_comparator(2, 3);
    assert!(!subsumes_under_some_permutation(&s, &other));
    assert!(tree.combine_with_subsuming(AbstractedPair::new(other.clone(), ())).is_err());
    let smaller = Node::new(vec![AbstractedPair::new(other, ())]);
    assert!(smaller.combine_with_subsuming(AbstractedPair::new(s, ())).is_ok());
}

#[test]
fn the_permutation_handed_to_combine_is_the_one_found() {
    let kept = OutputSet::all_values(4).apply_comparator(0, 1).apply_comparator(1, 2);
    for perm in permutations_of(4) {
        let query = permuted(&kept, &perm);
        let tree = Node::new(vec![AbstractedPair::new(kept.clone(), Names(vec![]))]);
        let found = tree.combine_with_subsuming(AbstractedPair::new(
            query.clone(),
            Names(vec![(7, vec![])]),
        ));
        assert!(found.is_ok());
        let pairs = tree.minimal_elements();
        assert_eq!(pairs.len(), 1);
        assert_eq!(pairs[0].item.0.len(), 1);
        let (name, used) = &pairs[0].item.0[0];
        assert_eq!(*name, 7);
        assert!(kept.subsumes(&permuted(&query, used)));
    }
}

#[test]
fn a_tree_holds_the_sets_it_was_built_from() {
    let mut sets = two_comparator_sets(3);
    sets.sort();
    sets.dedup();
    let tree = Node::new(
        sets.iter().enumerate().map(|(name, set)| AbstractedPair::new(set.clone(), name)).collect(),
    );
    assert_eq!(tree.len(), sets.len());
    let mut iter = tree.into_iter();
    let mut seen = vec![];
    while let Some(pair) = iter.next() {
        assert_eq!(&sets[pair.item], &pair.output_set);
        assert_eq!(pair.abstraction.values(), pair.output_set.abstraction().values());
        seen.push(pair.output_set);
    }
    seen.sort();
    assert_eq!(seen, sets);
}

#[test]
fn equal_sets_at_the_end_are_combined() {
    let one = OutputSet::all_values(3).apply_comparator(0, 1);
    let other = OutputSet::all_values(3).apply_comparator(1, 2);
    let pairs = vec![
        AbstractedPair::new(other.clone(), 1usize),
        AbstractedPair::new(one.clone(), 2),
        AbstractedPair::new(one.clone(), 4),
        AbstractedPair::new(one.clone(), 8),
    ];
    let tree = Node::new(pairs);
    assert_eq!(tree.len(), 2);
    let mut pairs = tree.into_pairs_in_order();
    pairs.sort_by_key(|pair| pair.item);
    assert_eq!(pairs[0].item, 1);
    assert_eq!(pairs[0].output_set, other);
    assert_eq!(pairs[1].item, 14);
    assert_eq!(pairs[1].output_set, one);
}

#[test]
fn the_halves_of_a_tree_are_split_by_the_count_that_varies_most() {
    let one = OutputSet::all_values(4).apply_comparator(0, 1);
    let other = OutputSet::all_values(4).apply_comparator(0, 1).apply_comparator(2, 3);
    let mut low = one.abstraction();
    low.update_min(&other.abstraction());
    let mut high = one.abstraction();
    high.update_max(&other.abstraction());
    let at = low.largest_range(&high).unwrap();
    assert!(one.abstraction().values()[at] > other.abstraction().values()[at]);
    for pairs in [
        vec![AbstractedPair::new(one.clone(), ()), AbstractedPair::new(other.clone(), ())],
        vec![AbstractedPair::new(other.clone(), ()), AbstractedPair::new(one.clone(), ())],
    ] {
        let (left, right) = Node::new(pairs).split();
        let left = left.into_pairs_in_order();
        let right = right.unwrap().into_pairs_in_order();
        assert_eq!(left.len(), 1);
        assert_eq!(right.len(), 1);
        assert_eq!(left[0].output_set, other);
        assert_eq!(right[0].output_set, one);
    }
    let (leaf, none) = Node::new(vec![AbstractedPair::new(one.clone(), ())]).split();
    assert!(none.is_none());
    assert_eq!(leaf.len(), 1);
}

#[test]
fn the_pairs_of_a_tree_come_from_right_to_left() {
    let sets = [
        OutputSet::all_values(3),
        OutputSet::all_values(3).apply_comparator(0, 1),
        OutputSet::all_values(3).apply_comparator(0, 1).apply_comparator(1, 2),
    ];
    let tree = Node::new(sets.iter().map(|set| AbstractedPair::new(set.clone(), ())).collect());
    let other = Node::new(sets.iter().map(|set| AbstractedPair::new(set.clone(), ())).collect());
    let mut in_order = other.into_pairs_in_order();
    in_order.reverse();
    let mut iter = tree.into_iter();
    for expected in in_order {
        assert_eq!(iter.next().unwrap().output_set, expected.output_set);
    }
    assert!(iter.next().is_none());
    assert!(iter.next().is_none());
}

#[test]
fn minimal_elements_are_an_antichain_that_covers_the_tree() {
    for width in 2..=4usize {
        let sets = two_comparator_sets(width);
        let tree =
            Node::new(sets.iter().map(|set| AbstractedPair::new(set.clone(), 1usize)).collect());
        let minimal = tree.minimal_elements();
        let kept: Vec<OutputSet> = minimal.iter().map(|pair| pair.output_set.clone()).collect();
        assert!(is_antichain(&kept));
        for set in sets.iter() {
            assert!(kept.iter().any(|k| subsumes_under_some_permutation(k, set)));
        }
        for k in kept.iter() {
            assert!(sets.contains(k));
        }
        let paths: usize = minimal.iter().map(|pair| pair.item).sum();
        assert_eq!(paths, sets.len());
    }
}

#[test]
fn the_index_keeps_an_antichain() {
    let sets = two_comparator_sets(4);
    let mut index = SubsumeIndex::<usize>::default();
    assert!(index.is_empty());
    assert_eq!(index.len(), 0);
    for (count, set) in sets.iter().enumerate() {
        index.insert(AbstractedPair::new(set.clone(), 1));
        assert!(!index.is_empty());
        assert!(index.len() <= count + 1);
    }
    index.subsume_all();
    let mut kept = vec![];
    let mut paths = 0;
    let len = index.len();
    index.drain_using(|pair| {
        paths += pair.item;
        kept.push(pair.output_set);
    });
    assert_eq!(kept.len(), len);
    assert_eq!(paths, sets.len());
    assert!(is_antichain(&kept));
    for set in sets.iter() {
        assert!(kept.iter().any(|k| subsumes_under_some_permutation(k, set)));
    }
}

#[test]
fn the_order_of_insertion_does_not_change_the_number_kept() {
    let sets = three_comparator_sets(4);
    let mut sizes = vec![];
    for turn in 0..4 {
        let mut order = sets.clone();
        match turn {
            1 => order.reverse(),
            2 => order.sort(),
            3 => order.rotate_left(sets.len() / 3),
            _ => {}
        }
        let mut index = SubsumeIndex::<usize>::default();
        for set in order {
            index.insert(AbstractedPair::new(set, 1));
        }
        index.subsume_all();
        let pairs = index.into_pairs();
        let paths: usize = pairs.iter().map(|pair| pair.item).sum();
        assert_eq!(paths, sets.len());
        sizes.push(pairs.len());
    }
    assert_eq!(sizes, vec![4, 4, 4, 4]);
}

#[test]
fn an_index_that_holds_the_set_keeps_it_once() {
    let mut index = SubsumeIndex::<usize>::default();
    let set = OutputSet::all_values(3).apply_comparator(0, 2);
    index.insert(AbstractedPair::new(set.clone(), 3));
    index.insert(AbstractedPair::new(set.clone(), 4));
    let mut moved = set.clone();
    moved.swap_channels(0, 1);
    index.insert(AbstractedPair::new(moved, 5));
    assert_eq!(index.len(), 1);
    let pairs = index.into_pairs();
    assert_eq!(pairs[0].item, 12);
    assert_eq!(pairs[0].output_set, set);
}

#[test]
fn the_driver_agrees_with_the_tree_and_the_index() {
    for (i, &expected) in [1usize, 4, 6].iter().enumerate() {
        let width = i + 3;
        let sets = three_comparator_sets(width);
        let given = sets.len();
        let minimal = incremental_minimal_elements(sets, |set: OutputSet| {
            vec![AbstractedPair::new(set, 1usize)]
        });
        assert_eq!(minimal.len(), expected);
        let paths: usize = minimal.iter().map(|pair| pair.item).sum();
        assert_eq!(paths, given);
        let kept: Vec<OutputSet> = minimal.iter().map(|pair| pair.output_set.clone()).collect();
        assert!(is_antichain(&kept));
        let mut index = SubsumeIndex::<usize>::default();
        for pair in minimal {
            index.insert(pair);
        }
        index.subsume_all();
        assert_eq!(index.len(), expected);
    }
}

#[test]
fn the_driver_takes_more_pairs_than_fit_in_a_round() {
    let inputs: Vec<usize> = (0..3).collect();
    let mut sets = three_comparator_sets(5);
    sets.extend(two_comparator_sets(5));
    let minimal = incremental_minimal_elements(inputs, |_| {
        sets.iter().map(|set| AbstractedPair::new(set.clone(), 1usize)).collect()
    });
    assert_eq!(minimal.len(), 6);
    let paths: usize = minimal.iter().map(|pair| pair.item).sum();
    assert_eq!(paths, 3 * sets.len());
    assert!(sets.len() > 1024);
}

#[test]
fn the_driver_returns_nothing_for_nothing() {
    let none: Vec<AbstractedPair<()>> =
        incremental_minimal_elements(Vec::<OutputSet>::new(), |_| vec![]);
    assert!(none.is_empty());
    let still_none: Vec<AbstractedPair<()>> =
        incremental_minimal_elements(vec![1, 2, 3], |_: usize| vec![]);
    assert!(still_none.is_empty());
}

#[test]
fn one_layer_from_all_values_of_four_channels() {
    let start = vec![OutputSet::all_values(4)];
    let layer = incremental_minimal_elements(start, |output_set: OutputSet| {
        let mut next = vec![];
        for j in 0..4 {
            for i in 0..j {
                let mut set = output_set.apply_comparator(i, j);
                set.order_channels_by_weight();
                next.push(AbstractedPair::new(set, ()));
            }
        }
        next
    });
    let mut index = SubsumeIndex::<()>::default();
    for pair in layer {
        index.insert(pair);
    }
    index.subsume_all();
    assert_eq!(index.len(), 1);
}

#[test]
fn a_round_is_taken_into_the_accepted_pairs() {
    let one = OutputSet::all_values(3).apply_comparator(0, 1);
    let two = one.apply_comparator(1, 2);
    let none: Option<Node<usize>> = None;
    let admitted = admit_pair(&none, AbstractedPair::new(one.clone(), 1));
    let first = merge_round(None, vec![admitted.unwrap_err()]);
    assert_eq!(first.len(), 1);
    let accepted = Some(first);
    assert!(admit_pair(&accepted, AbstractedPair::new(one.clone(), 2)).is_ok());
    let back = admit_pair(&accepted, AbstractedPair::new(two.clone(), 4)).unwrap_err();
    assert_eq!(back.item, 4);
    assert_eq!(back.output_set, two);
    let second = merge_round(accepted, vec![back]);
    let pairs = second.into_pairs_in_order();
    assert_eq!(pairs.len(), 1);
    assert_eq!(pairs[0].output_set, two);
    assert_eq!(pairs[0].item, 7);
}

#[test]
fn counters_add_up() {
    let mut count = 3usize;
    count.combine(ArrayVec::new(), 4);
    assert_eq!(count, 7);
    let mut most = usize::MAX;
    most.combine(ArrayVec::new(), 2);
    assert_eq!(most, 1);
    ().combine(ArrayVec::new(), ());
}
