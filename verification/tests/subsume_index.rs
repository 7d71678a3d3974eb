use sortnetopt::output_set::OutputSet;
use sortnetopt::subsume_index::{
    incremental_minimal_elements, AbstractedPair, Node, SubsumeIndex,
};

fn gen_some_output_sets(channels: usize) -> Vec<OutputSet> {
    let all_values = OutputSet::all_values(channels);

    let mut some_outputs = vec![];

    for j in 0..channels {
        for i in 0..j {
            let tmp = all_values.apply_comparator(i, j);
            for j_2 in 0..channels {
                for i_2 in 0..j_2 {
                    let tmp_2 = tmp.apply_comparator(i_2, j_2);
                    for j_3 in 0..channels {
                        for i_3 in 0..j_3 {
                            let mut tmp_3 = tmp_2.apply_comparator(i_3, j_3);
                            tmp_3.order_channels_by_weight();
                            some_outputs.push(tmp_3);
                        }
                    }
                }
            }
        }
    }

    some_outputs
}

#[test]
fn build_index() {
    for (i, &expected) in [1, 4, 6, 7, 7, 7].iter().enumerate() {
        let some_output_sets = gen_some_output_sets(i + 3);

        let abstracted_pairs = some_output_sets
            .into_iter()
            .map(|output_set| AbstractedPair::new(output_set, 1))
            .collect();

        let minimal = Node::new(abstracted_pairs).minimal_elements();

        assert_eq!(minimal.len(), expected);
    }
}

#[test]
fn index_insert_then_subsume_all_gives_the_same_counts() {
    for (i, &expected) in [1usize, 4, 6, 7].iter().enumerate() {
        let mut index = SubsumeIndex::<usize>::default();
        let mut given = 0;
        for output_set in gen_some_output_sets(i + 3) {
            index.insert(AbstractedPair::new(output_set, 1));
            given += 1;
        }
        index.subsume_all();
        assert_eq!(index.len(), expected);
        let pairs = index.into_pairs();
        assert_eq!(pairs.len(), expected);
        let paths: usize = pairs.iter().map(|pair| pair.item).sum();
        assert_eq!(paths, given);
    }
}

#[test]
fn driver_one_layer() {
    let start = vec![OutputSet::all_values(4)];
    let layer = incremental_minimal_elements(start, |output_set: OutputSet| {
        let mut next = vec![];
        for j in 0..4 {
            for i in 0..j {
                let mut set = output_set.apply_comparator(i, j);
                set.order_channels_by_weight();
                next.push(AbstractedPair::new(set, ()));
            }
        }
        next
    });
    assert_eq!(layer.len(), 1);
}
