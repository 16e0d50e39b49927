use minhash_grouping::noise::NOISE_BOUND;
use minhash_grouping::score::{Fraction, Threshold};
use minhash_grouping::vectortree::{assign_to_group, VecNode, VecTree};
use minhash_grouping::writer::CsvWriter;
use minhash_grouping::record::Record;

fn row(id: i32, hash: Vec<u64>) -> VecNode {
    VecNode {
        id,
        idx: id + 100,
        data: format!("text{}", id),
        data_name: format!("label{}", id),
        hash,
        hash_comp_value: None,
    }
}

// Four slots: upper threshold three matches, lower threshold two.
fn grouping() -> VecTree {
    VecTree::new(
        4,
        Threshold { min_at_least: 3, min_above: 4 },
        Threshold { min_at_least: 2, min_above: 3 },
    )
}

fn add(tree: &mut VecTree, groups: &mut Vec<Vec<VecNode>>, mut r: VecNode) -> Option<(usize, Fraction)> {
    let placement = tree.place_node(&mut r, groups);
    assign_to_group(r, placement, groups);
    placement
}

#[test]
fn vec_tree_new_draws_bounded_noise() {
    let tree = grouping();
    assert_eq!(tree.num_hashes, 4);
    assert_eq!(tree.random_noise_multi.len(), 4);
    assert_eq!(tree.random_noise_add.len(), 4);
    assert!(tree.random_noise_multi.iter().chain(tree.random_noise_add.iter()).all(|v| *v < NOISE_BOUND));
}

#[test]
fn first_record_starts_a_group() {
    let mut tree = grouping();
    let mut groups: Vec<Vec<VecNode>> = vec![];
    let p = add(&mut tree, &mut groups, row(1, vec![1, 2, 3, 4]));
    assert_eq!(p, None);
    assert_eq!(groups.len(), 1);
    assert_eq!(groups[0][0].hash_comp_value, Some(Fraction { num: 1, den: 1 }));
}

#[test]
fn similar_record_joins_group_of_its_leader() {
    let mut tree = grouping();
    let mut groups: Vec<Vec<VecNode>> = vec![];
    add(&mut tree, &mut groups, row(1, vec![1, 2, 3, 4]));
    let p = add(&mut tree, &mut groups, row(2, vec![1, 2, 3, 0]));
    assert_eq!(p, Some((0, Fraction { num: 3, den: 4 })));
    let p = add(&mut tree, &mut groups, row(3, vec![7, 7, 7, 7]));
    assert_eq!(p, None);
    let sizes: Vec<usize> = groups.iter().map(|g| g.len()).collect();
    assert_eq!(sizes, vec![2, 1]);
    assert_eq!(groups[0][1].hash_comp_value, Some(Fraction { num: 3, den: 4 }));
}

#[test]
fn second_search_answers_member_index() {
    let mut tree = grouping();
    let mut groups: Vec<Vec<VecNode>> = vec![];
    add(&mut tree, &mut groups, row(1, vec![1, 2, 3, 4]));
    add(&mut tree, &mut groups, row(2, vec![1, 2, 3, 0]));
    add(&mut tree, &mut groups, row(3, vec![7, 7, 7, 7]));
    // Two matches with the leader of group 0, three with its record at position 1: the answer
    // is position 1, which names group 1.
    let p = add(&mut tree, &mut groups, row(4, vec![1, 2, 5, 0]));
    assert_eq!(p, Some((1, Fraction { num: 2, den: 4 })));
    let ids: Vec<Vec<i32>> = groups.iter().map(|g| g.iter().map(|r| r.id).collect()).collect();
    assert_eq!(ids, vec![vec![1, 2], vec![3, 4]]);
}

#[test]
fn place_node_leaves_inputs_alone() {
    let mut tree = grouping();
    let mut groups = vec![vec![row(1, vec![1, 2, 3, 4])]];
    let mut probe = row(2, vec![0, 0, 0, 0]);
    assert_eq!(tree.place_node(&mut probe, &mut groups), None);
    assert_eq!(probe.hash, vec![0, 0, 0, 0]);
    assert_eq!(groups.len(), 1);
}

#[test]
fn process_output_numbers_rows_by_group() {
    let mut tree = grouping();
    let mut groups: Vec<Vec<VecNode>> = vec![];
    add(&mut tree, &mut groups, row(1, vec![1, 2, 3, 4]));
    add(&mut tree, &mut groups, row(2, vec![1, 2, 3, 0]));
    add(&mut tree, &mut groups, row(3, vec![7, 7, 7, 7]));
    let out = tree.process_output(&mut groups);
    let rows: Vec<(i32, i32, Option<i32>)> = out.iter().map(|r| (r.id, r.idx, r.group)).collect();
    assert_eq!(rows, vec![(1, 101, Some(0)), (2, 102, Some(0)), (3, 103, Some(1))]);
    assert_eq!(out[1].data, "text2");
    assert_eq!(out[1].data_name, "label2");
    assert_eq!(out[2].hash_comp_value, Some(Fraction { num: 1, den: 1 }));
}

#[test]
fn get_hash_and_get_data() {
    let r = row(5, vec![3, 1]);
    assert_eq!(r.get_hash(), vec![3, 1]);
    let out = r.get_data(-2);
    assert_eq!((out.id, out.idx, out.group), (5, 105, Some(-2)));
}

#[test]
fn csv_writer_keeps_path() {
    let w = CsvWriter::new("out.csv".to_string());
    assert_eq!(w.output_file_path, "out.csv");
}

#[test]
fn record_holds_fields() {
    let r = Record { idx: 1, id: 2, str: "abc".to_string(), name: "n".to_string() };
    assert_eq!((r.idx, r.id, r.str.as_str(), r.name.as_str()), (1, 2, "abc", "n"));
}

#[test]
fn assigning_a_record_adds_one_output_row() {
    let mut tree = grouping();
    let mut groups: Vec<Vec<VecNode>> = vec![];
    add(&mut tree, &mut groups, row(1, vec![1, 2, 3, 4]));
    add(&mut tree, &mut groups, row(2, vec![5, 6, 7, 8]));
    let before = tree.process_output(&mut groups).len();
    add(&mut tree, &mut groups, row(3, vec![1, 2, 3, 9]));
    let after = tree.process_output(&mut groups);
    assert_eq!(after.len(), before + 1);
    assert_eq!(groups[0].len(), 2);
    assert_eq!(groups[0][0].id, 1);
    assert_eq!(groups[1][0].id, 2);
}
