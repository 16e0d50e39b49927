use minhash_grouping::noise::NOISE_BOUND;
use minhash_grouping::score::{Fraction, Threshold};
use minhash_grouping::tree::{Branch, Tree, TreeNode};

fn leaf(id: i32, hash: Vec<u64>) -> Box<TreeNode> {
    Box::new(TreeNode {
        id,
        idx: id * 10,
        data: format!("data{}", id),
        data_name: format!("name{}", id),
        hash,
        hash_comp_value: None,
        is_parent: false,
        left_hash_node: None,
        right_hash_node: None,
    })
}

// With four slots: similarity at least one half means at least two matches; at most 0.3
// means fewer than two.
fn upper() -> Threshold {
    Threshold { min_at_least: 2, min_above: 3 }
}

fn lower() -> Threshold {
    Threshold { min_at_least: 2, min_above: 2 }
}

fn sample_tree() -> Tree {
    let mut tree = Tree::new(4, 25, upper(), lower());
    tree.place_node(leaf(1, vec![1, 2, 3, 4]));
    tree.place_node(leaf(2, vec![1, 2, 0, 0]));
    tree.place_node(leaf(3, vec![9, 9, 9, 9]));
    tree.place_node(leaf(4, vec![9, 9, 1, 1]));
    tree
}

#[test]
fn tree_new_draws_bounded_noise() {
    let tree = Tree::new(7, 25, upper(), lower());
    assert!(tree.node.is_none());
    assert_eq!(tree.num_hashes, 7);
    assert_eq!(tree.num_buckets, 25);
    assert_eq!(tree.group_iter_counter, 0);
    assert_eq!(tree.random_noise_multi.len(), 7);
    assert_eq!(tree.random_noise_add.len(), 7);
    assert!(tree.random_noise_multi.iter().all(|v| *v < NOISE_BOUND));
    assert!(tree.random_noise_add.iter().all(|v| *v < NOISE_BOUND));
    let again = Tree::new(7, 25, upper(), lower());
    assert_eq!(tree.random_noise_multi, again.random_noise_multi);
    assert_eq!(tree.random_noise_add, again.random_noise_add);
}

#[test]
fn first_record_becomes_root_unmarked() {
    let mut tree = Tree::new(4, 25, upper(), lower());
    tree.place_node(leaf(1, vec![1, 2, 3, 4]));
    let root = tree.node.as_ref().unwrap();
    assert_eq!(root.id, 1);
    assert!(!root.is_parent);
    assert_eq!(root.hash_comp_value, None);
}

#[test]
fn similar_record_joins_left_chain() {
    let tree = sample_tree();
    let root = tree.node.as_ref().unwrap();
    assert!(root.is_parent);
    assert_eq!(root.hash_comp_value, Some(Fraction { num: 1, den: 1 }));
    let member = root.left_hash_node.as_ref().unwrap();
    assert_eq!(member.id, 2);
    assert_eq!(member.hash_comp_value, Some(Fraction { num: 2, den: 4 }));
    assert!(!member.is_parent);
    let second = root.right_hash_node.as_ref().unwrap();
    assert_eq!(second.id, 3);
    assert!(second.is_parent);
    assert_eq!(second.hash_comp_value, Some(Fraction { num: 1, den: 1 }));
    let second_member = second.left_hash_node.as_ref().unwrap();
    assert_eq!(second_member.id, 4);
    assert_eq!(second_member.hash_comp_value, Some(Fraction { num: 2, den: 4 }));
    assert!(second.right_hash_node.is_none());
}

#[test]
fn process_output_lists_groups_last_first() {
    let mut tree = sample_tree();
    tree.group_iter_counter = 5;
    let out = tree.proccess_output();
    assert_eq!(tree.group_iter_counter, 0);
    assert_eq!(out.len(), 2);
    let ids: Vec<Vec<(i32, Option<i32>)>> =
        out.iter().map(|g| g.iter().map(|r| (r.id, r.group)).collect()).collect();
    assert_eq!(ids, vec![vec![(3, Some(1)), (4, Some(1))], vec![(1, Some(0)), (2, Some(0))]]);
    assert_eq!(out[1][1].data, "data2");
    assert_eq!(out[1][1].data_name, "name2");
    assert_eq!(out[1][1].idx, 20);
    assert_eq!(out[1][1].hash_comp_value, Some(Fraction { num: 2, den: 4 }));
}

#[test]
fn process_output_of_lone_root_is_empty_group() {
    let mut tree = Tree::new(4, 25, upper(), lower());
    tree.place_node(leaf(1, vec![1, 2, 3, 4]));
    let out = tree.proccess_output();
    assert_eq!(out.len(), 1);
    assert!(out[0].is_empty());
}

#[test]
fn print_lines_in_preorder() {
    let tree = sample_tree();
    let lines = tree.node.as_ref().unwrap().print_lines();
    let shape: Vec<(Branch, i32)> = lines.iter().map(|l| (l.branch, l.id)).collect();
    assert_eq!(
        shape,
        vec![(Branch::Root, 1), (Branch::Left, 2), (Branch::Right, 3), (Branch::Left, 4)]
    );
    assert_eq!(lines[1].idx, 20);
    assert_eq!(lines[1].hash_comp_value, Some(Fraction { num: 2, den: 4 }));
}

#[test]
fn check_left_path_never_accepts() {
    let mut tree = sample_tree();
    let probe = leaf(9, vec![1, 2, 3, 4]);
    let root = tree.node.as_mut().unwrap();
    assert!(!root.check_left_path(&probe, upper(), 4));
}

#[test]
fn dissimilar_record_below_lower_threshold_goes_right() {
    let mut node = leaf(1, vec![1, 2, 3, 4]);
    node.descend_to_children(leaf(2, vec![1, 0, 0, 0]), upper(), lower(), 4);
    assert!(node.left_hash_node.is_none());
    let right = node.right_hash_node.as_ref().unwrap();
    assert_eq!(right.id, 2);
    assert!(right.is_parent);
}

#[test]
fn between_thresholds_goes_right() {
    // Similarity two of four reaches the lower threshold of one quarter but not the upper one
    // of three quarters.
    let upper = Threshold { min_at_least: 3, min_above: 4 };
    let lower = Threshold { min_at_least: 1, min_above: 2 };
    let mut node = leaf(1, vec![1, 2, 3, 4]);
    node.accelerate_to_child(leaf(5, vec![0, 0, 0, 0]), Fraction { num: 3, den: 4 });
    node.descend_to_children(leaf(2, vec![1, 2, 0, 0]), upper, lower, 4);
    assert_eq!(node.left_hash_node.as_ref().unwrap().id, 5);
    assert!(node.left_hash_node.as_ref().unwrap().left_hash_node.is_none());
    assert_eq!(node.right_hash_node.as_ref().unwrap().id, 2);
}

#[test]
fn accelerate_appends_at_chain_bottom() {
    let mut node = leaf(1, vec![1]);
    node.accelerate_to_child(leaf(2, vec![1]), Fraction { num: 1, den: 1 });
    node.accelerate_to_child(leaf(3, vec![1]), Fraction { num: 0, den: 1 });
    let a = node.left_hash_node.as_ref().unwrap();
    let b = a.left_hash_node.as_ref().unwrap();
    assert_eq!((a.id, b.id), (2, 3));
    assert_eq!(b.hash_comp_value, Some(Fraction { num: 0, den: 1 }));
}

#[test]
fn make_parent_and_set_comp_value() {
    let mut node = leaf(1, vec![]);
    node.set_comp_value(Fraction { num: 3, den: 7 });
    assert_eq!(node.hash_comp_value, Some(Fraction { num: 3, den: 7 }));
    node.make_parent();
    assert!(node.is_parent);
    assert_eq!(node.hash_comp_value, Some(Fraction { num: 1, den: 1 }));
    let row = node.get_data(4);
    assert_eq!((row.id, row.idx, row.group), (1, 10, Some(4)));
}

#[test]
fn move_child_right_appends_new_leader_at_spine_bottom() {
    let mut node = leaf(1, vec![1, 2, 3, 4]);
    node.move_child_right(leaf(2, vec![5, 5, 5, 5]), upper(), lower(), 4);
    node.move_child_right(leaf(3, vec![6, 6, 6, 6]), upper(), lower(), 4);
    let second = node.right_hash_node.as_ref().unwrap();
    assert_eq!(second.id, 2);
    assert_eq!(second.right_hash_node.as_ref().unwrap().id, 3);
    assert!(second.right_hash_node.as_ref().unwrap().is_parent);
}

#[test]
fn grown_tree_keeps_its_shape() {
    let tree = sample_tree();
    let mut leader = tree.node.as_ref();
    let mut depth = 0;
    while let Some(l) = leader {
        assert!(l.is_parent);
        assert_eq!(l.hash_comp_value, Some(Fraction { num: 1, den: 1 }));
        let mut member = l.left_hash_node.as_ref();
        while let Some(m) = member {
            assert!(m.right_hash_node.is_none());
            assert!(!m.is_parent);
            member = m.left_hash_node.as_ref();
        }
        leader = l.right_hash_node.as_ref();
        depth += 1;
    }
    assert_eq!(depth, 2);
}
