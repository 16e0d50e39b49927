//! A grouping tree: the right spine holds one leader per group, and the left chain below a
//! leader holds the records that joined its group, in the order they came.
use vstd::prelude::*;
use crate::hash::{compare_hash, matching_slots, lemma_matching_slots_bounded};
use crate::noise::seeded_noise;
use crate::score::{Fraction, Threshold, reaches, stays_within};

verus! {

/// A record in the tree. `hash` is the MinHash signature of the record's shingles.
pub struct TreeNode {
    pub id: i32,
    pub idx: i32,
    pub data: String,
    pub data_name: String,
    pub hash: Vec<u64>,
    pub hash_comp_value: Option<Fraction>,
    pub is_parent: bool,
    pub left_hash_node: Option<Box<TreeNode>>,
    pub right_hash_node: Option<Box<TreeNode>>,
}

/// One output row: a record and the number of the group it was placed in.
pub struct OutputStore {
    pub id: i32,
    pub idx: i32,
    pub data: String,
    pub data_name: String,
    pub hash_comp_value: Option<Fraction>,
    pub group: Option<i32>,
}

/// The node with both children removed.
pub open spec fn bare(n: TreeNode) -> TreeNode {
    TreeNode { left_hash_node: None, right_hash_node: None, ..n }
}

/// The node with its left child removed.
pub open spec fn without_left(n: TreeNode) -> TreeNode {
    TreeNode { left_hash_node: None, ..n }
}

/// The node marked as the leader of a group.
pub open spec fn made_parent(n: TreeNode) -> TreeNode {
    TreeNode { is_parent: true, hash_comp_value: Some(Fraction::spec_one()), ..n }
}

/// The node with the given similarity value.
pub open spec fn with_comp_value(n: TreeNode, comp_value: Fraction) -> TreeNode {
    TreeNode { hash_comp_value: Some(comp_value), ..n }
}

/// The nodes of a left chain, from the top down, each without its left child.
pub open spec fn left_chain(link: Option<Box<TreeNode>>) -> Seq<TreeNode>
    decreases link,
{
    match link {
        None => seq![],
        Some(n) => seq![without_left(*n)] + left_chain(n.left_hash_node),
    }
}

/// The group that `n` leads: `n` itself, then its left chain.
pub open spec fn members(n: TreeNode) -> Seq<TreeNode> {
    seq![bare(n)] + left_chain(n.left_hash_node)
}

/// The groups of the right spine that starts at `n`, from `n` down.
pub open spec fn groups(n: TreeNode) -> Seq<Seq<TreeNode>>
    decreases n,
{
    seq![members(n)] + groups_below(n.right_hash_node)
}

/// The groups of the right spine that starts at `link`, if any.
pub open spec fn groups_below(link: Option<Box<TreeNode>>) -> Seq<Seq<TreeNode>>
    decreases link,
{
    match link {
        None => seq![],
        Some(n) => groups(*n),
    }
}

/// A record joins the group of a leader when their similarity is neither at most the lower
/// threshold nor below the upper one.
pub open spec fn joins(leader_hash: Seq<u64>, hash: Seq<u64>, upper: Threshold, lower: Threshold) -> bool {
    let matching = matching_slots(leader_hash, hash) as int;
    !stays_within(matching, lower) && reaches(matching, upper)
}

/// Index of the first group whose leader the record joins, or the number of groups.
pub open spec fn first_joinable(
    g: Seq<Seq<TreeNode>>,
    hash: Seq<u64>,
    upper: Threshold,
    lower: Threshold,
) -> nat
    decreases g.len(),
{
    if g.len() == 0 {
        0
    } else if joins(g[0][0].hash@, hash, upper, lower) {
        0
    } else {
        1 + first_joinable(g.drop_first(), hash, upper, lower)
    }
}

/// The similarity of a record to a leader, over `num_hashes` slots.
pub open spec fn similarity(leader_hash: Seq<u64>, hash: Seq<u64>, num_hashes: usize) -> Fraction {
    Fraction { num: matching_slots(leader_hash, hash) as usize, den: num_hashes }
}

/// The groups after placing `input`: it goes, with its left chain, to the end of the first
/// group whose leader it joins, taking its similarity to that leader; if there is none, it
/// leads a new last group.
pub open spec fn placed(
    g: Seq<Seq<TreeNode>>,
    input: TreeNode,
    upper: Threshold,
    lower: Threshold,
    num_hashes: usize,
) -> Seq<Seq<TreeNode>> {
    let k = first_joinable(g, input.hash@, upper, lower);
    if k < g.len() {
        g.update(
            k as int,
            g[k as int] + left_chain(
                Some(Box::new(with_comp_value(input, similarity(g[k as int][0].hash@, input.hash@, num_hashes)))),
            ),
        )
    } else {
        g + groups(made_parent(input))
    }
}

/// The output row of a record in group `group`.
pub open spec fn output_of(n: TreeNode, group: i32) -> OutputStore {
    OutputStore {
        id: n.id,
        idx: n.idx,
        data: n.data,
        data_name: n.data_name,
        hash_comp_value: n.hash_comp_value,
        group: Some(group),
    }
}

/// The output rows of a left chain, all in group `group`.
pub open spec fn chain_output(chain: Seq<TreeNode>, group: i32) -> Seq<OutputStore> {
    chain.map_values(|m: TreeNode| output_of(m, group))
}

/// The rows of one group, numbered `group`: its records in order when its leader is marked
/// as a parent, and no rows otherwise.
pub open spec fn group_output(m: Seq<TreeNode>, group: i32) -> Seq<OutputStore> {
    if m[0].is_parent {
        chain_output(m, group)
    } else {
        seq![]
    }
}

/// The rows of the groups `g`, numbered from `first` down the spine and listed from the last
/// group back to the first.
pub open spec fn tree_output(g: Seq<Seq<TreeNode>>, first: int) -> Seq<Seq<OutputStore>>
    decreases g.len(),
{
    if g.len() == 0 {
        seq![]
    } else {
        tree_output(g.drop_first(), first + 1) + seq![group_output(g[0], first as i32)]
    }
}

/// The contents of a vector of row vectors.
pub open spec fn nested_rows(v: Seq<Vec<OutputStore>>) -> Seq<Seq<OutputStore>> {
    v.map_values(|rows: Vec<OutputStore>| rows@)
}

/// Where a line of the printed tree hangs from its parent.
#[derive(Clone, Copy, Debug, PartialEq, Eq, Structural)]
pub enum Branch {
    Root,
    Left,
    Right,
}

/// One line of the printed tree: a record's id, index and similarity, and where it hangs.
pub struct PrintLine {
    pub branch: Branch,
    pub id: i32,
    pub idx: i32,
    pub hash_comp_value: Option<Fraction>,
}

/// The lines of the printed subtree `n` in preorder: `n`, its left subtree, its right subtree.
pub open spec fn print_layout(n: TreeNode, branch: Branch) -> Seq<PrintLine>
    decreases n,
{
    seq![PrintLine { branch, id: n.id, idx: n.idx, hash_comp_value: n.hash_comp_value }]
        + match n.left_hash_node {
        Some(l) => print_layout(*l, Branch::Left),
        None => seq![],
    } + match n.right_hash_node {
        Some(r) => print_layout(*r, Branch::Right),
        None => seq![],
    }
}

impl TreeNode {
    /// Marks this record as the leader of a group, with similarity one.
    pub fn make_parent(&mut self)
        ensures
            *final(self) == made_parent(*old(self)),
    {
        self.is_parent = true;
        self.hash_comp_value = Some(Fraction::one());
    }

    /// Sets the similarity of this record to the leader of its group.
    pub fn set_comp_value(&mut self, comp_val: Fraction)
        ensures
            *final(self) == with_comp_value(*old(self), comp_val),
    {
        self.hash_comp_value = Some(comp_val);
    }

    /// The output row of this record in group `output_iter`.
    pub fn get_data(&self, output_iter: i32) -> (row: OutputStore)
        ensures
            row == output_of(*self, output_iter),
    {
        OutputStore {
            id: self.id,
            idx: self.idx,
            data: self.data.clone(),
            data_name: self.data_name.clone(),
            hash_comp_value: self.hash_comp_value,
            group: Some(output_iter),
        }
    }

    /// Appends `input`, with the similarity `comp_value`, at the bottom of this node's left
    /// chain.
    pub fn accelerate_to_child(&mut self, input: Box<TreeNode>, comp_value: Fraction)
        ensures
            without_left(*final(self)) == without_left(*old(self)),
            left_chain(final(self).left_hash_node) == left_chain(old(self).left_hash_node)
                + left_chain(Some(Box::new(with_comp_value(*input, comp_value)))),
        decreases *old(self),
    {
        match self.left_hash_node.take() {
            Some(mut left_hash_node) => {
                left_hash_node.accelerate_to_child(input, comp_value);
                self.left_hash_node = Some(left_hash_node);
            },
            None => {
                let mut input = input;
                input.set_comp_value(comp_value);
                self.left_hash_node = Some(input);
            },
        }
    }

    /// Walks down the left chain comparing `input` with each record, and always declines:
    /// the comparison with `upper_thres` decides nothing, so no left path is ever taken.
    pub fn check_left_path(&mut self, input: &Box<TreeNode>, upper_thres: Threshold, num_hashes: usize) -> (accepted: bool)
        ensures
            !accepted,
            *final(self) == *old(self),
        decreases *old(self),
    {
        let comp_val = compare_hash(self.hash.clone(), input.hash.clone(), num_hashes);
        if upper_thres.is_reached_by(comp_val.num) {
            // Reaching the threshold here does not end the walk.
        }
        match self.left_hash_node.take() {
            Some(mut left_hash_node) => {
                let accepted = left_hash_node.check_left_path(input, upper_thres, num_hashes);
                self.left_hash_node = Some(left_hash_node);
                accepted
            },
            None => false,
        }
    }

    /// Passes `input` on to the right child, or makes it the right child, leading a new group.
    pub fn move_child_right(
        &mut self,
        input: Box<TreeNode>,
        upper_thres: Threshold,
        lower_thres: Threshold,
        num_hashes: usize,
    )
        ensures
            groups(*final(self)) == seq![members(*old(self))] + placed(
                groups_below(old(self).right_hash_node),
                *input,
                upper_thres,
                lower_thres,
                num_hashes,
            ),
        decreases *old(self), 0nat,
    {
        match self.right_hash_node.take() {
            Some(mut right_hash_node) => {
                right_hash_node.descend_to_children(input, upper_thres, lower_thres, num_hashes);
                self.right_hash_node = Some(right_hash_node);
            },
            None => {
                let ghost original = *input;
                let mut input = input;
                input.make_parent();
                self.right_hash_node = Some(input);
                proof {
                    let g = groups_below(old(self).right_hash_node);
                    assert(groups_below(self.right_hash_node) == groups(made_parent(original)));
                    assert(g + groups(made_parent(original)) =~= groups(made_parent(original)));
                }
            },
        }
    }

    /// Places `input` in the group of the first leader, from this one down the right spine,
    /// that it joins; if it joins none, it leads a new group at the bottom of the spine.
    pub fn descend_to_children(
        &mut self,
        input: Box<TreeNode>,
        upper_thres: Threshold,
        lower_thres: Threshold,
        num_hashes: usize,
    )
        ensures
            groups(*final(self)) == placed(groups(*old(self)), *input, upper_thres, lower_thres, num_hashes),
        decreases *old(self), 1nat,
    {
        let comp_val = compare_hash(self.hash.clone(), input.hash.clone(), num_hashes);
        let below_min_thres = lower_thres.is_not_exceeded_by(comp_val.num);
        let above_threshold = upper_thres.is_reached_by(comp_val.num);
        proof {
            lemma_matching_slots_bounded(old(self).hash@, input.hash@);
        }
        if below_min_thres {
            self.move_child_right(input, upper_thres, lower_thres, num_hashes);
            proof { lemma_placed_skips(*old(self), *input, upper_thres, lower_thres, num_hashes); }
        } else if above_threshold {
            self.accelerate_to_child(input, comp_val);
            proof { lemma_placed_joins(*old(self), *final(self), *input, upper_thres, lower_thres, num_hashes); }
        } else if self.left_hash_node.is_some() {
            if self.check_left_path(&input, upper_thres, num_hashes) {
                self.accelerate_to_child(input, comp_val);
            } else {
                self.move_child_right(input, upper_thres, lower_thres, num_hashes);
                proof { lemma_placed_skips(*old(self), *input, upper_thres, lower_thres, num_hashes); }
            }
        } else {
            self.move_child_right(input, upper_thres, lower_thres, num_hashes);
            proof { lemma_placed_skips(*old(self), *input, upper_thres, lower_thres, num_hashes); }
        }
    }
}

/// Placing a record that does not join the leader `n` leaves `n`'s group first and places the
/// record among the groups below.
proof fn lemma_placed_skips(n: TreeNode, input: TreeNode, upper: Threshold, lower: Threshold, num_hashes: usize)
    requires
        !joins(n.hash@, input.hash@, upper, lower),
    ensures
        placed(groups(n), input, upper, lower, num_hashes) == seq![members(n)] + placed(
            groups_below(n.right_hash_node),
            input,
            upper,
            lower,
            num_hashes,
        ),
{
    let g = groups(n);
    let rest = groups_below(n.right_hash_node);
    assert(g.drop_first() =~= rest);
    assert(g[0][0] == bare(n));
    let k = first_joinable(rest, input.hash@, upper, lower);
    assert(first_joinable(g, input.hash@, upper, lower) == k + 1);
    if k < rest.len() {
        assert(g[k + 1int] == rest[k as int]);
        assert(placed(g, input, upper, lower, num_hashes) =~= seq![members(n)] + placed(rest, input, upper, lower, num_hashes));
    } else {
        assert(placed(g, input, upper, lower, num_hashes) =~= seq![members(n)] + placed(rest, input, upper, lower, num_hashes));
    }
}

/// Placing a record that joins the leader `n` appends it to `n`'s group.
proof fn lemma_placed_joins(
    n: TreeNode,
    after: TreeNode,
    input: TreeNode,
    upper: Threshold,
    lower: Threshold,
    num_hashes: usize,
)
    requires
        joins(n.hash@, input.hash@, upper, lower),
        without_left(after) == without_left(n),
        left_chain(after.left_hash_node) == left_chain(n.left_hash_node) + left_chain(
            Some(Box::new(with_comp_value(input, similarity(n.hash@, input.hash@, num_hashes)))),
        ),
    ensures
        groups(after) == placed(groups(n), input, upper, lower, num_hashes),
{
    let g = groups(n);
    assert(g[0][0] == bare(n));
    assert(first_joinable(g, input.hash@, upper, lower) == 0);
    assert(after.right_hash_node == n.right_hash_node) by {
        assert(without_left(after).right_hash_node == without_left(n).right_hash_node);
    }
    assert(bare(after) == bare(n)) by {
        assert(bare(after) == bare(without_left(after)));
        assert(bare(n) == bare(without_left(n)));
    }
    let joined = left_chain(Some(Box::new(with_comp_value(input, similarity(n.hash@, input.hash@, num_hashes)))));
    assert(members(after) =~= members(n) + joined);
    assert(groups(after) == seq![members(after)] + groups_below(n.right_hash_node));
    assert(g == seq![members(n)] + groups_below(n.right_hash_node));
    assert(groups(after) =~= placed(g, input, upper, lower, num_hashes));
}

impl TreeNode {
    /// Appends the rows of this record and of the records below it on its left chain, in
    /// group `output_iter`.
    pub fn process_left_children(&self, res: &mut Vec<OutputStore>, output_iter: i32)
        ensures
            final(res)@ == old(res)@ + chain_output(left_chain(Some(Box::new(*self))), output_iter),
        decreases *self,
    {
        res.push(self.get_data(output_iter));
        match &self.left_hash_node {
            Some(left_hash_node) => left_hash_node.process_left_children(res, output_iter),
            None => {},
        }
        proof {
            let chain = left_chain(Some(Box::new(*self)));
            assert(chain == seq![without_left(*self)] + left_chain(self.left_hash_node));
            assert(chain_output(chain, output_iter) =~= seq![output_of(*self, output_iter)]
                + chain_output(left_chain(self.left_hash_node), output_iter));
            assert(final(res)@ =~= old(res)@ + chain_output(chain, output_iter));
        }
    }

    /// Appends one row vector per group of the right spine that starts here, numbering the
    /// groups from `output_iter` down the spine: the vectors of the groups further down come
    /// first, this node's group last. A group whose leader is not marked as a parent gets an
    /// empty vector.
    pub fn process_output(&self, res: &mut Vec<Vec<OutputStore>>, output_iter: i32)
        requires
            output_iter + groups(*self).len() - 1 <= i32::MAX,
        ensures
            nested_rows(final(res)@) == nested_rows(old(res)@) + tree_output(groups(*self), output_iter as int),
        decreases *self,
    {
        let mut results: Vec<OutputStore> = Vec::new();
        if self.is_parent {
            match &self.left_hash_node {
                Some(left_hash_node) => {
                    results.push(self.get_data(output_iter));
                    left_hash_node.process_left_children(&mut results, output_iter);
                },
                None => results.push(self.get_data(output_iter)),
            }
        }
        proof {
            let m = members(*self);
            assert(m[0] == bare(*self));
            if self.is_parent {
                assert(chain_output(m, output_iter) =~= seq![output_of(*self, output_iter)]
                    + chain_output(left_chain(self.left_hash_node), output_iter));
            }
            assert(results@ =~= group_output(m, output_iter));
        }
        let ghost before = nested_rows(res@);
        let ghost g = groups(*self);
        assert(g.drop_first() =~= groups_below(self.right_hash_node));
        match &self.right_hash_node {
            Some(right_hash_node) => {
                assert(groups(**right_hash_node).len() >= 1);
                right_hash_node.process_output(res, output_iter + 1);
            },
            None => {},
        }
        assert(nested_rows(res@) =~= before + tree_output(g.drop_first(), output_iter + 1));
        let ghost middle = res@;
        res.push(results);
        proof {
            assert(nested_rows(res@) =~= nested_rows(middle) + seq![results@]);
            assert(tree_output(g, output_iter as int) == tree_output(g.drop_first(), output_iter + 1)
                + seq![group_output(g[0], output_iter)]);
            assert(nested_rows(res@) =~= before + tree_output(g, output_iter as int));
        }
    }

    fn push_print_lines(&self, branch: Branch, lines: &mut Vec<PrintLine>)
        ensures
            final(lines)@ == old(lines)@ + print_layout(*self, branch),
        decreases *self,
    {
        lines.push(PrintLine { branch, id: self.id, idx: self.idx, hash_comp_value: self.hash_comp_value });
        match &self.left_hash_node {
            Some(left_hash_node) => left_hash_node.push_print_lines(Branch::Left, lines),
            None => {},
        }
        match &self.right_hash_node {
            Some(right_hash_node) => right_hash_node.push_print_lines(Branch::Right, lines),
            None => {},
        }
        assert(final(lines)@ =~= old(lines)@ + print_layout(*self, branch));
    }

    /// The lines of the printed tree below and including this node, in preorder: the node,
    /// then its left subtree, then its right subtree.
    pub fn print_lines(&self) -> (lines: Vec<PrintLine>)
        ensures
            lines@ == print_layout(*self, Branch::Root),
    {
        let mut lines: Vec<PrintLine> = Vec::new();
        self.push_print_lines(Branch::Root, &mut lines);
        assert(lines@ =~= print_layout(*self, Branch::Root));
        lines
    }
}

/// A grouping tree with its thresholds and the noise of its hash functions.
pub struct Tree {
    pub node: Option<Box<TreeNode>>,
    pub upper_threshold: Threshold,
    pub lower_threshold: Threshold,
    pub num_hashes: usize,
    pub num_buckets: usize,
    pub random_noise_multi: Vec<u64>,
    pub random_noise_add: Vec<u64>,
    pub group_iter_counter: i32,
}

/// The groups of a tree, from the root down its right spine.
pub open spec fn tree_groups(t: Tree) -> Seq<Seq<TreeNode>> {
    groups_below(t.node)
}

/// The groups with the first record of the first group marked as a parent.
pub open spec fn root_made_parent(g: Seq<Seq<TreeNode>>) -> Seq<Seq<TreeNode>> {
    g.update(0, g[0].update(0, made_parent(g[0][0])))
}

impl Tree {
    /// An empty tree whose hash functions take their noise from a generator seeded with
    /// `NOISE_SEED`: `num_hashes` multipliers, then `num_hashes` offsets, each below
    /// `NOISE_BOUND`.
    pub fn new(num_hashes: usize, num_buckets: usize, upper_threshold: Threshold, lower_threshold: Threshold) -> (tree: Self)
        ensures
            (tree.node is None),
            tree.upper_threshold == upper_threshold,
            tree.lower_threshold == lower_threshold,
            tree.num_hashes == num_hashes,
            tree.num_buckets == num_buckets,
            tree.group_iter_counter == 0,
            tree.random_noise_multi@.len() == num_hashes,
            tree.random_noise_add@.len() == num_hashes,
            forall|i: int| 0 <= i < num_hashes ==> #[trigger] tree.random_noise_multi@[i] < crate::noise::NOISE_BOUND,
            forall|i: int| 0 <= i < num_hashes ==> #[trigger] tree.random_noise_add@[i] < crate::noise::NOISE_BOUND,
    {
        let (random_noise_multi, random_noise_add) = seeded_noise(num_hashes);
        Tree {
            node: None,
            upper_threshold,
            lower_threshold,
            num_hashes,
            num_buckets,
            random_noise_multi,
            random_noise_add,
            group_iter_counter: 0,
        }
    }

    /// Places a record: into an empty tree as its root; otherwise as `descend_to_children`
    /// does from the root, after which the root is marked as a parent.
    pub fn place_node(&mut self, input: Box<TreeNode>)
        ensures
            (Tree { node: None, ..*final(self) }) == (Tree { node: None, ..*old(self) }),
            (old(self).node is None) ==> final(self).node == Some(input),
            (old(self).node is Some) ==> tree_groups(*final(self)) == root_made_parent(
                placed(tree_groups(*old(self)), *input, old(self).upper_threshold, old(self).lower_threshold, old(self).num_hashes),
            ),
    {
        match self.node.take() {
            Some(mut node) => {
                let ghost root = *node;
                node.descend_to_children(input, self.upper_threshold, self.lower_threshold, self.num_hashes);
                let ghost descended = *node;
                node.make_parent();
                proof {
                    let g = groups(descended);
                    assert(bare(made_parent(descended)) == made_parent(bare(descended)));
                    assert(g[0] == members(descended));
                    assert(members(*node) =~= g[0].update(0, made_parent(g[0][0])));
                    assert(groups(*node) == seq![members(*node)] + groups_below(descended.right_hash_node));
                    assert(groups(*node) =~= root_made_parent(g));
                }
                self.node = Some(node);
            },
            None => {
                self.node = Some(input);
            },
        }
    }

    /// The rows of every group, one vector per group, the groups numbered from 0 at the root
    /// and listed from the last group back to the first. The tree must not be empty.
    pub fn proccess_output(&mut self) -> (r: Vec<Vec<OutputStore>>)
        requires
            (old(self).node is Some),
            tree_groups(*old(self)).len() <= i32::MAX + 1,
        ensures
            *final(self) == (Tree { group_iter_counter: 0, ..*old(self) }),
            nested_rows(r@) == tree_output(tree_groups(*old(self)), 0),
    {
        let mut r: Vec<Vec<OutputStore>> = Vec::new();
        self.group_iter_counter = 0;
        match &self.node {
            Some(node) => node.process_output(&mut r, self.group_iter_counter),
            None => {},
        }
        assert(nested_rows(r@) =~= tree_output(tree_groups(*old(self)), 0));
        r
    }
}

/// Every group of `g` is led by a record marked as a parent.
pub open spec fn leaders_are_parents(g: Seq<Seq<TreeNode>>) -> bool {
    forall|k: int| 0 <= k < g.len() ==> (#[trigger] g[k])[0].is_parent
}

/// Every group of a right spine has at least its leader.
pub proof fn lemma_groups_nonempty(n: TreeNode)
    ensures
        groups(n).len() > 0,
        forall|k: int| 0 <= k < groups(n).len() ==> (#[trigger] groups(n)[k]).len() > 0,
    decreases n,
{
    match n.right_hash_node {
        Some(r) => {
            lemma_groups_nonempty(*r);
            assert forall|k: int| 0 <= k < groups(n).len() implies (#[trigger] groups(n)[k]).len() > 0 by {
                if k > 0 {
                    assert(groups(n)[k] == groups(*r)[k - 1]);
                }
            }
        },
        None => {},
    }
}

/// Placing a record keeps every group, with its records in their order, at the start of the
/// group at the same position, and adds at most one group at the end.
pub proof fn lemma_placed_keeps_groups(
    g: Seq<Seq<TreeNode>>,
    input: TreeNode,
    upper: Threshold,
    lower: Threshold,
    num_hashes: usize,
)
    ensures
        placed(g, input, upper, lower, num_hashes).len() >= g.len(),
        forall|k: int|
            0 <= k < g.len() ==> (#[trigger] placed(g, input, upper, lower, num_hashes)[k]).subrange(0, g[k].len() as int) == g[k],
{
    let p = placed(g, input, upper, lower, num_hashes);
    let j = first_joinable(g, input.hash@, upper, lower);
    assert forall|k: int| 0 <= k < g.len() implies (#[trigger] p[k]).subrange(0, g[k].len() as int) == g[k] by {
        if j < g.len() && k == j {
            assert(p[k].subrange(0, g[k].len() as int) =~= g[k]);
        } else {
            assert(p[k] == g[k]);
            assert(p[k].subrange(0, g[k].len() as int) =~= g[k]);
        }
    }
}

/// When a record without a right subtree is placed into a tree whose groups below the root
/// are all led by parents, and the root is then marked, as `Tree::place_node` does, every
/// group is led by a parent.
pub proof fn lemma_place_node_leaves_leaders_parents(
    root: TreeNode,
    input: TreeNode,
    upper: Threshold,
    lower: Threshold,
    num_hashes: usize,
)
    requires
        forall|k: int| 1 <= k < groups(root).len() ==> (#[trigger] groups(root)[k])[0].is_parent,
        input.right_hash_node is None,
    ensures
        leaders_are_parents(root_made_parent(placed(groups(root), input, upper, lower, num_hashes))),
{
    let g = groups(root);
    lemma_groups_nonempty(root);
    let p = placed(g, input, upper, lower, num_hashes);
    let r = root_made_parent(p);
    let j = first_joinable(g, input.hash@, upper, lower);
    let leader = made_parent(input);
    assert(groups(leader) == seq![members(leader)] + groups_below(leader.right_hash_node));
    assert(groups(leader) =~= seq![members(leader)]);
    assert forall|k: int| 0 <= k < r.len() implies (#[trigger] r[k])[0].is_parent by {
        if k > 0 {
            assert(r[k] == p[k]);
            if k < g.len() {
                assert(p[k][0] == g[k][0]);
            } else {
                assert(p[k] == members(leader));
            }
        }
    }
}

/// When every group is led by a parent, the output has one row vector per group, listed from
/// the last group back to the first, each holding the rows of all records of its group, in
/// order, numbered with the group's position counted from `first`.
pub proof fn lemma_output_lists_every_record(g: Seq<Seq<TreeNode>>, first: int)
    requires
        leaders_are_parents(g),
    ensures
        tree_output(g, first).len() == g.len(),
        forall|j: int|
            0 <= j < g.len() ==> #[trigger] tree_output(g, first)[j] == chain_output(
                g[g.len() - 1 - j],
                (first + g.len() - 1 - j) as i32,
            ),
    decreases g.len(),
{
    if g.len() > 0 {
        let rest = g.drop_first();
        assert(leaders_are_parents(rest)) by {
            assert forall|k: int| 0 <= k < rest.len() implies (#[trigger] rest[k])[0].is_parent by {
                assert(rest[k] == g[k + 1]);
            }
        }
        lemma_output_lists_every_record(rest, first + 1);
        assert(g[0][0].is_parent);
        let out = tree_output(g, first);
        assert forall|j: int| 0 <= j < g.len() implies #[trigger] out[j] == chain_output(
            g[g.len() - 1 - j],
            (first + g.len() - 1 - j) as i32,
        ) by {
            if j < rest.len() {
                assert(out[j] == tree_output(rest, first + 1)[j]);
                assert(rest[rest.len() - 1 - j] == g[g.len() - 1 - j]);
            }
        }
    }
}

/// A record not yet in a tree: no children, not marked as a parent.
pub open spec fn fresh(n: TreeNode) -> bool {
    &&& n.left_hash_node is None
    &&& n.right_hash_node is None
    &&& !n.is_parent
}

/// The shape of a tree grown from fresh records: every group below the first is led by a
/// parent of similarity one, and every record reached through a left link has no right child
/// and is not a parent.
pub open spec fn grown_shape(g: Seq<Seq<TreeNode>>) -> bool {
    &&& forall|k: int|
        1 <= k < g.len() ==> (#[trigger] g[k])[0].is_parent && g[k][0].hash_comp_value == Some(
            Fraction::spec_one(),
        )
    &&& forall|k: int, j: int|
        0 <= k < g.len() && 1 <= j < g[k].len() ==> (#[trigger] g[k][j]).right_hash_node is None
            && !g[k][j].is_parent
}

/// A fresh record alone is a tree of that shape.
pub proof fn lemma_fresh_record_has_grown_shape(n: TreeNode)
    requires
        fresh(n),
    ensures
        grown_shape(groups(n)),
{
    assert(groups(n) =~= seq![seq![bare(n)]]);
}

/// Placing a fresh record into a non-empty tree of that shape, and then marking the root, as
/// `Tree::place_node` does, keeps the shape, and leaves the root a parent of similarity one.
pub proof fn lemma_place_node_keeps_grown_shape(
    root: TreeNode,
    input: TreeNode,
    upper: Threshold,
    lower: Threshold,
    num_hashes: usize,
)
    requires
        grown_shape(groups(root)),
        fresh(input),
    ensures
        grown_shape(root_made_parent(placed(groups(root), input, upper, lower, num_hashes))),
        root_made_parent(placed(groups(root), input, upper, lower, num_hashes))[0][0].is_parent,
        root_made_parent(placed(groups(root), input, upper, lower, num_hashes))[0][0].hash_comp_value
            == Some(Fraction::spec_one()),
{
    let g = groups(root);
    lemma_groups_nonempty(root);
    lemma_placed_keeps_groups(g, input, upper, lower, num_hashes);
    let p = placed(g, input, upper, lower, num_hashes);
    let r = root_made_parent(p);
    let j0 = first_joinable(g, input.hash@, upper, lower);
    let leader = made_parent(input);
    assert(groups(leader) =~= seq![seq![bare(leader)]]);
    if j0 < g.len() {
        let joined = with_comp_value(input, similarity(g[j0 as int][0].hash@, input.hash@, num_hashes));
        assert(left_chain(Some(Box::new(joined))) =~= seq![without_left(joined)]);
        assert(p.len() == g.len());
    } else {
        assert(p.len() == g.len() + 1);
    }
    assert forall|k: int| 0 <= k < g.len() implies #[trigger] p[k].len() >= g[k].len() && p[k][0] == g[k][0] by {
        assert(p[k].subrange(0, g[k].len() as int) == g[k]);
        assert(p[k].subrange(0, g[k].len() as int)[0] == p[k][0]);
    }
    assert forall|k: int| 1 <= k < r.len() implies (#[trigger] r[k])[0].is_parent && r[k][0].hash_comp_value == Some(Fraction::spec_one()) by {
        assert(r[k] == p[k]);
    }
    assert forall|k: int, j: int| 0 <= k < r.len() && 1 <= j < r[k].len() implies (#[trigger] r[k][j]).right_hash_node is None && !r[k][j].is_parent by {
        assert(r[k][j] == p[k][j]);
        if k < g.len() {
            if j < g[k].len() {
                assert(p[k][j] == p[k].subrange(0, g[k].len() as int)[j]);
                assert(p[k][j] == g[k][j]);
            }
        }
    }
}

proof fn lemma_first_joinable(g: Seq<Seq<TreeNode>>, hash: Seq<u64>, upper: Threshold, lower: Threshold)
    ensures
        first_joinable(g, hash, upper, lower) <= g.len(),
        forall|l: int|
            0 <= l < first_joinable(g, hash, upper, lower) ==> !(!stays_within(
                matching_slots((#[trigger] g[l])[0].hash@, hash) as int,
                lower,
            ) && reaches(matching_slots(g[l][0].hash@, hash) as int, upper)),
        first_joinable(g, hash, upper, lower) < g.len() ==> {
            let k = first_joinable(g, hash, upper, lower) as int;
            !stays_within(matching_slots(g[k][0].hash@, hash) as int, lower) && reaches(
                matching_slots(g[k][0].hash@, hash) as int,
                upper,
            )
        },
    decreases g.len(),
{
    if g.len() > 0 && !joins(g[0][0].hash@, hash, upper, lower) {
        let rest = g.drop_first();
        lemma_first_joinable(rest, hash, upper, lower);
        assert forall|l: int| 0 <= l < first_joinable(g, hash, upper, lower) implies !(!stays_within(
            matching_slots((#[trigger] g[l])[0].hash@, hash) as int,
            lower,
        ) && reaches(matching_slots(g[l][0].hash@, hash) as int, upper)) by {
            if l > 0 {
                assert(g[l] == rest[l - 1]);
            }
        }
        if first_joinable(g, hash, upper, lower) < g.len() {
            let k = first_joinable(g, hash, upper, lower) as int;
            assert(g[k] == rest[k - 1]);
        }
    }
}

/// Where a record goes when it is placed among the groups `g`: if it joins group `k`, then
/// its similarity to the leader of `k` is neither at most the lower threshold nor below the
/// upper one, no earlier group's leader is so, and it becomes the record after the old end of
/// group `k`, keeping its id, index, data, name and signature and carrying as similarity the
/// number of slots its signature shares with the leader's, out of `num_hashes`. If it joins
/// no group, no leader is so, and it leads a new last group as a parent of similarity one.
pub proof fn lemma_placed_record(
    g: Seq<Seq<TreeNode>>,
    input: TreeNode,
    upper: Threshold,
    lower: Threshold,
    num_hashes: usize,
)
    ensures
        forall|k: int|
            0 <= k < g.len() && placed(g, input, upper, lower, num_hashes)[k].len() > g[k].len() ==> {
                let m = matching_slots(g[k][0].hash@, input.hash@);
                let r = #[trigger] placed(g, input, upper, lower, num_hashes)[k][g[k].len() as int];
                &&& !stays_within(m as int, lower) && reaches(m as int, upper)
                &&& forall|l: int|
                    0 <= l < k ==> !(!stays_within(matching_slots((#[trigger] g[l])[0].hash@, input.hash@) as int, lower)
                        && reaches(matching_slots(g[l][0].hash@, input.hash@) as int, upper))
                &&& r.hash_comp_value == Some(Fraction { num: m as usize, den: num_hashes })
                &&& r.id == input.id && r.idx == input.idx && r.data == input.data
                &&& r.data_name == input.data_name && r.hash == input.hash && r.is_parent == input.is_parent
            },
        placed(g, input, upper, lower, num_hashes).len() > g.len() ==> {
            let r = placed(g, input, upper, lower, num_hashes)[g.len() as int][0];
            &&& forall|l: int|
                0 <= l < g.len() ==> !(!stays_within(matching_slots((#[trigger] g[l])[0].hash@, input.hash@) as int, lower)
                    && reaches(matching_slots(g[l][0].hash@, input.hash@) as int, upper))
            &&& r.is_parent && r.hash_comp_value == Some(Fraction { num: 1, den: 1 })
            &&& r.id == input.id && r.idx == input.idx && r.data == input.data
            &&& r.data_name == input.data_name && r.hash == input.hash
        },
{
    lemma_first_joinable(g, input.hash@, upper, lower);
    let p = placed(g, input, upper, lower, num_hashes);
    let j = first_joinable(g, input.hash@, upper, lower) as int;
    if j < g.len() {
        let joined = with_comp_value(input, similarity(g[j][0].hash@, input.hash@, num_hashes));
        assert(left_chain(Some(Box::new(joined)))[0] == without_left(joined));
        assert(p.len() == g.len());
        assert forall|k: int| 0 <= k < g.len() && p[k].len() > g[k].len() implies k == j by {
            if k != j {
                assert(p[k] == g[k]);
            }
        }
        assert(p[j][g[j].len() as int] == without_left(joined));
    } else {
        let leader = made_parent(input);
        assert(groups(leader) == seq![members(leader)] + groups_below(leader.right_hash_node));
        assert(p[g.len() as int] == members(leader));
        assert(p[g.len() as int][0] == bare(leader));
        assert forall|k: int| 0 <= k < g.len() implies p[k] == g[k] by {}
    }
}

/// The number of nodes of the subtree `n`.
pub open spec fn node_count(n: TreeNode) -> nat
    decreases n,
{
    1 + match n.left_hash_node {
        Some(l) => node_count(*l),
        None => 0,
    } + match n.right_hash_node {
        Some(r) => node_count(*r),
        None => 0,
    }
}

/// The printed tree has one line per node: the first line is the node itself, the line after
/// it is its left child, hanging left, if it has one, and its right child, hanging right, comes
/// after all the lines of the left subtree.
pub proof fn lemma_print_layout_covers_tree(n: TreeNode, branch: Branch)
    ensures
        print_layout(n, branch).len() == node_count(n),
        print_layout(n, branch)[0] == (PrintLine { branch, id: n.id, idx: n.idx, hash_comp_value: n.hash_comp_value }),
        n.left_hash_node matches Some(l) ==> print_layout(n, branch)[1] == (PrintLine {
            branch: Branch::Left,
            id: l.id,
            idx: l.idx,
            hash_comp_value: l.hash_comp_value,
        }),
        n.right_hash_node matches Some(r) ==> print_layout(n, branch)[1 + match n.left_hash_node {
            Some(l) => node_count(*l) as int,
            None => 0int,
        }] == (PrintLine { branch: Branch::Right, id: r.id, idx: r.idx, hash_comp_value: r.hash_comp_value }),
    decreases n,
{
    let left_lines = match n.left_hash_node {
        Some(l) => print_layout(*l, Branch::Left),
        None => seq![],
    };
    let right_lines = match n.right_hash_node {
        Some(r) => print_layout(*r, Branch::Right),
        None => seq![],
    };
    match n.left_hash_node {
        Some(l) => lemma_print_layout_covers_tree(*l, Branch::Left),
        None => {},
    }
    match n.right_hash_node {
        Some(r) => lemma_print_layout_covers_tree(*r, Branch::Right),
        None => {},
    }
    let all = print_layout(n, branch);
    assert(all == seq![PrintLine { branch, id: n.id, idx: n.idx, hash_comp_value: n.hash_comp_value }] + left_lines + right_lines);
}

} // verus!
