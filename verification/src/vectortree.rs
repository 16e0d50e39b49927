//! Grouping records in a vector of groups: a record joins the first group whose first record,
//! or one of whose records, is similar enough to it.
use vstd::prelude::*;
use crate::hash::{compare_hash, matching_slots, lemma_matching_slots_bounded};
use crate::noise::seeded_noise;
use crate::score::{Fraction, Threshold, reaches};

verus! {

/// The thresholds of the grouping and the noise of its hash functions.
pub struct VecTree {
    pub upper_threshold: Threshold,
    pub lower_threshold: Threshold,
    pub num_hashes: usize,
    pub random_noise_multi: Vec<u64>,
    pub random_noise_add: Vec<u64>,
}

/// A record with its MinHash signature `hash`.
pub struct VecNode {
    pub id: i32,
    pub idx: i32,
    pub data: String,
    pub data_name: String,
    pub hash: Vec<u64>,
    pub hash_comp_value: Option<Fraction>,
}

/// One output row: a record and the number of its group.
pub struct VecOutputStore {
    pub id: i32,
    pub idx: i32,
    pub data: String,
    pub data_name: String,
    pub hash_comp_value: Option<Fraction>,
    pub group: Option<i32>,
}

/// The contents of a vector of groups.
pub open spec fn vec_groups(v: Seq<Vec<VecNode>>) -> Seq<Seq<VecNode>> {
    v.map_values(|group: Vec<VecNode>| group@)
}

/// The similarity of `hash` to the signature `other`, over `num_hashes` slots.
pub open spec fn similarity_to(other: Seq<u64>, hash: Seq<u64>, num_hashes: usize) -> Fraction {
    Fraction { num: matching_slots(other, hash) as usize, den: num_hashes }
}

/// Index, from `j` on, of the first record of `group` whose similarity to `hash` reaches
/// `upper`, or the length of the group.
pub open spec fn first_close_member(group: Seq<VecNode>, hash: Seq<u64>, upper: Threshold, j: int) -> int
    decreases group.len() - j,
{
    if j < 0 || j >= group.len() {
        group.len() as int
    } else if reaches(matching_slots(group[j].hash@, hash) as int, upper) {
        j
    } else {
        first_close_member(group, hash, upper, j + 1)
    }
}

/// What the scan of the groups from group `i` on answers, if it answers: for the first group
/// whose first record reaches the upper threshold, that group's index and similarity; for the
/// first group whose first record reaches only the lower threshold and which has a record that
/// reaches the upper one, the index of that record within its group and the similarity to the
/// group's first record.
pub open spec fn scan_groups(
    g: Seq<Seq<VecNode>>,
    hash: Seq<u64>,
    upper: Threshold,
    lower: Threshold,
    num_hashes: usize,
    i: int,
) -> Option<(int, Fraction)>
    decreases g.len() - i,
{
    if i < 0 || i >= g.len() {
        None
    } else {
        let comp = similarity_to(g[i][0].hash@, hash, num_hashes);
        let close = first_close_member(g[i], hash, upper, 0);
        if reaches(comp.num as int, upper) {
            Some((i, comp))
        } else if reaches(comp.num as int, lower) && close < g[i].len() {
            Some((close, comp))
        } else {
            scan_groups(g, hash, upper, lower, num_hashes, i + 1)
        }
    }
}

/// Index of the group at which the scan from group `i` on answers, or the number of groups.
pub open spec fn scan_stop(
    g: Seq<Seq<VecNode>>,
    hash: Seq<u64>,
    upper: Threshold,
    lower: Threshold,
    i: int,
) -> int
    decreases g.len() - i,
{
    if i < 0 || i >= g.len() {
        g.len() as int
    } else {
        let matching = matching_slots(g[i][0].hash@, hash) as int;
        if reaches(matching, upper) || (reaches(matching, lower) && first_close_member(g[i], hash, upper, 0) < g[i].len()) {
            i
        } else {
            scan_stop(g, hash, upper, lower, i + 1)
        }
    }
}

proof fn lemma_scan_stop_from(g: Seq<Seq<VecNode>>, hash: Seq<u64>, upper: Threshold, lower: Threshold, i: int)
    requires
        0 <= i <= g.len(),
    ensures
        i <= scan_stop(g, hash, upper, lower, i),
    decreases g.len() - i,
{
    if i < g.len() {
        lemma_scan_stop_from(g, hash, upper, lower, i + 1);
    }
}

/// The output row of a record in group `group`.
pub open spec fn vec_output_of(n: VecNode, group: i32) -> VecOutputStore {
    VecOutputStore {
        id: n.id,
        idx: n.idx,
        data: n.data,
        data_name: n.data_name,
        hash_comp_value: n.hash_comp_value,
        group: Some(group),
    }
}

/// The rows of a group numbered `group`, in order.
pub open spec fn vec_group_output(group: Seq<VecNode>, number: i32) -> Seq<VecOutputStore> {
    group.map_values(|n: VecNode| vec_output_of(n, number))
}

/// The rows of all groups, group by group, each group numbered by its index cast to `i32`.
pub open spec fn vec_outputs(g: Seq<Seq<VecNode>>) -> Seq<VecOutputStore>
    decreases g.len(),
{
    if g.len() == 0 {
        seq![]
    } else {
        vec_outputs(g.drop_last()) + vec_group_output(g.last(), (g.len() - 1) as i32)
    }
}

/// The record with the given similarity value.
pub open spec fn vec_with_comp_value(n: VecNode, comp_value: Fraction) -> VecNode {
    VecNode { hash_comp_value: Some(comp_value), ..n }
}

/// The groups after adding `row` where `placement` says: at the end of the group with the
/// given index, with the given similarity, or as a new last group of its own, with
/// similarity one.
pub open spec fn assigned(g: Seq<Seq<VecNode>>, row: VecNode, placement: Option<(usize, Fraction)>) -> Seq<Seq<VecNode>> {
    match placement {
        None => g.push(seq![vec_with_comp_value(row, Fraction::spec_one())]),
        Some((i, comp)) => g.update(i as int, g[i as int].push(vec_with_comp_value(row, comp))),
    }
}

impl VecNode {
    /// The output row of this record in group `output_iter`.
    pub fn get_data(&self, output_iter: i32) -> (row: VecOutputStore)
        ensures
            row == vec_output_of(*self, output_iter),
    {
        VecOutputStore {
            id: self.id,
            idx: self.idx,
            data: self.data.clone(),
            data_name: self.data_name.clone(),
            hash_comp_value: self.hash_comp_value,
            group: Some(output_iter),
        }
    }

    /// A copy of the signature.
    pub fn get_hash(&self) -> (hash: Vec<u64>)
        ensures
            hash@ == self.hash@,
    {
        let hash = self.hash.clone();
        assert(hash@ =~= self.hash@);
        hash
    }
}

impl VecTree {
    /// The grouping thresholds, with the noise of `num_hashes` hash functions drawn from a
    /// generator seeded with `NOISE_SEED`: the multipliers, then the offsets, each below
    /// `NOISE_BOUND`.
    pub fn new(num_hashes: usize, upper_threshold: Threshold, lower_threshold: Threshold) -> (tree: Self)
        ensures
            tree.upper_threshold == upper_threshold,
            tree.lower_threshold == lower_threshold,
            tree.num_hashes == num_hashes,
            tree.random_noise_multi@.len() == num_hashes,
            tree.random_noise_add@.len() == num_hashes,
            forall|i: int| 0 <= i < num_hashes ==> #[trigger] tree.random_noise_multi@[i] < crate::noise::NOISE_BOUND,
            forall|i: int| 0 <= i < num_hashes ==> #[trigger] tree.random_noise_add@[i] < crate::noise::NOISE_BOUND,
    {
        let (random_noise_multi, random_noise_add) = seeded_noise(num_hashes);
        VecTree { upper_threshold, lower_threshold, num_hashes, random_noise_multi, random_noise_add }
    }

    /// Looks for the place of `input` among the groups, scanning them in order: the first
    /// group whose first record reaches the upper threshold answers its own index; the first
    /// group whose first record reaches the lower threshold and has a record that reaches the
    /// upper one answers the index of that record within the group. Either answer comes with
    /// the similarity to the group's first record. `None` means that no group answered.
    /// Every group that the scan reaches must have a first record.
    pub fn place_node(&mut self, input: &mut VecNode, vector: &mut Vec<Vec<VecNode>>) -> (placement: Option<(usize, Fraction)>)
        requires
            forall|g: int|
                0 <= g < old(vector)@.len() && g <= scan_stop(vec_groups(old(vector)@), old(input).hash@, old(self).upper_threshold, old(self).lower_threshold, 0)
                    ==> #[trigger] old(vector)@[g]@.len() > 0,
        ensures
            *final(self) == *old(self),
            *final(input) == *old(input),
            *final(vector) == *old(vector),
            (placement is None) == (scan_groups(vec_groups(old(vector)@), old(input).hash@, old(self).upper_threshold, old(self).lower_threshold, old(self).num_hashes, 0) is None),
            forall|i: usize, comp: Fraction| placement == Some((i, comp)) ==> scan_groups(
                vec_groups(old(vector)@),
                old(input).hash@,
                old(self).upper_threshold,
                old(self).lower_threshold,
                old(self).num_hashes,
                0,
            ) == Some((i as int, comp)),
    {
        let ghost g = vec_groups(vector@);
        let ghost hash = input.hash@;
        let mut i: usize = 0;
        while i < vector.len()
            invariant
                g == vec_groups(vector@),
                hash == input.hash@,
                i <= vector@.len(),
                scan_groups(g, hash, self.upper_threshold, self.lower_threshold, self.num_hashes, 0)
                    == scan_groups(g, hash, self.upper_threshold, self.lower_threshold, self.num_hashes, i as int),
                scan_stop(g, hash, self.upper_threshold, self.lower_threshold, 0)
                    == scan_stop(g, hash, self.upper_threshold, self.lower_threshold, i as int),
                forall|k: int|
                    0 <= k < vector@.len() && k <= scan_stop(g, hash, self.upper_threshold, self.lower_threshold, 0)
                        ==> #[trigger] vector@[k]@.len() > 0,
            decreases vector@.len() - i,
        {
            let v = &vector[i];
            assert(g[i as int] == v@);
            proof {
                lemma_scan_stop_from(g, hash, self.upper_threshold, self.lower_threshold, i as int);
            }
            assert(vector@[i as int]@.len() > 0);
            let comp = compare_hash(v[0].get_hash(), input.get_hash(), self.num_hashes);
            proof {
                lemma_matching_slots_bounded(v@[0].hash@, hash);
            }
            if self.upper_threshold.is_reached_by(comp.num) {
                return Some((i, comp));
            }
            if self.lower_threshold.is_reached_by(comp.num) {
                let mut j: usize = 0;
                while j < v.len()
                    invariant
                        g == vec_groups(vector@),
                        i < vector@.len(),
                        v@ == g[i as int],
                        hash == input.hash@,
                        !reaches(comp.num as int, self.upper_threshold),
                        reaches(comp.num as int, self.lower_threshold),
                        comp == similarity_to(g[i as int][0].hash@, hash, self.num_hashes),
                        scan_groups(g, hash, self.upper_threshold, self.lower_threshold, self.num_hashes, 0)
                            == scan_groups(g, hash, self.upper_threshold, self.lower_threshold, self.num_hashes, i as int),
                        j <= v@.len(),
                        first_close_member(v@, hash, self.upper_threshold, 0)
                            == first_close_member(v@, hash, self.upper_threshold, j as int),
                    decreases v@.len() - j,
                {
                    let second_search = compare_hash(v[j].get_hash(), input.get_hash(), self.num_hashes);
                    proof {
                        lemma_matching_slots_bounded(v@[j as int].hash@, hash);
                    }
                    if self.upper_threshold.is_reached_by(second_search.num) {
                        assert(first_close_member(v@, hash, self.upper_threshold, j as int) == j);
                        assert(scan_groups(g, hash, self.upper_threshold, self.lower_threshold, self.num_hashes, i as int) == Some((j as int, comp)));
                        return Some((j, comp));
                    }
                    j = j + 1;
                }
            }
            i = i + 1;
        }
        None
    }

    /// The rows of all groups, group by group and in order within each group, each row
    /// numbered with the index of its group cast to `i32`.
    pub fn process_output(&self, input_vecs: &mut Vec<Vec<VecNode>>) -> (results: Vec<VecOutputStore>)
        ensures
            *final(input_vecs) == *old(input_vecs),
            results@ == vec_outputs(vec_groups(old(input_vecs)@)),
    {
        let ghost g = vec_groups(input_vecs@);
        let mut results: Vec<VecOutputStore> = Vec::new();
        let mut i: usize = 0;
        while i < input_vecs.len()
            invariant
                g == vec_groups(input_vecs@),
                i <= input_vecs@.len(),
                results@ == vec_outputs(g.subrange(0, i as int)),
            decreases input_vecs@.len() - i,
        {
            let ghost start = results@;
            let mut j: usize = 0;
            while j < input_vecs[i].len()
                invariant
                    g == vec_groups(input_vecs@),
                    i < input_vecs@.len(),
                    j <= input_vecs@[i as int]@.len(),
                    results@ == start + vec_group_output(g[i as int].subrange(0, j as int), i as i32),
                decreases input_vecs@[i as int]@.len() - j,
            {
                let res = input_vecs[i][j].get_data(i as i32);
                results.push(res);
                proof {
                    let group = g[i as int];
                    assert(group.subrange(0, j + 1) =~= group.subrange(0, j as int).push(group[j as int]));
                    assert(vec_group_output(group.subrange(0, j + 1), i as i32) =~= vec_group_output(group.subrange(0, j as int), i as i32).push(vec_output_of(group[j as int], i as i32)));
                }
                j = j + 1;
            }
            proof {
                let prefix = g.subrange(0, i + 1);
                assert(prefix.drop_last() =~= g.subrange(0, i as int));
                assert(g[i as int].subrange(0, g[i as int].len() as int) =~= g[i as int]);
                assert(results@ == vec_outputs(prefix));
            }
            i = i + 1;
        }
        assert(g.subrange(0, g.len() as int) =~= g);
        results
    }
}

/// Adds a record where `place_node` placed it: when no group answered, as the only record of
/// a new last group, with similarity one; otherwise at the end of the group with the answered
/// index, with the answered similarity. The index must name a group.
pub fn assign_to_group(row: VecNode, placement: Option<(usize, Fraction)>, groups: &mut Vec<Vec<VecNode>>)
    requires
        forall|i: usize, comp: Fraction| placement == Some((i, comp)) ==> i < old(groups)@.len(),
    ensures
        vec_groups(final(groups)@) == assigned(vec_groups(old(groups)@), row, placement),
{
    let ghost g = vec_groups(groups@);
    let ghost original = row;
    let mut row = row;
    match placement {
        None => {
            row.hash_comp_value = Some(Fraction::one());
            let mut group: Vec<VecNode> = Vec::new();
            group.push(row);
            groups.push(group);
            assert(vec_groups(groups@) =~= assigned(g, original, placement));
        },
        Some((i, comp)) => {
            row.hash_comp_value = Some(comp);
            groups[i].push(row);
            assert(vec_groups(groups@) =~= assigned(g, original, placement));
        },
    }
}

/// The number of records in all groups.
pub open spec fn total_records(g: Seq<Seq<VecNode>>) -> nat
    decreases g.len(),
{
    if g.len() == 0 {
        0
    } else {
        total_records(g.drop_last()) + g.last().len()
    }
}

/// The output has one row per record.
pub proof fn lemma_vec_outputs_len(g: Seq<Seq<VecNode>>)
    ensures
        vec_outputs(g).len() == total_records(g),
    decreases g.len(),
{
    if g.len() > 0 {
        lemma_vec_outputs_len(g.drop_last());
    }
}

proof fn lemma_total_records_update(g: Seq<Seq<VecNode>>, i: int, group: Seq<VecNode>)
    requires
        0 <= i < g.len(),
    ensures
        total_records(g.update(i, group)) + g[i].len() == total_records(g) + group.len(),
    decreases g.len(),
{
    let u = g.update(i, group);
    if i == g.len() - 1 {
        assert(u.drop_last() =~= g.drop_last());
    } else {
        lemma_total_records_update(g.drop_last(), i, group);
        assert(u.drop_last() =~= g.drop_last().update(i, group));
    }
}

/// Adding a record where `place_node` placed it keeps every group's records, in order, at
/// the start of the group at the same position, keeps the first record of every group, and
/// gives the output exactly one row more.
pub proof fn lemma_assign_adds_one_row(g: Seq<Seq<VecNode>>, row: VecNode, placement: Option<(usize, Fraction)>)
    requires
        forall|i: usize, comp: Fraction| placement == Some((i, comp)) ==> i < g.len(),
    ensures
        assigned(g, row, placement).len() >= g.len(),
        forall|k: int|
            0 <= k < g.len() ==> (#[trigger] assigned(g, row, placement)[k]).subrange(0, g[k].len() as int) == g[k],
        vec_outputs(assigned(g, row, placement)).len() == vec_outputs(g).len() + 1,
{
    let a = assigned(g, row, placement);
    lemma_vec_outputs_len(g);
    lemma_vec_outputs_len(a);
    match placement {
        None => {
            assert(a.drop_last() =~= g);
        },
        Some((i, comp)) => {
            lemma_total_records_update(g, i as int, g[i as int].push(vec_with_comp_value(row, comp)));
        },
    }
    assert forall|k: int| 0 <= k < g.len() implies (#[trigger] a[k]).subrange(0, g[k].len() as int) == g[k] by {
        assert(a[k].subrange(0, g[k].len() as int) =~= g[k]);
    }
}

/// The number of slots on which a record's signature matches `hash` fits in a `usize`.
proof fn lemma_matching_fits(n: VecNode, hash: Seq<u64>)
    ensures
        matching_slots(n.hash@, hash) <= usize::MAX,
{
    lemma_matching_slots_bounded(n.hash@, hash);
    assert(n.hash@.len() == n.hash.len());
}

/// Whether group `k` answers the scan for `hash`: its first record reaches the upper
/// threshold, or it reaches the lower one and some record of the group reaches the upper one.
pub open spec fn group_answers(group: Seq<VecNode>, hash: Seq<u64>, upper: Threshold, lower: Threshold) -> bool {
    let m = matching_slots(group[0].hash@, hash) as int;
    ||| reaches(m, upper)
    ||| (reaches(m, lower) && exists|j: int|
        0 <= j < group.len() && reaches(matching_slots(#[trigger] group[j].hash@, hash) as int, upper))
}

proof fn lemma_first_close_member(group: Seq<VecNode>, hash: Seq<u64>, upper: Threshold, j: int)
    requires
        0 <= j,
    ensures
        first_close_member(group, hash, upper, j) < group.len() ==> (j <= first_close_member(group, hash, upper, j)
            && reaches(matching_slots(group[first_close_member(group, hash, upper, j)].hash@, hash) as int, upper)),
        (exists|i: int| j <= i < group.len() && reaches(matching_slots(#[trigger] group[i].hash@, hash) as int, upper))
            ==> first_close_member(group, hash, upper, j) < group.len(),
    decreases group.len() - j,
{
    if j < group.len() {
        lemma_first_close_member(group, hash, upper, j + 1);
        if exists|i: int| j <= i < group.len() && reaches(matching_slots(#[trigger] group[i].hash@, hash) as int, upper) {
            let i = choose|i: int| j <= i < group.len() && reaches(matching_slots(#[trigger] group[i].hash@, hash) as int, upper);
            if i > j {
                assert(j + 1 <= i < group.len());
            }
        }
    }
}

proof fn lemma_scan_answer_from(
    g: Seq<Seq<VecNode>>,
    hash: Seq<u64>,
    upper: Threshold,
    lower: Threshold,
    num_hashes: usize,
    i: int,
)
    requires
        0 <= i,
    ensures
        (scan_groups(g, hash, upper, lower, num_hashes, i) is None) <==> (forall|k: int|
            i <= k < g.len() ==> !group_answers(#[trigger] g[k], hash, upper, lower)),
        scan_groups(g, hash, upper, lower, num_hashes, i) matches Some((index, comp)) ==> exists|k: int|
            i <= k < g.len() && #[trigger] group_answers(g[k], hash, upper, lower)
            && (forall|l: int| i <= l < k ==> !group_answers(#[trigger] g[l], hash, upper, lower))
            && comp == (Fraction { num: matching_slots(g[k][0].hash@, hash) as usize, den: num_hashes })
            && ((reaches(matching_slots(g[k][0].hash@, hash) as int, upper) && index == k)
            || (!reaches(matching_slots(g[k][0].hash@, hash) as int, upper)
                && reaches(matching_slots(g[k][0].hash@, hash) as int, lower)
                && 0 <= index < g[k].len()
                && reaches(matching_slots(g[k][index].hash@, hash) as int, upper))),
    decreases g.len() - i,
{
    if i < g.len() {
        lemma_scan_answer_from(g, hash, upper, lower, num_hashes, i + 1);
        lemma_matching_fits(g[i][0], hash);
        lemma_first_close_member(g[i], hash, upper, 0);
        let m = matching_slots(g[i][0].hash@, hash) as int;
        if group_answers(g[i], hash, upper, lower) {
            if !reaches(m, upper) {
                let j = choose|j: int| 0 <= j < g[i].len() && reaches(matching_slots(#[trigger] g[i][j].hash@, hash) as int, upper);
                assert(0 <= j < g[i].len());
            }
            assert(scan_groups(g, hash, upper, lower, num_hashes, i) is Some);
            if let Some((index, comp)) = scan_groups(g, hash, upper, lower, num_hashes, i) {
                assert(group_answers(g[i], hash, upper, lower));
                assert(forall|l: int| i <= l < i ==> !group_answers(#[trigger] g[l], hash, upper, lower));
                assert(comp == (Fraction { num: matching_slots(g[i][0].hash@, hash) as usize, den: num_hashes }));
            }
        } else {
            if exists|j: int| 0 <= j < g[i].len() && reaches(matching_slots(#[trigger] g[i][j].hash@, hash) as int, upper) {
            }
            assert(scan_groups(g, hash, upper, lower, num_hashes, i) == scan_groups(g, hash, upper, lower, num_hashes, i + 1));
            if let Some((index, comp)) = scan_groups(g, hash, upper, lower, num_hashes, i) {
                let k = choose|k: int| i + 1 <= k < g.len() && #[trigger] group_answers(g[k], hash, upper, lower)
                    && (forall|l: int| i + 1 <= l < k ==> !group_answers(#[trigger] g[l], hash, upper, lower))
                    && comp == (Fraction { num: matching_slots(g[k][0].hash@, hash) as usize, den: num_hashes })
                    && ((reaches(matching_slots(g[k][0].hash@, hash) as int, upper) && index == k)
                    || (!reaches(matching_slots(g[k][0].hash@, hash) as int, upper)
                        && reaches(matching_slots(g[k][0].hash@, hash) as int, lower)
                        && 0 <= index < g[k].len()
                        && reaches(matching_slots(g[k][index].hash@, hash) as int, upper)));
                assert(forall|l: int| i <= l < k ==> !group_answers(#[trigger] g[l], hash, upper, lower));
            }
        }
    }
}

/// The record is placed by the first group that answers: when `place_node` answers
/// `(index, comp)`, some group `k` answers while no group before it does, `comp` is the
/// record's similarity to the first record of group `k`, and either that similarity reaches
/// the upper threshold and `index` is `k`, or it reaches only the lower threshold and `index`
/// is the position within group `k` of a record whose similarity to the record reaches the
/// upper threshold. When no group answers, `place_node` answers nothing; in particular a
/// group whose first record reaches neither threshold never answers.
pub proof fn lemma_place_node_answer(
    g: Seq<Seq<VecNode>>,
    hash: Seq<u64>,
    upper: Threshold,
    lower: Threshold,
    num_hashes: usize,
)
    ensures
        (scan_groups(g, hash, upper, lower, num_hashes, 0) is None) <==> (forall|k: int|
            0 <= k < g.len() ==> !group_answers(#[trigger] g[k], hash, upper, lower)),
        forall|k: int|
            0 <= k < g.len() && !reaches(matching_slots(g[k][0].hash@, hash) as int, lower) && !reaches(
                matching_slots(g[k][0].hash@, hash) as int,
                upper,
            ) ==> !group_answers(#[trigger] g[k], hash, upper, lower),
        scan_groups(g, hash, upper, lower, num_hashes, 0) matches Some((index, comp)) ==> exists|k: int|
            0 <= k < g.len() && #[trigger] group_answers(g[k], hash, upper, lower)
            && (forall|l: int| 0 <= l < k ==> !group_answers(#[trigger] g[l], hash, upper, lower))
            && comp == (Fraction { num: matching_slots(g[k][0].hash@, hash) as usize, den: num_hashes })
            && ((reaches(matching_slots(g[k][0].hash@, hash) as int, upper) && index == k)
            || (!reaches(matching_slots(g[k][0].hash@, hash) as int, upper)
                && reaches(matching_slots(g[k][0].hash@, hash) as int, lower)
                && 0 <= index < g[k].len()
                && reaches(matching_slots(g[k][index].hash@, hash) as int, upper))),
{
    lemma_scan_answer_from(g, hash, upper, lower, num_hashes, 0);
}

proof fn lemma_total_records_prefix(g: Seq<Seq<VecNode>>, k: int)
    requires
        0 <= k <= g.len(),
    ensures
        total_records(g.subrange(0, k)) <= total_records(g),
        k < g.len() ==> total_records(g.subrange(0, k + 1)) == total_records(g.subrange(0, k)) + g[k].len(),
    decreases g.len(),
{
    if k < g.len() {
        assert(g.subrange(0, k + 1).drop_last() =~= g.subrange(0, k));
        let rest = g.drop_last();
        if k < g.len() - 1 {
            lemma_total_records_prefix(rest, k + 1);
            assert(rest.subrange(0, k + 1) =~= g.subrange(0, k + 1));
        } else {
            assert(g.subrange(0, k + 1) =~= g);
        }
    } else {
        assert(g.subrange(0, k) =~= g);
    }
}

/// Every record gives exactly one output row, in group order: the row of record `j` of group
/// `k` comes after the rows of all records of the groups before `k`, and carries that record's
/// id, index, data, name and similarity, and the group number `k`.
pub proof fn lemma_output_rows_match_records(g: Seq<Seq<VecNode>>)
    ensures
        vec_outputs(g).len() == total_records(g),
        forall|k: int, j: int|
            0 <= k < g.len() && 0 <= j < g[k].len() ==> vec_outputs(g)[total_records(g.subrange(0, k)) + j]
                == (VecOutputStore {
                id: (#[trigger] g[k][j]).id,
                idx: g[k][j].idx,
                data: g[k][j].data,
                data_name: g[k][j].data_name,
                hash_comp_value: g[k][j].hash_comp_value,
                group: Some(k as i32),
            }),
    decreases g.len(),
{
    lemma_vec_outputs_len(g);
    if g.len() > 0 {
        let n = g.len() as int;
        let rest = g.drop_last();
        lemma_output_rows_match_records(rest);
        lemma_vec_outputs_len(rest);
        let out = vec_outputs(g);
        assert(out == vec_outputs(rest) + vec_group_output(g[n - 1], (n - 1) as i32));
        assert forall|k: int, j: int| 0 <= k < g.len() && 0 <= j < g[k].len() implies out[total_records(g.subrange(0, k)) + j]
            == (VecOutputStore {
                id: (#[trigger] g[k][j]).id,
                idx: g[k][j].idx,
                data: g[k][j].data,
                data_name: g[k][j].data_name,
                hash_comp_value: g[k][j].hash_comp_value,
                group: Some(k as i32),
            }) by {
            if k == n - 1 {
                assert(g.subrange(0, k) =~= rest);
            } else {
                assert(g.subrange(0, k) =~= rest.subrange(0, k));
                assert(g[k] == rest[k]);
                lemma_total_records_prefix(rest, k);
                lemma_total_records_prefix(rest, k + 1);
                assert(rest[k] == rest[k]);
            }
        }
    }
}

} // verus!
