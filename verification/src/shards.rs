//! Sharded roles: how work is cut, and where each part is predicted to finish first.

use std::collections::BTreeMap;
use vstd::arithmetic::div_mod::*;
use vstd::arithmetic::mul::*;
use vstd::prelude::*;

use crate::binary64::Binary64;
use crate::ids::{ObjectId, ResourceId, TaskId};
use crate::jobs::{
    AutoShardModel, AutoShardPolicy, LogicalRoleModel, LogicalRoleSpec, PartitionModel,
    ShardPartitionSpec, ShardPolicy, ShardPolicyModel, ShardPolicySpec,
};
use crate::objects::{ObjectMetadata, ObjectModel};
use crate::resources::{ResourceDescriptor, ResourceModel};
use crate::scheduler::{PlacementBreakdown, TopologyAwareScheduler};
use crate::tasks::{
    CostHint, TaskModel, TaskShard, TaskShardPartition, TaskSpec, TaskTemplate, TemplateModel,
};
use crate::topology::{LinkProfile, TopologySnapshot};
use crate::validation::object_at;

verus! {

broadcast use vstd::std_specs::btree::group_btree_axioms;

/// What placement decisions look at.
pub struct ContextModel {
    pub risk_multiplier: Binary64,
    pub resources: Seq<ResourceModel>,
    pub objects: Map<u128, ObjectModel>,
    pub links: Seq<LinkProfile>,
}

impl ContextModel {
    /// The predicted cost of a task on a resource that can run it.
    pub open spec fn placed(self, task: TaskModel, resource: ResourceModel) -> Option<PlacementBreakdown> {
        crate::scheduler::placed(self.risk_multiplier, task, resource, self.objects, self.links)
    }
}

pub struct ShardPlanningContext<'a> {
    pub scheduler: &'a TopologyAwareScheduler,
    pub resources: &'a Vec<ResourceDescriptor>,
    pub objects: &'a BTreeMap<u128, ObjectMetadata>,
    pub topology: &'a TopologySnapshot,
}

impl<'a> View for ShardPlanningContext<'a> {
    type V = ContextModel;

    open spec fn view(&self) -> ContextModel {
        ContextModel {
            risk_multiplier: self.scheduler.risk_multiplier,
            resources: crate::text::views(self.resources@),
            objects: crate::collections::modeled(self.objects@),
            links: self.topology@,
        }
    }
}

/// One shard of a role, with the implementation and resource that were chosen for it.
pub struct ReadyShardSelection {
    pub index: u32,
    pub implementation: String,
    pub task: TaskSpec,
    pub resource_id: ResourceId,
    pub start_ms: Binary64,
    pub cost: PlacementBreakdown,
}

pub struct ShardChoice {
    pub index: u32,
    pub implementation: Seq<char>,
    pub task: TaskModel,
    pub resource_id: ResourceId,
    pub start_ms: Binary64,
    pub cost: PlacementBreakdown,
}

impl View for ReadyShardSelection {
    type V = ShardChoice;

    open spec fn view(&self) -> ShardChoice {
        ShardChoice {
            index: self.index,
            implementation: self.implementation@,
            task: self.task@,
            resource_id: self.resource_id,
            start_ms: self.start_ms,
            cost: self.cost,
        }
    }
}

impl ShardChoice {
    /// The same choice for a task of a given identity.
    pub open spec fn named(self, id: TaskId) -> ShardChoice {
        ShardChoice { task: TaskModel { id, ..self.task }, ..self }
    }

    pub open spec fn finish(self) -> Binary64 {
        self.start_ms.sum(self.cost.total_ms)
    }

    /// Finishes earlier, or at the same time at a lower cost.
    pub open spec fn better(self, current: ShardChoice) -> bool {
        ||| self.finish().total_rank() < current.finish().total_rank()
        ||| self.finish().total_rank() == current.finish().total_rank() && self.cost.total_ms.less(
            current.cost.total_ms,
        )
    }
}

impl ReadyShardSelection {
    /// When the shard is predicted to finish.
    pub fn finish_ms(&self) -> (r: Binary64)
        ensures
            r == self@.finish(),
    {
        self.start_ms.add(self.cost.total_ms)
    }
}

/// A selection is a given choice, up to the identity of its task.
pub open spec fn is_choice(selection: Option<ReadyShardSelection>, choice: Option<ShardChoice>) -> bool {
    match selection {
        Some(s) => choice matches Some(c) && s@ == c.named(s.task.id),
        None => choice is None,
    }
}

/// Selections are given choices, up to the identities of their tasks.
pub open spec fn are_choices(selections: Seq<ReadyShardSelection>, choices: Seq<ShardChoice>) -> bool {
    &&& selections.len() == choices.len()
    &&& forall|k: int|
        0 <= k < choices.len() ==> (#[trigger] selections[k])@ == choices[k].named(
            selections[k].task.id,
        )
}

/// The stand-in for the identity of a task that is only considered.
pub open spec fn anonymous() -> TaskId {
    TaskId(0)
}

/// Where part `index` of `count` begins.
pub open spec fn part_start(total: nat, index: nat, count: nat) -> nat {
    total * index / count
}

/// The offset and length of part `index` of `count` equal parts of a whole.
pub fn partition_bounds(total: u64, index: u32, count: u32) -> (r: (u64, u64))
    requires
        index < count,
    ensures
        r.0 == part_start(total as nat, index as nat, count as nat),
        r.0 + r.1 == part_start(total as nat, (index + 1) as nat, count as nat),
        r.0 + r.1 <= total,
{
    proof {
        lemma_part_start(total as nat, index as nat, count as nat);
        let limit: nat = 0xffff_ffff_ffff_ffff * 0xffff_ffff;
        assert(total * (index + 1) <= limit) by (nonlinear_arith)
            requires
                0 <= total <= 0xffff_ffff_ffff_ffff,
                0 <= index + 1 <= 0xffff_ffff,
                limit == 0xffff_ffff_ffff_ffff * 0xffff_ffff,
        ;
        assert(0 <= total * index <= total * (index + 1)) by (nonlinear_arith);
    }
    let start: u64 = (total as u128 * index as u128 / count as u128) as u64;
    let end: u64 = (total as u128 * (index as u128 + 1) / count as u128) as u64;
    (start, end - start)
}

proof fn lemma_part_start(total: nat, index: nat, count: nat)
    requires
        index < count,
    ensures
        part_start(total, index, count) <= part_start(total, (index + 1) as nat, count) <= total,
{
    assert(total * index <= total * (index + 1)) by (nonlinear_arith);
    lemma_div_is_ordered((total * index) as int, (total * (index + 1)) as int, count as int);
    assert(total * (index + 1) <= total * count) by (nonlinear_arith)
        requires
            index + 1 <= count,
    ;
    lemma_div_is_ordered((total * (index + 1)) as int, (total * count) as int, count as int);
    lemma_div_by_multiple(total as int, count as int);
}

/// The parts of a whole cover it in order, without gap or overlap: the first begins at the start,
/// each begins where the one before ends, and the last ends at the end.
pub proof fn law_parts_tile_the_whole(total: nat, count: nat)
    requires
        count > 0,
    ensures
        part_start(total, 0, count) == 0,
        part_start(total, count, count) == total,
        forall|i: nat|
            i < count ==> #[trigger] part_start(total, i, count) <= part_start(
                total,
                (i + 1) as nat,
                count,
            ) <= total,
{
    assert(total * 0 == 0);
    lemma_div_by_multiple(total as int, count as int);
    lemma_fundamental_div_mod_converse(0, count as int, 0, 0);
    assert forall|i: nat| i < count implies #[trigger] part_start(total, i, count) <= part_start(
        total,
        (i + 1) as nat,
        count,
    ) <= total by {
        lemma_part_start(total, i, count);
    }
}

/// The parts of a whole are of equal size, up to one.
pub proof fn law_parts_are_balanced(total: nat, index: nat, count: nat)
    requires
        index < count,
    ensures
        ({
            let length = part_start(total, (index + 1) as nat, count) - part_start(total, index, count);
            total / count <= length <= total / count + 1
        }),
{
    let c = count as int;
    let a = (total * index) as int;
    let t = total as int;
    assert(total * (index + 1) == a + t) by (nonlinear_arith)
        requires
            a == total * index,
            t == total,
    ;
    lemma_fundamental_div_mod(a, c);
    lemma_fundamental_div_mod(t, c);
    lemma_fundamental_div_mod(a + t, c);
    let qa = a / c;
    let qt = t / c;
    let qs = (a + t) / c;
    assert(qs - qa >= qt && qs - qa <= qt + 1) by (nonlinear_arith)
        requires
            a == c * qa + a % c,
            t == c * qt + t % c,
            a + t == c * qs + (a + t) % c,
            0 <= a % c < c,
            0 <= t % c < c,
            0 <= (a + t) % c < c,
            c > 0,
    ;
}

/// The object that a template offers for partitioning.
pub open spec fn partition_object(template: TemplateModel, partition: PartitionModel) -> Option<ObjectId> {
    crate::validation::input_at(template.inputs, partition.position() as int)
}

/// The size of the object that a role partitions, if it is known.
pub open spec fn partition_size(
    role: LogicalRoleModel,
    partition: PartitionModel,
    objects: Map<u128, ObjectModel>,
) -> Option<u64> {
    if role.implementations.len() == 0 {
        None
    } else {
        match partition_object(role.implementations[0].task, partition) {
            Some(id) => if objects.contains_key(id.0) {
                Some(objects[id.0].size_bytes)
            } else {
                None
            },
            None => None,
        }
    }
}

/// How much there is to be cut, in bytes or in records, if the object is known.
pub open spec fn partition_units(
    role: LogicalRoleModel,
    partition: PartitionModel,
    objects: Map<u128, ObjectModel>,
) -> Option<u64> {
    match partition_size(role, partition, objects) {
        None => None,
        Some(bytes) => match partition {
            PartitionModel::ByteRange { .. } => Some(bytes),
            PartitionModel::Records { offsets, .. } => if offsets.len() > 0 {
                Some((offsets.len() - 1) as u64)
            } else {
                None
            },
        },
    }
}

/// The records from one to before another of an object of a size, by the offsets of its records;
/// `None` where the offsets are not those of such an object.
pub open spec fn record_span(
    input: usize,
    offsets: Seq<u64>,
    first: nat,
    end: nat,
    total_bytes: u64,
) -> Option<TaskShardPartition> {
    if offsets.len() == 0 || offsets.last() != total_bytes || offsets[first as int] > offsets[end as int] {
        None
    } else {
        Some(
            TaskShardPartition::Records {
                input,
                first_record: first as u64,
                record_count: (end - first) as u64,
                total_records: (offsets.len() - 1) as u64,
                offset: offsets[first as int],
                length: (offsets[end as int] - offsets[first as int]) as u64,
                total_bytes,
            },
        )
    }
}

/// The part of the partitioned input that a shard works on.
pub open spec fn shard_part(
    template: TemplateModel,
    partition: PartitionModel,
    index: u32,
    count: u32,
    objects: Map<u128, ObjectModel>,
) -> Option<TaskShardPartition> {
    match partition_object(template, partition) {
        Some(id) if objects.contains_key(id.0) => {
            let total = objects[id.0].size_bytes;
            match partition {
                PartitionModel::ByteRange { input } => {
                    let start = part_start(total as nat, index as nat, count as nat);
                    let end = part_start(total as nat, (index + 1) as nat, count as nat);
                    Some(
                        TaskShardPartition::ByteRange {
                            input,
                            offset: start as u64,
                            length: (end - start) as u64,
                            total_bytes: total,
                        },
                    )
                },
                PartitionModel::Records { input, offsets } => {
                    let records = (offsets.len() - 1) as nat;
                    let first = part_start(records, index as nat, count as nat);
                    let end = part_start(records, (index + 1) as nat, count as nat);
                    record_span(input, offsets, first, end, total)
                },
            }
        },
        _ => None,
    }
}

/// The share of a cost that a part carries: compute by the fraction of the work, plus the overhead
/// of a shard; output bytes by the position of the part.
pub open spec fn share_cost(cost: CostHint, share: (u64, u64, u64), overhead_ms: Binary64) -> CostHint {
    let (start, amount, total) = share;
    let fraction = if total == 0 {
        Binary64::nearest_to(1)
    } else {
        Binary64::nearest_to(amount as nat).quotient(Binary64::nearest_to(total as nat))
    };
    let output = if total == 0 {
        cost.output_bytes as int
    } else {
        cost.output_bytes * (start + amount) / total as int - cost.output_bytes * start / total as int
    };
    CostHint {
        compute_ms_on_reference: cost.compute_ms_on_reference.product(fraction).sum(overhead_ms),
        output_bytes: output as u64,
    }
}

/// The task of one shard.
pub open spec fn shard_task(
    template: TemplateModel,
    dependency_inputs: Seq<ObjectId>,
    index: u32,
    count: u32,
    auto_policy: Option<AutoShardModel>,
    objects: Map<u128, ObjectModel>,
    id: TaskId,
) -> Option<TaskModel> {
    let task = template.instantiated(dependency_inputs, id);
    match auto_policy {
        Some(policy) => match shard_part(template, policy.partition, index, count, objects) {
            Some(part) => Some(
                TaskModel {
                    cost: share_cost(task.cost, part.share(), policy.per_shard_overhead_ms),
                    shard: Some(TaskShard { index, count, partition: Some(part) }),
                    ..task
                },
            ),
            None => None,
        },
        None => Some(
            TaskModel { shard: Some(TaskShard { index, count, partition: None }), ..task },
        ),
    }
}

pub fn partition_object_id(template: &TaskTemplate, partition: &ShardPartitionSpec) -> (r: Option<ObjectId>)
    ensures
        r == partition_object(template@, partition@),
{
    object_at(&template.inputs, partition.input())
}

pub fn partition_object_size(
    role: &LogicalRoleSpec,
    partition: &ShardPartitionSpec,
    objects: &BTreeMap<u128, ObjectMetadata>,
) -> (r: Option<u64>)
    ensures
        r == partition_size(role@, partition@, crate::collections::modeled(objects@)),
{
    if role.implementations.len() == 0 {
        return None;
    }
    assert(role@.implementations[0] == role.implementations@[0]@);
    match partition_object_id(&role.implementations[0].task, partition) {
        Some(id) => match objects.get(&id.0) {
            Some(object) => Some(object.size_bytes),
            None => None,
        },
        None => None,
    }
}

fn count_units(
    role: &LogicalRoleSpec,
    partition: &ShardPartitionSpec,
    objects: &BTreeMap<u128, ObjectMetadata>,
) -> (r: Option<u64>)
    ensures
        r == partition_units(role@, partition@, crate::collections::modeled(objects@)),
{
    match partition_object_size(role, partition, objects) {
        None => None,
        Some(bytes) => match partition {
            ShardPartitionSpec::ByteRange { .. } => Some(bytes),
            ShardPartitionSpec::Records { offsets, .. } => if offsets.len() > 0 {
                Some((offsets.len() - 1) as u64)
            } else {
                None
            },
        },
    }
}

fn cut_records(input: usize, offsets: &Vec<u64>, index: u32, count: u32, total_bytes: u64) -> (r: Option<
    TaskShardPartition,
>)
    requires
        index < count,
    ensures
        r == record_span(
            input,
            offsets@,
            part_start((offsets@.len() - 1) as nat, index as nat, count as nat),
            part_start((offsets@.len() - 1) as nat, (index + 1) as nat, count as nat),
            total_bytes,
        ),
        r matches Some(part) ==> part.share().0 + part.share().1 <= part.share().2,
{
    let length: usize = offsets.len();
    if length == 0 || offsets[length - 1] != total_bytes {
        return None;
    }
    let total_records: u64 = (length - 1) as u64;
    let (first_record, record_count) = partition_bounds(total_records, index, count);
    let first: usize = first_record as usize;
    let end: usize = (first_record + record_count) as usize;
    if offsets[first] > offsets[end] {
        return None;
    }
    Some(
        TaskShardPartition::Records {
            input,
            first_record,
            record_count,
            total_records,
            offset: offsets[first],
            length: offsets[end] - offsets[first],
            total_bytes,
        },
    )
}

pub fn concrete_partition(
    template: &TaskTemplate,
    partition: &ShardPartitionSpec,
    index: u32,
    count: u32,
    objects: &BTreeMap<u128, ObjectMetadata>,
) -> (r: Option<TaskShardPartition>)
    requires
        index < count,
    ensures
        r == shard_part(template@, partition@, index, count, crate::collections::modeled(objects@)),
        r matches Some(part) ==> part.share().0 + part.share().1 <= part.share().2,
{
    match partition_object_id(template, partition) {
        Some(id) => match objects.get(&id.0) {
            Some(object) => match partition {
                ShardPartitionSpec::ByteRange { input } => {
                    let total_bytes: u64 = object.size_bytes;
                    let (offset, length) = partition_bounds(total_bytes, index, count);
                    Some(
                        TaskShardPartition::ByteRange { input: *input, offset, length, total_bytes },
                    )
                },
                ShardPartitionSpec::Records { input, offsets } => cut_records(
                    *input,
                    offsets,
                    index,
                    count,
                    object.size_bytes,
                ),
            },
            None => None,
        },
        None => None,
    }
}

proof fn lemma_output_share(output: nat, position: nat, total: nat)
    requires
        position <= total,
        total > 0,
    ensures
        output * position / total <= output,
{
    assert(output * position <= output * total) by (nonlinear_arith)
        requires
            position <= total,
    ;
    lemma_div_is_ordered((output * position) as int, (output * total) as int, total as int);
    lemma_div_by_multiple(output as int, total as int);
}

/// The share of a cost that falls on one part.
pub fn scale_auto_shard_cost(cost: &CostHint, part: &TaskShardPartition, policy: &AutoShardPolicy) -> (r: CostHint)
    requires
        part.share().0 + part.share().1 <= part.share().2,
    ensures
        r == share_cost(*cost, part.share(), policy.per_shard_overhead_ms),
{
    let (start, amount, total) = part.work();
    let fraction = if total == 0 {
        Binary64::from_u64(1)
    } else {
        Binary64::from_u64(amount).div(Binary64::from_u64(total))
    };
    let compute_ms_on_reference = cost.compute_ms_on_reference.mul(fraction).add(
        policy.per_shard_overhead_ms,
    );
    if total == 0 {
        return CostHint { compute_ms_on_reference, output_bytes: cost.output_bytes };
    }
    let output: u64 = cost.output_bytes;
    proof {
        let limit: nat = 0xffff_ffff_ffff_ffff * 0xffff_ffff_ffff_ffff;
        assert(0 <= output * start <= output * (start + amount) <= limit) by (nonlinear_arith)
            requires
                0 <= output <= 0xffff_ffff_ffff_ffff,
                0 <= start <= start + amount <= 0xffff_ffff_ffff_ffff,
                limit == 0xffff_ffff_ffff_ffff * 0xffff_ffff_ffff_ffff,
        ;
        lemma_output_share(output as nat, (start + amount) as nat, total as nat);
        lemma_output_share(output as nat, start as nat, total as nat);
        lemma_div_is_ordered(output * start, output * (start + amount), total as int);
    }
    let output_start: u64 = (output as u128 * start as u128 / total as u128) as u64;
    let output_end: u64 = (output as u128 * (start + amount) as u128 / total as u128) as u64;
    CostHint { compute_ms_on_reference, output_bytes: output_end - output_start }
}

/// The task of one shard, under a given identity.
pub fn instantiate_shard_task(
    template: &TaskTemplate,
    dependency_inputs: &Vec<ObjectId>,
    index: u32,
    count: u32,
    auto_policy: Option<&AutoShardPolicy>,
    objects: &BTreeMap<u128, ObjectMetadata>,
    id: TaskId,
) -> (r: Option<TaskSpec>)
    requires
        index < count,
    ensures
        crate::text::view_of(r) == shard_task(
            template@,
            dependency_inputs@,
            index,
            count,
            crate::text::view_of(auto_policy),
            crate::collections::modeled(objects@),
            id,
        ),
{
    let mut task = template.instantiate_as(dependency_inputs, id);
    let partition = match auto_policy {
        Some(policy) => match concrete_partition(template, &policy.partition, index, count, objects) {
            Some(part) => {
                task.cost = scale_auto_shard_cost(&task.cost, &part, policy);
                Some(part)
            },
            None => {
                return None;
            },
        },
        None => None,
    };
    task.shard = Some(TaskShard { index, count, partition });
    Some(task)
}

/// The output bytes of the first `n` of `count` shards of some work together.
pub open spec fn outputs_of_shards(cost: CostHint, total: u64, count: u32, n: nat) -> nat
    decreases n,
{
    if n == 0 {
        0
    } else {
        let start = part_start(total as nat, (n - 1) as nat, count as nat);
        let end = part_start(total as nat, n, count as nat);
        outputs_of_shards(cost, total, count, (n - 1) as nat) + share_cost(
            cost,
            (start as u64, (end - start) as u64, total),
            Binary64 { bits: 0 },
        ).output_bytes as nat
    }
}

/// The shards of a partitioned input together put out what the whole would.
pub proof fn law_shard_outputs_add_up(cost: CostHint, total: u64, count: u32)
    requires
        total > 0,
        count > 0,
    ensures
        outputs_of_shards(cost, total, count, count as nat) == cost.output_bytes,
{
    lemma_outputs_of_shards(cost, total, count, count as nat);
    law_parts_tile_the_whole(total as nat, count as nat);
    lemma_div_by_multiple(cost.output_bytes as int, total as int);
}

proof fn lemma_outputs_of_shards(cost: CostHint, total: u64, count: u32, n: nat)
    requires
        total > 0,
        n <= count,
        count > 0,
    ensures
        outputs_of_shards(cost, total, count, n) == cost.output_bytes * part_start(
            total as nat,
            n,
            count as nat,
        ) / total as int,
    decreases n,
{
    law_parts_tile_the_whole(total as nat, count as nat);
    let output = cost.output_bytes as nat;
    if n == 0 {
        assert(output * 0 == 0) by (nonlinear_arith);
        lemma_fundamental_div_mod_converse(0, total as int, 0, 0);
    } else {
        let m = (n - 1) as nat;
        lemma_outputs_of_shards(cost, total, count, m);
        lemma_part_start(total as nat, m, count as nat);
        let start = part_start(total as nat, m, count as nat);
        let end = part_start(total as nat, n, count as nat);
        assert(output * start <= output * end) by (nonlinear_arith)
            requires
                start <= end,
        ;
        lemma_div_is_ordered((output * start) as int, (output * end) as int, total as int);
        lemma_output_share(output, end, total as nat);
    }
}

/// Shards of records have whole records, and cover an object in order without gap or overlap: the
/// first begins at its start, each begins where the one before ends, and the last ends at its end.
pub proof fn law_record_shards_tile_the_object(
    input: usize,
    offsets: Seq<u64>,
    index: nat,
    count: nat,
    total_bytes: u64,
)
    requires
        crate::validation::record_index(offsets),
        offsets.last() == total_bytes,
        offsets.len() <= u64::MAX,
        index < count,
    ensures
        ({
            let records = (offsets.len() - 1) as nat;
            let first = part_start(records, index, count);
            let end = part_start(records, (index + 1) as nat, count);
            &&& first <= end < offsets.len()
            &&& record_span(input, offsets, first, end, total_bytes) matches Some(part)
            &&& part.bytes().0 == offsets[first as int]
            &&& part.bytes().0 + part.bytes().1 == offsets[end as int]
            &&& index == 0 ==> part.bytes().0 == 0
            &&& index + 1 == count ==> part.bytes().0 + part.bytes().1 == total_bytes
            &&& index + 1 < count ==> (record_span(
                input,
                offsets,
                end,
                part_start(records, (index + 2) as nat, count),
                total_bytes,
            ) matches Some(next) && next.bytes().0 == part.bytes().0 + part.bytes().1)
        }),
{
    let records = (offsets.len() - 1) as nat;
    law_parts_tile_the_whole(records, count);
    lemma_part_start(records, index, count);
    if index + 1 < count {
        lemma_part_start(records, (index + 1) as nat, count);
    }
}

/// When a resource is predicted to be free.
pub open spec fn free_at(availability: Map<u128, Binary64>, resource: ResourceId) -> Binary64 {
    if availability.contains_key(resource.0) {
        availability[resource.0]
    } else {
        Binary64 { bits: 0 }
    }
}

/// The better of a choice and of running a task on one of the first `m` resources.
pub open spec fn best_resource(
    context: ContextModel,
    index: u32,
    implementation: Seq<char>,
    task: TaskModel,
    ready_ms: Binary64,
    availability: Map<u128, Binary64>,
    best: Option<ShardChoice>,
    m: nat,
) -> Option<ShardChoice>
    decreases m,
{
    if m == 0 {
        best
    } else {
        let before = best_resource(
            context,
            index,
            implementation,
            task,
            ready_ms,
            availability,
            best,
            (m - 1) as nat,
        );
        let resource = context.resources[m - 1];
        match context.placed(task, resource) {
            None => before,
            Some(cost) => {
                let candidate = ShardChoice {
                    index,
                    implementation,
                    task,
                    resource_id: resource.id,
                    start_ms: ready_ms.maximum(free_at(availability, resource.id)),
                    cost,
                };
                match before {
                    Some(current) if !candidate.better(current) => before,
                    _ => Some(candidate),
                }
            },
        }
    }
}

/// The best choice for one shard among the first `k` implementations; `None` where the part of one
/// of them cannot be determined.
pub open spec fn best_shard(
    context: ContextModel,
    role: LogicalRoleModel,
    dependency_inputs: Seq<ObjectId>,
    index: u32,
    count: u32,
    auto_policy: Option<AutoShardModel>,
    ready_ms: Binary64,
    availability: Map<u128, Binary64>,
    k: nat,
) -> Option<Option<ShardChoice>>
    decreases k,
{
    if k == 0 {
        Some(None)
    } else {
        match best_shard(
            context,
            role,
            dependency_inputs,
            index,
            count,
            auto_policy,
            ready_ms,
            availability,
            (k - 1) as nat,
        ) {
            None => None,
            Some(best) => {
                let implementation = role.implementations[k - 1];
                match shard_task(
                    implementation.task,
                    dependency_inputs,
                    index,
                    count,
                    auto_policy,
                    context.objects,
                    anonymous(),
                ) {
                    None => None,
                    Some(task) => Some(
                        best_resource(
                            context,
                            index,
                            implementation.name,
                            task,
                            ready_ms,
                            availability,
                            best,
                            context.resources.len(),
                        ),
                    ),
                }
            },
        }
    }
}

/// The first shards of a role and the predicted availability of resources after them.
pub struct ShardPlanModel {
    pub choices: Seq<ShardChoice>,
    pub availability: Map<u128, Binary64>,
}

/// The first `n` of `count` shards, chosen one after the other.
pub open spec fn chosen_shards(
    context: ContextModel,
    role: LogicalRoleModel,
    dependency_inputs: Seq<ObjectId>,
    count: u32,
    auto_policy: Option<AutoShardModel>,
    ready_ms: Binary64,
    availability: Map<u128, Binary64>,
    n: nat,
) -> Option<ShardPlanModel>
    decreases n,
{
    if n == 0 {
        Some(ShardPlanModel { choices: Seq::empty(), availability })
    } else {
        match chosen_shards(
            context,
            role,
            dependency_inputs,
            count,
            auto_policy,
            ready_ms,
            availability,
            (n - 1) as nat,
        ) {
            None => None,
            Some(before) => match best_shard(
                context,
                role,
                dependency_inputs,
                (n - 1) as u32,
                count,
                auto_policy,
                ready_ms,
                before.availability,
                role.implementations.len(),
            ) {
                Some(Some(choice)) => Some(
                    ShardPlanModel {
                        choices: before.choices.push(choice),
                        availability: before.availability.insert(
                            choice.resource_id.0,
                            choice.finish(),
                        ),
                    },
                ),
                _ => None,
            },
        }
    }
}

/// The shards of a role and the predicted availability of resources after them.
pub struct ShardPlan {
    pub selections: Vec<ReadyShardSelection>,
    pub availability: BTreeMap<u128, Binary64>,
}

/// A shard plan is a given one, up to the identities of the tasks.
pub open spec fn is_plan(plan: Option<ShardPlan>, model: Option<ShardPlanModel>) -> bool {
    match plan {
        Some(p) => model matches Some(m) && are_choices(p.selections@, m.choices) && p.availability@
            == m.availability,
        None => model is None,
    }
}

/// Compares a task on every resource with the best choice so far.
pub(crate) fn consider_task(
    context: &ShardPlanningContext,
    index: u32,
    implementation: &String,
    task: &TaskSpec,
    ready_ms: Binary64,
    availability: &BTreeMap<u128, Binary64>,
    best: Option<ReadyShardSelection>,
    Ghost(choice): Ghost<Option<ShardChoice>>,
) -> (r: Option<ReadyShardSelection>)
    requires
        is_choice(best, choice),
    ensures
        is_choice(
            r,
            best_resource(
                context@,
                index,
                implementation@,
                (TaskModel { id: anonymous(), ..task@ }),
                ready_ms,
                availability@,
                choice,
                context@.resources.len(),
            ),
        ),
{
    let ghost model = TaskModel { id: anonymous(), ..task@ };
    let mut best = best;
    let mut m: usize = 0;
    while m < context.resources.len()
        invariant
            m <= context.resources@.len(),
            model == (TaskModel { id: anonymous(), ..task@ }),
            is_choice(
                best,
                best_resource(
                    context@,
                    index,
                    implementation@,
                    model,
                    ready_ms,
                    availability@,
                    choice,
                    m as nat,
                ),
            ),
        decreases context.resources@.len() - m,
    {
        let resource = &context.resources[m];
        assert(context@.resources[m as int] == resource@);
        proof {
            lemma_identity_does_not_matter(context@, task@, anonymous(), resource@);
        }
        if let Some(cost) = context.scheduler.placement_cost(
            task,
            resource,
            context.objects,
            context.topology,
        ) {
            let free = match availability.get(&resource.id.0) {
                Some(free) => *free,
                None => Binary64::from_bits(0),
            };
            let start_ms = ready_ms.max(free);
            let finish_ms = start_ms.add(cost.total_ms);
            let replace = match &best {
                Some(current) => {
                    let current_finish = current.finish_ms();
                    finish_ms.precedes(current_finish) || (!current_finish.precedes(finish_ms)
                        && cost.total_ms.lt(current.cost.total_ms))
                },
                None => true,
            };
            if replace {
                best = Some(
                    ReadyShardSelection {
                        index,
                        implementation: implementation.clone(),
                        task: task.clone(),
                        resource_id: resource.id,
                        start_ms,
                        cost,
                    },
                );
            }
        }
        m = m + 1;
    }
    best
}

/// The cost of a task does not depend on its identity.
pub proof fn lemma_identity_does_not_matter(
    context: ContextModel,
    task: TaskModel,
    id: TaskId,
    resource: ResourceModel,
)
    ensures
        context.placed(TaskModel { id, ..task }, resource) == context.placed(task, resource),
{
    lemma_transfer_ignores_identity(
        task,
        id,
        resource.id,
        context.objects,
        context.links,
        task.inputs.len(),
    );
}

proof fn lemma_transfer_ignores_identity(
    task: TaskModel,
    id: TaskId,
    target: ResourceId,
    objects: Map<u128, ObjectModel>,
    links: Seq<LinkProfile>,
    k: nat,
)
    ensures
        crate::scheduler::transfer_of_inputs(TaskModel { id, ..task }, target, objects, links, k)
            == crate::scheduler::transfer_of_inputs(task, target, objects, links, k),
    decreases k,
{
    if k > 0 {
        lemma_transfer_ignores_identity(task, id, target, objects, links, (k - 1) as nat);
        let renamed = TaskModel { id, ..task };
        assert(renamed.byte_range(k - 1) == task.byte_range(k - 1));
    }
}

/// Chooses one shard: `None` where there is nothing to choose, or a part cannot be determined.
fn choose_shard(
    context: &ShardPlanningContext,
    role: &LogicalRoleSpec,
    dependency_inputs: &Vec<ObjectId>,
    index: u32,
    count: u32,
    auto_policy: Option<&AutoShardPolicy>,
    ready_ms: Binary64,
    availability: &BTreeMap<u128, Binary64>,
) -> (r: Option<ReadyShardSelection>)
    requires
        index < count,
    ensures
        is_choice(
            r,
            match best_shard(
                context@,
                role@,
                dependency_inputs@,
                index,
                count,
                crate::text::view_of(auto_policy),
                ready_ms,
                availability@,
                role@.implementations.len(),
            ) {
                Some(choice) => choice,
                None => None,
            },
        ),
{
    let mut best: Option<ReadyShardSelection> = None;
    let ghost mut choice: Option<ShardChoice> = None;
    let mut k: usize = 0;
    while k < role.implementations.len()
        invariant
            index < count,
            k <= role.implementations@.len(),
            is_choice(best, choice),
            best_shard(
                context@,
                role@,
                dependency_inputs@,
                index,
                count,
                crate::text::view_of(auto_policy),
                ready_ms,
                availability@,
                k as nat,
            ) == Some(choice),
        decreases role.implementations@.len() - k,
    {
        let implementation = &role.implementations[k];
        assert(role@.implementations[k as int] == implementation@);
        let id = TaskId::new();
        match instantiate_shard_task(
            &implementation.task,
            dependency_inputs,
            index,
            count,
            auto_policy,
            context.objects,
            id,
        ) {
            Some(task) => {
                best = consider_task(
                    context,
                    index,
                    &implementation.name,
                    &task,
                    ready_ms,
                    availability,
                    best,
                    Ghost(choice),
                );
                proof {
                    let anonymous_task = TaskModel { id: anonymous(), ..task@ };
                    assert(shard_task(
                        implementation@.task,
                        dependency_inputs@,
                        index,
                        count,
                        crate::text::view_of(auto_policy),
                        context@.objects,
                        anonymous(),
                    ) == Some(anonymous_task));
                    choice = best_resource(
                        context@,
                        index,
                        implementation@.name,
                        anonymous_task,
                        ready_ms,
                        availability@,
                        choice,
                        context@.resources.len(),
                    );
                }
            },
            None => {
                proof {
                    lemma_best_shard_stays_undetermined(
                        context@,
                        role@,
                        dependency_inputs@,
                        index,
                        count,
                        crate::text::view_of(auto_policy),
                        ready_ms,
                        availability@,
                        (k + 1) as nat,
                        role@.implementations.len(),
                    );
                }
                return None;
            },
        }
        k = k + 1;
    }
    best
}

proof fn lemma_best_shard_stays_undetermined(
    context: ContextModel,
    role: LogicalRoleModel,
    dependency_inputs: Seq<ObjectId>,
    index: u32,
    count: u32,
    auto_policy: Option<AutoShardModel>,
    ready_ms: Binary64,
    availability: Map<u128, Binary64>,
    i: nat,
    k: nat,
)
    requires
        best_shard(
            context,
            role,
            dependency_inputs,
            index,
            count,
            auto_policy,
            ready_ms,
            availability,
            i,
        ) is None,
        i <= k,
    ensures
        best_shard(
            context,
            role,
            dependency_inputs,
            index,
            count,
            auto_policy,
            ready_ms,
            availability,
            k,
        ) is None,
    decreases k - i,
{
    if i < k {
        lemma_best_shard_stays_undetermined(
            context,
            role,
            dependency_inputs,
            index,
            count,
            auto_policy,
            ready_ms,
            availability,
            i,
            (k - 1) as nat,
        );
    }
}

/// Chooses a given number of shards one after the other, each where it finishes first.
pub fn choose_shards(
    role: &LogicalRoleSpec,
    dependency_inputs: &Vec<ObjectId>,
    shard_count: u32,
    auto_policy: Option<&AutoShardPolicy>,
    dependency_ready_ms: Binary64,
    resource_available_ms: &BTreeMap<u128, Binary64>,
    context: &ShardPlanningContext,
) -> (r: Option<ShardPlan>)
    ensures
        is_plan(
            r,
            chosen_shards(
                context@,
                role@,
                dependency_inputs@,
                shard_count,
                crate::text::view_of(auto_policy),
                dependency_ready_ms,
                resource_available_ms@,
                shard_count as nat,
            ),
        ),
{
    let mut selections: Vec<ReadyShardSelection> = Vec::new();
    let mut availability = resource_available_ms.clone();
    let ghost mut plan = ShardPlanModel {
        choices: Seq::<ShardChoice>::empty(),
        availability: availability@,
    };
    let mut index: u32 = 0;
    while index < shard_count
        invariant
            index <= shard_count,
            are_choices(selections@, plan.choices),
            availability@ == plan.availability,
            chosen_shards(
                context@,
                role@,
                dependency_inputs@,
                shard_count,
                crate::text::view_of(auto_policy),
                dependency_ready_ms,
                resource_available_ms@,
                index as nat,
            ) == Some(plan),
        decreases shard_count - index,
    {
        match choose_shard(
            context,
            role,
            dependency_inputs,
            index,
            shard_count,
            auto_policy,
            dependency_ready_ms,
            &availability,
        ) {
            Some(selected) => {
                proof {
                    let choice = best_shard(
                        context@,
                        role@,
                        dependency_inputs@,
                        index,
                        shard_count,
                        crate::text::view_of(auto_policy),
                        dependency_ready_ms,
                        availability@,
                        role@.implementations.len(),
                    ).unwrap().unwrap();
                    plan = ShardPlanModel {
                        choices: plan.choices.push(choice),
                        availability: plan.availability.insert(choice.resource_id.0, choice.finish()),
                    };
                }
                availability.insert(selected.resource_id.0, selected.finish_ms());
                selections.push(selected);
            },
            None => {
                proof {
                    lemma_chosen_shards_stay_impossible(
                        context@,
                        role@,
                        dependency_inputs@,
                        shard_count,
                        crate::text::view_of(auto_policy),
                        dependency_ready_ms,
                        resource_available_ms@,
                        (index + 1) as nat,
                        shard_count as nat,
                    );
                }
                return None;
            },
        }
        index = index + 1;
    }
    Some(ShardPlan { selections, availability })
}

proof fn lemma_chosen_shards_stay_impossible(
    context: ContextModel,
    role: LogicalRoleModel,
    dependency_inputs: Seq<ObjectId>,
    count: u32,
    auto_policy: Option<AutoShardModel>,
    ready_ms: Binary64,
    availability: Map<u128, Binary64>,
    i: nat,
    n: nat,
)
    requires
        chosen_shards(
            context,
            role,
            dependency_inputs,
            count,
            auto_policy,
            ready_ms,
            availability,
            i,
        ) is None,
        i <= n,
    ensures
        chosen_shards(
            context,
            role,
            dependency_inputs,
            count,
            auto_policy,
            ready_ms,
            availability,
            n,
        ) is None,
    decreases n - i,
{
    if i < n {
        lemma_chosen_shards_stay_impossible(
            context,
            role,
            dependency_inputs,
            count,
            auto_policy,
            ready_ms,
            availability,
            i,
            (n - 1) as nat,
        );
    }
}

/// When the first `n` choices are all done, at the earliest at `ready_ms`.
pub open spec fn latest_finish(choices: Seq<ShardChoice>, ready_ms: Binary64, n: nat) -> Binary64
    decreases n,
{
    if n == 0 {
        ready_ms
    } else {
        latest_finish(choices, ready_ms, (n - 1) as nat).maximum(choices[n - 1].finish())
    }
}

/// The time that a role adds after its dependencies are ready.
pub open spec fn added_time(choices: Seq<ShardChoice>, ready_ms: Binary64) -> Binary64 {
    latest_finish(choices, ready_ms, choices.len()).difference(ready_ms).maximum(
        Binary64 { bits: 0 },
    )
}

/// Whether a plan that adds `candidate_ms` with `candidate_count` shards replaces one that adds
/// `current_ms` with `current_count`: a shorter one does where it gains enough, an equal one where
/// it takes fewer shards.
pub open spec fn worth_it(
    candidate_ms: Binary64,
    candidate_count: nat,
    current_ms: Binary64,
    current_count: nat,
    min_gain_ratio: Binary64,
) -> bool {
    if candidate_ms.total_rank() < current_ms.total_rank() {
        let gain_ratio = if current_ms.at_most(Binary64 { bits: 0 }) {
            Binary64 { bits: 0 }
        } else {
            current_ms.difference(candidate_ms).quotient(current_ms)
        };
        min_gain_ratio.at_most(gain_ratio)
    } else {
        candidate_ms.total_rank() == current_ms.total_rank() && candidate_count < current_count
    }
}

/// The best plan with at most `c` shards.
pub open spec fn best_count(
    context: ContextModel,
    role: LogicalRoleModel,
    dependency_inputs: Seq<ObjectId>,
    policy: AutoShardModel,
    ready_ms: Binary64,
    availability: Map<u128, Binary64>,
    c: nat,
) -> Option<ShardPlanModel>
    decreases c,
{
    if c == 0 {
        None
    } else {
        let best = best_count(
            context,
            role,
            dependency_inputs,
            policy,
            ready_ms,
            availability,
            (c - 1) as nat,
        );
        match chosen_shards(
            context,
            role,
            dependency_inputs,
            c as u32,
            Some(policy),
            ready_ms,
            availability,
            c,
        ) {
            None => best,
            Some(candidate) => match best {
                Some(current) if !worth_it(
                    added_time(candidate.choices, ready_ms),
                    candidate.choices.len(),
                    added_time(current.choices, ready_ms),
                    current.choices.len(),
                    policy.min_gain_ratio,
                ) => best,
                _ => Some(candidate),
            },
        }
    }
}

/// The most shards that a policy admits for an object: no shard without a byte or a record, and one
/// for an empty object.
pub open spec fn shard_limit(policy: AutoShardModel, units: u64) -> u32 {
    if units == 0 {
        1
    } else if units < policy.max_shards {
        units as u32
    } else {
        policy.max_shards
    }
}

/// The shards of a role.
pub open spec fn role_shards(
    context: ContextModel,
    role: LogicalRoleModel,
    dependency_inputs: Seq<ObjectId>,
    ready_ms: Binary64,
    availability: Map<u128, Binary64>,
) -> Option<ShardPlanModel> {
    match role.shards {
        ShardPolicyModel::Fixed(count) => chosen_shards(
            context,
            role,
            dependency_inputs,
            count,
            None,
            ready_ms,
            availability,
            count as nat,
        ),
        ShardPolicyModel::Auto(policy) => match partition_units(
            role,
            policy.partition,
            context.objects,
        ) {
            None => None,
            Some(units) => best_count(
                context,
                role,
                dependency_inputs,
                policy,
                ready_ms,
                availability,
                shard_limit(policy, units) as nat,
            ),
        },
    }
}

/// When all selections are done, at the earliest at `ready_ms`.
fn latest_finish_ms(selections: &Vec<ReadyShardSelection>, ready_ms: Binary64, Ghost(choices): Ghost<
    Seq<ShardChoice>,
>) -> (r: Binary64)
    requires
        are_choices(selections@, choices),
    ensures
        r == latest_finish(choices, ready_ms, choices.len()),
{
    let mut latest = ready_ms;
    let mut i: usize = 0;
    while i < selections.len()
        invariant
            i <= selections@.len(),
            are_choices(selections@, choices),
            latest == latest_finish(choices, ready_ms, i as nat),
        decreases selections@.len() - i,
    {
        let selection = &selections[i];
        assert(selection@ == choices[i as int].named(selection.task.id));
        latest = latest.max(selection.finish_ms());
        i = i + 1;
    }
    latest
}

/// Chooses the number of shards as well.
pub fn choose_auto_shards(
    role: &LogicalRoleSpec,
    dependency_inputs: &Vec<ObjectId>,
    policy: &AutoShardPolicy,
    dependency_ready_ms: Binary64,
    resource_available_ms: &BTreeMap<u128, Binary64>,
    context: &ShardPlanningContext,
) -> (r: Option<ShardPlan>)
    ensures
        is_plan(
            r,
            match partition_units(role@, policy@.partition, context@.objects) {
                None => None,
                Some(units) => best_count(
                    context@,
                    role@,
                    dependency_inputs@,
                    policy@,
                    dependency_ready_ms,
                    resource_available_ms@,
                    shard_limit(policy@, units) as nat,
                ),
            },
        ),
{
    let units: u64 = match count_units(role, &policy.partition, context.objects) {
        Some(units) => units,
        None => {
            return None;
        },
    };
    let max_shards: u32 = if units == 0 {
        1
    } else if units < policy.max_shards as u64 {
        units as u32
    } else {
        policy.max_shards
    };
    let mut best: Option<ShardPlan> = None;
    let mut best_added_ms = Binary64::from_bits(0);
    let ghost mut model: Option<ShardPlanModel> = None;
    let mut count: u32 = 0;
    while count < max_shards
        invariant
            count <= max_shards,
            is_plan(best, model),
            model matches Some(current) ==> best_added_ms == added_time(
                current.choices,
                dependency_ready_ms,
            ),
            model == best_count(
                context@,
                role@,
                dependency_inputs@,
                policy@,
                dependency_ready_ms,
                resource_available_ms@,
                count as nat,
            ),
        decreases max_shards - count,
    {
        count = count + 1;
        let ghost found = chosen_shards(
            context@,
            role@,
            dependency_inputs@,
            count,
            Some(policy@),
            dependency_ready_ms,
            resource_available_ms@,
            count as nat,
        );
        if let Some(candidate) = choose_shards(
            role,
            dependency_inputs,
            count,
            Some(policy),
            dependency_ready_ms,
            resource_available_ms,
            context,
        ) {
            let ghost choices = found.unwrap().choices;
            let added_ms = latest_finish_ms(
                &candidate.selections,
                dependency_ready_ms,
                Ghost(choices),
            ).sub(dependency_ready_ms).max(Binary64::from_bits(0));
            let replace = match &best {
                Some(current) => if added_ms.precedes(best_added_ms) {
                    let gain_ratio = if best_added_ms.le(Binary64::from_bits(0)) {
                        Binary64::from_bits(0)
                    } else {
                        best_added_ms.sub(added_ms).div(best_added_ms)
                    };
                    policy.min_gain_ratio.le(gain_ratio)
                } else {
                    !best_added_ms.precedes(added_ms) && candidate.selections.len()
                        < current.selections.len()
                },
                None => true,
            };
            if replace {
                best = Some(candidate);
                best_added_ms = added_ms;
                proof {
                    model = found;
                }
            }
        }
    }
    best
}

/// Chooses the shards of a role by its policy.
pub fn choose_role_shards(
    role: &LogicalRoleSpec,
    dependency_inputs: &Vec<ObjectId>,
    dependency_ready_ms: Binary64,
    resource_available_ms: &BTreeMap<u128, Binary64>,
    context: &ShardPlanningContext,
) -> (r: Option<ShardPlan>)
    ensures
        is_plan(
            r,
            role_shards(
                context@,
                role@,
                dependency_inputs@,
                dependency_ready_ms,
                resource_available_ms@,
            ),
        ),
{
    match &role.shards {
        ShardPolicy::Fixed(count) => choose_shards(
            role,
            dependency_inputs,
            *count,
            None,
            dependency_ready_ms,
            resource_available_ms,
            context,
        ),
        ShardPolicy::Policy(ShardPolicySpec::Auto(policy)) => choose_auto_shards(
            role,
            dependency_inputs,
            policy,
            dependency_ready_ms,
            resource_available_ms,
            context,
        ),
    }
}

/// Chooses the shards of a role whose dependencies are complete, on idle resources.
pub fn select_ready_shards(
    role: &LogicalRoleSpec,
    dependency_inputs: &Vec<ObjectId>,
    context: &ShardPlanningContext,
) -> (r: Option<Vec<ReadyShardSelection>>)
    ensures
        ({
            let model = role_shards(
                context@,
                role@,
                dependency_inputs@,
                Binary64 { bits: 0 },
                Map::<u128, Binary64>::empty(),
            );
            match r {
                Some(selections) => model matches Some(m) && are_choices(selections@, m.choices),
                None => model is None,
            }
        }),
{
    let availability: BTreeMap<u128, Binary64> = BTreeMap::new();
    match choose_role_shards(
        role,
        dependency_inputs,
        Binary64::from_bits(0),
        &availability,
        context,
    ) {
        Some(plan) => Some(plan.selections),
        None => None,
    }
}

/// A plan has as many shards as were asked for, in the order of their indexes, and each of them
/// carries its index and the count.
pub proof fn law_shards_are_numbered_in_order(
    context: ContextModel,
    role: LogicalRoleModel,
    dependency_inputs: Seq<ObjectId>,
    count: u32,
    auto_policy: Option<AutoShardModel>,
    ready_ms: Binary64,
    availability: Map<u128, Binary64>,
    n: nat,
)
    requires
        n <= count,
    ensures
        chosen_shards(
            context,
            role,
            dependency_inputs,
            count,
            auto_policy,
            ready_ms,
            availability,
            n,
        ) matches Some(plan) ==> plan.choices.len() == n && forall|k: int|
            0 <= k < n ==> (#[trigger] plan.choices[k]).index == k && (plan.choices[k].task.shard matches Some(
                shard,
            ) && shard.index == k && shard.count == count),
    decreases n,
{
    if n > 0 {
        let m = (n - 1) as nat;
        law_shards_are_numbered_in_order(
            context,
            role,
            dependency_inputs,
            count,
            auto_policy,
            ready_ms,
            availability,
            m,
        );
        if let Some(before) = chosen_shards(
            context,
            role,
            dependency_inputs,
            count,
            auto_policy,
            ready_ms,
            availability,
            m,
        ) {
            lemma_best_shard_index(
                context,
                role,
                dependency_inputs,
                m as u32,
                count,
                auto_policy,
                ready_ms,
                before.availability,
                role.implementations.len(),
            );
        }
    }
}

proof fn lemma_best_shard_index(
    context: ContextModel,
    role: LogicalRoleModel,
    dependency_inputs: Seq<ObjectId>,
    index: u32,
    count: u32,
    auto_policy: Option<AutoShardModel>,
    ready_ms: Binary64,
    availability: Map<u128, Binary64>,
    k: nat,
)
    ensures
        best_shard(
            context,
            role,
            dependency_inputs,
            index,
            count,
            auto_policy,
            ready_ms,
            availability,
            k,
        ) matches Some(Some(choice)) ==> choice.index == index && (choice.task.shard matches Some(shard)
            && shard.index == index && shard.count == count),
    decreases k,
{
    if k > 0 {
        let m = (k - 1) as nat;
        lemma_best_shard_index(
            context,
            role,
            dependency_inputs,
            index,
            count,
            auto_policy,
            ready_ms,
            availability,
            m,
        );
        let before = best_shard(
            context,
            role,
            dependency_inputs,
            index,
            count,
            auto_policy,
            ready_ms,
            availability,
            m,
        );
        let implementation = role.implementations[k - 1];
        let task = shard_task(
            implementation.task,
            dependency_inputs,
            index,
            count,
            auto_policy,
            context.objects,
            anonymous(),
        );
        if before is Some && task is Some {
            lemma_best_resource_shape(
                context,
                index,
                implementation.name,
                task.unwrap(),
                ready_ms,
                availability,
                before.unwrap(),
                context.resources.len(),
            );
        }
    }
}

/// The best choice is the one before, or runs the given task on one of the resources.
proof fn lemma_best_resource_shape(
    context: ContextModel,
    index: u32,
    implementation: Seq<char>,
    task: TaskModel,
    ready_ms: Binary64,
    availability: Map<u128, Binary64>,
    best: Option<ShardChoice>,
    m: nat,
)
    ensures
        ({
            let r = best_resource(
                context,
                index,
                implementation,
                task,
                ready_ms,
                availability,
                best,
                m,
            );
            r == best || (r matches Some(choice) && choice.index == index && choice.implementation
                == implementation && choice.task == task)
        }),
    decreases m,
{
    if m > 0 {
        lemma_best_resource_shape(
            context,
            index,
            implementation,
            task,
            ready_ms,
            availability,
            best,
            (m - 1) as nat,
        );
    }
}

/// When a task would finish on a resource.
pub open spec fn finish_on(
    ready_ms: Binary64,
    availability: Map<u128, Binary64>,
    resource: ResourceId,
    cost: PlacementBreakdown,
) -> Binary64 {
    ready_ms.maximum(free_at(availability, resource)).sum(cost.total_ms)
}

/// No resource would finish the task before the best choice.
spec fn beats_resources(
    context: ContextModel,
    task: TaskModel,
    ready_ms: Binary64,
    availability: Map<u128, Binary64>,
    best: Option<ShardChoice>,
    m: nat,
) -> bool {
    forall|i: int|
        0 <= i < m ==> (#[trigger] context.placed(task, context.resources[i]) matches Some(cost) ==> (
        best matches Some(choice) && choice.finish().total_rank() <= finish_on(
            ready_ms,
            availability,
            context.resources[i].id,
            cost,
        ).total_rank()))
}

proof fn lemma_best_resource(
    context: ContextModel,
    index: u32,
    implementation: Seq<char>,
    task: TaskModel,
    ready_ms: Binary64,
    availability: Map<u128, Binary64>,
    best: Option<ShardChoice>,
    m: nat,
)
    ensures
        ({
            let r = best_resource(
                context,
                index,
                implementation,
                task,
                ready_ms,
                availability,
                best,
                m,
            );
            &&& best matches Some(current) ==> (r matches Some(choice) && choice.finish().total_rank()
                <= current.finish().total_rank())
            &&& beats_resources(context, task, ready_ms, availability, r, m)
        }),
    decreases m,
{
    if m > 0 {
        lemma_best_resource(
            context,
            index,
            implementation,
            task,
            ready_ms,
            availability,
            best,
            (m - 1) as nat,
        );
    }
}

/// Each shard is put where it finishes first: no implementation would, on any resource that can run
/// it, finish before the chosen one.
pub proof fn law_shards_finish_first(
    context: ContextModel,
    role: LogicalRoleModel,
    dependency_inputs: Seq<ObjectId>,
    index: u32,
    count: u32,
    auto_policy: Option<AutoShardModel>,
    ready_ms: Binary64,
    availability: Map<u128, Binary64>,
    k: nat,
    j: int,
    m: int,
)
    requires
        0 <= j < k <= role.implementations.len(),
        0 <= m < context.resources.len(),
    ensures
        ({
            let best = best_shard(
                context,
                role,
                dependency_inputs,
                index,
                count,
                auto_policy,
                ready_ms,
                availability,
                k,
            );
            let task = shard_task(
                role.implementations[j].task,
                dependency_inputs,
                index,
                count,
                auto_policy,
                context.objects,
                anonymous(),
            );
            best matches Some(found) ==> (task matches Some(t) && (context.placed(
                t,
                context.resources[m],
            ) matches Some(cost) ==> (found matches Some(choice) && choice.finish().total_rank()
                <= finish_on(ready_ms, availability, context.resources[m].id, cost).total_rank())))
        }),
    decreases k,
{
    let before = best_shard(
        context,
        role,
        dependency_inputs,
        index,
        count,
        auto_policy,
        ready_ms,
        availability,
        (k - 1) as nat,
    );
    let implementation = role.implementations[k - 1];
    let task = shard_task(
        implementation.task,
        dependency_inputs,
        index,
        count,
        auto_policy,
        context.objects,
        anonymous(),
    );
    if before is Some && task is Some {
        lemma_best_resource(
            context,
            index,
            implementation.name,
            task.unwrap(),
            ready_ms,
            availability,
            before.unwrap(),
            context.resources.len(),
        );
    }
    if j < k - 1 {
        law_shards_finish_first(
            context,
            role,
            dependency_inputs,
            index,
            count,
            auto_policy,
            ready_ms,
            availability,
            (k - 1) as nat,
            j,
            m,
        );
    }
}

/// A shard does not start before a given time.
pub open spec fn starts_from(choice: ShardChoice, ready_ms: Binary64) -> bool {
    !choice.start_ms.nan() && ready_ms.at_most(choice.start_ms)
}

/// The best resource for a task does not run it before a given time.
pub proof fn lemma_best_resource_start(
    context: ContextModel,
    index: u32,
    implementation: Seq<char>,
    task: TaskModel,
    ready_ms: Binary64,
    availability: Map<u128, Binary64>,
    best: Option<ShardChoice>,
    m: nat,
)
    requires
        !ready_ms.nan(),
        best matches Some(current) ==> starts_from(current, ready_ms),
    ensures
        best_resource(
            context,
            index,
            implementation,
            task,
            ready_ms,
            availability,
            best,
            m,
        ) matches Some(choice) ==> starts_from(choice, ready_ms),
    decreases m,
{
    if m > 0 {
        lemma_best_resource_start(
            context,
            index,
            implementation,
            task,
            ready_ms,
            availability,
            best,
            (m - 1) as nat,
        );
        crate::binary64::lemma_maximum(
            ready_ms,
            free_at(availability, context.resources[m - 1].id),
        );
    }
}

proof fn lemma_best_shard_start(
    context: ContextModel,
    role: LogicalRoleModel,
    dependency_inputs: Seq<ObjectId>,
    index: u32,
    count: u32,
    auto_policy: Option<AutoShardModel>,
    ready_ms: Binary64,
    availability: Map<u128, Binary64>,
    k: nat,
)
    requires
        !ready_ms.nan(),
    ensures
        best_shard(
            context,
            role,
            dependency_inputs,
            index,
            count,
            auto_policy,
            ready_ms,
            availability,
            k,
        ) matches Some(Some(choice)) ==> starts_from(choice, ready_ms),
    decreases k,
{
    if k > 0 {
        let m = (k - 1) as nat;
        lemma_best_shard_start(
            context,
            role,
            dependency_inputs,
            index,
            count,
            auto_policy,
            ready_ms,
            availability,
            m,
        );
        let before = best_shard(
            context,
            role,
            dependency_inputs,
            index,
            count,
            auto_policy,
            ready_ms,
            availability,
            m,
        );
        let implementation = role.implementations[k - 1];
        let task = shard_task(
            implementation.task,
            dependency_inputs,
            index,
            count,
            auto_policy,
            context.objects,
            anonymous(),
        );
        if before is Some && task is Some {
            lemma_best_resource_start(
                context,
                index,
                implementation.name,
                task.unwrap(),
                ready_ms,
                availability,
                before.unwrap(),
                context.resources.len(),
            );
        }
    }
}

proof fn lemma_chosen_shards_start(
    context: ContextModel,
    role: LogicalRoleModel,
    dependency_inputs: Seq<ObjectId>,
    count: u32,
    auto_policy: Option<AutoShardModel>,
    ready_ms: Binary64,
    availability: Map<u128, Binary64>,
    n: nat,
)
    requires
        !ready_ms.nan(),
    ensures
        chosen_shards(
            context,
            role,
            dependency_inputs,
            count,
            auto_policy,
            ready_ms,
            availability,
            n,
        ) matches Some(plan) ==> forall|k: int|
            0 <= k < plan.choices.len() ==> starts_from(#[trigger] plan.choices[k], ready_ms),
    decreases n,
{
    if n > 0 {
        let m = (n - 1) as nat;
        lemma_chosen_shards_start(
            context,
            role,
            dependency_inputs,
            count,
            auto_policy,
            ready_ms,
            availability,
            m,
        );
        if let Some(before) = chosen_shards(
            context,
            role,
            dependency_inputs,
            count,
            auto_policy,
            ready_ms,
            availability,
            m,
        ) {
            lemma_best_shard_start(
                context,
                role,
                dependency_inputs,
                m as u32,
                count,
                auto_policy,
                ready_ms,
                before.availability,
                role.implementations.len(),
            );
        }
    }
}

proof fn lemma_best_count_start(
    context: ContextModel,
    role: LogicalRoleModel,
    dependency_inputs: Seq<ObjectId>,
    policy: AutoShardModel,
    ready_ms: Binary64,
    availability: Map<u128, Binary64>,
    c: nat,
)
    requires
        !ready_ms.nan(),
    ensures
        best_count(
            context,
            role,
            dependency_inputs,
            policy,
            ready_ms,
            availability,
            c,
        ) matches Some(plan) ==> forall|k: int|
            0 <= k < plan.choices.len() ==> starts_from(#[trigger] plan.choices[k], ready_ms),
    decreases c,
{
    if c > 0 {
        lemma_best_count_start(
            context,
            role,
            dependency_inputs,
            policy,
            ready_ms,
            availability,
            (c - 1) as nat,
        );
        lemma_chosen_shards_start(
            context,
            role,
            dependency_inputs,
            c as u32,
            Some(policy),
            ready_ms,
            availability,
            c,
        );
    }
}

/// No shard of a role starts before its dependencies are ready.
pub proof fn law_shards_wait_for_dependencies(
    context: ContextModel,
    role: LogicalRoleModel,
    dependency_inputs: Seq<ObjectId>,
    ready_ms: Binary64,
    availability: Map<u128, Binary64>,
)
    requires
        !ready_ms.nan(),
    ensures
        role_shards(context, role, dependency_inputs, ready_ms, availability) matches Some(plan) ==> forall|
            k: int,
        |
            0 <= k < plan.choices.len() ==> starts_from(#[trigger] plan.choices[k], ready_ms),
{
    match role.shards {
        ShardPolicyModel::Fixed(count) => {
            lemma_chosen_shards_start(
                context,
                role,
                dependency_inputs,
                count,
                None,
                ready_ms,
                availability,
                count as nat,
            );
        },
        ShardPolicyModel::Auto(policy) => {
            if let Some(units) = partition_units(role, policy.partition, context.objects) {
                lemma_best_count_start(
                    context,
                    role,
                    dependency_inputs,
                    policy,
                    ready_ms,
                    availability,
                    shard_limit(policy, units) as nat,
                );
            }
        },
    }
}

/// No choice finishes after the latest finish.
pub proof fn lemma_latest_finish(choices: Seq<ShardChoice>, ready_ms: Binary64, n: nat)
    requires
        !ready_ms.nan(),
        n <= choices.len(),
    ensures
        !latest_finish(choices, ready_ms, n).nan(),
        forall|k: int|
            0 <= k < n ==> !latest_finish(choices, ready_ms, n).less((#[trigger] choices[k]).finish()),
    decreases n,
{
    if n > 0 {
        lemma_latest_finish(choices, ready_ms, (n - 1) as nat);
        crate::binary64::lemma_maximum(
            latest_finish(choices, ready_ms, (n - 1) as nat),
            choices[n - 1].finish(),
        );
    }
}

}
