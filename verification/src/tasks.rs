//! Tasks: what to run, on which inputs, with which effects and at which expected cost.

use vstd::prelude::*;

use crate::binary64::Binary64;
use crate::ids::{ExecutionId, ObjectId, ResourceId, TaskId};
use crate::resources::{RequirementsModel, ResourceRequirements};

verus! {

#[derive(Debug, PartialEq)]
pub enum EffectSemantics {
    Pure,
    Idempotent { key: String },
    /// Effects that must not be replayed. Automatic retry after an ambiguous loss is forbidden.
    Exclusive,
}

pub enum EffectModel {
    Pure,
    Idempotent { key: Seq<char> },
    Exclusive,
}

impl View for EffectSemantics {
    type V = EffectModel;

    open spec fn view(&self) -> EffectModel {
        match self {
            EffectSemantics::Pure => EffectModel::Pure,
            EffectSemantics::Idempotent { key } => EffectModel::Idempotent { key: key@ },
            EffectSemantics::Exclusive => EffectModel::Exclusive,
        }
    }
}

impl Clone for EffectSemantics {
    fn clone(&self) -> (r: EffectSemantics)
        ensures
            r@ == self@,
    {
        match self {
            EffectSemantics::Pure => EffectSemantics::Pure,
            EffectSemantics::Idempotent { key } => EffectSemantics::Idempotent { key: key.clone() },
            EffectSemantics::Exclusive => EffectSemantics::Exclusive,
        }
    }
}

impl EffectModel {
    /// Whether a lost attempt may be run again without asking.
    pub open spec fn replayable(self) -> bool {
        self is Pure || self is Idempotent
    }
}

impl EffectSemantics {
    pub fn automatically_retryable(&self) -> (r: bool)
        ensures
            r == self@.replayable(),
    {
        match self {
            EffectSemantics::Pure => true,
            EffectSemantics::Idempotent { .. } => true,
            EffectSemantics::Exclusive => false,
        }
    }

    pub fn is_pure(&self) -> (r: bool)
        ensures
            r == (self@ is Pure),
    {
        match self {
            EffectSemantics::Pure => true,
            _ => false,
        }
    }
}

#[derive(Clone, Copy, Debug, PartialEq)]
pub struct CostHint {
    pub compute_ms_on_reference: Binary64,
    pub output_bytes: u64,
}

impl Default for CostHint {
    fn default() -> (r: CostHint)
        ensures
            r.compute_ms_on_reference == Binary64::nearest_to(1),
            r.output_bytes == 0,
    {
        CostHint { compute_ms_on_reference: Binary64::from_u64(1), output_bytes: 0 }
    }
}

/// The part of one input that a shard works on.
#[derive(Clone, Copy, Debug, PartialEq, Eq, Structural)]
pub enum TaskShardPartition {
    ByteRange { input: usize, offset: u64, length: u64, total_bytes: u64 },
    /// Whole records, and the bytes that hold them.
    Records {
        input: usize,
        first_record: u64,
        record_count: u64,
        total_records: u64,
        offset: u64,
        length: u64,
        total_bytes: u64,
    },
}

impl TaskShardPartition {
    /// The position of the input that a part is of.
    pub open spec fn position(self) -> usize {
        match self {
            TaskShardPartition::ByteRange { input, .. } => input,
            TaskShardPartition::Records { input, .. } => input,
        }
    }

    /// The offset and length of a part in bytes.
    pub open spec fn bytes(self) -> (u64, u64) {
        match self {
            TaskShardPartition::ByteRange { offset, length, .. } => (offset, length),
            TaskShardPartition::Records { offset, length, .. } => (offset, length),
        }
    }

    /// Where a part begins, how much it is and how much there is in all, by what work is measured
    /// in: bytes or records.
    pub open spec fn share(self) -> (u64, u64, u64) {
        match self {
            TaskShardPartition::ByteRange { offset, length, total_bytes, .. } => (
                offset,
                length,
                total_bytes,
            ),
            TaskShardPartition::Records { first_record, record_count, total_records, .. } => (
                first_record,
                record_count,
                total_records,
            ),
        }
    }

    pub fn work(&self) -> (r: (u64, u64, u64))
        ensures
            r == self.share(),
    {
        match *self {
            TaskShardPartition::ByteRange { offset, length, total_bytes, .. } => (
                offset,
                length,
                total_bytes,
            ),
            TaskShardPartition::Records { first_record, record_count, total_records, .. } => (
                first_record,
                record_count,
                total_records,
            ),
        }
    }
}

/// Which of several independent contributions a task makes.
#[derive(Clone, Copy, Debug, PartialEq, Eq)]
pub struct TaskShard {
    pub index: u32,
    pub count: u32,
    pub partition: Option<TaskShardPartition>,
}

#[derive(Clone, Copy, Debug, PartialEq, Eq, Structural)]
pub enum PipelineInput {
    External { index: usize },
    PreviousOutput,
}

#[derive(Debug, PartialEq)]
pub struct TaskPipelineStage {
    pub artifact: String,
    pub entrypoint: String,
    pub arguments: Vec<String>,
    pub inputs: Vec<PipelineInput>,
}

#[verifier::ext_equal]
pub struct StageModel {
    pub artifact: Seq<char>,
    pub entrypoint: Seq<char>,
    pub arguments: Seq<Seq<char>>,
    pub inputs: Seq<PipelineInput>,
}

impl View for TaskPipelineStage {
    type V = StageModel;

    open spec fn view(&self) -> StageModel {
        StageModel {
            artifact: self.artifact@,
            entrypoint: self.entrypoint@,
            arguments: crate::text::views(self.arguments@),
            inputs: self.inputs@,
        }
    }
}

impl Clone for TaskPipelineStage {
    fn clone(&self) -> (r: TaskPipelineStage)
        ensures
            r@ == self@,
    {
        let r = TaskPipelineStage {
            artifact: self.artifact.clone(),
            entrypoint: self.entrypoint.clone(),
            arguments: self.arguments.clone(),
            inputs: self.inputs.clone(),
        };
        assert(r@.arguments =~= self@.arguments);
        r
    }
}

#[derive(Debug, PartialEq)]
pub struct TaskPipeline {
    pub stages: Vec<TaskPipelineStage>,
}

#[verifier::ext_equal]
pub struct PipelineModel {
    pub stages: Seq<StageModel>,
}

impl View for TaskPipeline {
    type V = PipelineModel;

    open spec fn view(&self) -> PipelineModel {
        PipelineModel { stages: crate::text::views(self.stages@) }
    }
}

impl Clone for TaskPipeline {
    fn clone(&self) -> (r: TaskPipeline)
        ensures
            r@ == self@,
    {
        let r = TaskPipeline { stages: self.stages.clone() };
        assert(r@.stages =~= self@.stages);
        r
    }
}

#[derive(Debug, PartialEq)]
pub struct TaskSpec {
    pub id: TaskId,
    pub artifact: String,
    pub entrypoint: String,
    pub arguments: Vec<String>,
    pub inputs: Vec<ObjectId>,
    pub requirements: ResourceRequirements,
    pub effects: EffectSemantics,
    pub cost: CostHint,
    pub shard: Option<TaskShard>,
    pub pipeline: Option<TaskPipeline>,
}

pub struct TaskModel {
    pub id: TaskId,
    pub artifact: Seq<char>,
    pub entrypoint: Seq<char>,
    pub arguments: Seq<Seq<char>>,
    pub inputs: Seq<ObjectId>,
    pub requirements: RequirementsModel,
    pub effects: EffectModel,
    pub cost: CostHint,
    pub shard: Option<TaskShard>,
    pub pipeline: Option<PipelineModel>,
}

impl View for TaskSpec {
    type V = TaskModel;

    open spec fn view(&self) -> TaskModel {
        TaskModel {
            id: self.id,
            artifact: self.artifact@,
            entrypoint: self.entrypoint@,
            arguments: crate::text::views(self.arguments@),
            inputs: self.inputs@,
            requirements: self.requirements@,
            effects: self.effects@,
            cost: self.cost,
            shard: self.shard,
            pipeline: crate::text::view_of(self.pipeline),
        }
    }
}

impl Clone for TaskSpec {
    fn clone(&self) -> (r: TaskSpec)
        ensures
            r@ == self@,
    {
        let r = TaskSpec {
            id: self.id,
            artifact: self.artifact.clone(),
            entrypoint: self.entrypoint.clone(),
            arguments: self.arguments.clone(),
            inputs: self.inputs.clone(),
            requirements: self.requirements.clone(),
            effects: self.effects.clone(),
            cost: self.cost,
            shard: self.shard,
            pipeline: self.pipeline.clone(),
        };
        assert(r@.arguments =~= self@.arguments);
        r
    }
}

impl TaskModel {
    /// The byte range of an input that the task works on, where it is narrowed to one.
    pub open spec fn byte_range(self, input_index: int) -> Option<(u64, u64)> {
        match self.shard {
            Some(TaskShard { partition: Some(part), .. }) => if part.position() == input_index {
                Some(part.bytes())
            } else {
                None
            },
            _ => None,
        }
    }
}

impl TaskSpec {
    /// The offset and length of the part of an input that the task reads; `None` for all of it.
    pub fn input_byte_range(&self, input_index: usize) -> (r: Option<(u64, u64)>)
        ensures
            r == self@.byte_range(input_index as int),
    {
        match &self.shard {
            Some(shard) => match shard.partition {
                Some(TaskShardPartition::ByteRange { input, offset, length, .. }) => if input
                    == input_index {
                    Some((offset, length))
                } else {
                    None
                },
                Some(TaskShardPartition::Records { input, offset, length, .. }) => if input
                    == input_index {
                    Some((offset, length))
                } else {
                    None
                },
                None => None,
            },
            None => None,
        }
    }
}

#[derive(Debug, PartialEq)]
pub struct TaskTemplate {
    pub artifact: String,
    pub entrypoint: String,
    pub arguments: Vec<String>,
    pub inputs: Vec<ObjectId>,
    pub requirements: ResourceRequirements,
    pub effects: EffectSemantics,
    pub cost: CostHint,
}

pub struct TemplateModel {
    pub artifact: Seq<char>,
    pub entrypoint: Seq<char>,
    pub arguments: Seq<Seq<char>>,
    pub inputs: Seq<ObjectId>,
    pub requirements: RequirementsModel,
    pub effects: EffectModel,
    pub cost: CostHint,
}

impl View for TaskTemplate {
    type V = TemplateModel;

    open spec fn view(&self) -> TemplateModel {
        TemplateModel {
            artifact: self.artifact@,
            entrypoint: self.entrypoint@,
            arguments: crate::text::views(self.arguments@),
            inputs: self.inputs@,
            requirements: self.requirements@,
            effects: self.effects@,
            cost: self.cost,
        }
    }
}

impl Clone for TaskTemplate {
    fn clone(&self) -> (r: TaskTemplate)
        ensures
            r@ == self@,
    {
        let r = TaskTemplate {
            artifact: self.artifact.clone(),
            entrypoint: self.entrypoint.clone(),
            arguments: self.arguments.clone(),
            inputs: self.inputs.clone(),
            requirements: self.requirements.clone(),
            effects: self.effects.clone(),
            cost: self.cost,
        };
        assert(r@.arguments =~= self@.arguments);
        r
    }
}

impl TemplateModel {
    /// The task of a given identity that runs the template on its own inputs and then on those of
    /// its dependencies.
    pub open spec fn instantiated(self, dependency_inputs: Seq<ObjectId>, id: TaskId) -> TaskModel {
        TaskModel {
            id,
            artifact: self.artifact,
            entrypoint: self.entrypoint,
            arguments: self.arguments,
            inputs: self.inputs + dependency_inputs,
            requirements: self.requirements,
            effects: self.effects,
            cost: self.cost,
            shard: None,
            pipeline: None,
        }
    }
}

impl TaskTemplate {
    /// A new task, under a random identity.
    pub fn instantiate(&self, dependency_inputs: &Vec<ObjectId>) -> (r: TaskSpec)
        ensures
            r@ == self@.instantiated(dependency_inputs@, r.id),
    {
        self.instantiate_as(dependency_inputs, TaskId::new())
    }

    /// The task of a given identity.
    pub fn instantiate_as(&self, dependency_inputs: &Vec<ObjectId>, id: TaskId) -> (r: TaskSpec)
        ensures
            r@ == self@.instantiated(dependency_inputs@, id),
    {
        let mut inputs = self.inputs.clone();
        extend_objects(&mut inputs, dependency_inputs);
        let r = TaskSpec {
            id,
            artifact: self.artifact.clone(),
            entrypoint: self.entrypoint.clone(),
            arguments: self.arguments.clone(),
            inputs,
            requirements: self.requirements.clone(),
            effects: self.effects.clone(),
            cost: self.cost,
            shard: None,
            pipeline: None,
        };
        assert(r@.arguments =~= self@.arguments);
        r
    }
}

/// Appends every item of `more`.
pub fn extend_objects(list: &mut Vec<ObjectId>, more: &Vec<ObjectId>)
    ensures
        final(list)@ == old(list)@ + more@,
{
    let mut i: usize = 0;
    while i < more.len()
        invariant
            i <= more@.len(),
            list@ == old(list)@ + more@.take(i as int),
        decreases more@.len() - i,
    {
        list.push(more[i]);
        assert(more@.take(i + 1) =~= more@.take(i as int).push(more@[i as int]));
        i = i + 1;
    }
    assert(more@.take(more@.len() as int) =~= more@);
}

#[derive(Clone, Copy, Debug, PartialEq, Eq, Structural)]
pub struct MembershipLease {
    pub resource_id: ResourceId,
    pub epoch: u64,
    pub expires_at_unix_ms: u64,
}

#[derive(Clone, Copy, Debug, PartialEq, Eq, Structural)]
pub struct ExecutionLease {
    pub task_id: TaskId,
    pub execution_id: ExecutionId,
    pub resource_id: ResourceId,
    pub resource_epoch: u64,
    pub expires_at_unix_ms: u64,
}

}
